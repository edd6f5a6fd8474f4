//! Orderings over entries and a sorting routine proved against an insertion
//! sort specification. Both read orders of the journal are strict total
//! orders once ids are distinct: recency (latest creation instant first) and
//! its reverse (oldest first), each breaking timestamp ties by insertion
//! order, that is by ascending id.

use crate::store::Entry;
use vstd::prelude::*;

verus! {

/// `a` sorts before `b` in recency order: strictly later creation instant,
/// or the same instant and inserted earlier.
pub open spec fn more_recent(a: Entry, b: Entry) -> bool {
    a.created_at > b.created_at || (a.created_at == b.created_at && a.id < b.id)
}

/// `a` sorts before `b` in oldest-first order: strictly earlier creation
/// instant, or the same instant and inserted earlier.
pub open spec fn older(a: Entry, b: Entry) -> bool {
    a.created_at < b.created_at || (a.created_at == b.created_at && a.id < b.id)
}

/// The order used by a view: recency order when `desc`, oldest-first
/// otherwise.
pub open spec fn entry_order(desc: bool) -> spec_fn(Entry, Entry) -> bool {
    if desc {
        |a: Entry, b: Entry| more_recent(a, b)
    } else {
        |a: Entry, b: Entry| older(a, b)
    }
}

/// The sequence is strictly sorted by `lt`.
pub open spec fn strictly_sorted(s: Seq<Entry>, lt: spec_fn(Entry, Entry) -> bool) -> bool {
    forall|i: int, j: int| 0 <= i < j < s.len() ==> #[trigger] lt(s[i], s[j])
}

/// Insertion into a sorted sequence: the element goes in front of the first
/// element it sorts before.
pub open spec fn insert_ordered(e: Entry, s: Seq<Entry>, lt: spec_fn(Entry, Entry) -> bool) -> Seq<
    Entry,
>
    decreases s.len(),
{
    if s.len() == 0 {
        seq![e]
    } else if lt(e, s[0]) {
        seq![e] + s
    } else {
        seq![s[0]] + insert_ordered(e, s.drop_first(), lt)
    }
}

/// Insertion sort by `lt`. With a strict total order this is the unique
/// sorted permutation of the input.
pub open spec fn sort_entries(s: Seq<Entry>, lt: spec_fn(Entry, Entry) -> bool) -> Seq<Entry>
    decreases s.len(),
{
    if s.len() == 0 {
        Seq::empty()
    } else {
        insert_ordered(s.last(), sort_entries(s.drop_last(), lt), lt)
    }
}

/// Insertion adds exactly one position.
pub proof fn lemma_insert_ordered_len(e: Entry, s: Seq<Entry>, lt: spec_fn(Entry, Entry) -> bool)
    ensures
        insert_ordered(e, s, lt).len() == s.len() + 1,
    decreases s.len(),
{
    if s.len() != 0 && !lt(e, s[0]) {
        lemma_insert_ordered_len(e, s.drop_first(), lt);
    }
}

/// Sorting keeps the length.
pub proof fn lemma_sort_entries_len(s: Seq<Entry>, lt: spec_fn(Entry, Entry) -> bool)
    ensures
        sort_entries(s, lt).len() == s.len(),
    decreases s.len(),
{
    if s.len() != 0 {
        lemma_sort_entries_len(s.drop_last(), lt);
        lemma_insert_ordered_len(s.last(), sort_entries(s.drop_last(), lt), lt);
    }
}

/// Every element of an insertion comes from the inserted element or the
/// sequence, and the other way round.
pub proof fn lemma_insert_ordered_membership(
    e: Entry,
    s: Seq<Entry>,
    lt: spec_fn(Entry, Entry) -> bool,
)
    ensures
        forall|k: int|
            0 <= k < insert_ordered(e, s, lt).len() ==> (#[trigger] insert_ordered(e, s, lt)[k])
                == e || exists|i: int| 0 <= i < s.len() && s[i] == insert_ordered(e, s, lt)[k],
        exists|k: int|
            0 <= k < insert_ordered(e, s, lt).len() && insert_ordered(e, s, lt)[k] == e,
        forall|i: int|
            0 <= i < s.len() ==> exists|k: int|
                0 <= k < insert_ordered(e, s, lt).len() && insert_ordered(e, s, lt)[k] == (
                #[trigger] s[i]),
    decreases s.len(),
{
    lemma_insert_ordered_len(e, s, lt);
    if s.len() == 0 {
        assert(insert_ordered(e, s, lt)[0] == e);
    } else if lt(e, s[0]) {
        assert(insert_ordered(e, s, lt) == seq![e] + s);
        assert(insert_ordered(e, s, lt)[0] == e);
        assert forall|i: int| 0 <= i < s.len() implies exists|k: int|
            0 <= k < insert_ordered(e, s, lt).len() && insert_ordered(e, s, lt)[k] == (
            #[trigger] s[i]) by {
            assert(insert_ordered(e, s, lt)[i + 1] == s[i]);
        }
    } else {
        let rest = insert_ordered(e, s.drop_first(), lt);
        lemma_insert_ordered_membership(e, s.drop_first(), lt);
        lemma_insert_ordered_len(e, s.drop_first(), lt);
        assert(insert_ordered(e, s, lt) == seq![s[0]] + rest);
        assert forall|k: int| 0 <= k < insert_ordered(e, s, lt).len() implies (
        #[trigger] insert_ordered(e, s, lt)[k]) == e || exists|i: int|
            0 <= i < s.len() && s[i] == insert_ordered(e, s, lt)[k] by {
            if k == 0 {
                assert(insert_ordered(e, s, lt)[0] == s[0]);
            } else {
                assert(insert_ordered(e, s, lt)[k] == rest[k - 1]);
                if rest[k - 1] != e {
                    let i = choose|i: int|
                        0 <= i < s.drop_first().len() && s.drop_first()[i] == rest[k - 1];
                    assert(s[i + 1] == rest[k - 1]);
                }
            }
        }
        let ke = choose|k: int| 0 <= k < rest.len() && rest[k] == e;
        assert(insert_ordered(e, s, lt)[ke + 1] == e);
        assert forall|i: int| 0 <= i < s.len() implies exists|k: int|
            0 <= k < insert_ordered(e, s, lt).len() && insert_ordered(e, s, lt)[k] == (
            #[trigger] s[i]) by {
            if i == 0 {
                assert(insert_ordered(e, s, lt)[0] == s[0]);
            } else {
                assert(s.drop_first()[i - 1] == s[i]);
                let k = choose|k: int| 0 <= k < rest.len() && rest[k] == s.drop_first()[i - 1];
                assert(insert_ordered(e, s, lt)[k + 1] == s[i]);
            }
        }
    }
}

/// Every element of the sorted sequence comes from the input, and the other
/// way round.
pub proof fn lemma_sort_entries_membership(s: Seq<Entry>, lt: spec_fn(Entry, Entry) -> bool)
    ensures
        forall|k: int|
            0 <= k < sort_entries(s, lt).len() ==> exists|i: int|
                0 <= i < s.len() && s[i] == (#[trigger] sort_entries(s, lt)[k]),
        forall|i: int|
            0 <= i < s.len() ==> exists|k: int|
                0 <= k < sort_entries(s, lt).len() && sort_entries(s, lt)[k] == (#[trigger] s[i]),
    decreases s.len(),
{
    if s.len() != 0 {
        let prefix = s.drop_last();
        let sorted_prefix = sort_entries(prefix, lt);
        lemma_sort_entries_membership(prefix, lt);
        lemma_insert_ordered_membership(s.last(), sorted_prefix, lt);
        assert forall|k: int| 0 <= k < sort_entries(s, lt).len() implies exists|i: int|
            0 <= i < s.len() && s[i] == (#[trigger] sort_entries(s, lt)[k]) by {
            let x = sort_entries(s, lt)[k];
            if x == s.last() {
                assert(s[s.len() - 1] == x);
            } else {
                let kp = choose|kp: int| 0 <= kp < sorted_prefix.len() && sorted_prefix[kp] == x;
                let i = choose|i: int| 0 <= i < prefix.len() && prefix[i] == sorted_prefix[kp];
                assert(s[i] == x);
            }
        }
        assert forall|i: int| 0 <= i < s.len() implies exists|k: int|
            0 <= k < sort_entries(s, lt).len() && sort_entries(s, lt)[k] == (#[trigger] s[i]) by {
            if i == s.len() - 1 {
                let k = choose|k: int|
                    0 <= k < sort_entries(s, lt).len() && sort_entries(s, lt)[k] == s.last();
            } else {
                assert(prefix[i] == s[i]);
                let kp = choose|kp: int|
                    0 <= kp < sorted_prefix.len() && sorted_prefix[kp] == prefix[i];
                let k = choose|k: int|
                    0 <= k < sort_entries(s, lt).len() && sort_entries(s, lt)[k]
                        == sorted_prefix[kp];
            }
        }
    }
}

/// Both entry orders are transitive, and any two entries with distinct ids
/// are comparable.
pub proof fn lemma_entry_order_total(desc: bool)
    ensures
        forall|a: Entry, b: Entry, c: Entry|
            #[trigger] entry_order(desc)(a, b) && #[trigger] entry_order(desc)(b, c)
                ==> entry_order(desc)(a, c),
        forall|a: Entry, b: Entry|
            a.id != b.id ==> #[trigger] entry_order(desc)(a, b) || entry_order(desc)(b, a),
{
}

/// Inserting into a sorted sequence keeps it sorted, provided the order is
/// transitive and the element is comparable with everything present.
pub proof fn lemma_insert_ordered_sorted(
    e: Entry,
    s: Seq<Entry>,
    lt: spec_fn(Entry, Entry) -> bool,
)
    requires
        strictly_sorted(s, lt),
        forall|a: Entry, b: Entry, c: Entry|
            #[trigger] lt(a, b) && #[trigger] lt(b, c) ==> lt(a, c),
        forall|k: int| 0 <= k < s.len() ==> lt(e, #[trigger] s[k]) || lt(s[k], e),
    ensures
        strictly_sorted(insert_ordered(e, s, lt), lt),
    decreases s.len(),
{
    lemma_insert_ordered_len(e, s, lt);
    if s.len() == 0 {
    } else if lt(e, s[0]) {
        let r = seq![e] + s;
        assert forall|i: int, j: int| 0 <= i < j < r.len() implies #[trigger] lt(r[i], r[j]) by {
            if i == 0 {
                if j > 1 {
                    assert(lt(s[0], s[j - 1]));
                }
            } else {
                assert(lt(s[i - 1], s[j - 1]));
            }
        }
    } else {
        let tail = s.drop_first();
        let rest = insert_ordered(e, tail, lt);
        assert forall|i: int, j: int| 0 <= i < j < tail.len() implies #[trigger] lt(
            tail[i],
            tail[j],
        ) by {
            assert(lt(s[i + 1], s[j + 1]));
        }
        assert forall|k: int| 0 <= k < tail.len() implies lt(e, #[trigger] tail[k]) || lt(
            tail[k],
            e,
        ) by {
            assert(tail[k] == s[k + 1]);
        }
        lemma_insert_ordered_sorted(e, tail, lt);
        lemma_insert_ordered_membership(e, tail, lt);
        let r = seq![s[0]] + rest;
        assert forall|i: int, j: int| 0 <= i < j < r.len() implies #[trigger] lt(r[i], r[j]) by {
            if i == 0 {
                // The head sorts before e (it is comparable and not after it)
                // and before every original tail element.
                let x = rest[j - 1];
                if x == e {
                    assert(lt(s[0], e));
                } else {
                    let t = choose|t: int| 0 <= t < tail.len() && tail[t] == x;
                    assert(lt(s[0], s[t + 1]));
                }
            } else {
                assert(lt(rest[i - 1], rest[j - 1]));
            }
        }
    }
}

/// Sorting yields a sorted sequence, provided the order is transitive and
/// all pairs at distinct positions are comparable.
pub proof fn lemma_sort_entries_sorted(s: Seq<Entry>, lt: spec_fn(Entry, Entry) -> bool)
    requires
        forall|a: Entry, b: Entry, c: Entry|
            #[trigger] lt(a, b) && #[trigger] lt(b, c) ==> lt(a, c),
        forall|i: int, j: int|
            0 <= i < j < s.len() ==> lt(#[trigger] s[i], #[trigger] s[j]) || lt(s[j], s[i]),
    ensures
        strictly_sorted(sort_entries(s, lt), lt),
    decreases s.len(),
{
    if s.len() != 0 {
        let prefix = s.drop_last();
        let sorted_prefix = sort_entries(prefix, lt);
        assert forall|i: int, j: int| 0 <= i < j < prefix.len() implies lt(
            #[trigger] prefix[i],
            #[trigger] prefix[j],
        ) || lt(prefix[j], prefix[i]) by {
            assert(lt(s[i], s[j]) || lt(s[j], s[i]));
        }
        lemma_sort_entries_sorted(prefix, lt);
        lemma_sort_entries_membership(prefix, lt);
        assert forall|k: int| 0 <= k < sorted_prefix.len() implies lt(
            s.last(),
            #[trigger] sorted_prefix[k],
        ) || lt(sorted_prefix[k], s.last()) by {
            let i = choose|i: int| 0 <= i < prefix.len() && prefix[i] == sorted_prefix[k];
            assert(lt(s[i], s[s.len() - 1]) || lt(s[s.len() - 1], s[i]));
        }
        lemma_insert_ordered_sorted(s.last(), sorted_prefix, lt);
    }
}

/// The position found by a linear scan is where the specification inserts.
proof fn lemma_insert_ordered_at(
    e: Entry,
    s: Seq<Entry>,
    lt: spec_fn(Entry, Entry) -> bool,
    p: int,
)
    requires
        0 <= p <= s.len(),
        forall|k: int| 0 <= k < p ==> !lt(e, #[trigger] s[k]),
        p < s.len() ==> lt(e, s[p]),
    ensures
        insert_ordered(e, s, lt) == s.insert(p, e),
    decreases p,
{
    if s.len() == 0 {
        assert(insert_ordered(e, s, lt) =~= s.insert(0, e));
    } else if p == 0 {
        assert(insert_ordered(e, s, lt) =~= s.insert(0, e));
    } else {
        let tail = s.drop_first();
        assert(!lt(e, s[0]));
        assert forall|k: int| 0 <= k < p - 1 implies !lt(e, #[trigger] tail[k]) by {
            assert(tail[k] == s[k + 1]);
        }
        assert(p - 1 < tail.len() ==> lt(e, tail[p - 1]));
        lemma_insert_ordered_at(e, tail, lt, p - 1);
        assert(insert_ordered(e, s, lt) =~= s.insert(p, e));
    }
}

/// `a` sorts before `b` in the order named by `desc`.
pub(crate) fn entry_before(a: &Entry, b: &Entry, desc: bool) -> (r: bool)
    ensures
        r == entry_order(desc)(*a, *b),
{
    if desc {
        a.created_at > b.created_at || (a.created_at == b.created_at && a.id < b.id)
    } else {
        a.created_at < b.created_at || (a.created_at == b.created_at && a.id < b.id)
    }
}

/// Inserts an entry into a vector sorted by the order named by `desc`,
/// keeping the specification's insertion position.
fn insert_entry(acc: &mut Vec<Entry>, e: Entry, desc: bool)
    ensures
        final(acc)@ == insert_ordered(e, old(acc)@, entry_order(desc)),
{
    let mut p: usize = 0;
    while p < acc.len()
        invariant
            p <= acc@.len(),
            forall|k: int| 0 <= k < p ==> !entry_order(desc)(e, #[trigger] acc@[k]),
        ensures
            p <= acc@.len(),
            forall|k: int| 0 <= k < p ==> !entry_order(desc)(e, #[trigger] acc@[k]),
            p < acc@.len() ==> entry_order(desc)(e, acc@[p as int]),
        decreases acc@.len() - p,
    {
        if entry_before(&e, &acc[p], desc) {
            break;
        }
        p = p + 1;
    }
    proof {
        lemma_insert_ordered_at(e, acc@, entry_order(desc), p as int);
    }
    acc.insert(p, e);
}

/// A copy of the entries sorted by the order named by `desc`.
pub(crate) fn sort_entries_vec(src: &Vec<Entry>, desc: bool) -> (r: Vec<Entry>)
    ensures
        r@ == sort_entries(src@, entry_order(desc)),
{
    let mut acc: Vec<Entry> = Vec::new();
    let mut i: usize = 0;
    while i < src.len()
        invariant
            i <= src@.len(),
            acc@ == sort_entries(src@.take(i as int), entry_order(desc)),
        decreases src@.len() - i,
    {
        insert_entry(&mut acc, src[i].clone(), desc);
        proof {
            assert(src@.take(i as int + 1).drop_last() =~= src@.take(i as int));
            assert(src@.take(i as int + 1).last() == src@[i as int]);
        }
        i = i + 1;
    }
    proof {
        assert(src@.take(src@.len() as int) =~= src@);
    }
    acc
}

} // verus!

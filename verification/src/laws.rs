//! The library-wide laws: properties that relate several operations, stated
//! over the same spec functions the operations' own contracts use, and
//! proved once for every store and input they admit.

use crate::order::{
    entry_order, insert_ordered, lemma_entry_order_total, lemma_sort_entries_len,
    lemma_sort_entries_sorted, sort_entries,
};
use crate::query::{lemma_matching_entries_empty, matching_entries};
use crate::store::{contains_id, Entry, Store};
use crate::text::contains_seq;
use vstd::prelude::*;

verus! {

/// Round trip: after a successful create, the returned id names exactly one
/// entry, and that entry carries the created body and instant unchanged. A
/// fetch of the id therefore returns that body.
pub proof fn lemma_create_then_fetch(pre: Store, post: Store, body: String, now: u64, id: u64)
    requires
        pre.wf(),
        Store::create_ok(pre, post, body, now, id),
    ensures
        contains_id(post.entries@, id),
        forall|i: int|
            0 <= i < post.entries@.len() && (#[trigger] post.entries@[i]).id == id
                ==> post.entries@[i].body == body && post.entries@[i].created_at == now,
{
    let n = post.entries@.len();
    assert(post.entries@[n - 1] == post.entries@.last());
    assert(post.entries@[n - 1].id == id);
    assert forall|i: int|
        0 <= i < n && (#[trigger] post.entries@[i]).id == id implies post.entries@[i].body == body
        && post.entries@[i].created_at == now by {
        if i < n - 1 {
            assert(post.entries@[i] == post.entries@.drop_last()[i]);
            assert(post.entries@[i] == pre.entries@[i]);
            assert(pre.entries@[i].id < pre.next_id);
            assert(false);
        }
    }
}

/// Unique-text search: creating an entry whose body contains a text that no
/// other body contains, then searching for that text, matches exactly the
/// new entry, so the search returns one result referencing its id.
pub proof fn lemma_create_then_search_unique(
    pre: Store,
    post: Store,
    body: String,
    now: u64,
    id: u64,
    q: Seq<char>,
)
    requires
        pre.wf(),
        Store::create_ok(pre, post, body, now, id),
        contains_seq(body@, q),
        forall|i: int|
            0 <= i < pre.entries@.len() ==> !contains_seq((#[trigger] pre.entries@[i]).body@, q),
    ensures
        ({
            let ms = sort_entries(matching_entries(post.entries@, q), entry_order(true));
            ms.len() == 1 && ms[0].id == id && ms[0].body == body
        }),
{
    let e = post.entries@.last();
    assert(post.entries@.drop_last() == pre.entries@);
    lemma_matching_entries_empty(pre.entries@, q);
    assert(contains_seq(e.body@, q));
    let m = matching_entries(post.entries@, q);
    assert(m == matching_entries(pre.entries@, q) + seq![e]);
    assert(m =~= seq![e]);
    let ms = sort_entries(m, entry_order(true));
    assert(m.drop_last() =~= Seq::<Entry>::empty());
    assert(sort_entries(m.drop_last(), entry_order(true)) =~= Seq::<Entry>::empty());
    assert(ms == insert_ordered(e, Seq::<Entry>::empty(), entry_order(true)));
    assert(ms =~= seq![e]);
}

/// Dual-write atomicity: a well-formed store never holds an entry under the
/// id a create would assign next. Since the simulated index-write fault
/// leaves the store exactly as it was, a fetch of the attempted id reports
/// not-found: no orphaned canonical row exists.
pub proof fn lemma_failed_create_leaves_no_orphan(s: Store)
    requires
        s.wf(),
    ensures
        !contains_id(s.entries@, s.next_id),
{
    assert forall|i: int| 0 <= i < s.entries@.len() implies (#[trigger] s.entries@[i]).id
        != s.next_id by {
        assert(s.entries@[i].id < s.next_id);
    }
}

/// The shape of `recent`: a zero limit yields nothing, no more entries than
/// the limit ever come back, and what comes back is ordered by
/// non-increasing creation instant.
pub proof fn lemma_recent_shape(s: Store, limit: int)
    requires
        s.wf(),
        0 <= limit,
    ensures
        ({
            let r = sort_entries(s.entries@, entry_order(true)).take(
                if limit <= s.entries@.len() {
                    limit
                } else {
                    s.entries@.len() as int
                },
            );
            &&& limit == 0 ==> r.len() == 0
            &&& r.len() <= limit
            &&& forall|i: int, j: int|
                0 <= i < j < r.len() ==> (#[trigger] r[i]).created_at >= (#[trigger] r[j]).created_at
        }),
{
    let lt = entry_order(true);
    let full = sort_entries(s.entries@, lt);
    lemma_sort_entries_len(s.entries@, lt);
    lemma_entry_order_total(true);
    assert forall|i: int, j: int| 0 <= i < j < s.entries@.len() implies lt(
        #[trigger] s.entries@[i],
        #[trigger] s.entries@[j],
    ) || lt(s.entries@[j], s.entries@[i]) by {
        assert(s.entries@[i].id < s.entries@[j].id);
    }
    lemma_sort_entries_sorted(s.entries@, lt);
    let cut = if limit <= s.entries@.len() {
        limit
    } else {
        s.entries@.len() as int
    };
    let r = full.take(cut);
    assert forall|i: int, j: int| 0 <= i < j < r.len() implies (#[trigger] r[i]).created_at >= (
    #[trigger] r[j]).created_at by {
        assert(lt(full[i], full[j]));
    }
}

/// A successful create consumes the pending draft: the slot reads back
/// empty afterwards.
pub proof fn lemma_create_clears_draft(pre: Store, post: Store, body: String, now: u64, id: u64)
    requires
        Store::create_ok(pre, post, body, now, id),
    ensures
        post.draft_view() is None,
{
}

} // verus!

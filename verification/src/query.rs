//! The query service: the stateless read shapes over the entry store.
//! Yearly counts, the month-by-month view of one year, and full-text search
//! with ranked, safely embeddable snippets.

use crate::error::{Error, ErrorKind};
use crate::order::{
    entry_order, lemma_sort_entries_len, lemma_sort_entries_membership, sort_entries,
    sort_entries_vec,
};
use crate::render::{clean_of, html_of, render};
use crate::store::{contains_id, Entry, Store};
use crate::text::{
    chars_of, contains_seq, escape_chars, escape_seq, find_first, find_sub, string_from_chars,
};
use vstd::prelude::*;

verus! {

/// How many entries of the sequence fall in calendar year `y`.
pub open spec fn year_count(s: Seq<Entry>, y: int) -> int
    decreases s.len(),
{
    if s.len() == 0 {
        0
    } else {
        year_count(s.drop_last(), y) + if s.last().date.year == y {
            1int
        } else {
            0int
        }
    }
}

/// A year with no entries counts zero.
proof fn lemma_year_count_zero(s: Seq<Entry>, y: int)
    requires
        forall|j: int| 0 <= j < s.len() ==> (#[trigger] s[j]).date.year != y,
    ensures
        year_count(s, y) == 0,
    decreases s.len(),
{
    if s.len() != 0 {
        lemma_year_count_zero(s.drop_last(), y);
    }
}

/// A year's count never exceeds the number of entries.
proof fn lemma_year_count_bounds(s: Seq<Entry>, y: int)
    ensures
        0 <= year_count(s, y) <= s.len(),
    decreases s.len(),
{
    if s.len() != 0 {
        lemma_year_count_bounds(s.drop_last(), y);
    }
}

/// Entry `j`'s year appears among the summaries.
pub open spec fn year_represented(entries: Seq<Entry>, r: Seq<YearSummary>, j: int) -> bool {
    exists|k: int| 0 <= k < r.len() && (#[trigger] r[k]).year == entries[j].date.year
}

/// One line of the year overview: a calendar year and how many entries it
/// holds.
#[derive(Clone, Copy, PartialEq, Eq, Structural, Debug)]
pub struct YearSummary {
    pub year: u32,
    pub count: usize,
}

/// Groups all entries by the calendar year of their date: one summary per
/// year that holds at least one entry, counts exact, years descending.
pub fn year_counts(store: &Store) -> (r: Vec<YearSummary>)
    ensures
        forall|k: int|
            0 <= k < r@.len() ==> (#[trigger] r@[k]).count == year_count(
                store.entries@,
                r@[k].year as int,
            ) && r@[k].count > 0,
        forall|k1: int, k2: int| 0 <= k1 < k2 < r@.len() ==> r@[k1].year > r@[k2].year,
        forall|j: int|
            0 <= j < store.entries@.len() ==> #[trigger] year_represented(
                store.entries@,
                r@,
                j,
            ),
{
    let mut r: Vec<YearSummary> = Vec::new();
    let n = store.entries.len();
    let mut i: usize = 0;
    while i < n
        invariant
            n == store.entries@.len(),
            i <= n,
            forall|k: int|
                0 <= k < r@.len() ==> (#[trigger] r@[k]).count == year_count(
                    store.entries@.take(i as int),
                    r@[k].year as int,
                ) && r@[k].count > 0,
            forall|k1: int, k2: int| 0 <= k1 < k2 < r@.len() ==> r@[k1].year > r@[k2].year,
            forall|j: int|
                0 <= j < i ==> #[trigger] year_represented(store.entries@, r@, j),
        decreases n - i,
    {
        let y = store.entries[i].date.year;
        let ghost prefix = store.entries@.take(i as int);
        let ghost prefix1 = store.entries@.take(i as int + 1);
        proof {
            assert(prefix1.drop_last() =~= prefix);
            assert(prefix1.last() == store.entries@[i as int]);
        }
        let mut p: usize = 0;
        while p < r.len()
            invariant
                p <= r@.len(),
                forall|k: int| 0 <= k < p ==> (#[trigger] r@[k]).year > y,
            ensures
                p <= r@.len(),
                forall|k: int| 0 <= k < p ==> (#[trigger] r@[k]).year > y,
                p < r@.len() ==> r@[p as int].year <= y,
            decreases r@.len() - p,
        {
            if r[p].year <= y {
                break;
            }
            p = p + 1;
        }
        let hit = p < r.len() && r[p].year == y;
        let ghost old_r = r@;
        proof {
            // Every year recorded so far other than a hit at p differs from y.
            assert forall|k: int| 0 <= k < old_r.len() && !(hit && k == p as int) implies (
            #[trigger] old_r[k]).year != y by {
                if k < p as int {
                    assert(old_r[k].year > y);
                } else if k > p as int {
                    assert(old_r[p as int].year > old_r[k].year);
                    assert(old_r[p as int].year <= y);
                }
            }
        }
        if hit {
            let c = r[p].count;
            proof {
                lemma_year_count_bounds(prefix, y as int);
            }
            r[p] = YearSummary { year: y, count: c + 1 };
            proof {
                assert(r@ == old_r.update(p as int, YearSummary { year: y, count: (c + 1) as usize }));
            }
        } else {
            proof {
                assert forall|j: int| 0 <= j < prefix.len() implies (#[trigger] prefix[j]).date.year
                    != y by {
                    if prefix[j].date.year == y {
                        assert(year_represented(store.entries@, old_r, j));
                        let k = choose|k: int|
                            0 <= k < old_r.len() && (#[trigger] old_r[k]).year
                                == store.entries@[j].date.year;
                        assert(old_r[k].year != y);
                    }
                }
                lemma_year_count_zero(prefix, y as int);
            }
            r.insert(p, YearSummary { year: y, count: 1 });
            proof {
                assert(r@ == old_r.insert(p as int, YearSummary { year: y, count: 1 }));
                old_r.insert_ensures(p as int, YearSummary { year: y, count: 1 });
            }
        }
        proof {
            // Where each old element now sits, and where the year y sits.
            let ghost now_r = r@;
            if !hit {
                old_r.insert_ensures(p as int, YearSummary { year: y, count: 1 });
            }
            assert(now_r[p as int].year == y && now_r[p as int].count == year_count(
                prefix,
                y as int,
            ) + 1 && now_r[p as int].count > 0) by {
                if hit {
                } else {
                    old_r.insert_ensures(p as int, YearSummary { year: y, count: 1 });
                }
            }
            assert forall|k: int| 0 <= k < now_r.len() && k != p as int implies now_r[k]
                == old_r[if hit || k < p as int {
                k
            } else {
                k - 1
            }] by {
                if !hit {
                    old_r.insert_ensures(p as int, YearSummary { year: y, count: 1 });
                }
            }
            // Counts stay correct after the step.
            assert(year_count(prefix1, y as int) == year_count(prefix, y as int) + 1);
            assert forall|k: int| 0 <= k < now_r.len() implies (#[trigger] now_r[k]).count
                == year_count(prefix1, now_r[k].year as int) && now_r[k].count > 0 by {
                if k == p as int {
                } else {
                    let ko: int = if hit || k < p as int {
                        k
                    } else {
                        k - 1
                    };
                    assert(now_r[k] == old_r[ko]);
                    assert(old_r[ko].year != y);
                    assert(year_count(prefix1, old_r[ko].year as int) == year_count(
                        prefix,
                        old_r[ko].year as int,
                    ));
                }
            }
            // Order stays strictly descending.
            assert forall|k1: int, k2: int| 0 <= k1 < k2 < now_r.len() implies now_r[k1].year
                > now_r[k2].year by {
                let ko1: int = if hit || k1 < p as int {
                    k1
                } else {
                    k1 - 1
                };
                let ko2: int = if hit || k2 < p as int {
                    k2
                } else {
                    k2 - 1
                };
                if k1 == p as int {
                    // y is above everything at or after p in the old order.
                    assert(now_r[k2] == old_r[ko2]);
                    assert(ko2 >= p as int);
                    if ko2 > p as int {
                        assert(old_r[p as int].year > old_r[ko2].year);
                    }
                    assert(old_r[ko2].year != y && old_r[ko2].year <= y);
                } else if k2 == p as int {
                    assert(now_r[k1] == old_r[ko1]);
                    assert(ko1 < p as int);
                    assert(old_r[ko1].year > y);
                } else {
                    // Both elements come from the old sequence; their old
                    // positions stay in order, so the old invariant applies.
                    assert(now_r[k1] == old_r[ko1] && now_r[k2] == old_r[ko2]);
                    assert(ko1 < ko2);
                }
            }
            // Every seen year, including the new one, is represented.
            assert forall|j: int| 0 <= j < i + 1 implies #[trigger] year_represented(
                store.entries@,
                now_r,
                j,
            ) by {
                if j == i as int {
                    assert(now_r[p as int].year == store.entries@[j].date.year);
                } else {
                    assert(year_represented(store.entries@, old_r, j));
                    let k0 = choose|k: int|
                        0 <= k < old_r.len() && (#[trigger] old_r[k]).year
                            == store.entries@[j].date.year;
                    let kn: int = if hit || k0 < p as int {
                        k0
                    } else {
                        k0 + 1
                    };
                    if hit && k0 == p as int {
                        assert(now_r[kn].year == old_r[k0].year);
                    } else {
                        assert(now_r[kn] == old_r[k0]);
                    }
                    assert(now_r[kn].year == store.entries@[j].date.year);
                }
            }
        }
        i = i + 1;
    }
    proof {
        assert(store.entries@.take(n as int) =~= store.entries@);
    }
    r
}

/// The entries of year `y` and month `m`, in insertion order.
pub open spec fn month_filter(s: Seq<Entry>, y: int, m: int) -> Seq<Entry>
    decreases s.len(),
{
    if s.len() == 0 {
        Seq::empty()
    } else {
        month_filter(s.drop_last(), y, m) + if s.last().date.year == y && s.last().date.month
            == m {
            seq![s.last()]
        } else {
            Seq::<Entry>::empty()
        }
    }
}

/// The entries of year `y` over the months `[1, m)`.
pub open spec fn months_total(s: Seq<Entry>, y: int, m: int) -> int
    decreases m,
{
    if m <= 1 {
        0
    } else {
        months_total(s, y, m - 1) + month_filter(s, y, m - 1).len()
    }
}

/// How one more entry moves the partial month sums.
proof fn lemma_months_total_step(s: Seq<Entry>, y: int, m: int)
    requires
        s.len() > 0,
    ensures
        months_total(s, y, m) == months_total(s.drop_last(), y, m) + if s.last().date.year == y
            && 1 <= s.last().date.month < m {
            1int
        } else {
            0int
        },
    decreases m,
{
    if m > 1 {
        lemma_months_total_step(s, y, m - 1);
    }
}

/// Partial month sums only grow with the month bound.
proof fn lemma_months_total_monotone(s: Seq<Entry>, y: int, m1: int, m2: int)
    requires
        m1 <= m2,
    ensures
        months_total(s, y, m1) <= months_total(s, y, m2),
    decreases m2 - m1,
{
    if m1 < m2 {
        lemma_months_total_monotone(s, y, m1, m2 - 1);
    }
}

/// The partial month sums of an empty journal are zero.
proof fn lemma_months_total_empty(s: Seq<Entry>, y: int, m: int)
    requires
        s.len() == 0,
    ensures
        months_total(s, y, m) == 0,
    decreases m,
{
    if m > 1 {
        lemma_months_total_empty(s, y, m - 1);
    }
}

/// With well-formed dates, the twelve months of a year partition its
/// entries: their counts sum to the year's count.
proof fn lemma_month_partition(s: Seq<Entry>, y: int)
    requires
        forall|j: int| 0 <= j < s.len() ==> 1 <= (#[trigger] s[j]).date.month <= 12,
    ensures
        months_total(s, y, 13) == year_count(s, y),
    decreases s.len(),
{
    if s.len() == 0 {
        lemma_months_total_empty(s, y, 13);
    } else {
        assert forall|j: int| 0 <= j < s.drop_last().len() implies 1 <= (
        #[trigger] s.drop_last()[j]).date.month <= 12 by {
            assert(s.drop_last()[j] == s[j]);
        }
        lemma_month_partition(s.drop_last(), y);
        lemma_months_total_step(s, y, 13);
        assert(s[s.len() - 1] == s.last());
        assert(1 <= s[s.len() - 1].date.month <= 12);
        assert(year_count(s, y) == year_count(s.drop_last(), y) + if s.last().date.year == y {
            1int
        } else {
            0int
        });
    }
}

/// One month of a yearly view: the month number and its entries, oldest
/// first.
pub struct MonthEntries {
    pub month: u8,
    pub entries: Vec<Entry>,
}

/// Month `m` appears among the groups.
pub open spec fn month_represented(r: Seq<MonthEntries>, m: int) -> bool {
    exists|k: int| 0 <= k < r.len() && (#[trigger] r[k]).month == m
}

/// The month-by-month view of one calendar year: for each month that holds
/// at least one entry, in ascending month order, its entries sorted oldest
/// first; plus the total number of entries in the year. A year with no
/// entries yields an empty view, not an error.
pub fn entries_for_year(store: &Store, year: u32) -> (r: (Vec<MonthEntries>, usize))
    requires
        store.wf(),
    ensures
        forall|k: int| 0 <= k < r.0@.len() ==> 1 <= (#[trigger] r.0@[k]).month <= 12,
        forall|k1: int, k2: int| 0 <= k1 < k2 < r.0@.len() ==> r.0@[k1].month < r.0@[k2].month,
        forall|k: int|
            0 <= k < r.0@.len() ==> (#[trigger] r.0@[k]).entries@ == sort_entries(
                month_filter(store.entries@, year as int, r.0@[k].month as int),
                entry_order(false),
            ) && r.0@[k].entries@.len() > 0,
        forall|m: int|
            1 <= m <= 12 ==> (month_filter(store.entries@, year as int, m).len() > 0
                <==> #[trigger] month_represented(r.0@, m)),
        r.1 == year_count(store.entries@, year as int),
{
    let mut months: Vec<MonthEntries> = Vec::new();
    let mut total: usize = 0;
    let mut m: u8 = 1;
    while m <= 12
        invariant
            store.wf(),
            1 <= m <= 13,
            total == months_total(store.entries@, year as int, m as int),
            forall|k: int|
                0 <= k < months@.len() ==> 1 <= (#[trigger] months@[k]).month < m,
            forall|k1: int, k2: int|
                0 <= k1 < k2 < months@.len() ==> months@[k1].month < months@[k2].month,
            forall|k: int|
                0 <= k < months@.len() ==> (#[trigger] months@[k]).entries@ == sort_entries(
                    month_filter(store.entries@, year as int, months@[k].month as int),
                    entry_order(false),
                ) && months@[k].entries@.len() > 0,
            forall|m0: int|
                1 <= m0 < m ==> (month_filter(store.entries@, year as int, m0).len() > 0
                    <==> #[trigger] month_represented(months@, m0)),
        decreases 13 - m,
    {
        let mut bucket: Vec<Entry> = Vec::new();
        let n = store.entries.len();
        let mut i: usize = 0;
        while i < n
            invariant
                n == store.entries@.len(),
                i <= n,
                bucket@ == month_filter(store.entries@.take(i as int), year as int, m as int),
            decreases n - i,
        {
            proof {
                assert(store.entries@.take(i as int + 1).drop_last() =~= store.entries@.take(
                    i as int,
                ));
                assert(store.entries@.take(i as int + 1).last() == store.entries@[i as int]);
            }
            if store.entries[i].date.year == year && store.entries[i].date.month == m {
                bucket.push(store.entries[i].clone());
                proof {
                    assert(bucket@ =~= month_filter(
                        store.entries@.take(i as int + 1),
                        year as int,
                        m as int,
                    ));
                }
            } else {
                proof {
                    assert(bucket@ =~= month_filter(
                        store.entries@.take(i as int + 1),
                        year as int,
                        m as int,
                    ));
                }
            }
            i = i + 1;
        }
        proof {
            assert(store.entries@.take(n as int) =~= store.entries@);
        }
        // The running total stays within the number of entries.
        proof {
            lemma_month_partition(store.entries@, year as int);
            lemma_months_total_monotone(store.entries@, year as int, m as int + 1, 13);
            lemma_year_count_bounds(store.entries@, year as int);
        }
        total = total + bucket.len();
        let ghost old_months = months@;
        if bucket.len() > 0 {
            let sorted_bucket = sort_entries_vec(&bucket, false);
            proof {
                crate::order::lemma_sort_entries_len(bucket@, entry_order(false));
            }
            months.push(MonthEntries { month: m, entries: sorted_bucket });
        }
        proof {
            assert forall|m0: int| 1 <= m0 < m + 1 implies (month_filter(
                store.entries@,
                year as int,
                m0,
            ).len() > 0 <==> #[trigger] month_represented(months@, m0)) by {
                if m0 == m as int {
                    if month_filter(store.entries@, year as int, m0).len() > 0 {
                        assert(months@[months@.len() - 1].month == m);
                    } else {
                        if month_represented(months@, m0) {
                            let k = choose|k: int|
                                0 <= k < months@.len() && (#[trigger] months@[k]).month == m0;
                            assert(months@[k].entries@.len() > 0);
                            assert(false);
                        }
                    }
                } else {
                    if month_represented(old_months, m0) {
                        let k = choose|k: int|
                            0 <= k < old_months.len() && (#[trigger] old_months[k]).month == m0;
                        assert(months@[k].month == m0);
                        assert(month_represented(months@, m0));
                    }
                    if month_represented(months@, m0) {
                        let k = choose|k: int|
                            0 <= k < months@.len() && (#[trigger] months@[k]).month == m0;
                        assert(k < old_months.len());
                        assert(month_represented(old_months, m0));
                    }
                }
            }
        }
        m = m + 1;
    }
    proof {
        lemma_month_partition(store.entries@, year as int);
    }
    (months, total)
}

/// The entries whose indexed body contains the query, in insertion order.
pub open spec fn matching_entries(s: Seq<Entry>, q: Seq<char>) -> Seq<Entry>
    decreases s.len(),
{
    if s.len() == 0 {
        Seq::empty()
    } else {
        matching_entries(s.drop_last(), q) + if contains_seq(s.last().body@, q) {
            seq![s.last()]
        } else {
            Seq::<Entry>::empty()
        }
    }
}

/// Every matching entry's body contains the query.
pub proof fn lemma_matching_entries_contain(s: Seq<Entry>, q: Seq<char>)
    ensures
        forall|k: int|
            0 <= k < matching_entries(s, q).len() ==> contains_seq(
                (#[trigger] matching_entries(s, q)[k]).body@,
                q,
            ),
    decreases s.len(),
{
    if s.len() != 0 {
        lemma_matching_entries_contain(s.drop_last(), q);
        let mt = matching_entries(s.drop_last(), q);
        assert forall|k: int| 0 <= k < matching_entries(s, q).len() implies contains_seq(
            (#[trigger] matching_entries(s, q)[k]).body@,
            q,
        ) by {
            if k < mt.len() {
                assert(matching_entries(s, q)[k] == mt[k]);
            } else {
                assert(matching_entries(s, q)[k] == s.last());
            }
        }
    }
}

/// When no entry's body contains the query, nothing matches.
pub proof fn lemma_matching_entries_empty(s: Seq<Entry>, q: Seq<char>)
    requires
        forall|i: int| 0 <= i < s.len() ==> !contains_seq((#[trigger] s[i]).body@, q),
    ensures
        matching_entries(s, q).len() == 0,
    decreases s.len(),
{
    if s.len() != 0 {
        assert(s[s.len() - 1] == s.last());
        lemma_matching_entries_empty(s.drop_last(), q);
    }
}

/// Characters of context kept on each side of the first match in a snippet;
/// with the match itself this approximates the original's 32-token window.
pub const SNIPPET_CONTEXT: usize = 80;

/// The truncation marker placed where a snippet cuts the body off.
pub open spec fn ellipsis() -> Seq<char> {
    seq!['.', '.', '.']
}

/// The snippet shown for a match: a bounded window of the body around the
/// first occurrence of the query, HTML-escaped so it can be embedded with no
/// further escaping, with ellipsis markers at truncated edges.
pub open spec fn snippet_spec(body: Seq<char>, q: Seq<char>) -> Seq<char> {
    let m = find_first(body, q);
    let a: int = if m - SNIPPET_CONTEXT > 0 {
        m - SNIPPET_CONTEXT
    } else {
        0
    };
    let b: int = if m + q.len() + SNIPPET_CONTEXT < body.len() {
        m + q.len() + SNIPPET_CONTEXT
    } else {
        body.len() as int
    };
    (if a > 0 {
        ellipsis()
    } else {
        Seq::<char>::empty()
    }) + escape_seq(body.subrange(a, b)) + (if b < body.len() {
        ellipsis()
    } else {
        Seq::<char>::empty()
    })
}

/// Builds the snippet for a body known to contain the query.
fn build_snippet(body: &str, q: &Vec<char>) -> (r: String)
    requires
        contains_seq(body@, q@),
    ensures
        r@ == snippet_spec(body@, q@),
{
    let bchars = chars_of(body);
    let found = find_sub(&bchars, q);
    let m = match found {
        Some(m) => m,
        None => {
            proof {
                assert(false);
            }
            0
        },
    };
    let a = if m > SNIPPET_CONTEXT {
        m - SNIPPET_CONTEXT
    } else {
        0
    };
    let blen = bchars.len();
    proof {
        assert(m + q@.len() <= blen as int);
    }
    let end_full = m + q.len();
    let b = if bchars.len() - end_full > SNIPPET_CONTEXT {
        end_full + SNIPPET_CONTEXT
    } else {
        bchars.len()
    };
    let mut window: Vec<char> = Vec::new();
    let mut j = a;
    while j < b
        invariant
            a <= j <= b <= bchars@.len(),
            window@ == bchars@.subrange(a as int, j as int),
        decreases b - j,
    {
        window.push(bchars[j]);
        proof {
            assert(bchars@.subrange(a as int, j as int + 1) =~= bchars@.subrange(
                a as int,
                j as int,
            ).push(bchars@[j as int]));
        }
        j = j + 1;
    }
    let mut escaped = escape_chars(&window);
    let mut out: Vec<char> = Vec::new();
    if a > 0 {
        out.push('.');
        out.push('.');
        out.push('.');
    }
    out.append(&mut escaped);
    if b < bchars.len() {
        out.push('.');
        out.push('.');
        out.push('.');
    }
    proof {
        assert(out@ =~= snippet_spec(body@, q@));
    }
    string_from_chars(&out)
}

/// One search hit: the matching entry's id and creation instant, and a safe
/// contextual snippet of its body.
pub struct SearchResult {
    pub entry_id: u64,
    pub created_at: u64,
    pub snippet: String,
}

/// Full-text search: one result per entry whose indexed body contains the
/// query, most recent first (ties in insertion order), each with its
/// snippet. An empty query matches nothing, by policy, rather than
/// everything.
pub fn search(store: &Store, query: &str) -> (r: Vec<SearchResult>)
    requires
        store.wf(),
    ensures
        query@.len() == 0 ==> r@.len() == 0,
        query@.len() > 0 ==> ({
            let ms = sort_entries(matching_entries(store.entries@, query@), entry_order(true));
            &&& r@.len() == ms.len()
            &&& forall|k: int|
                0 <= k < r@.len() ==> (#[trigger] r@[k]).entry_id == ms[k].id && r@[k].created_at
                    == ms[k].created_at && r@[k].snippet@ == snippet_spec(ms[k].body@, query@)
        }),
{
    let qchars = chars_of(query);
    if qchars.len() == 0 {
        return Vec::new();
    }
    let mut found: Vec<Entry> = Vec::new();
    let n = store.entries.len();
    let mut i: usize = 0;
    while i < n
        invariant
            store.wf(),
            n == store.entries@.len(),
            i <= n,
            qchars@ == query@,
            found@ == matching_entries(store.entries@.take(i as int), qchars@),
        decreases n - i,
    {
        proof {
            assert(store.entries@.take(i as int + 1).drop_last() =~= store.entries@.take(i as int));
            assert(store.entries@.take(i as int + 1).last() == store.entries@[i as int]);
        }
        let row_chars = chars_of(index_body_at(store, i));
        let is_match = find_sub(&row_chars, &qchars);
        if is_match.is_some() {
            found.push(store.entries[i].clone());
        }
        proof {
            assert(found@ =~= matching_entries(store.entries@.take(i as int + 1), qchars@));
        }
        i = i + 1;
    }
    proof {
        assert(store.entries@.take(n as int) =~= store.entries@);
    }
    let ghost ms = sort_entries(matching_entries(store.entries@, qchars@), entry_order(true));
    let sorted = sort_entries_vec(&found, true);
    proof {
        lemma_matching_entries_contain(store.entries@, qchars@);
        lemma_sort_entries_membership(matching_entries(store.entries@, qchars@), entry_order(true));
        assert forall|k: int| 0 <= k < sorted@.len() implies contains_seq(
            (#[trigger] sorted@[k]).body@,
            qchars@,
        ) by {
            let idx = choose|idx: int|
                0 <= idx < matching_entries(store.entries@, qchars@).len() && matching_entries(
                    store.entries@,
                    qchars@,
                )[idx] == sorted@[k];
        }
    }
    let mut out: Vec<SearchResult> = Vec::new();
    let mut k: usize = 0;
    while k < sorted.len()
        invariant
            sorted@ == ms,
            qchars@ == query@,
            k <= sorted@.len(),
            out@.len() == k,
            forall|t: int|
                0 <= t < sorted@.len() ==> contains_seq((#[trigger] sorted@[t]).body@, qchars@),
            forall|t: int|
                0 <= t < k ==> (#[trigger] out@[t]).entry_id == sorted@[t].id && out@[t].created_at
                    == sorted@[t].created_at && out@[t].snippet@ == snippet_spec(
                    sorted@[t].body@,
                    qchars@,
                ),
        decreases sorted@.len() - k,
    {
        let sn = build_snippet(sorted[k].body.as_str(), &qchars);
        out.push(
            SearchResult { entry_id: sorted[k].id, created_at: sorted[k].created_at, snippet: sn },
        );
        k = k + 1;
    }
    out
}

/// One full entry page: the entry's raw body fetched by id and taken through
/// the whole sanitization pipeline, so the returned HTML is safe to serve.
/// Fails with `NotFound` when no entry has the id.
pub fn rendered_body(store: &Store, id: u64) -> (r: Result<String, Error>)
    ensures
        r is Ok <==> contains_id(store.entries@, id),
        r matches Ok(h) ==> exists|i: int|
            0 <= i < store.entries@.len() && (#[trigger] store.entries@[i]).id == id && h@
                == clean_of(html_of(store.entries@[i].body@)),
        r matches Err(e) ==> e.kind == ErrorKind::NotFound,
{
    match store.fetch(id) {
        Ok(entry) => Ok(render(entry.body.as_str())),
        Err(e) => Err(e),
    }
}

/// The indexed body text at one row of the search index: full-text matching
/// reads the index, not the canonical table.
fn index_body_at(store: &Store, i: usize) -> (r: &str)
    requires
        store.wf(),
        i < store.entries@.len(),
    ensures
        r@ == store.entries@[i as int].body@,
{
    store.index[i].body.as_str()
}

} // verus!

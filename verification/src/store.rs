//! The entry store: the canonical table of journal entries and its parallel
//! full-text search index, modelled as one logical aggregate with a single
//! write operation, plus the single-slot draft. The two stores are only ever
//! mutated together; a failed index write is compensated by an explicit
//! rollback of the canonical insert, so readers always see both or neither.

use crate::date::{
    day_number, is_date_seq, lemma_day_number_injective, parse_date, seq_date, timestamp_date,
    timestamp_in_range, Date, SECS_PER_DAY,
};
use crate::error::{Error, ErrorKind};
use crate::order::{entry_order, lemma_sort_entries_len, sort_entries, sort_entries_vec};
use crate::text::{check_blank, is_blank};
use vstd::prelude::*;

verus! {

/// One immutable journal entry: created once, never updated, never deleted.
#[derive(Debug)]
pub struct Entry {
    /// Stable identifier, assigned by the store on creation, never reused.
    pub id: u64,
    /// Calendar date of creation, derived from the creation instant in UTC.
    pub date: Date,
    /// Creation instant as Unix seconds, UTC; orders entries within views.
    pub created_at: u64,
    /// The raw markdown body, exactly as written.
    pub body: String,
}

impl Entry {
    /// The entry's calendar date agrees with its creation instant at the
    /// granularity of a day, both read in UTC.
    pub open spec fn date_consistent(self) -> bool {
        &&& self.date.wf()
        &&& day_number(self.date) == self.created_at as int / (SECS_PER_DAY as int)
    }
}

impl Clone for Entry {
    fn clone(&self) -> (r: Self)
        ensures
            r == *self,
    {
        Entry { id: self.id, date: self.date, created_at: self.created_at, body: self.body.clone() }
    }
}

/// One row of the full-text search index: the searched text, keyed by the id
/// of the entry it projects.
#[derive(Debug)]
pub struct IndexRow {
    pub id: u64,
    pub body: String,
}

/// A raw persisted entry row, as the host process reads it back from storage:
/// the date still in its `YYYY-MM-DD` text form, the timestamp unvalidated.
#[derive(Debug)]
pub struct RawRow {
    pub id: u64,
    pub created_at: u64,
    pub date: String,
    pub body: String,
}

/// The journal store. The canonical entry table and the search index are
/// private to it: every public operation keeps them aligned row for row, and
/// the draft is a single slot by construction.
#[derive(Debug)]
pub struct Store {
    pub entries: Vec<Entry>,
    pub index: Vec<IndexRow>,
    pub draft: Option<String>,
    pub next_id: u64,
}

/// The entry with the given id, if one exists.
pub open spec fn contains_id(s: Seq<Entry>, id: u64) -> bool {
    exists|i: int| 0 <= i < s.len() && (#[trigger] s[i]).id == id
}

impl Store {
    /// Well-formedness: the index mirrors the entries row for row, ids are
    /// strictly increasing in insertion order and below the next id to be
    /// assigned, and every entry's date agrees with its timestamp.
    pub open spec fn wf(self) -> bool {
        &&& self.index@.len() == self.entries@.len()
        &&& forall|i: int|
            0 <= i < self.entries@.len() ==> (#[trigger] self.index@[i]).id
                == self.entries@[i].id && self.index@[i].body@ == self.entries@[i].body@
        &&& forall|i: int, j: int|
            0 <= i < j < self.entries@.len() ==> (#[trigger] self.entries@[i]).id < (
            #[trigger] self.entries@[j]).id
        &&& forall|i: int|
            0 <= i < self.entries@.len() ==> (#[trigger] self.entries@[i]).id < self.next_id
        &&& forall|i: int|
            0 <= i < self.entries@.len() ==> (#[trigger] self.entries@[i]).date_consistent()
    }

    /// The draft slot as an optional text.
    pub open spec fn draft_view(self) -> Option<Seq<char>> {
        match self.draft {
            Some(s) => Some(s@),
            None => None,
        }
    }

    /// The relation between a store and its successor after a successful
    /// `create` of `body` at instant `now` that returned `id`: one new entry
    /// and one new index row, both carrying `body` under the fresh id, the
    /// draft cleared, and nothing else changed.
    pub open spec fn create_ok(pre: Store, post: Store, body: String, now: u64, id: u64) -> bool {
        &&& id == pre.next_id
        &&& post.entries@.len() == pre.entries@.len() + 1
        &&& post.entries@.drop_last() == pre.entries@
        &&& post.entries@.last().id == id
        &&& post.entries@.last().created_at == now
        &&& post.entries@.last().body == body
        &&& post.entries@.last().date_consistent()
        &&& post.index@.len() == pre.index@.len() + 1
        &&& post.index@.drop_last() == pre.index@
        &&& post.index@.last().id == id
        &&& post.index@.last().body == body
        &&& post.draft is None
        &&& post.next_id == id + 1
    }

    /// An empty store: no entries, no index rows, no draft.
    pub fn new() -> (s: Store)
        ensures
            s.wf(),
            s.entries@.len() == 0,
            s.index@.len() == 0,
            s.draft is None,
            s.next_id == 1,
    {
        Store { entries: Vec::new(), index: Vec::new(), draft: None, next_id: 1 }
    }

    /// Inserts the canonical row alone and advances the id counter. Leaves
    /// the index untouched: callers must either index the entry or roll the
    /// insert back before the store is read again.
    fn insert_canonical(&mut self, entry: Entry)
        requires
            entry.id == old(self).next_id,
            old(self).next_id < u64::MAX,
        ensures
            final(self).entries@ == old(self).entries@.push(entry),
            final(self).index == old(self).index,
            final(self).draft == old(self).draft,
            final(self).next_id == old(self).next_id + 1,
    {
        self.entries.push(entry);
        self.next_id = self.next_id + 1;
    }

    /// Inserts the search-index row for the most recent canonical insert.
    fn insert_index(&mut self, row: IndexRow)
        ensures
            final(self).index@ == old(self).index@.push(row),
            final(self).entries == old(self).entries,
            final(self).draft == old(self).draft,
            final(self).next_id == old(self).next_id,
    {
        self.index.push(row);
    }

    /// The compensating rollback of `insert_canonical`: removes the row it
    /// added and hands its id back, restoring the store to the state before
    /// the attempted write.
    fn rollback_canonical(&mut self)
        requires
            old(self).entries@.len() > 0,
            old(self).next_id == old(self).entries@.last().id + 1,
        ensures
            final(self).entries@ == old(self).entries@.drop_last(),
            final(self).index == old(self).index,
            final(self).draft == old(self).draft,
            final(self).next_id == old(self).entries@.last().id,
    {
        let removed = self.entries.pop();
        match removed {
            Some(e) => {
                self.next_id = e.id;
            },
            None => {},
        }
    }

    /// Creates an entry: validates that the body is not blank, derives the
    /// calendar date from `now` in UTC, and inserts the canonical row and the
    /// search-index row as one atomic unit, clearing any pending draft.
    /// Returns the newly assigned id.
    pub fn create(&mut self, body: String, now: u64) -> (r: Result<u64, Error>)
        requires
            old(self).wf(),
            old(self).next_id < u64::MAX,
        ensures
            final(self).wf(),
            r is Ok <==> !is_blank(body@) && timestamp_in_range(now),
            r matches Ok(id) ==> Store::create_ok(*old(self), *final(self), body, now, id),
            r is Err ==> *final(self) == *old(self),
            r matches Err(e) ==> (e.kind == ErrorKind::Validation <==> is_blank(body@)),
            r matches Err(e) ==> (e.kind == ErrorKind::Validation || e.kind
                == ErrorKind::InvalidTimestamp),
    {
        if check_blank(body.as_str()) {
            return Err(
                Error::new(
                    ErrorKind::Validation,
                    String::from_str("entry body must not be empty"),
                ),
            );
        }
        let date = match timestamp_date(now) {
            Ok(d) => d,
            Err(e) => { return Err(e) },
        };
        let id = self.next_id;
        let index_body = body.clone();
        let entry = Entry { id, date, created_at: now, body };
        self.insert_canonical(entry);
        self.insert_index(IndexRow { id, body: index_body });
        self.draft = None;
        proof {
            assert(final(self).entries@.drop_last() =~= old(self).entries@);
            assert(final(self).index@.drop_last() =~= old(self).index@);
        }
        Ok(id)
    }

    /// The dual-write fault path, for exercising atomicity: the canonical
    /// insert succeeds, the search-index write is then made to fail, and the
    /// explicit compensating rollback runs. The store is left exactly as it
    /// was, so a fetch of the attempted id still reports `NotFound`.
    pub fn create_with_index_fault(&mut self, body: String, now: u64) -> (r: Result<u64, Error>)
        requires
            old(self).wf(),
            old(self).next_id < u64::MAX,
        ensures
            final(self).entries@ == old(self).entries@,
            final(self).index@ == old(self).index@,
            final(self).draft == old(self).draft,
            final(self).next_id == old(self).next_id,
            final(self).wf(),
            r is Err,
            r matches Err(e) ==> (e.kind == ErrorKind::Validation <==> is_blank(body@)),
            r matches Err(e) ==> (e.kind == ErrorKind::Storage <==> !is_blank(body@)
                && timestamp_in_range(now)),
            r matches Err(e) ==> (e.kind == ErrorKind::InvalidTimestamp <==> !is_blank(body@)
                && !timestamp_in_range(now)),
    {
        if check_blank(body.as_str()) {
            return Err(
                Error::new(
                    ErrorKind::Validation,
                    String::from_str("entry body must not be empty"),
                ),
            );
        }
        let date = match timestamp_date(now) {
            Ok(d) => d,
            Err(e) => { return Err(e) },
        };
        let id = self.next_id;
        let entry = Entry { id, date, created_at: now, body };
        self.insert_canonical(entry);
        // The index write fails here; compensate before anything can read
        // the orphaned canonical row.
        self.rollback_canonical();
        proof {
            assert(final(self).entries@ =~= old(self).entries@);
        }
        Err(
            Error::new(
                ErrorKind::Storage,
                String::from_str("search index write failed; canonical insert rolled back"),
            ),
        )
    }

    /// Fetches the entry with the given id, or reports `NotFound`.
    pub fn fetch(&self, id: u64) -> (r: Result<Entry, Error>)
        ensures
            r is Ok <==> contains_id(self.entries@, id),
            r matches Ok(e) ==> e.id == id && exists|i: int|
                0 <= i < self.entries@.len() && self.entries@[i] == e,
            r matches Err(e) ==> e.kind == ErrorKind::NotFound,
    {
        let n = self.entries.len();
        let mut i: usize = 0;
        while i < n
            invariant
                n == self.entries@.len(),
                i <= n,
                forall|j: int| 0 <= j < i ==> (#[trigger] self.entries@[j]).id != id,
            decreases n - i,
        {
            if self.entries[i].id == id {
                return Ok(self.entries[i].clone());
            }
            i = i + 1;
        }
        Err(Error::new(ErrorKind::NotFound, String::from_str("no entry with this id")))
    }

    /// At most `limit` entries, most recent first: the entries sorted by
    /// descending creation instant (ties in insertion order), cut to the
    /// requested length. A limit of zero yields the empty sequence.
    pub fn recent(&self, limit: usize) -> (r: Vec<Entry>)
        ensures
            r@ == sort_entries(self.entries@, entry_order(true)).take(
                if limit as int <= self.entries@.len() {
                    limit as int
                } else {
                    self.entries@.len() as int
                },
            ),
    {
        let mut sorted = sort_entries_vec(&self.entries, true);
        proof {
            lemma_sort_entries_len(self.entries@, entry_order(true));
        }
        sorted.truncate(limit);
        proof {
            let full = sort_entries(self.entries@, entry_order(true));
            if limit as int > self.entries@.len() {
                assert(sorted@ =~= full.take(full.len() as int));
            }
        }
        sorted
    }

    /// Replaces any existing draft with the given body: the slot holds at
    /// most one unsaved text, and a later save wins.
    pub fn save_draft(&mut self, body: String)
        ensures
            final(self).draft == Some(body),
            final(self).entries == old(self).entries,
            final(self).index == old(self).index,
            final(self).next_id == old(self).next_id,
    {
        self.draft = Some(body);
    }

    /// The current draft, if one exists.
    pub fn get_draft(&self) -> (r: Option<String>)
        ensures
            r == self.draft,
    {
        match &self.draft {
            Some(s) => Some(s.clone()),
            None => None,
        }
    }

    /// Clears any existing draft; clearing an empty slot is not an error.
    pub fn clear_draft(&mut self)
        ensures
            final(self).draft is None,
            final(self).entries == old(self).entries,
            final(self).index == old(self).index,
            final(self).next_id == old(self).next_id,
    {
        self.draft = None;
    }
}

/// One persisted row decodes and is consistent: its date text parses, its
/// timestamp names one valid UTC instant, and both name the same calendar
/// day.
pub open spec fn raw_row_valid(r: RawRow) -> bool {
    &&& is_date_seq(r.date@)
    &&& timestamp_in_range(r.created_at)
    &&& day_number(seq_date(r.date@)) == r.created_at as int / (SECS_PER_DAY as int)
}

/// A persisted table can be loaded: every row valid, ids strictly increasing
/// in row order, and the last id leaving room for the next assignment.
pub open spec fn rows_loadable(rows: Seq<RawRow>) -> bool {
    &&& forall|i: int| 0 <= i < rows.len() ==> raw_row_valid(#[trigger] rows[i])
    &&& forall|i: int, j: int|
        0 <= i < j < rows.len() ==> (#[trigger] rows[i]).id < (#[trigger] rows[j]).id
    &&& rows.len() > 0 ==> rows.last().id < u64::MAX
}

impl Store {
    /// Rebuilds a store from the rows the host process read back from
    /// persistent storage, revalidating every row: previously accepted data
    /// that no longer reads back cleanly is a server fault, not a value.
    pub fn from_rows(rows: &Vec<RawRow>) -> (r: Result<Store, Error>)
        ensures
            r matches Ok(s) ==> ({
                &&& s.wf()
                &&& s.entries@.len() == rows@.len()
                &&& forall|i: int|
                    0 <= i < rows@.len() ==> (#[trigger] s.entries@[i]).id == rows@[i].id
                        && s.entries@[i].created_at == rows@[i].created_at && s.entries@[i].body
                        == rows@[i].body && s.entries@[i].date == seq_date(rows@[i].date@)
                &&& s.draft is None
                &&& s.next_id == if rows@.len() == 0 {
                    1u64
                } else {
                    (rows@.last().id + 1) as u64
                }
            }),
            r is Ok <==> rows_loadable(rows@),
            r matches Err(e) ==> e.kind == ErrorKind::Format || e.kind == ErrorKind::InvalidTimestamp
                || e.kind == ErrorKind::Storage,
    {
        let mut entries: Vec<Entry> = Vec::new();
        let mut index: Vec<IndexRow> = Vec::new();
        let n = rows.len();
        let mut i: usize = 0;
        while i < n
            invariant
                n == rows@.len(),
                i <= n,
                entries@.len() == i,
                index@.len() == i,
                forall|j: int| 0 <= j < i ==> raw_row_valid(#[trigger] rows@[j]),
                forall|j: int, k: int|
                    0 <= j < k < i ==> (#[trigger] rows@[j]).id < (#[trigger] rows@[k]).id,
                forall|j: int|
                    0 <= j < i ==> (#[trigger] entries@[j]).id == rows@[j].id && entries@[j].created_at
                        == rows@[j].created_at && entries@[j].body == rows@[j].body
                        && entries@[j].date == seq_date(rows@[j].date@),
                forall|j: int|
                    0 <= j < i ==> (#[trigger] index@[j]).id == entries@[j].id && index@[j].body@
                        == entries@[j].body@,
                forall|j: int| 0 <= j < i ==> (#[trigger] entries@[j]).date_consistent(),
            decreases n - i,
        {
            let td = match timestamp_date(rows[i].created_at) {
                Ok(d) => d,
                Err(e) => {
                    proof {
                        assert(!raw_row_valid(rows@[i as int]));
                    }
                    return Err(e);
                },
            };
            let pd = match parse_date(rows[i].date.as_str()) {
                Ok(d) => d,
                Err(e) => {
                    proof {
                        assert(!raw_row_valid(rows@[i as int]));
                    }
                    return Err(e);
                },
            };
            if pd != td {
                proof {
                    if raw_row_valid(rows@[i as int]) {
                        lemma_day_number_injective(pd, td);
                    }
                }
                return Err(
                    Error::new(
                        ErrorKind::Format,
                        String::from_str("stored date disagrees with its timestamp"),
                    ),
                );
            }
            if i > 0 {
                let prev = entries[i - 1].id;
                if rows[i].id <= prev {
                    proof {
                        assert(rows@[i as int - 1].id >= rows@[i as int].id);
                    }
                    return Err(
                        Error::new(
                            ErrorKind::Storage,
                            String::from_str("stored entry ids are not increasing"),
                        ),
                    );
                }
            }
            entries.push(
                Entry {
                    id: rows[i].id,
                    date: pd,
                    created_at: rows[i].created_at,
                    body: rows[i].body.clone(),
                },
            );
            index.push(IndexRow { id: rows[i].id, body: rows[i].body.clone() });
            i = i + 1;
        }
        let next_id: u64 = if n == 0 {
            1
        } else {
            let last = entries[n - 1].id;
            if last == u64::MAX {
                proof {
                    assert(rows@.last().id == u64::MAX);
                }
                return Err(
                    Error::new(
                        ErrorKind::Storage,
                        String::from_str("stored entry ids leave no room for new entries"),
                    ),
                );
            }
            last + 1
        };
        let s = Store { entries, index, draft: None, next_id };
        proof {
            assert forall|j: int| 0 <= j < s.entries@.len() implies (#[trigger] s.entries@[j]).id
                < s.next_id by {
                if j < s.entries@.len() - 1 {
                    assert(rows@[j].id < rows@[s.entries@.len() - 1].id);
                }
            }
        }
        Ok(s)
    }
}

} // verus!

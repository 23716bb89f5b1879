//! The table of sealed rows and the changes it admits.
//!
//! Rows stay in insertion order. No two rows share an identifier, no
//! identifier passes the highest one handed out so far, and no row was
//! modified before it was created.

use vstd::prelude::*;

use crate::error::NoteError;
use crate::note::{stored_views, StoredNote, StoredView};
use crate::timestamp::Timestamp;

verus! {

/// The table of notes.
pub struct NoteTable {
    rows: Vec<StoredNote>,
    last_id: i32,
}

/// What a `NoteTable` holds: its rows in insertion order and the highest
/// identifier handed out so far.
pub struct TableView {
    pub rows: Seq<StoredView>,
    pub last_id: int,
}

/// The rows have pairwise different identifiers.
pub open spec fn distinct_ids(rows: Seq<StoredView>) -> bool {
    forall|i: int, j: int| 0 <= i < j < rows.len() ==> rows[i].id != rows[j].id
}

/// Every row's identifier is a 32-bit number that does not pass `bound`.
pub open spec fn ids_within(rows: Seq<StoredView>, bound: int) -> bool {
    forall|i: int| 0 <= i < rows.len() ==> i32::MIN <= (#[trigger] rows[i]).id <= bound
}

/// Every row was modified, if at all, no earlier than it was created.
pub open spec fn all_times_in_order(rows: Seq<StoredView>) -> bool {
    forall|i: int| 0 <= i < rows.len() ==> (#[trigger] rows[i]).times_in_order()
}

/// Whether some row carries the identifier.
pub open spec fn has_id(rows: Seq<StoredView>, id: int) -> bool {
    exists|i: int| 0 <= i < rows.len() && (#[trigger] rows[i]).id == id
}

/// The modification time that is kept for a row created at `created_at`:
/// one that precedes the creation is moved up to it.
pub open spec fn settled(created_at: Timestamp, modified_at: Option<Timestamp>) -> Option<
    Timestamp,
> {
    match modified_at {
        Some(m) => Some(
            if m.earlier_than(&created_at) {
                created_at
            } else {
                m
            },
        ),
        None => None,
    }
}

/// The identifier that a transferred row asks for: 0 leaves the choice to
/// the table.
pub open spec fn wanted_id(id: int) -> Option<i32> {
    if id == 0 {
        None
    } else {
        Some(id as i32)
    }
}

/// A refusal among the first `k` rows is the refusal of the whole.
pub proof fn lemma_refusal_stays(start: TableView, rows: Seq<StoredView>, k: int)
    requires
        0 <= k <= rows.len(),
        start.with_all_imported(rows.take(k)) is Err,
    ensures
        start.with_all_imported(rows) == start.with_all_imported(rows.take(k)),
    decreases rows.len() - k,
{
    if k == rows.len() {
        assert(rows.take(k) =~= rows);
    } else {
        assert(rows.take(k + 1).drop_last() =~= rows.take(k));
        lemma_refusal_stays(start, rows, k + 1);
    }
}

/// What an optional blob holds.
pub open spec fn blob_view(blob: Option<Vec<u8>>) -> Option<Seq<u8>> {
    match blob {
        Some(bytes) => Some(bytes@),
        None => None,
    }
}

impl StoredView {
    /// The row as the table keeps it: a modification time before the
    /// creation time is moved up to it.
    pub open spec fn kept(self) -> StoredView {
        StoredView {
            id: self.id,
            note: self.note,
            priority: self.priority,
            created_at: self.created_at,
            modified_at: settled(self.created_at, self.modified_at),
        }
    }

    /// The row after an edit at `now` that replaces the blobs given.
    pub open spec fn amended(
        self,
        note: Option<Seq<u8>>,
        priority: Option<Seq<u8>>,
        now: Timestamp,
    ) -> StoredView {
        StoredView {
            id: self.id,
            note: match note {
                Some(blob) => blob,
                None => self.note,
            },
            priority: match priority {
                Some(blob) => blob,
                None => self.priority,
            },
            created_at: self.created_at,
            modified_at: settled(self.created_at, Some(now)),
        }
    }
}

impl TableView {
    /// The invariant of the table.
    pub open spec fn well_formed(self) -> bool {
        &&& distinct_ids(self.rows)
        &&& ids_within(self.rows, self.last_id)
        &&& all_times_in_order(self.rows)
        &&& self.last_id <= i32::MAX
    }

    /// The identifier that the next insertion takes: the one asked for, or
    /// the successor of the highest one handed out.
    pub open spec fn next_id(self, wanted: Option<i32>) -> int {
        match wanted {
            Some(id) => id as int,
            None => self.last_id + 1,
        }
    }

    /// Why an insertion is refused, if it is: a fresh identifier cannot pass
    /// the largest one, and a wanted identifier must not be taken.
    pub open spec fn insert_refusal(self, wanted: Option<i32>) -> Option<NoteError> {
        match wanted {
            Some(id) => if has_id(self.rows, id as int) {
                Some(NoteError::DuplicateId)
            } else {
                None
            },
            None => if self.last_id >= i32::MAX {
                Some(NoteError::StoreFull)
            } else {
                None
            },
        }
    }

    /// The table after inserting `row` at the end.
    pub open spec fn with_row(self, row: StoredView) -> TableView {
        TableView {
            rows: self.rows.push(row),
            last_id: if row.id > self.last_id {
                row.id
            } else {
                self.last_id
            },
        }
    }

    /// The table with every row removed. The identifiers handed out so far
    /// stay spent.
    pub open spec fn emptied(self) -> TableView {
        TableView { rows: Seq::empty(), last_id: self.last_id }
    }

    /// The table after taking in `row` from a transfer: identifier 0 asks for
    /// a fresh one, any other must be free.
    pub open spec fn with_imported(self, row: StoredView) -> Result<TableView, NoteError> {
        let wanted = wanted_id(row.id);
        match self.insert_refusal(wanted) {
            Some(e) => Err(e),
            None => Ok(
                self.with_row(
                    StoredView {
                        id: self.next_id(wanted),
                        note: row.note,
                        priority: row.priority,
                        created_at: row.created_at,
                        modified_at: settled(row.created_at, row.modified_at),
                    },
                ),
            ),
        }
    }

    /// The table after taking in `rows` one after the other, or the first
    /// refusal.
    pub open spec fn with_all_imported(self, rows: Seq<StoredView>) -> Result<
        TableView,
        NoteError,
    >
        decreases rows.len(),
    {
        if rows.len() == 0 {
            Ok(self)
        } else {
            match self.with_all_imported(rows.drop_last()) {
                Err(e) => Err(e),
                Ok(table) => table.with_imported(rows.last()),
            }
        }
    }

    /// The table without the rows that carry `id`.
    pub open spec fn without_id(self, id: int) -> TableView {
        TableView { rows: self.rows.filter(|r: StoredView| r.id != id), last_id: self.last_id }
    }
}

/// Removing one row keeps the identifiers distinct and bounded and the times
/// in order, and it is the same as dropping every row with that identifier.
proof fn lemma_remove_row(rows: Seq<StoredView>, bound: int, k: int)
    requires
        distinct_ids(rows),
        ids_within(rows, bound),
        all_times_in_order(rows),
        0 <= k < rows.len(),
    ensures
        distinct_ids(rows.remove(k)),
        ids_within(rows.remove(k), bound),
        all_times_in_order(rows.remove(k)),
        rows.remove(k) == rows.filter(|r: StoredView| r.id != rows[k].id),
    decreases rows.len(),
{
    let id = rows[k].id;
    let keep = |r: StoredView| r.id != id;
    let rest = rows.remove(k);
    assert forall|i: int, j: int| 0 <= i < j < rest.len() implies rest[i].id != rest[j].id by {
        let a = if i < k { i } else { i + 1 };
        let b = if j < k { j } else { j + 1 };
        assert(rest[i] == rows[a]);
        assert(rest[j] == rows[b]);
    }
    assert forall|i: int| 0 <= i < rest.len() implies i32::MIN <= (#[trigger] rest[i]).id <= bound
        && rest[i].times_in_order() by {
        let a = if i < k { i } else { i + 1 };
        assert(rest[i] == rows[a]);
    }
    lemma_filter_drops_one(rows, k);
}

/// With distinct identifiers, keeping all rows but those of `rows[k]`'s
/// identifier removes exactly `rows[k]`.
proof fn lemma_filter_drops_one(rows: Seq<StoredView>, k: int)
    requires
        distinct_ids(rows),
        0 <= k < rows.len(),
    ensures
        rows.remove(k) == rows.filter(|r: StoredView| r.id != rows[k].id),
    decreases rows.len(),
{
    reveal(Seq::filter);
    let id = rows[k].id;
    let keep = |r: StoredView| r.id != id;
    let front = rows.drop_last();
    let last = rows.last();
    if k == rows.len() - 1 {
        lemma_filter_keeps_all(front, id);
        assert(rows.remove(k) =~= front);
    } else {
        assert(front[k] == rows[k]);
        assert(distinct_ids(front)) by {
            assert forall|i: int, j: int| 0 <= i < j < front.len() implies front[i].id
                != front[j].id by {
                assert(front[i] == rows[i]);
                assert(front[j] == rows[j]);
            }
        }
        lemma_filter_drops_one(front, k);
        assert(last.id != id);
        assert(rows.remove(k) =~= front.remove(k).push(last));
    }
}

/// Where no row carries `id`, keeping the rows of other identifiers keeps all.
proof fn lemma_filter_keeps_all(rows: Seq<StoredView>, id: int)
    requires
        !has_id(rows, id),
    ensures
        rows.filter(|r: StoredView| r.id != id) == rows,
    decreases rows.len(),
{
    reveal(Seq::filter);
    if rows.len() > 0 {
        let front = rows.drop_last();
        assert(!has_id(front, id)) by {
            if has_id(front, id) {
                let i = choose|i: int| 0 <= i < front.len() && (#[trigger] front[i]).id == id;
                assert(rows[i].id == id);
            }
        }
        lemma_filter_keeps_all(front, id);
        assert(rows[rows.len() - 1].id != id);
        assert(front.push(rows.last()) =~= rows);
    }
}

impl View for NoteTable {
    type V = TableView;

    closed spec fn view(&self) -> TableView {
        TableView { rows: stored_views(self.rows@), last_id: self.last_id as int }
    }
}

impl NoteTable {
    /// Every table is well-formed, at all times.
    #[verifier::type_invariant]
    pub open spec fn always_well_formed(&self) -> bool {
        self@.well_formed()
    }

    /// An empty table that has handed out no identifier yet.
    pub fn new() -> (table: NoteTable)
        ensures
            table@.rows == Seq::<StoredView>::empty(),
            table@.last_id == 0,
            table@.well_formed(),
    {
        let table = NoteTable { rows: Vec::new(), last_id: 0 };
        assert(table@.rows =~= Seq::<StoredView>::empty());
        table
    }

    /// Makes a table of rows that were stored before, with the highest
    /// identifier that was handed out by then. The rows keep their
    /// identifiers, which must differ from each other; the table counts on
    /// from the highest identifier it has seen.
    pub fn from_rows(rows: &Vec<StoredNote>, last_id: i32) -> (res: Option<NoteTable>)
        ensures
            res is Some <==> distinct_ids(stored_views(rows@)),
            res matches Some(table) ==> {
                &&& table@.well_formed()
                &&& table@.rows == stored_views(rows@).map_values(|r: StoredView| r.kept())
                &&& table@.last_id >= last_id
                &&& table@.last_id == last_id || has_id(table@.rows, table@.last_id)
            },
    {
        let ghost views = stored_views(rows@);
        let mut table = NoteTable { rows: Vec::new(), last_id };
        assert(table@.rows =~= Seq::<StoredView>::empty());
        let mut k: usize = 0;
        while k < rows.len()
            invariant
                k <= rows@.len(),
                views == stored_views(rows@),
                table@.well_formed(),
                table@.rows == views.take(k as int).map_values(|r: StoredView| r.kept()),
                distinct_ids(views.take(k as int)),
                table@.last_id >= last_id,
                table@.last_id == last_id || has_id(table@.rows, table@.last_id),
            decreases rows@.len() - k,
        {
            let row = rows[k].duplicate();
            let ghost before = table@;
            match table.insert(
                Some(row.id),
                row.note,
                row.priority,
                row.created_at,
                row.modified_at,
            ) {
                Ok(_) => {
                    proof {
                        let next = views.take(k + 1);
                        assert(next =~= views.take(k as int).push(views[k as int]));
                        assert(table@.rows =~= next.map_values(|r: StoredView| r.kept()));
                        assert forall|i: int, j: int| 0 <= i < j < next.len() implies next[i].id
                            != next[j].id by {
                            if j == k {
                                assert(before.rows[i].id == next[i].id);
                            } else {
                                assert(views.take(k as int)[i] == next[i]);
                                assert(views.take(k as int)[j] == next[j]);
                            }
                        }
                        if table@.last_id != last_id {
                            if table@.last_id == before.last_id {
                                let i = choose|i: int|
                                    0 <= i < before.rows.len() && (#[trigger] before.rows[i]).id
                                        == before.last_id;
                                assert(table@.rows[i].id == table@.last_id);
                            } else {
                                assert(table@.rows[k as int].id == table@.last_id);
                            }
                        }
                    }
                },
                Err(_) => {
                    proof {
                        let i = choose|i: int|
                            0 <= i < before.rows.len() && (#[trigger] before.rows[i]).id == row.id;
                        assert(views[i].id == views[k as int].id);
                    }
                    return None;
                },
            }
            k += 1;
        }
        assert(views.take(k as int) =~= views);
        Some(table)
    }

    /// The rows in insertion order.
    pub fn rows(&self) -> (rows: &Vec<StoredNote>)
        ensures
            stored_views(rows@) == self@.rows,
            self@.well_formed(),
    {
        proof {
            use_type_invariant(self);
        }
        &self.rows
    }

    /// The number of rows.
    pub fn len(&self) -> (n: usize)
        ensures
            n == self@.rows.len(),
    {
        self.rows.len()
    }

    /// The highest identifier handed out so far.
    pub fn last_id(&self) -> (id: i32)
        ensures
            id == self@.last_id,
            self@.well_formed(),
    {
        proof {
            use_type_invariant(self);
        }
        self.last_id
    }

    /// Where the row with the identifier stands.
    pub fn position(&self, id: i32) -> (res: Option<usize>)
        ensures
            self@.well_formed(),
            res is Some <==> has_id(self@.rows, id as int),
            res matches Some(k) ==> k < self@.rows.len() && self@.rows[k as int].id == id,
    {
        proof {
            use_type_invariant(self);
        }
        let mut k: usize = 0;
        while k < self.rows.len()
            invariant
                k <= self.rows.len(),
                forall|i: int| 0 <= i < k ==> (#[trigger] self@.rows[i]).id != id,
                self@.rows.len() == self.rows.len(),
                self@.well_formed(),
            decreases self.rows.len() - k,
        {
            if self.rows[k].id == id {
                assert(self@.rows[k as int].id == id);
                return Some(k);
            }
            k += 1;
        }
        None
    }

    /// Appends a row. With `wanted` it carries that identifier, which must be
    /// free; without, the successor of the highest identifier handed out. A
    /// modification time before the creation time is moved up to it.
    pub fn insert(
        &mut self,
        wanted: Option<i32>,
        note: Vec<u8>,
        priority: Vec<u8>,
        created_at: Timestamp,
        modified_at: Option<Timestamp>,
    ) -> (res: Result<i32, NoteError>)
        ensures
            final(self)@.well_formed(),
            match old(self)@.insert_refusal(wanted) {
                Some(e) => res == Err::<i32, NoteError>(e) && final(self)@ == old(self)@,
                None => res == Ok::<i32, NoteError>(old(self)@.next_id(wanted) as i32)
                    && final(self)@ == old(self)@.with_row(
                    StoredView {
                        id: old(self)@.next_id(wanted),
                        note: note@,
                        priority: priority@,
                        created_at,
                        modified_at: settled(created_at, modified_at),
                    },
                ),
            },
    {
        proof {
            use_type_invariant(&*self);
        }
        let id: i32 = match wanted {
            Some(id) => {
                if self.position(id).is_some() {
                    return Err(NoteError::DuplicateId);
                }
                id
            },
            None => {
                if self.last_id == i32::MAX {
                    return Err(NoteError::StoreFull);
                }
                self.last_id + 1
            },
        };
        let kept: Option<Timestamp> = match modified_at {
            Some(m) => Some(m.later_of(created_at)),
            None => None,
        };
        let row = StoredNote { id, note, priority, created_at, modified_at: kept };
        let ghost before = self@;
        let ghost row_view = row@;
        proof {
            let after = before.rows.push(row@);
            assert(stored_views(self.rows@.push(row)) =~= after);
            assert(distinct_ids(after)) by {
                assert forall|i: int, j: int| 0 <= i < j < after.len() implies after[i].id
                    != after[j].id by {
                    if j == before.rows.len() {
                        assert(after[i] == before.rows[i]);
                    } else {
                        assert(after[i] == before.rows[i]);
                        assert(after[j] == before.rows[j]);
                    }
                }
            }
            assert forall|i: int| 0 <= i < after.len() implies i32::MIN <= (#[trigger] after[i]).id
                <= (if id > before.last_id {
                id as int
            } else {
                before.last_id
            }) && after[i].times_in_order() by {
                if i < before.rows.len() {
                    assert(after[i] == before.rows[i]);
                }
            }
        }
        if id > self.last_id {
            self.last_id = id;
        }
        let mut rows: Vec<StoredNote> = Vec::new();
        assert(stored_views(rows@) =~= Seq::<StoredView>::empty());
        std::mem::swap(&mut self.rows, &mut rows);
        rows.push(row);
        self.rows = rows;
        assert(self@.rows == before.rows.push(row_view));
        Ok(id)
    }

    /// Removes the row with the identifier, if there is one, and says how
    /// many rows went.
    pub fn remove(&mut self, id: i32) -> (removed: usize)
        ensures
            final(self)@.well_formed(),
            final(self)@ == old(self)@.without_id(id as int),
            removed == if has_id(old(self)@.rows, id as int) { 1usize } else { 0usize },
            removed == old(self)@.rows.len() - final(self)@.rows.len(),
    {
        proof {
            use_type_invariant(&*self);
        }
        match self.position(id) {
            None => {
                proof {
                    lemma_filter_keeps_all(self@.rows, id as int);
                }
                0
            },
            Some(k) => {
                proof {
                    lemma_remove_row(self@.rows, self@.last_id, k as int);
                    assert(stored_views(self.rows@.remove(k as int)) =~= self@.rows.remove(
                        k as int,
                    ));
                }
                let mut rows: Vec<StoredNote> = Vec::new();
                assert(stored_views(rows@) =~= Seq::<StoredView>::empty());
                std::mem::swap(&mut self.rows, &mut rows);
                rows.remove(k);
                self.rows = rows;
                1
            },
        }
    }

    /// Replaces the blobs given in the row at `index` and stamps it as
    /// modified at `now`, or at its creation time if that is later.
    pub(crate) fn amend(
        &mut self,
        index: usize,
        note: Option<Vec<u8>>,
        priority: Option<Vec<u8>>,
        now: Timestamp,
    )
        requires
            index < old(self)@.rows.len(),
        ensures
            final(self)@.well_formed(),
            final(self)@.last_id == old(self)@.last_id,
            final(self)@.rows == old(self)@.rows.update(
                index as int,
                old(self)@.rows[index as int].amended(blob_view(note), blob_view(priority), now),
            ),
    {
        proof {
            use_type_invariant(&*self);
        }
        let ghost before = self@;
        let ghost note_view = blob_view(note);
        let ghost priority_view = blob_view(priority);
        let mut rows: Vec<StoredNote> = Vec::new();
        assert(stored_views(rows@) =~= Seq::<StoredView>::empty());
        std::mem::swap(&mut self.rows, &mut rows);
        let ghost old_rows = rows@;
        let current = rows.remove(index);
        let amended = StoredNote {
            id: current.id,
            note: match note {
                Some(blob) => blob,
                None => current.note,
            },
            priority: match priority {
                Some(blob) => blob,
                None => current.priority,
            },
            created_at: current.created_at,
            modified_at: Some(now.later_of(current.created_at)),
        };
        let ghost amended_view = amended@;
        let ghost amended_row = amended;
        rows.insert(index, amended);
        proof {
            assert(stored_views(old_rows) == before.rows);
            assert(old_rows[index as int]@ == before.rows[index as int]);
            assert(amended_view == before.rows[index as int].amended(
                note_view,
                priority_view,
                now,
            ));
            assert(rows@ =~= old_rows.update(index as int, amended_row));
            let after = before.rows.update(
                index as int,
                before.rows[index as int].amended(note_view, priority_view, now),
            );
            assert(stored_views(rows@) =~= after);
            assert forall|i: int, j: int| 0 <= i < j < after.len() implies after[i].id
                != after[j].id by {
                assert(after[i].id == before.rows[i].id);
                assert(after[j].id == before.rows[j].id);
            }
            assert forall|i: int| 0 <= i < after.len() implies i32::MIN <= (#[trigger] after[i]).id
                <= before.last_id && after[i].times_in_order() by {
                assert(after[i].id == before.rows[i].id);
                if i != index {
                    assert(after[i] == before.rows[i]);
                }
            }
        }
        self.rows = rows;
    }

    /// Replaces every row by the rows given, all or nothing. The rows are
    /// taken in one after the other: identifier 0 asks for a fresh one, any
    /// other must not stand twice. On a refusal the table is as it was.
    pub fn replace_with(&mut self, rows: &Vec<StoredNote>) -> (res: Result<usize, NoteError>)
        ensures
            final(self)@.well_formed(),
            match old(self)@.emptied().with_all_imported(stored_views(rows@)) {
                Ok(table) => res == Ok::<usize, NoteError>(rows@.len() as usize) && final(self)@
                    == table,
                Err(e) => res == Err::<usize, NoteError>(e) && final(self)@ == old(self)@,
            },
    {
        proof {
            use_type_invariant(&*self);
        }
        let ghost before = self@;
        let ghost start = self@.emptied();
        let ghost views = stored_views(rows@);
        let mut fresh = NoteTable { rows: Vec::new(), last_id: self.last_id };
        assert(fresh@.rows =~= Seq::<StoredView>::empty());
        assert(views.take(0) =~= Seq::<StoredView>::empty());
        let mut k: usize = 0;
        while k < rows.len()
            invariant
                k <= rows@.len(),
                views == stored_views(rows@),
                self@ == before,
                before == old(self)@,
                start == before.emptied(),
                before.well_formed(),
                start.with_all_imported(views.take(k as int)) == Ok::<TableView, NoteError>(
                    fresh@,
                ),
            decreases rows@.len() - k,
        {
            let row = rows[k].duplicate();
            proof {
                assert(views.take(k + 1).drop_last() =~= views.take(k as int));
                assert(views.take(k + 1).last() == row@);
            }
            let wanted = if row.id == 0 {
                None
            } else {
                Some(row.id)
            };
            let ghost staged = fresh@;
            assert(wanted == wanted_id(row@.id));
            match fresh.insert(wanted, row.note, row.priority, row.created_at, row.modified_at) {
                Ok(_) => {},
                Err(e) => {
                    proof {
                        assert(staged.with_imported(row@) == Err::<TableView, NoteError>(e));
                        assert(start.with_all_imported(views.take(k + 1)) == Err::<
                            TableView,
                            NoteError,
                        >(e));
                        lemma_refusal_stays(start, views, k + 1);
                    }
                    return Err(e);
                },
            }
            k += 1;
        }
        assert(views.take(k as int) =~= views);
        proof {
            use_type_invariant(&fresh);
        }
        *self = fresh;
        Ok(rows.len())
    }
}

} // verus!

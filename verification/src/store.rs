//! The record store: creating, reading, changing and removing notes, with
//! body and priority sealed on the way in and opened on the way out.

use vstd::prelude::*;
use vstd::utf8::*;

use crate::cipher::{encrypt_data, is_sealed, SecretKey, MAX_PLAINTEXT_LEN};
use crate::error::NoteError;
use crate::listing::{
    as_ints, count_shown, is_listing, listing_order, picked_rows, shown_count, ListOrder,
};
use crate::note::{
    decoded_all, lemma_failure_stays, note_views, opens_to, stored_views, Note, NoteView,
    StoredNote, StoredView,
};
use crate::priority::Priority;
use crate::table::{has_id, settled, NoteTable, TableView};
use crate::text::{body_matches, matches_keyword};
use crate::timestamp::Timestamp;

verus! {

/// How an edit ended.
#[derive(Debug, Clone, Copy, PartialEq, Eq, Structural)]
pub enum EditOutcome {
    /// Neither a new body nor a new priority was given; nothing was touched.
    NothingChanged,
    /// No row carries the identifier; nothing was touched.
    NotFound,
    /// The row was rewritten and stamped as modified.
    Updated,
}

/// What an optional text holds.
pub open spec fn text_view(text: Option<&str>) -> Option<Seq<char>> {
    match text {
        Some(s) => Some(s@),
        None => None,
    }
}

/// Whether `row` is a freshly created note: it carries `id`, was created at
/// `now` and never modified, its two blobs are `body` and the label of
/// `priority` sealed under `key`, and so it opens to the note created.
pub open spec fn created_row(
    row: StoredView,
    key: Seq<u8>,
    id: int,
    body: Seq<char>,
    priority: Priority,
    now: Timestamp,
) -> bool {
    &&& row.id == id
    &&& row.created_at == now
    &&& row.modified_at.is_none()
    &&& is_sealed(row.note, key, body)
    &&& is_sealed(row.priority, key, priority.label_text())
    &&& row.decoded(key) == Ok::<NoteView, NoteError>(
        NoteView { id, note: body, priority, created_at: now, modified_at: None },
    )
}

/// Whether `after` is `before` edited at `now`: identifier and creation time
/// stay, the modification time is `now` (or the creation time, if that is
/// later), a field that was given holds the new value sealed under `key`,
/// and a field that was not given keeps its blob.
pub open spec fn edited_row(
    before: StoredView,
    after: StoredView,
    key: Seq<u8>,
    body: Option<Seq<char>>,
    priority: Option<Priority>,
    now: Timestamp,
) -> bool {
    &&& after.id == before.id
    &&& after.created_at == before.created_at
    &&& after.modified_at == settled(before.created_at, Some(now))
    &&& match body {
        Some(text) => is_sealed(after.note, key, text),
        None => after.note == before.note,
    }
    &&& match priority {
        Some(p) => is_sealed(after.priority, key, p.label_text()),
        None => after.priority == before.priority,
    }
}

/// What an update owes: with nothing to change it reports so and leaves the
/// table alone; a body too long to seal is an error that leaves the table
/// alone; an identifier that no row carries is reported and leaves the table
/// alone; otherwise exactly the row with the identifier is edited.
pub open spec fn update_outcome(
    before: TableView,
    after: TableView,
    res: Result<EditOutcome, NoteError>,
    key: Seq<u8>,
    id: int,
    body: Option<Seq<char>>,
    priority: Option<Priority>,
    now: Timestamp,
) -> bool {
    if body.is_none() && priority.is_none() {
        res == Ok::<EditOutcome, NoteError>(EditOutcome::NothingChanged) && after == before
    } else if body matches Some(text) && encode_utf8(text).len() > MAX_PLAINTEXT_LEN {
        res == Err::<EditOutcome, NoteError>(NoteError::Encryption) && after == before
    } else if !has_id(before.rows, id) {
        res == Ok::<EditOutcome, NoteError>(EditOutcome::NotFound) && after == before
    } else {
        &&& res == Ok::<EditOutcome, NoteError>(EditOutcome::Updated)
        &&& after.last_id == before.last_id
        &&& after.rows.len() == before.rows.len()
        &&& forall|i: int|
            0 <= i < before.rows.len() ==> if (#[trigger] before.rows[i]).id == id {
                edited_row(before.rows[i], after.rows[i], key, body, priority, now)
            } else {
                after.rows[i] == before.rows[i]
            }
    }
}

/// Creates a note: resolves the priority selector (anything but 1 and 3 is
/// Medium), seals body and label each with a nonce of its own, and appends
/// the row with the next identifier, which no row carries and none carried
/// before, created at `now` and not yet modified.
///
/// Fails with `Encryption` when the body is too long to seal, else with
/// `StoreFull` when no identifier is left; either way the table is untouched.
pub fn add_note(
    table: &mut NoteTable,
    key: &SecretKey,
    note: &str,
    prio_choice: Option<i32>,
    now: Timestamp,
) -> (res: Result<i32, NoteError>)
    ensures
        final(table)@.well_formed(),
        if encode_utf8(note@).len() > MAX_PLAINTEXT_LEN {
            res == Err::<i32, NoteError>(NoteError::Encryption) && final(table)@ == old(table)@
        } else if old(table)@.last_id >= i32::MAX {
            res == Err::<i32, NoteError>(NoteError::StoreFull) && final(table)@ == old(table)@
        } else {
            &&& res == Ok::<i32, NoteError>((old(table)@.last_id + 1) as i32)
            &&& !has_id(old(table)@.rows, old(table)@.last_id + 1)
            &&& final(table)@.last_id == old(table)@.last_id + 1
            &&& final(table)@.rows.len() == old(table)@.rows.len() + 1
            &&& final(table)@.rows.drop_last() == old(table)@.rows
            &&& created_row(
                final(table)@.rows.last(),
                key@,
                old(table)@.last_id + 1,
                note@,
                Priority::of_choice(prio_choice),
                now,
            )
        },
{
    proof {
        use_type_invariant(&*table);
    }
    let ghost before = table@;
    let priority = Priority::from_choice(prio_choice);
    let encrypted_note = match encrypt_data(note, key) {
        Ok(blob) => blob,
        Err(_) => {
            return Err(NoteError::Encryption);
        },
    };
    proof {
        Priority::lemma_label_is_short(priority);
        Priority::lemma_label_round_trip(priority);
    }
    let encrypted_priority = match encrypt_data(priority.label(), key) {
        Ok(blob) => blob,
        Err(_) => {
            return Err(NoteError::Encryption);
        },
    };
    let res = table.insert(None, encrypted_note, encrypted_priority, now, None);
    proof {
        if res is Ok {
            assert(table@.rows.drop_last() =~= before.rows);
        }
    }
    res
}

/// Removes the note with the identifier and says how many rows went: one, or
/// none where no row carries it, which is no error.
pub fn delete_note(table: &mut NoteTable, id: i32) -> (removed: usize)
    ensures
        final(table)@.well_formed(),
        final(table)@ == old(table)@.without_id(id as int),
        removed == if has_id(old(table)@.rows, id as int) { 1usize } else { 0usize },
        removed == old(table)@.rows.len() - final(table)@.rows.len(),
{
    table.remove(id)
}

/// Updates the note with the identifier: a body that is given is sealed and
/// replaces the stored one, and so is a priority; the row is stamped as
/// modified at `now`. With neither given, nothing is touched.
pub fn update_note(
    table: &mut NoteTable,
    key: &SecretKey,
    id: i32,
    new_body: Option<&str>,
    new_priority: Option<Priority>,
    now: Timestamp,
) -> (res: Result<EditOutcome, NoteError>)
    ensures
        final(table)@.well_formed(),
        update_outcome(
            old(table)@,
            final(table)@,
            res,
            key@,
            id as int,
            text_view(new_body),
            new_priority,
            now,
        ),
{
    proof {
        use_type_invariant(&*table);
    }
    let ghost before = table@;
    if new_body.is_none() && new_priority.is_none() {
        return Ok(EditOutcome::NothingChanged);
    }
    let encrypted_note: Option<Vec<u8>> = match new_body {
        Some(text) => match encrypt_data(text, key) {
            Ok(blob) => Some(blob),
            Err(_) => {
                    return Err(NoteError::Encryption);
            },
        },
        None => None,
    };
    let encrypted_priority: Option<Vec<u8>> = match new_priority {
        Some(p) => {
            proof {
                Priority::lemma_label_is_short(p);
            }
            match encrypt_data(p.label(), key) {
                Ok(blob) => Some(blob),
                Err(_) => {
                            return Err(NoteError::Encryption);
                },
            }
        },
        None => None,
    };
    match table.position(id) {
        None => Ok(EditOutcome::NotFound),
        Some(k) => {
            table.amend(k, encrypted_note, encrypted_priority, now);
            proof {
                let after = table@;
                assert forall|i: int| 0 <= i < before.rows.len() implies if (
                #[trigger] before.rows[i]).id == id {
                    edited_row(
                        before.rows[i],
                        after.rows[i],
                        key@,
                        text_view(new_body),
                        new_priority,
                        now,
                    )
                } else {
                    after.rows[i] == before.rows[i]
                } by {
                    if i != k {
                        assert(before.rows[i].id != before.rows[k as int].id);
                    }
                }
            }
            Ok(EditOutcome::Updated)
        },
    }
}

/// Edits a note as the owner typed it: an empty `note` keeps the body, and a
/// priority selector other than 1, 2 or 3 keeps the priority.
pub fn edit_note(
    table: &mut NoteTable,
    key: &SecretKey,
    id: i32,
    note: &str,
    prio_choice: Option<i32>,
    now: Timestamp,
) -> (res: Result<EditOutcome, NoteError>)
    ensures
        final(table)@.well_formed(),
        update_outcome(
            old(table)@,
            final(table)@,
            res,
            key@,
            id as int,
            if note@.len() == 0 {
                None
            } else {
                Some(note@)
            },
            Priority::of_change(prio_choice),
            now,
        ),
{
    let new_body: Option<&str> = if note.is_empty() {
        None
    } else {
        Some(note)
    };
    update_note(table, key, id, new_body, Priority::from_change(prio_choice), now)
}

/// Changes the priority of a note; a selector other than 1, 2 or 3 changes
/// nothing.
pub fn change_priority(
    table: &mut NoteTable,
    key: &SecretKey,
    id: i32,
    prio_choice: Option<i32>,
    now: Timestamp,
) -> (res: Result<EditOutcome, NoteError>)
    ensures
        final(table)@.well_formed(),
        update_outcome(
            old(table)@,
            final(table)@,
            res,
            key@,
            id as int,
            None,
            Priority::of_change(prio_choice),
            now,
        ),
{
    update_note(table, key, id, None, Priority::from_change(prio_choice), now)
}

/// Fetches the note with the identifier and opens it; `None` where no row
/// carries it. A row that does not open is an error.
pub fn view_note_by_id(table: &NoteTable, key: &SecretKey, id: i32) -> (res: Result<
    Option<Note>,
    NoteError,
>)
    ensures
        !has_id(table@.rows, id as int) ==> res matches Ok(None),
        forall|k: int|
            0 <= k < table@.rows.len() && (#[trigger] table@.rows[k]).id == id ==> match table@.rows[k].decoded(
                key@,
            ) {
                Ok(note) => res matches Ok(Some(n)) && n@ == note,
                Err(e) => res matches Err(f) && f == e,
            },
{
    match table.position(id) {
        None => Ok(None),
        Some(k) => {
            let rows = table.rows();
            assert(rows@[k as int]@ == table@.rows[k as int]);
            assert forall|j: int|
                0 <= j < table@.rows.len() && (#[trigger] table@.rows[j]).id == id implies j
                == k by {
                if j != k {
                    assert(table@.rows[j].id != table@.rows[k as int].id);
                }
            }
            match rows[k].open(key) {
                Ok(note) => Ok(Some(note)),
                Err(e) => Err(e),
            }
        },
    }
}

/// Whether `res` is the listing of the first `count` rows in `order`, opened
/// under `key`: the notes of the rows picked, or the failure of the first
/// picked row that does not open.
pub open spec fn listed(
    rows: Seq<StoredView>,
    key: Seq<u8>,
    order: ListOrder,
    count: int,
    res: Result<Vec<Note>, NoteError>,
) -> bool {
    exists|picks: Seq<int>| #[trigger]
        is_listing(rows, order, count, picks) && opens_to(
            decoded_all(picked_rows(rows, picks), key),
            res,
        )
}

/// The notes in priority precedence: the High ones, then the Medium ones,
/// then the Low ones, each group in the order given.
pub open spec fn by_precedence(notes: Seq<NoteView>) -> Seq<NoteView> {
    notes.filter(|n: NoteView| n.priority == Priority::High) + notes.filter(
        |n: NoteView| n.priority == Priority::Medium,
    ) + notes.filter(|n: NoteView| n.priority == Priority::Low)
}

/// Putting notes in priority precedence loses none and adds none.
pub proof fn lemma_precedence_keeps_len(notes: Seq<NoteView>)
    ensures
        by_precedence(notes).len() == notes.len(),
    decreases notes.len(),
{
    let high = |n: NoteView| n.priority == Priority::High;
    let medium = |n: NoteView| n.priority == Priority::Medium;
    let low = |n: NoteView| n.priority == Priority::Low;
    if notes.len() == 0 {
        assert(notes.filter(high).len() == 0 && notes.filter(medium).len() == 0 && notes.filter(
            low,
        ).len() == 0) by {
            reveal(Seq::filter);
        }
    } else {
        let front = notes.drop_last();
        let last = notes.last();
        assert(front.push(last) =~= notes);
        lemma_precedence_keeps_len(front);
        Seq::lemma_filter_push(front, last, high);
        Seq::lemma_filter_push(front, last, medium);
        Seq::lemma_filter_push(front, last, low);
    }
}

/// In priority precedence no note stands before one of higher priority:
/// the ranks never fall along the listing.
pub proof fn lemma_precedence_is_ranked(notes: Seq<NoteView>, i: int, j: int)
    requires
        0 <= i <= j < by_precedence(notes).len(),
    ensures
        by_precedence(notes)[i].priority.rank_of() <= by_precedence(notes)[j].priority.rank_of(),
{
    let high = notes.filter(|n: NoteView| n.priority == Priority::High);
    let medium = notes.filter(|n: NoteView| n.priority == Priority::Medium);
    let low = notes.filter(|n: NoteView| n.priority == Priority::Low);
    let listing = by_precedence(notes);
    assert forall|k: int| 0 <= k < listing.len() implies (#[trigger] listing[k]).priority.rank_of()
        == if k < high.len() {
        1int
    } else if k < high.len() + medium.len() {
        2int
    } else {
        3int
    } by {
        if k < high.len() {
            notes.lemma_filter_pred(|n: NoteView| n.priority == Priority::High, k);
            assert(listing[k] == high[k]);
        } else if k < high.len() + medium.len() {
            notes.lemma_filter_pred(|n: NoteView| n.priority == Priority::Medium, k - high.len());
            assert(listing[k] == medium[k - high.len()]);
        } else {
            notes.lemma_filter_pred(
                |n: NoteView| n.priority == Priority::Low,
                k - high.len() - medium.len(),
            );
            assert(listing[k] == low[k - high.len() - medium.len()]);
        }
    }
}

/// The first `count` notes of an outcome, where it is one of notes.
pub open spec fn precedence_listing(
    all: Result<Seq<NoteView>, NoteError>,
    limit: Option<i64>,
) -> Result<Seq<NoteView>, NoteError> {
    match all {
        Ok(notes) => Ok(by_precedence(notes).take(shown_count(limit, notes.len() as int))),
        Err(e) => Err(e),
    }
}

/// The notes of an outcome whose body matches the keyword.
pub open spec fn search_result(
    all: Result<Seq<NoteView>, NoteError>,
    keyword: Seq<char>,
) -> Result<Seq<NoteView>, NoteError> {
    match all {
        Ok(notes) => Ok(notes.filter(|n: NoteView| body_matches(n.note, keyword))),
        Err(e) => Err(e),
    }
}

/// Opens the rows that `picks` names, in the picks' order, and stops at the
/// first that does not open.
fn open_picked(rows: &Vec<StoredNote>, picks: &Vec<usize>, key: &SecretKey) -> (res: Result<
    Vec<Note>,
    NoteError,
>)
    requires
        forall|i: int| 0 <= i < picks@.len() ==> picks@[i] < rows@.len(),
    ensures
        opens_to(decoded_all(picked_rows(stored_views(rows@), as_ints(picks@)), key@), res),
{
    let ghost picked = picked_rows(stored_views(rows@), as_ints(picks@));
    let mut notes: Vec<Note> = Vec::new();
    let mut k: usize = 0;
    assert(picked.take(0) =~= Seq::<StoredView>::empty());
    assert(note_views(notes@) =~= Seq::<NoteView>::empty());
    while k < picks.len()
        invariant
            k <= picks@.len(),
            picked == picked_rows(stored_views(rows@), as_ints(picks@)),
            forall|i: int| 0 <= i < picks@.len() ==> picks@[i] < rows@.len(),
            decoded_all(picked.take(k as int), key@) == Ok::<Seq<NoteView>, NoteError>(
                note_views(notes@),
            ),
        decreases picks@.len() - k,
    {
        let row = &rows[picks[k]];
        proof {
            assert(picked.take(k + 1).drop_last() =~= picked.take(k as int));
            assert(picked.take(k + 1).last() == row@);
        }
        match row.open(key) {
            Ok(note) => {
                let ghost before = note_views(notes@);
                notes.push(note);
                assert(note_views(notes@) =~= before.push(note@));
            },
            Err(e) => {
                proof {
                    lemma_failure_stays(picked, key@, k + 1);
                }
                return Err(e);
            },
        }
        k += 1;
    }
    assert(picked.take(k as int) =~= picked);
    Ok(notes)
}

/// Opens every row of the table, in table order.
pub(crate) fn open_all(table: &NoteTable, key: &SecretKey) -> (res: Result<Vec<Note>, NoteError>)
    ensures
        opens_to(decoded_all(table@.rows, key@), res),
{
    let rows = table.rows();
    let mut picks: Vec<usize> = Vec::new();
    let mut k: usize = 0;
    while k < rows.len()
        invariant
            k <= rows@.len(),
            picks@.len() == k,
            forall|i: int| 0 <= i < k ==> picks@[i] == i,
        decreases rows@.len() - k,
    {
        picks.push(k);
        k += 1;
    }
    assert(picked_rows(stored_views(rows@), as_ints(picks@)) =~= stored_views(rows@));
    open_picked(rows, &picks, key)
}

/// Lists notes by one field, highest first: `order_by` names `id`,
/// `createdAt` or `modifiedAt`, and anything else, or no name, means
/// `createdAt`. At most `limit` notes are shown: ten where no limit is given,
/// all under a negative one. Only the rows shown are opened.
pub fn show_notes(
    table: &NoteTable,
    key: &SecretKey,
    limit: Option<i64>,
    order_by: Option<&str>,
) -> (res: Result<Vec<Note>, NoteError>)
    ensures
        listed(
            table@.rows,
            key@,
            ListOrder::resolved(text_view(order_by)),
            shown_count(limit, table@.rows.len() as int),
            res,
        ),
{
    let order = match order_by {
        Some(name) => match ListOrder::from_name(name) {
            Some(order) => order,
            None => ListOrder::CreatedDescending,
        },
        None => ListOrder::CreatedDescending,
    };
    let rows = table.rows();
    let count = count_shown(limit, rows.len());
    let picks = listing_order(rows, order, count);
    let res = open_picked(rows, &picks, key);
    assert(is_listing(table@.rows, order, count as int, as_ints(picks@)));
    res
}

/// Shows the listing again, as `show_notes` does.
pub fn refresh_data(
    table: &NoteTable,
    key: &SecretKey,
    limit: Option<i64>,
    order_by: Option<&str>,
) -> (res: Result<Vec<Note>, NoteError>)
    ensures
        listed(
            table@.rows,
            key@,
            ListOrder::resolved(text_view(order_by)),
            shown_count(limit, table@.rows.len() as int),
            res,
        ),
{
    show_notes(table, key, limit, order_by)
}

/// Lists every note, lowest identifier first.
pub fn show_all_notes(table: &NoteTable, key: &SecretKey) -> (res: Result<Vec<Note>, NoteError>)
    ensures
        listed(table@.rows, key@, ListOrder::IdAscending, table@.rows.len() as int, res),
{
    let rows = table.rows();
    let picks = listing_order(rows, ListOrder::IdAscending, rows.len());
    let res = open_picked(rows, &picks, key);
    assert(is_listing(table@.rows, ListOrder::IdAscending, rows@.len() as int, as_ints(picks@)));
    res
}

/// Appends to `out` copies of the notes of priority `wanted`, in order.
fn collect_priority(all: &Vec<Note>, wanted: Priority, out: &mut Vec<Note>)
    ensures
        note_views(final(out)@) == note_views(old(out)@) + note_views(all@).filter(
            |n: NoteView| n.priority == wanted,
        ),
{
    let ghost start = note_views(out@);
    let ghost views = note_views(all@);
    let ghost keep = |n: NoteView| n.priority == wanted;
    let mut k: usize = 0;
    assert(views.take(0) =~= Seq::<NoteView>::empty());
    assert(start + views.take(0).filter(keep) =~= start);
    while k < all.len()
        invariant
            k <= all@.len(),
            views == note_views(all@),
            keep == |n: NoteView| n.priority == wanted,
            note_views(out@) == start + views.take(k as int).filter(keep),
        decreases all@.len() - k,
    {
        proof {
            assert(views.take(k + 1) =~= views.take(k as int).push(views[k as int]));
            Seq::lemma_filter_push(views.take(k as int), views[k as int], keep);
        }
        if all[k].priority == wanted {
            let ghost before = note_views(out@);
            out.push(all[k].duplicate());
            assert(note_views(out@) =~= before.push(views[k as int]));
            assert(note_views(out@) =~= start + views.take(k + 1).filter(keep));
        }
        k += 1;
    }
    assert(views.take(k as int) =~= views);
}

/// Lists notes in priority precedence: High before Medium before Low, notes
/// of one priority in table order. Every row is opened to learn its
/// priority; then at most `limit` notes are shown: ten where no limit is
/// given, all under a negative one.
pub fn show_notes_by_priority(table: &NoteTable, key: &SecretKey, limit: Option<i64>) -> (res:
    Result<Vec<Note>, NoteError>)
    ensures
        opens_to(precedence_listing(decoded_all(table@.rows, key@), limit), res),
{
    let all = match open_all(table, key) {
        Ok(all) => all,
        Err(e) => {
            return Err(e);
        },
    };
    let mut out: Vec<Note> = Vec::new();
    assert(note_views(out@) =~= Seq::<NoteView>::empty());
    collect_priority(&all, Priority::High, &mut out);
    collect_priority(&all, Priority::Medium, &mut out);
    collect_priority(&all, Priority::Low, &mut out);
    assert(note_views(out@) =~= by_precedence(note_views(all@)));
    proof {
        lemma_precedence_keeps_len(note_views(all@));
    }
    let count = count_shown(limit, all.len());
    let ghost full = note_views(out@);
    if count < out.len() {
        out.truncate(count);
    }
    assert(note_views(out@) =~= full.take(count as int));
    Ok(out)
}

/// Finds the notes whose body contains the keyword, letter case aside, in
/// table order. Every row is opened, so one that does not open fails the
/// search.
pub fn search_notes(table: &NoteTable, key: &SecretKey, keyword: &str) -> (res: Result<
    Vec<Note>,
    NoteError,
>)
    ensures
        opens_to(search_result(decoded_all(table@.rows, key@), keyword@), res),
{
    let all = match open_all(table, key) {
        Ok(all) => all,
        Err(e) => {
            return Err(e);
        },
    };
    let ghost views = note_views(all@);
    let ghost keep = |n: NoteView| body_matches(n.note, keyword@);
    let mut found: Vec<Note> = Vec::new();
    let mut k: usize = 0;
    assert(views.take(0) =~= Seq::<NoteView>::empty());
    assert(note_views(found@) =~= views.take(0).filter(keep));
    while k < all.len()
        invariant
            k <= all@.len(),
            views == note_views(all@),
            keep == |n: NoteView| body_matches(n.note, keyword@),
            note_views(found@) == views.take(k as int).filter(keep),
        decreases all@.len() - k,
    {
        proof {
            assert(views.take(k + 1) =~= views.take(k as int).push(views[k as int]));
            Seq::lemma_filter_push(views.take(k as int), views[k as int], keep);
        }
        if matches_keyword(all[k].note.as_str(), keyword) {
            let ghost before = note_views(found@);
            found.push(all[k].duplicate());
            assert(note_views(found@) =~= before.push(views[k as int]));
        }
        k += 1;
    }
    assert(views.take(k as int) =~= views);
    Ok(found)
}

} // verus!

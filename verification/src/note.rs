//! A note as its owner reads it, and as the table keeps it.

use vstd::prelude::*;
use vstd::slice::slice_to_vec;

use crate::cipher::{decrypt_data, opened, SecretKey};
use crate::error::NoteError;
use crate::priority::Priority;
use crate::timestamp::Timestamp;

verus! {

/// A note in the clear.
#[derive(Debug, Clone, PartialEq, Eq)]
pub struct Note {
    pub id: i32,
    pub note: String,
    pub priority: Priority,
    pub created_at: Timestamp,
    pub modified_at: Option<Timestamp>,
}

/// What a `Note` holds.
pub struct NoteView {
    pub id: int,
    pub note: Seq<char>,
    pub priority: Priority,
    pub created_at: Timestamp,
    pub modified_at: Option<Timestamp>,
}

impl View for Note {
    type V = NoteView;

    open spec fn view(&self) -> NoteView {
        NoteView {
            id: self.id as int,
            note: self.note@,
            priority: self.priority,
            created_at: self.created_at,
            modified_at: self.modified_at,
        }
    }
}

/// A row of the table: body and priority label are sealed blobs, the rest is
/// in the clear.
#[derive(Debug, Clone, PartialEq, Eq)]
pub struct StoredNote {
    pub id: i32,
    pub note: Vec<u8>,
    pub priority: Vec<u8>,
    pub created_at: Timestamp,
    pub modified_at: Option<Timestamp>,
}

/// What a `StoredNote` holds.
pub struct StoredView {
    pub id: int,
    pub note: Seq<u8>,
    pub priority: Seq<u8>,
    pub created_at: Timestamp,
    pub modified_at: Option<Timestamp>,
}

impl View for StoredNote {
    type V = StoredView;

    open spec fn view(&self) -> StoredView {
        StoredView {
            id: self.id as int,
            note: self.note@,
            priority: self.priority@,
            created_at: self.created_at,
            modified_at: self.modified_at,
        }
    }
}

impl StoredView {
    /// The note that the row opens to under `key`: the body's failure comes
    /// before the label's, and a label that names no priority reads as Medium.
    pub open spec fn decoded(self, key: Seq<u8>) -> Result<NoteView, NoteError> {
        match opened(key, self.note) {
            Err(e) => Err(e),
            Ok(body) => match opened(key, self.priority) {
                Err(e) => Err(e),
                Ok(label) => Ok(
                    NoteView {
                        id: self.id,
                        note: body,
                        priority: Priority::of_label(label),
                        created_at: self.created_at,
                        modified_at: self.modified_at,
                    },
                ),
            },
        }
    }

    /// Whether the modification time, where there is one, is no earlier than
    /// the creation time.
    pub open spec fn times_in_order(self) -> bool {
        self.modified_at matches Some(m) ==> !m.earlier_than(&self.created_at)
    }
}

/// The views of a sequence of rows.
pub open spec fn stored_views(rows: Seq<StoredNote>) -> Seq<StoredView> {
    rows.map_values(|r: StoredNote| r@)
}

/// The views of a sequence of notes.
pub open spec fn note_views(notes: Seq<Note>) -> Seq<NoteView> {
    notes.map_values(|n: Note| n@)
}

/// The notes that the rows open to under `key`, in the rows' order, or the
/// failure of the first row that does not open.
pub open spec fn decoded_all(rows: Seq<StoredView>, key: Seq<u8>) -> Result<
    Seq<NoteView>,
    NoteError,
>
    decreases rows.len(),
{
    if rows.len() == 0 {
        Ok(Seq::empty())
    } else {
        match decoded_all(rows.drop_last(), key) {
            Err(e) => Err(e),
            Ok(notes) => match rows.last().decoded(key) {
                Err(e) => Err(e),
                Ok(note) => Ok(notes.push(note)),
            },
        }
    }
}

/// Whether `res` is what `expected` asks for: the same notes, or the same
/// failure.
pub open spec fn opens_to(
    expected: Result<Seq<NoteView>, NoteError>,
    res: Result<Vec<Note>, NoteError>,
) -> bool {
    match expected {
        Ok(notes) => res matches Ok(v) && note_views(v@) == notes,
        Err(e) => res matches Err(f) && f == e,
    }
}

/// Where all rows open, there is one note for each row, and it is the note
/// that the row opens to.
pub proof fn lemma_decoded_each(rows: Seq<StoredView>, key: Seq<u8>)
    requires
        decoded_all(rows, key) is Ok,
    ensures
        decoded_all(rows, key)->Ok_0.len() == rows.len(),
        forall|i: int|
            0 <= i < rows.len() ==> (#[trigger] rows[i]).decoded(key) == Ok::<NoteView, NoteError>(
                decoded_all(rows, key)->Ok_0[i],
            ),
    decreases rows.len(),
{
    if rows.len() > 0 {
        let front = rows.drop_last();
        lemma_decoded_each(front, key);
        let notes = decoded_all(rows, key)->Ok_0;
        assert forall|i: int| 0 <= i < rows.len() implies (#[trigger] rows[i]).decoded(key) == Ok::<
            NoteView,
            NoteError,
        >(notes[i]) by {
            if i < front.len() {
                assert(rows[i] == front[i]);
            }
        }
    }
}

/// Where every row opens to the note in its place, all rows open to the
/// notes.
pub proof fn lemma_decoded_from_each(rows: Seq<StoredView>, key: Seq<u8>, notes: Seq<NoteView>)
    requires
        notes.len() == rows.len(),
        forall|i: int|
            0 <= i < rows.len() ==> (#[trigger] rows[i]).decoded(key) == Ok::<NoteView, NoteError>(
                notes[i],
            ),
    ensures
        decoded_all(rows, key) == Ok::<Seq<NoteView>, NoteError>(notes),
    decreases rows.len(),
{
    if rows.len() == 0 {
        assert(notes =~= Seq::<NoteView>::empty());
    } else {
        let front = rows.drop_last();
        assert forall|i: int| 0 <= i < front.len() implies (#[trigger] front[i]).decoded(key)
            == Ok::<NoteView, NoteError>(notes.drop_last()[i]) by {
            assert(front[i] == rows[i]);
        }
        lemma_decoded_from_each(front, key, notes.drop_last());
        assert(rows.last() == rows[rows.len() - 1]);
        assert(notes.drop_last().push(notes.last()) =~= notes);
    }
}

/// A failure among the first `k` rows is the failure of the whole.
pub proof fn lemma_failure_stays(rows: Seq<StoredView>, key: Seq<u8>, k: int)
    requires
        0 <= k <= rows.len(),
        decoded_all(rows.take(k), key) is Err,
    ensures
        decoded_all(rows, key) == decoded_all(rows.take(k), key),
    decreases rows.len() - k,
{
    if k == rows.len() {
        assert(rows.take(k) =~= rows);
    } else {
        assert(rows.take(k + 1).drop_last() =~= rows.take(k));
        lemma_failure_stays(rows, key, k + 1);
    }
}

impl Note {
    /// A copy of the note.
    pub fn duplicate(&self) -> (copy: Note)
        ensures
            copy@ == self@,
    {
        Note {
            id: self.id,
            note: self.note.clone(),
            priority: self.priority,
            created_at: self.created_at,
            modified_at: self.modified_at,
        }
    }
}

impl StoredNote {
    /// Opens both sealed fields of the row.
    pub fn open(&self, key: &SecretKey) -> (res: Result<Note, NoteError>)
        ensures
            match self@.decoded(key@) {
                Ok(note) => res matches Ok(n) && n@ == note,
                Err(e) => res matches Err(f) && f == e,
            },
    {
        let body = match decrypt_data(self.note.as_slice(), key) {
            Ok(body) => body,
            Err(e) => {
                return Err(e);
            },
        };
        let label = match decrypt_data(self.priority.as_slice(), key) {
            Ok(label) => label,
            Err(e) => {
                return Err(e);
            },
        };
        Ok(
            Note {
                id: self.id,
                note: body,
                priority: Priority::from_label(label.as_str()),
                created_at: self.created_at,
                modified_at: self.modified_at,
            },
        )
    }

    /// A copy of the row.
    pub fn duplicate(&self) -> (copy: StoredNote)
        ensures
            copy@ == self@,
    {
        StoredNote {
            id: self.id,
            note: slice_to_vec(self.note.as_slice()),
            priority: slice_to_vec(self.priority.as_slice()),
            created_at: self.created_at,
            modified_at: self.modified_at,
        }
    }
}

} // verus!

//! Bulk transfer: the whole table out to delimited text and back in.
//!
//! A record has five fields, in this order: `id`, `note`, `priority`,
//! `createdAt`, `modifiedAt`. Body and priority travel in the clear; they are
//! opened on the way out and sealed again on the way in.

use vstd::prelude::*;
use vstd::utf8::*;

use crate::cipher::{encrypt_data, is_sealed, SecretKey, MAX_PLAINTEXT_LEN};
use crate::error::NoteError;
use crate::note::{
    decoded_all, lemma_decoded_each, lemma_decoded_from_each, note_views, stored_views, Note,
    NoteView, StoredNote, StoredView,
};
use crate::priority::Priority;
use crate::store::open_all;
use crate::table::{has_id, NoteTable, TableView};
use crate::decimal::{decimal_i32, decimal_text, i32_to_text, parse_i32};
use crate::timestamp::Timestamp;

verus! {

/// What the fields of a record hold.
pub open spec fn fields_view(fields: Seq<String>) -> Seq<Seq<char>> {
    fields.map_values(|s: String| s@)
}

/// The field at `i`, where the record has one.
pub open spec fn field_at(record: Seq<Seq<char>>, i: int) -> Option<Seq<char>> {
    if 0 <= i < record.len() {
        Some(record[i])
    } else {
        None
    }
}

/// The names of the five fields, the first record of every transfer file.
pub open spec fn header_record() -> Seq<Seq<char>> {
    seq!["id"@, "note"@, "priority"@, "createdAt"@, "modifiedAt"@]
}

/// The record that carries a note.
pub open spec fn record_of_note(note: NoteView) -> Seq<Seq<char>> {
    seq![
        decimal_text(note.id as i32),
        note.note,
        note.priority.label_text(),
        note.created_at.text(),
        match note.modified_at {
            Some(m) => m.text(),
            None => Seq::empty(),
        },
    ]
}

/// The identifier that a record asks for: its first field read as a number,
/// and 0, which lets the store choose, where the field is missing or no
/// number.
pub open spec fn id_of_field(field: Option<Seq<char>>) -> int {
    match field {
        Some(text) => match decimal_i32(text) {
            Some(n) => n as int,
            None => 0,
        },
        None => 0,
    }
}

/// The creation time of a record: `now` where the field is missing, the
/// instant it names where it names one, and a failure otherwise.
pub open spec fn created_of_field(field: Option<Seq<char>>, now: Timestamp) -> Option<Timestamp> {
    match field {
        Some(text) => Timestamp::of_text(text),
        None => Some(now),
    }
}

/// The modification time of a record: none where the field is missing or
/// empty, the instant it names where it names one, and a failure otherwise.
pub open spec fn modified_of_field(field: Option<Seq<char>>) -> Result<Option<Timestamp>, NoteError> {
    match field {
        Some(text) => if text.len() == 0 {
            Ok(None)
        } else {
            match Timestamp::of_text(text) {
                Some(t) => Ok(Some(t)),
                None => Err(NoteError::InvalidTimestamp),
            }
        },
        None => Ok(None),
    }
}

/// The note that a record carries. A missing body is empty, and a priority
/// that is missing or no label is Medium; a timestamp that is present and
/// unreadable makes the record unusable.
pub open spec fn parsed_record(record: Seq<Seq<char>>, now: Timestamp) -> Result<
    NoteView,
    NoteError,
> {
    match created_of_field(field_at(record, 3), now) {
        None => Err(NoteError::InvalidTimestamp),
        Some(created_at) => match modified_of_field(field_at(record, 4)) {
            Err(e) => Err(e),
            Ok(modified_at) => Ok(
                NoteView {
                    id: id_of_field(field_at(record, 0)),
                    note: match field_at(record, 1) {
                        Some(text) => text,
                        None => Seq::empty(),
                    },
                    priority: match field_at(record, 2) {
                        Some(label) => Priority::of_label(label),
                        None => Priority::Medium,
                    },
                    created_at,
                    modified_at,
                },
            ),
        },
    }
}

/// Reads the note that a record carries.
pub fn note_from_record(record: &Vec<String>, now: Timestamp) -> (res: Result<Note, NoteError>)
    ensures
        match parsed_record(fields_view(record@), now) {
            Ok(note) => res matches Ok(n) && n@ == note,
            Err(e) => res matches Err(f) && f == e,
        },
{
    let ghost fields = fields_view(record@);
    let id: i32 = if record.len() > 0 {
        assert(fields[0] == record@[0]@);
        match parse_i32(record[0].as_str()) {
            Some(n) => n,
            None => 0,
        }
    } else {
        0
    };
    let note: String = if record.len() > 1 {
        assert(fields[1] == record@[1]@);
        record[1].clone()
    } else {
        String::new()
    };
    let priority = if record.len() > 2 {
        assert(fields[2] == record@[2]@);
        Priority::from_label(record[2].as_str())
    } else {
        Priority::Medium
    };
    let created_at = if record.len() > 3 {
        assert(fields[3] == record@[3]@);
        match Timestamp::parse(record[3].as_str()) {
            Some(t) => t,
            None => {
                return Err(NoteError::InvalidTimestamp);
            },
        }
    } else {
        now
    };
    let modified_at = if record.len() > 4 && !record[4].as_str().is_empty() {
        assert(fields[4] == record@[4]@);
        match Timestamp::parse(record[4].as_str()) {
            Some(t) => Some(t),
            None => {
                return Err(NoteError::InvalidTimestamp);
            },
        }
    } else {
        assert(record@.len() > 4 ==> fields[4] == record@[4]@);
        None
    };
    Ok(Note { id, note, priority, created_at, modified_at })
}

/// Writes the record that carries a note. Reading the record gives the note
/// back, whatever the time of reading.
pub fn record_from_note(note: &Note) -> (record: Vec<String>)
    ensures
        fields_view(record@) == record_of_note(note@),
        forall|now: Timestamp| #[trigger]
            parsed_record(record_of_note(note@), now) == Ok::<NoteView, NoteError>(note@),
{
    let id = i32_to_text(note.id);
    let body = note.note.clone();
    let label = note.priority.label().to_owned();
    let created = note.created_at.to_rfc3339();
    let modified = match &note.modified_at {
        Some(m) => m.to_rfc3339(),
        None => String::new(),
    };
    proof {
        Priority::lemma_label_round_trip(note.priority);
        let fields = record_of_note(note@);
        assert(fields.len() == 5);
        assert(fields[0] == id@ && fields[1] == body@ && fields[2] == label@ && fields[3]
            == created@ && fields[4] == modified@);
    }
    let mut record: Vec<String> = Vec::new();
    record.push(id);
    record.push(body);
    record.push(label);
    record.push(created);
    record.push(modified);
    assert(fields_view(record@) =~= record_of_note(note@));
    record
}

/// The records that the `csv` reader finds in a file behind its header
/// line, in order; `None` stands for a record that the reader rejects.
pub uninterp spec fn csv_records(bytes: Seq<u8>) -> Seq<Option<Seq<Seq<char>>>>;

/// The line that the `csv` writer gives for one record, terminator
/// included; `None` where the writer rejects the record.
pub uninterp spec fn csv_line_bytes(fields: Seq<Seq<char>>) -> Option<Seq<u8>>;

/// What the entries read from a file hold.
pub open spec fn entry_views(entries: Seq<Option<Vec<String>>>) -> Seq<Option<Seq<Seq<char>>>> {
    entries.map_values(
        |entry: Option<Vec<String>>|
            match entry {
                Some(fields) => Some(fields_view(fields@)),
                None => None,
            },
    )
}

/// What a list of records holds.
pub open spec fn record_views(records: Seq<Vec<String>>) -> Seq<Seq<Seq<char>>> {
    records.map_values(|fields: Vec<String>| fields_view(fields@))
}

/// `csv::Reader::records` on a reader made by `csv::ReaderBuilder` with
/// headers on: every record behind the header line with its fields as text,
/// or `None` in the place of a record that the reader reports as an error.
#[verifier::external_body]
fn read_records(bytes: &[u8]) -> (entries: Vec<Option<Vec<String>>>)
    ensures
        entry_views(entries@) == csv_records(bytes@),
{
    let mut reader = csv::ReaderBuilder::new().has_headers(true).from_reader(bytes);
    reader.records().map(
        |entry| match entry {
            Ok(record) => Some(record.iter().map(String::from).collect()),
            Err(_) => None,
        },
    ).collect()
}

/// `csv::Writer::write_record` on a writer made by `csv::WriterBuilder` over
/// an empty buffer, then `into_inner`: the bytes of the one line.
#[verifier::external_body]
fn write_line(fields: &Vec<String>) -> (line: Option<Vec<u8>>)
    ensures
        line is Some <==> csv_line_bytes(fields_view(fields@)) is Some,
        line matches Some(bytes) ==> csv_line_bytes(fields_view(fields@)) == Some(bytes@),
{
    let mut writer = csv::WriterBuilder::new().from_writer(Vec::new());
    match writer.write_record(fields) {
        Ok(()) => writer.into_inner().ok(),
        Err(_) => None,
    }
}

/// The note that an entry of a transfer file carries, ready to be sealed:
/// a rejected record, an unreadable timestamp and a body too long to seal
/// each make it unusable.
pub open spec fn note_of_entry(entry: Option<Seq<Seq<char>>>, now: Timestamp) -> Result<
    NoteView,
    NoteError,
> {
    match entry {
        None => Err(NoteError::MalformedRecord),
        Some(record) => match parsed_record(record, now) {
            Err(e) => Err(e),
            Ok(note) => if encode_utf8(note.note).len() > MAX_PLAINTEXT_LEN {
                Err(NoteError::Encryption)
            } else {
                Ok(note)
            },
        },
    }
}

/// The notes that the entries carry, in order, or the failure of the first
/// unusable entry.
pub open spec fn notes_of_entries(entries: Seq<Option<Seq<Seq<char>>>>, now: Timestamp) -> Result<
    Seq<NoteView>,
    NoteError,
>
    decreases entries.len(),
{
    if entries.len() == 0 {
        Ok(Seq::empty())
    } else {
        match notes_of_entries(entries.drop_last(), now) {
            Err(e) => Err(e),
            Ok(notes) => match note_of_entry(entries.last(), now) {
                Err(e) => Err(e),
                Ok(note) => Ok(notes.push(note)),
            },
        }
    }
}

/// A failure among the first `k` entries is the failure of the whole.
pub proof fn lemma_unusable_stays(entries: Seq<Option<Seq<Seq<char>>>>, now: Timestamp, k: int)
    requires
        0 <= k <= entries.len(),
        notes_of_entries(entries.take(k), now) is Err,
    ensures
        notes_of_entries(entries, now) == notes_of_entries(entries.take(k), now),
    decreases entries.len() - k,
{
    if k == entries.len() {
        assert(entries.take(k) =~= entries);
    } else {
        assert(entries.take(k + 1).drop_last() =~= entries.take(k));
        lemma_unusable_stays(entries, now, k + 1);
    }
}

/// Whether a sealed row holds a note: identifier and times are the note's,
/// and the two blobs are its body and its priority label sealed under `key`.
pub open spec fn row_holds(row: StoredView, key: Seq<u8>, note: NoteView) -> bool {
    &&& row.id == note.id
    &&& row.created_at == note.created_at
    &&& row.modified_at == note.modified_at
    &&& is_sealed(row.note, key, note.note)
    &&& is_sealed(row.priority, key, note.priority.label_text())
}

/// Whether the rows hold the notes, one for one.
pub open spec fn rows_hold(rows: Seq<StoredView>, key: Seq<u8>, notes: Seq<NoteView>) -> bool {
    &&& rows.len() == notes.len()
    &&& forall|i: int| 0 <= i < rows.len() ==> row_holds(#[trigger] rows[i], key, notes[i])
}

/// Reads the entries of a transfer file and seals each note, stopping at the
/// first unusable entry.
pub fn stage_entries(entries: &Vec<Option<Vec<String>>>, key: &SecretKey, now: Timestamp) -> (res:
    Result<Vec<StoredNote>, NoteError>)
    ensures
        match notes_of_entries(entry_views(entries@), now) {
            Ok(notes) => res matches Ok(rows) && rows_hold(stored_views(rows@), key@, notes),
            Err(e) => res matches Err(f) && f == e,
        },
{
    let ghost views = entry_views(entries@);
    let ghost mut notes: Seq<NoteView> = Seq::empty();
    let mut rows: Vec<StoredNote> = Vec::new();
    let mut k: usize = 0;
    assert(views.take(0) =~= Seq::<Option<Seq<Seq<char>>>>::empty());
    while k < entries.len()
        invariant
            k <= entries@.len(),
            views == entry_views(entries@),
            notes_of_entries(views.take(k as int), now) == Ok::<Seq<NoteView>, NoteError>(notes),
            rows_hold(stored_views(rows@), key@, notes),
        decreases entries@.len() - k,
    {
        proof {
            assert(views.take(k + 1).drop_last() =~= views.take(k as int));
            assert(views.take(k + 1).last() == views[k as int]);
        }
        let record = match &entries[k] {
            Some(record) => record,
            None => {
                proof {
                    lemma_unusable_stays(views, now, k + 1);
                }
                return Err(NoteError::MalformedRecord);
            },
        };
        let note = match note_from_record(record, now) {
            Ok(note) => note,
            Err(e) => {
                proof {
                    lemma_unusable_stays(views, now, k + 1);
                }
                return Err(e);
            },
        };
        let encrypted_note = match encrypt_data(note.note.as_str(), key) {
            Ok(blob) => blob,
            Err(e) => {
                proof {
                    lemma_unusable_stays(views, now, k + 1);
                }
                return Err(e);
            },
        };
        proof {
            Priority::lemma_label_is_short(note.priority);
        }
        let encrypted_priority = match encrypt_data(note.priority.label(), key) {
            Ok(blob) => blob,
            Err(e) => {
                return Err(e);
            },
        };
        let row = StoredNote {
            id: note.id,
            note: encrypted_note,
            priority: encrypted_priority,
            created_at: note.created_at,
            modified_at: note.modified_at,
        };
        proof {
            let before = stored_views(rows@);
            let after = before.push(row@);
            assert(stored_views(rows@.push(row)) =~= after);
            assert(row_holds(row@, key@, note@));
            assert forall|i: int| 0 <= i < after.len() implies row_holds(
                #[trigger] after[i],
                key@,
                notes.push(note@)[i],
            ) by {
                if i < before.len() {
                    assert(after[i] == before[i]);
                }
            }
            notes = notes.push(note@);
        }
        rows.push(row);
        k += 1;
    }
    assert(views.take(k as int) =~= views);
    Ok(rows)
}

/// Whether an import did what the staged rows ask: the table holds them and
/// nothing else, with fresh identifiers where they asked for one; or a row
/// was refused and the table is as it was.
pub open spec fn import_applied(
    before: TableView,
    after: TableView,
    staged: Seq<StoredView>,
    res: Result<usize, NoteError>,
) -> bool {
    match before.emptied().with_all_imported(staged) {
        Ok(table) => res == Ok::<usize, NoteError>(staged.len() as usize) && after == table,
        Err(e) => res == Err::<usize, NoteError>(e) && after == before,
    }
}

/// Whether an import of a file's entries ended as it must: an unusable entry
/// fails it before the table is touched; otherwise the table is replaced by
/// rows that hold the entries' notes, all or nothing.
pub open spec fn import_outcome(
    before: TableView,
    after: TableView,
    entries: Seq<Option<Seq<Seq<char>>>>,
    key: Seq<u8>,
    now: Timestamp,
    res: Result<usize, NoteError>,
) -> bool {
    match notes_of_entries(entries, now) {
        Err(e) => res == Err::<usize, NoteError>(e) && after == before,
        Ok(notes) => exists|staged: Seq<StoredView>| #[trigger]
            rows_hold(staged, key, notes) && import_applied(before, after, staged, res),
    }
}

/// Replaces the table by the notes of the entries read from a transfer file.
/// Every entry is read and sealed before the table is touched; then all rows
/// go in or none does.
pub fn import_entries(
    table: &mut NoteTable,
    key: &SecretKey,
    entries: &Vec<Option<Vec<String>>>,
    now: Timestamp,
) -> (res: Result<usize, NoteError>)
    ensures
        final(table)@.well_formed(),
        res is Err ==> final(table)@ == old(table)@,
        import_outcome(old(table)@, final(table)@, entry_views(entries@), key@, now, res),
{
    proof {
        use_type_invariant(&*table);
    }
    let staged = match stage_entries(entries, key, now) {
        Ok(staged) => staged,
        Err(e) => {
            return Err(e);
        },
    };
    let ghost before = table@;
    let res = table.replace_with(&staged);
    assert(import_applied(before, table@, stored_views(staged@), res));
    res
}

/// Imports a transfer file: delimited text with a header line and the fields
/// `id`, `note`, `priority`, `createdAt`, `modifiedAt`. The table is replaced
/// by the file's notes, sealed afresh, or left exactly as it was.
pub fn import_from_csv(table: &mut NoteTable, key: &SecretKey, file: &[u8], now: Timestamp) -> (res:
    Result<usize, NoteError>)
    ensures
        final(table)@.well_formed(),
        res is Err ==> final(table)@ == old(table)@,
        import_outcome(old(table)@, final(table)@, csv_records(file@), key@, now, res),
{
    let entries = read_records(file);
    import_entries(table, key, &entries, now)
}

/// The bytes of a file of the given records, line after line; `None` where
/// the writer rejects one of them.
pub open spec fn file_bytes(records: Seq<Seq<Seq<char>>>) -> Option<Seq<u8>>
    decreases records.len(),
{
    if records.len() == 0 {
        Some(Seq::empty())
    } else {
        match (file_bytes(records.drop_last()), csv_line_bytes(records.last())) {
            (Some(head), Some(line)) => Some(head + line),
            _ => None,
        }
    }
}

/// The records of an export: the header, then one record for each note.
pub open spec fn export_records(notes: Seq<NoteView>) -> Seq<Seq<Seq<char>>> {
    seq![header_record()] + notes.map_values(|n: NoteView| record_of_note(n))
}

/// What an export gives: the failure of the first row that does not open,
/// else the file of the export records, else `MalformedRecord` where the
/// writer rejects a record.
pub open spec fn export_outcome(rows: Seq<StoredView>, key: Seq<u8>) -> Result<Seq<u8>, NoteError> {
    match decoded_all(rows, key) {
        Err(e) => Err(e),
        Ok(notes) => match file_bytes(export_records(notes)) {
            Some(bytes) => Ok(bytes),
            None => Err(NoteError::MalformedRecord),
        },
    }
}

/// Writes the records of an export for the notes given. Reading any of the
/// note records gives its note back.
pub fn records_from_notes(notes: &Vec<Note>) -> (records: Vec<Vec<String>>)
    ensures
        record_views(records@) == export_records(note_views(notes@)),
        forall|i: int, now: Timestamp|
            0 <= i < notes@.len() ==> #[trigger] parsed_record(
                record_views(records@)[i + 1],
                now,
            ) == Ok::<NoteView, NoteError>(notes@[i]@),
{
    let mut header: Vec<String> = Vec::new();
    header.push("id".to_owned());
    header.push("note".to_owned());
    header.push("priority".to_owned());
    header.push("createdAt".to_owned());
    header.push("modifiedAt".to_owned());
    assert(fields_view(header@) =~= header_record());
    let mut records: Vec<Vec<String>> = Vec::new();
    records.push(header);
    let ghost views = note_views(notes@);
    let mut k: usize = 0;
    assert(record_views(records@) =~= export_records(views.take(0)));
    while k < notes.len()
        invariant
            k <= notes@.len(),
            views == note_views(notes@),
            record_views(records@) == export_records(views.take(k as int)),
            forall|i: int, now: Timestamp|
                0 <= i < k ==> #[trigger] parsed_record(record_views(records@)[i + 1], now) == Ok::<
                    NoteView,
                    NoteError,
                >(notes@[i]@),
        decreases notes@.len() - k,
    {
        let record = record_from_note(&notes[k]);
        let ghost before = record_views(records@);
        records.push(record);
        proof {
            let after = record_views(records@);
            assert(after =~= before.push(record_of_note(views[k as int])));
            assert(after =~= export_records(views.take(k + 1)));
            assert forall|i: int, now: Timestamp| 0 <= i < k + 1 implies #[trigger] parsed_record(
                after[i + 1],
                now,
            ) == Ok::<NoteView, NoteError>(notes@[i]@) by {
                if i < k {
                    assert(after[i + 1] == before[i + 1]);
                } else {
                    assert(after[i + 1] == record_of_note(notes@[i]@));
                }
            }
        }
        k += 1;
    }
    assert(views.take(k as int) =~= views);
    records
}

/// Writes the records as one file, line after line.
pub fn encode_records(records: &Vec<Vec<String>>) -> (res: Option<Vec<u8>>)
    ensures
        match file_bytes(record_views(records@)) {
            Some(bytes) => res matches Some(b) && b@ == bytes,
            None => res is None,
        },
{
    let ghost views = record_views(records@);
    let mut out: Vec<u8> = Vec::new();
    let mut k: usize = 0;
    assert(views.take(0) =~= Seq::<Seq<Seq<char>>>::empty());
    assert(out@ =~= Seq::<u8>::empty());
    while k < records.len()
        invariant
            k <= records@.len(),
            views == record_views(records@),
            file_bytes(views.take(k as int)) == Some(out@),
        decreases records@.len() - k,
    {
        proof {
            assert(views.take(k + 1).drop_last() =~= views.take(k as int));
            assert(views.take(k + 1).last() == fields_view(records@[k as int]@));
        }
        match write_line(&records[k]) {
            Some(line) => {
                out.extend_from_slice(line.as_slice());
            },
            None => {
                proof {
                    lemma_rejected_stays(views, k + 1);
                }
                return None;
            },
        }
        k += 1;
    }
    assert(views.take(k as int) =~= views);
    Some(out)
}

/// A line rejected among the first `k` records fails the whole file.
pub proof fn lemma_rejected_stays(records: Seq<Seq<Seq<char>>>, k: int)
    requires
        0 <= k <= records.len(),
        file_bytes(records.take(k)) is None,
    ensures
        file_bytes(records) is None,
    decreases records.len() - k,
{
    if k == records.len() {
        assert(records.take(k) =~= records);
    } else {
        assert(records.take(k + 1).drop_last() =~= records.take(k));
        lemma_rejected_stays(records, k + 1);
    }
}

/// Exports the whole table as delimited text: a header line, then one line
/// for each note in table order, with body and priority in the clear and
/// timestamps as RFC 3339 text. A row that does not open fails the export.
pub fn export_to_csv(table: &NoteTable, key: &SecretKey) -> (res: Result<Vec<u8>, NoteError>)
    ensures
        match export_outcome(table@.rows, key@) {
            Ok(bytes) => res matches Ok(b) && b@ == bytes,
            Err(e) => res matches Err(f) && f == e,
        },
{
    let notes = match open_all(table, key) {
        Ok(notes) => notes,
        Err(e) => {
            return Err(e);
        },
    };
    let records = records_from_notes(&notes);
    match encode_records(&records) {
        Some(bytes) => Ok(bytes),
        None => Err(NoteError::MalformedRecord),
    }
}

/// The row that stands for `note` after its table was exported and the
/// export imported: it keeps its identifier, or gets the next free one where
/// it had none, and holds the blobs sealed on the way in.
pub open spec fn reimported_row(last_id: int, note: NoteView, sealed: StoredView) -> StoredView {
    StoredView {
        id: if note.id != 0 {
            note.id
        } else {
            last_id + 1
        },
        note: sealed.note,
        priority: sealed.priority,
        created_at: note.created_at,
        modified_at: note.modified_at,
    }
}

/// The first `k` steps of importing what a table exported.
proof fn lemma_reimport_prefix(
    table: TableView,
    key: Seq<u8>,
    notes: Seq<NoteView>,
    staged: Seq<StoredView>,
    k: int,
)
    requires
        table.well_formed(),
        decoded_all(table.rows, key) == Ok::<Seq<NoteView>, NoteError>(notes),
        rows_hold(staged, key, notes),
        has_id(table.rows, 0) ==> table.last_id < i32::MAX,
        0 <= k <= notes.len(),
    ensures
        table.emptied().with_all_imported(staged.take(k)) is Ok,
        ({
            let after = table.emptied().with_all_imported(staged.take(k))->Ok_0;
            &&& after.rows.len() == k
            &&& table.last_id <= after.last_id <= table.last_id + 1
            &&& after.last_id == table.last_id + 1 ==> exists|i: int|
                0 <= i < k && (#[trigger] notes[i]).id == 0
            &&& forall|i: int|
                0 <= i < k ==> #[trigger] after.rows[i] == reimported_row(
                    table.last_id,
                    notes[i],
                    staged[i],
                )
        }),
    decreases k,
{
    lemma_decoded_each(table.rows, key);
    if k == 0 {
        assert(staged.take(0) =~= Seq::<StoredView>::empty());
    } else {
        lemma_reimport_prefix(table, key, notes, staged, k - 1);
        let start = table.emptied();
        assert(staged.take(k).drop_last() =~= staged.take(k - 1));
        assert(staged.take(k).last() == staged[k - 1]);
        let before = start.with_all_imported(staged.take(k - 1))->Ok_0;
        let row = staged[k - 1];
        let note = notes[k - 1];
        assert(row_holds(row, key, note));
        assert(table.rows[k - 1].decoded(key) == Ok::<NoteView, NoteError>(note));
        assert(table.rows[k - 1].id == note.id);
        assert(table.rows[k - 1].times_in_order());
        assert forall|i: int| 0 <= i < k - 1 implies (#[trigger] notes[i]).id != note.id by {
            assert(table.rows[i].decoded(key) == Ok::<NoteView, NoteError>(notes[i]));
            assert(table.rows[i].id != table.rows[k - 1].id);
        }
        if note.id == 0 {
            assert(has_id(table.rows, 0));
            assert(before.last_id == table.last_id);
        } else {
            assert(!has_id(before.rows, note.id)) by {
                if has_id(before.rows, note.id) {
                    let i = choose|i: int|
                        0 <= i < before.rows.len() && (#[trigger] before.rows[i]).id == note.id;
                    assert(before.rows[i] == reimported_row(table.last_id, notes[i], staged[i]));
                    assert(notes[i].id != note.id);
                    assert(table.rows[k - 1].id <= table.last_id);
                }
            }
        }
        let after = before.with_imported(row)->Ok_0;
        assert(before.with_imported(row) is Ok);
        assert forall|i: int| 0 <= i < k implies #[trigger] after.rows[i] == reimported_row(
            table.last_id,
            notes[i],
            staged[i],
        ) by {
            if i < k - 1 {
                assert(after.rows[i] == before.rows[i]);
            }
        }
        if after.last_id == table.last_id + 1 {
            if before.last_id == table.last_id + 1 {
                let i = choose|i: int| 0 <= i < k - 1 && (#[trigger] notes[i]).id == 0;
                assert(0 <= i < k && notes[i].id == 0);
            } else {
                assert(table.rows[k - 1].id <= table.last_id);
                assert(notes[k - 1].id == 0);
            }
        }
    }
}

/// Exporting a table and importing the export brings every note back: the
/// import succeeds, and its rows open, in the same order, to the notes that
/// were exported, with the same body, priority, times and identifier; only
/// a note whose identifier was 0 gets a fresh one. `staged` stands for the
/// rows that the import seals, whatever nonces it draws. The one table left
/// out is the one that holds identifier 0 while no fresh one is left.
pub proof fn lemma_reimport_keeps_notes(
    table: TableView,
    key: Seq<u8>,
    notes: Seq<NoteView>,
    staged: Seq<StoredView>,
)
    requires
        table.well_formed(),
        decoded_all(table.rows, key) == Ok::<Seq<NoteView>, NoteError>(notes),
        rows_hold(staged, key, notes),
        has_id(table.rows, 0) ==> table.last_id < i32::MAX,
    ensures
        table.emptied().with_all_imported(staged) is Ok,
        ({
            let after = table.emptied().with_all_imported(staged)->Ok_0;
            &&& after.rows.len() == notes.len()
            &&& decoded_all(after.rows, key) is Ok
            &&& forall|i: int|
                0 <= i < notes.len() ==> {
                    let back = #[trigger] decoded_all(after.rows, key)->Ok_0[i];
                    &&& back.note == notes[i].note
                    &&& back.priority == notes[i].priority
                    &&& back.created_at == notes[i].created_at
                    &&& back.modified_at == notes[i].modified_at
                    &&& notes[i].id != 0 ==> back.id == notes[i].id
                }
        }),
{
    lemma_reimport_prefix(table, key, notes, staged, notes.len() as int);
    assert(staged.take(notes.len() as int) =~= staged);
    let after = table.emptied().with_all_imported(staged)->Ok_0;
    let back = Seq::new(
        notes.len(),
        |i: int|
            NoteView {
                id: if notes[i].id != 0 {
                    notes[i].id
                } else {
                    table.last_id + 1
                },
                note: notes[i].note,
                priority: notes[i].priority,
                created_at: notes[i].created_at,
                modified_at: notes[i].modified_at,
            },
    );
    assert forall|i: int| 0 <= i < after.rows.len() implies (#[trigger] after.rows[i]).decoded(key)
        == Ok::<NoteView, NoteError>(back[i]) by {
        assert(after.rows[i] == reimported_row(table.last_id, notes[i], staged[i]));
        assert(row_holds(staged[i], key, notes[i]));
        Priority::lemma_label_round_trip(notes[i].priority);
    }
    lemma_decoded_from_each(after.rows, key, back);
}

} // verus!

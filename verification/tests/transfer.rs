use secure_notes::cipher::SecretKey;
use secure_notes::error::NoteError;
use secure_notes::note::Note;
use secure_notes::priority::Priority;
use secure_notes::store::{add_note, edit_note, show_all_notes, view_note_by_id};
use secure_notes::table::NoteTable;
use secure_notes::timestamp::Timestamp;
use secure_notes::transfer::{
    encode_records, export_to_csv, import_entries, import_from_csv, note_from_record,
    record_from_note, records_from_notes, stage_entries,
};

fn key() -> SecretKey {
    SecretKey::from_bytes(b"0123456789abcdef0123456789abcdef").unwrap()
}

fn at(secs: i64) -> Timestamp {
    Timestamp::new(secs, 0).unwrap()
}

fn record(fields: &[&str]) -> Vec<String> {
    fields.iter().map(|f| f.to_string()).collect()
}

fn three_notes() -> NoteTable {
    let mut table = NoteTable::new();
    add_note(&mut table, &key(), "Buy Milk", Some(1), at(0)).unwrap();
    add_note(&mut table, &key(), "call, \"mum\"", Some(3), at(60)).unwrap();
    add_note(&mut table, &key(), "two\nlines", None, at(120)).unwrap();
    edit_note(&mut table, &key(), 2, "", Some(2), at(3600)).unwrap();
    table
}

fn pairs(table: &NoteTable) -> Vec<(String, Priority)> {
    let mut all: Vec<(String, Priority)> = table
        .rows()
        .iter()
        .map(|row| {
            let note = row.open(&key()).unwrap();
            (note.note, note.priority)
        })
        .collect();
    all.sort_by(|a, b| a.0.cmp(&b.0));
    all
}

#[test]
fn export_writes_a_header_and_one_line_for_each_note() {
    let table = three_notes();
    let file = export_to_csv(&table, &key()).unwrap();
    let text = String::from_utf8(file).unwrap();
    assert_eq!(
        text,
        "id,note,priority,createdAt,modifiedAt\n\
         1,Buy Milk,High,1970-01-01T00:00:00+00:00,\n\
         2,\"call, \"\"mum\"\"\",Medium,1970-01-01T00:01:00+00:00,1970-01-01T01:00:00+00:00\n\
         3,\"two\nlines\",Medium,1970-01-01T00:02:00+00:00,\n"
    );
}

#[test]
fn export_of_an_empty_table_is_the_header() {
    let table = NoteTable::new();
    let file = export_to_csv(&table, &key()).unwrap();
    assert_eq!(file, b"id,note,priority,createdAt,modifiedAt\n".to_vec());
}

#[test]
fn export_keeps_table_order() {
    let mut table = NoteTable::new();
    let seal = |t: &str| secure_notes::cipher::encrypt_data(t, &key()).unwrap();
    table.insert(Some(9), seal("nine"), seal("Low"), at(1), None).unwrap();
    table.insert(Some(2), seal("two"), seal("High"), at(2), None).unwrap();
    let text = String::from_utf8(export_to_csv(&table, &key()).unwrap()).unwrap();
    let lines: Vec<&str> = text.lines().collect();
    assert_eq!(lines.len(), 3);
    assert!(lines[1].starts_with("9,nine,Low,"));
    assert!(lines[2].starts_with("2,two,High,"));
}

#[test]
fn export_fails_on_a_row_that_does_not_open() {
    let table = three_notes();
    let other = SecretKey::from_bytes(&[1u8; 32]).unwrap();
    assert_eq!(export_to_csv(&table, &other), Err(NoteError::Authentication));
}

#[test]
fn import_replaces_the_table() {
    let mut table = three_notes();
    let file = b"id,note,priority,createdAt,modifiedAt\n\
        10,alpha,High,2024-01-02T03:04:05+00:00,\n\
        0,beta,Low,2024-01-02T03:04:06+00:00,2024-02-02T00:00:00+00:00\n\
        4,gamma,,2024-01-02T03:04:07Z,\n";
    assert_eq!(import_from_csv(&mut table, &key(), file, at(5)), Ok(3));
    let notes = show_all_notes(&table, &key()).unwrap();
    assert_eq!(notes.iter().map(|n| n.id).collect::<Vec<i32>>(), vec![4, 10, 11]);
    assert_eq!(table.rows().iter().map(|r| r.id).collect::<Vec<i32>>(), vec![10, 11, 4]);
    assert_eq!(table.last_id(), 11);
    let alpha = view_note_by_id(&table, &key(), 10).unwrap().unwrap();
    assert_eq!(alpha.note, "alpha");
    assert_eq!(alpha.priority, Priority::High);
    assert_eq!(alpha.created_at, at(1_704_164_645));
    assert_eq!(alpha.modified_at, None);
    let beta = view_note_by_id(&table, &key(), 11).unwrap().unwrap();
    assert_eq!(beta.note, "beta");
    assert_eq!(beta.priority, Priority::Low);
    assert_eq!(beta.modified_at, Some(at(1_706_832_000)));
    let gamma = view_note_by_id(&table, &key(), 4).unwrap().unwrap();
    assert_eq!(gamma.priority, Priority::Medium);
}

#[test]
fn import_hands_out_ids_past_every_id_ever_used() {
    let mut table = three_notes();
    let file = b"id,note,priority,createdAt,modifiedAt\n0,a,High,2024-01-02T03:04:05Z,\n";
    assert_eq!(import_from_csv(&mut table, &key(), file, at(5)), Ok(1));
    assert_eq!(table.rows()[0].id, 4);
    assert_eq!(table.last_id(), 4);
}

#[test]
fn failed_import_leaves_the_table_as_it_was() {
    let mut table = three_notes();
    let before = table.rows().clone();
    let file = b"id,note,priority,createdAt,modifiedAt\n\
        1,one,High,2024-01-02T03:04:05+00:00,\n\
        2,two,Low,not a timestamp,\n\
        3,three,Low,2024-01-02T03:04:05+00:00,\n\
        4,four,Low,2024-01-02T03:04:05+00:00,\n";
    assert_eq!(
        import_from_csv(&mut table, &key(), file, at(5)),
        Err(NoteError::InvalidTimestamp)
    );
    assert_eq!(table.rows(), &before);
    assert_eq!(table.len(), 3);
    assert_eq!(table.last_id(), 3);
    assert_eq!(
        pairs(&table),
        vec![
            ("Buy Milk".to_string(), Priority::High),
            ("call, \"mum\"".to_string(), Priority::Medium),
            ("two\nlines".to_string(), Priority::Medium),
        ]
    );
}

#[test]
fn import_with_an_unreadable_modification_time_fails() {
    let mut table = three_notes();
    let before = table.rows().clone();
    let file = b"id,note,priority,createdAt,modifiedAt\n\
        1,one,High,2024-01-02T03:04:05+00:00,soon\n";
    assert_eq!(
        import_from_csv(&mut table, &key(), file, at(5)),
        Err(NoteError::InvalidTimestamp)
    );
    assert_eq!(table.rows(), &before);
}

#[test]
fn import_with_a_repeated_id_fails_and_rolls_back() {
    let mut table = three_notes();
    let before = table.rows().clone();
    let file = b"id,note,priority,createdAt,modifiedAt\n\
        7,one,High,2024-01-02T03:04:05+00:00,\n\
        8,two,Low,2024-01-02T03:04:05+00:00,\n\
        7,three,Low,2024-01-02T03:04:05+00:00,\n";
    assert_eq!(import_from_csv(&mut table, &key(), file, at(5)), Err(NoteError::DuplicateId));
    assert_eq!(table.rows(), &before);
    assert_eq!(table.last_id(), 3);
}

#[test]
fn import_of_a_ragged_file_fails() {
    let mut table = three_notes();
    let before = table.rows().clone();
    let file = b"id,note,priority,createdAt,modifiedAt\n\
        1,one,High,2024-01-02T03:04:05+00:00,\n\
        2,two\n";
    assert_eq!(import_from_csv(&mut table, &key(), file, at(5)), Err(NoteError::MalformedRecord));
    assert_eq!(table.rows(), &before);
}

#[test]
fn import_of_a_header_alone_empties_the_table() {
    let mut table = three_notes();
    let file = b"id,note,priority,createdAt,modifiedAt\n";
    assert_eq!(import_from_csv(&mut table, &key(), file, at(5)), Ok(0));
    assert_eq!(table.len(), 0);
    assert_eq!(table.last_id(), 3);
    assert_eq!(import_from_csv(&mut table, &key(), b"", at(5)), Ok(0));
}

#[test]
fn export_then_import_gives_the_same_notes() {
    let table = three_notes();
    let file = export_to_csv(&table, &key()).unwrap();
    let mut copy = NoteTable::new();
    assert_eq!(import_from_csv(&mut copy, &key(), &file, at(999)), Ok(3));
    assert_eq!(pairs(&copy), pairs(&table));
    assert_eq!(show_all_notes(&copy, &key()).unwrap(), show_all_notes(&table, &key()).unwrap());
    let mut same = three_notes();
    assert_eq!(import_from_csv(&mut same, &key(), &file, at(999)), Ok(3));
    assert_eq!(show_all_notes(&same, &key()).unwrap(), show_all_notes(&table, &key()).unwrap());
}

#[test]
fn export_then_import_with_ids_cleared_gives_the_same_pairs() {
    let table = three_notes();
    let notes = show_all_notes(&table, &key()).unwrap();
    let cleared: Vec<Note> = notes.iter().map(|n| Note { id: 0, ..n.clone() }).collect();
    let file = encode_records(&records_from_notes(&cleared)).unwrap();
    let mut copy = NoteTable::new();
    assert_eq!(import_from_csv(&mut copy, &key(), &file, at(999)), Ok(3));
    assert_eq!(copy.rows().iter().map(|r| r.id).collect::<Vec<i32>>(), vec![1, 2, 3]);
    assert_eq!(pairs(&copy), pairs(&table));
}

#[test]
fn record_of_a_note_has_five_fields() {
    let note = Note {
        id: -12,
        note: "body".to_string(),
        priority: Priority::Low,
        created_at: at(0),
        modified_at: Some(at(1)),
    };
    assert_eq!(
        record_from_note(&note),
        record(&["-12", "body", "Low", "1970-01-01T00:00:00+00:00", "1970-01-01T00:00:01+00:00"])
    );
    assert_eq!(note_from_record(&record_from_note(&note), at(77)), Ok(note));
}

#[test]
fn record_with_missing_fields_takes_the_defaults() {
    let note = note_from_record(&record(&[]), at(42)).unwrap();
    assert_eq!(
        note,
        Note { id: 0, note: String::new(), priority: Priority::Medium, created_at: at(42), modified_at: None }
    );
    let three = note_from_record(&record(&["x7", "text", "Low"]), at(42)).unwrap();
    assert_eq!(three.id, 0);
    assert_eq!(three.note, "text");
    assert_eq!(three.priority, Priority::Low);
    assert_eq!(three.created_at, at(42));
    let plus = note_from_record(&record(&["+5", "", "medium", "1970-01-01T00:00:09Z"]), at(42)).unwrap();
    assert_eq!(plus.id, 5);
    assert_eq!(plus.priority, Priority::Medium);
    assert_eq!(plus.created_at, at(9));
    assert_eq!(
        note_from_record(&record(&["1", "", "", ""]), at(42)),
        Err(NoteError::InvalidTimestamp)
    );
    assert_eq!(
        note_from_record(&record(&["1", "", "", "1970-01-01T00:00:09Z", " "]), at(42)),
        Err(NoteError::InvalidTimestamp)
    );
}

#[test]
fn staged_rows_are_sealed_in_order() {
    let entries = vec![
        Some(record(&["3", "a", "High", "1970-01-01T00:00:09Z", ""])),
        Some(record(&["0", "b", "", "1970-01-01T00:00:10Z", "1970-01-01T00:00:11Z"])),
    ];
    let rows = stage_entries(&entries, &key(), at(1)).unwrap();
    assert_eq!(rows.len(), 2);
    assert_eq!(rows[0].id, 3);
    assert_eq!(rows[1].id, 0);
    assert_eq!(rows[0].open(&key()).unwrap().note, "a");
    assert_eq!(rows[1].open(&key()).unwrap().priority, Priority::Medium);
    assert_eq!(rows[1].modified_at, Some(at(11)));
    assert_ne!(rows[0].note, b"a".to_vec());
}

#[test]
fn first_unusable_entry_decides_the_error() {
    let good = Some(record(&["1", "a", "High", "1970-01-01T00:00:09Z", ""]));
    let bad_time = Some(record(&["2", "a", "High", "never", ""]));
    let mut table = NoteTable::new();
    assert_eq!(
        import_entries(&mut table, &key(), &vec![good.clone(), None, bad_time.clone()], at(1)),
        Err(NoteError::MalformedRecord)
    );
    assert_eq!(
        import_entries(&mut table, &key(), &vec![good.clone(), bad_time, None], at(1)),
        Err(NoteError::InvalidTimestamp)
    );
    assert_eq!(table.len(), 0);
    assert_eq!(import_entries(&mut table, &key(), &vec![good], at(1)), Ok(1));
}

#[test]
fn imported_modification_time_is_not_before_creation() {
    let mut table = NoteTable::new();
    let file = b"id,note,priority,createdAt,modifiedAt\n\
        1,one,High,2024-01-02T03:04:05Z,2020-01-01T00:00:00Z\n";
    assert_eq!(import_from_csv(&mut table, &key(), file, at(5)), Ok(1));
    let note = view_note_by_id(&table, &key(), 1).unwrap().unwrap();
    assert_eq!(note.modified_at, Some(note.created_at));
}

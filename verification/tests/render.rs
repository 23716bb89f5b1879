use secure_notes::note::Note;
use secure_notes::priority::Priority;
use secure_notes::render::{
    clock, pad, render_block, render_long, render_row, render_rule, render_short, render_table,
};
use secure_notes::timestamp::Timestamp;

const RULE: &str =
    "|------|--------------------------------------------------------------|------------|";
const LONG_RULE: &str = "|------|--------------------------------------------------------------|------------|---------------------|---------------------|";

fn at(secs: i64) -> Timestamp {
    Timestamp::new(secs, 0).unwrap()
}

fn note(id: i32, body: &str, priority: Priority) -> Note {
    Note { id, note: body.to_string(), priority, created_at: at(0), modified_at: None }
}

fn texts(items: &[&str]) -> Vec<String> {
    items.iter().map(|t| t.to_string()).collect()
}

#[test]
fn pad_fills_up_with_spaces() {
    assert_eq!(pad("ab", 4), "ab  ");
    assert_eq!(pad("", 3), "   ");
    assert_eq!(pad("abcd", 4), "abcd");
    assert_eq!(pad("abcdef", 4), "abcdef");
    assert_eq!(pad("x", 0), "x");
    assert_eq!(pad("h\u{e9}", 4), "h\u{e9}  ");
}

#[test]
fn row_has_bars_between_padded_cells() {
    assert_eq!(render_row(&texts(&["1", "ab", "High"]), &vec![4, 6, 10]), "| 1    | ab     | High       |");
    assert_eq!(render_row(&texts(&[]), &vec![4]), "|");
    assert_eq!(render_row(&texts(&["a", "b"]), &vec![2]), "| a  | b |");
}

#[test]
fn rule_is_as_wide_as_the_columns() {
    assert_eq!(render_rule(&vec![4, 60, 10]), RULE);
    assert_eq!(render_rule(&vec![4, 60, 10, 19, 19]), LONG_RULE);
    assert_eq!(render_rule(&vec![]), "|");
    assert_eq!(render_rule(&vec![0]), "|--|");
}

#[test]
fn short_table_of_no_notes_is_header_and_rule() {
    assert_eq!(
        render_short(&vec![]),
        vec![format!("| {:<4} | {:<60} | {:<10} |", "ID", "Note", "Priority"), RULE.to_string()]
    );
}

#[test]
fn short_table_shows_one_row_for_a_short_note() {
    let lines = render_short(&vec![note(1, "Buy Milk", Priority::High)]);
    assert_eq!(
        lines,
        vec![
            "| ID   | Note                                                         | Priority   |".to_string(),
            RULE.to_string(),
            "| 1    | Buy Milk                                                     | High       |".to_string(),
            RULE.to_string(),
        ]
    );
}

#[test]
fn long_body_is_wrapped_at_sixty_columns() {
    let body = "The quick brown fox jumps over the lazy dog and then runs all the way back home again before dark";
    let lines = render_short(&vec![note(12, body, Priority::Low), note(13, "x", Priority::Medium)]);
    let wrapped = textwrap::wrap(body, 60);
    assert!(wrapped.len() >= 2);
    let mut expected = vec![
        format!("| {:<4} | {:<60} | {:<10} |", "ID", "Note", "Priority"),
        RULE.to_string(),
    ];
    for (i, line) in wrapped.iter().enumerate() {
        if i == 0 {
            expected.push(format!("| {:<4} | {:<60} | {:<10} |", 12, line, "Low"));
        } else {
            expected.push(format!("| {:<4} | {:<60} | {:<10} |", "", line, ""));
        }
    }
    expected.push(RULE.to_string());
    expected.push(format!("| {:<4} | {:<60} | {:<10} |", 13, "x", "Medium"));
    expected.push(RULE.to_string());
    assert_eq!(lines, expected);
    assert!(lines[2].starts_with("| 12   | The quick brown fox"));
    assert!(lines[3].starts_with("|      | "));
}

#[test]
fn long_table_shows_both_times() {
    let mut edited = note(3, "call mum", Priority::Medium);
    edited.created_at = at(1_704_164_645);
    edited.modified_at = Some(at(1_706_832_000));
    let lines = render_long(&vec![note(2, "a", Priority::High), edited]);
    assert_eq!(
        lines,
        vec![
            format!(
                "| {:<4} | {:<60} | {:<10} | {:<19} | {:<19} |",
                "ID", "Note", "Priority", "Created At", "Modified At"
            ),
            LONG_RULE.to_string(),
            format!(
                "| {:<4} | {:<60} | {:<10} | {:<19} | {:<19} |",
                2, "a", "High", "1970-01-01 00:00:00", ""
            ),
            LONG_RULE.to_string(),
            format!(
                "| {:<4} | {:<60} | {:<10} | {:<19} | {:<19} |",
                3, "call mum", "Medium", "2024-01-02 03:04:05", "2024-02-02 00:00:00"
            ),
            LONG_RULE.to_string(),
        ]
    );
}

#[test]
fn clock_is_date_and_time_to_the_second() {
    assert_eq!(clock(&at(0)), "1970-01-01 00:00:00");
    assert_eq!(clock(&Timestamp::new(1_704_164_645, 999_000_000).unwrap()), "2024-01-02 03:04:05");
}

#[test]
fn block_leaves_cells_empty_below_the_first_row() {
    let mut out = vec!["top".to_string()];
    render_block(&texts(&["7", "aaa bbb ccc", "Low"]), &vec![2, 3, 4], &mut out);
    assert_eq!(
        out,
        texts(&["top", "| 7  | aaa | Low  |", "|    | bbb |      |", "|    | ccc |      |", "|----|-----|------|"])
    );
}

#[test]
fn table_of_entries_without_a_body_column() {
    let lines = render_table(&texts(&["ID"]), &vec![2], &vec![texts(&["1"]), texts(&["2"])]);
    assert_eq!(lines, texts(&["| ID |", "|----|", "| 1  |", "|----|", "| 2  |", "|----|"]));
}

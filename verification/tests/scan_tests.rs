use reminder_scan::filter::line_is_reminder;
use reminder_scan::lines::split_lines;
use reminder_scan::lines::trim_start;
use reminder_scan::position::find_from;
use reminder_scan::position::get_row_and_column;
use reminder_scan::scan::scan_comments;
use reminder_scan::seen::SeenPaths;

fn cv(s: &str) -> Vec<char> {
    s.chars().collect()
}

fn text_of(v: &[char]) -> String {
    v.iter().collect()
}

#[test]
fn filter_accepts_allow_listed_verbs() {
    assert!(line_is_reminder(&cv("TODO: fix parsing")));
    assert!(line_is_reminder(&cv("FIXME: handle overflow")));
    assert!(line_is_reminder(&cv("BUG: off by one")));
    assert!(line_is_reminder(&cv("BUG:")));
}

#[test]
fn filter_rejects_foreign_verbs() {
    assert!(!line_is_reminder(&cv("NOTE: not a reminder")));
    assert!(!line_is_reminder(&cv("HACK: workaround")));
    assert!(!line_is_reminder(&cv("XXX: old marker")));
}

#[test]
fn filter_rejects_non_matching_lines() {
    assert!(!line_is_reminder(&cv("todo: lowercase")));
    assert!(!line_is_reminder(&cv("TODO no colon")));
    assert!(!line_is_reminder(&cv(": colon first")));
    assert!(!line_is_reminder(&cv("")));
    assert!(!line_is_reminder(&cv("T")));
}

#[test]
fn trim_start_removes_leading_whitespace() {
    assert_eq!(text_of(&trim_start(&cv("  \t x y"))), "x y");
    assert_eq!(text_of(&trim_start(&cv("x "))), "x ");
    assert_eq!(text_of(&trim_start(&cv("\n\r z"))), "z");
    assert_eq!(text_of(&trim_start(&cv("   "))), "");
}

#[test]
fn split_lines_handles_newlines_and_crlf() {
    let ls = split_lines(&cv("a\r\nbb\nc"));
    assert_eq!(ls.len(), 3);
    assert_eq!(text_of(&ls[0]), "a");
    assert_eq!(text_of(&ls[1]), "bb");
    assert_eq!(text_of(&ls[2]), "c");

    let ls2 = split_lines(&cv("a\n\n"));
    assert_eq!(ls2.len(), 2);
    assert_eq!(text_of(&ls2[0]), "a");
    assert_eq!(text_of(&ls2[1]), "");

    let ls3 = split_lines(&cv(""));
    assert_eq!(ls3.len(), 0);
}

#[test]
fn find_from_returns_successive_occurrences() {
    let hay = cv("x TODO x TODO");
    let needle = cv("TODO");
    assert_eq!(find_from(&hay, &needle, 0), Some(2));
    assert_eq!(find_from(&hay, &needle, 3), Some(9));
    assert_eq!(find_from(&hay, &needle, 10), None);
}

#[test]
fn row_is_one_based_newline_count() {
    let contents = cv("a\nbb\n\nTODO: x");
    let (row, col) = get_row_and_column(&contents, &cv("TODO: x"), 0);
    assert_eq!(row, 4);
    assert_eq!(col, 0);
}

#[test]
fn column_is_character_offset_from_line_start() {
    let contents = cv("// TODO: a\nxx\n   // TODO: b");
    let (row, col) = get_row_and_column(&contents, &cv("TODO: a"), 0);
    assert_eq!((row, col), (1, 3));
    let (row2, col2) = get_row_and_column(&contents, &cv("TODO: b"), 0);
    assert_eq!((row2, col2), (3, 6));
}

#[test]
fn scan_reports_each_line_once_in_order() {
    let contents = cv("// TODO: one\nmid\n// FIXME: two\n// NOTE: no\n");
    let comments = vec![cv(" TODO: one"), cv(" FIXME: two"), cv(" NOTE: no")];
    let out = scan_comments(&contents, &comments);
    assert_eq!(out.len(), 2);
    assert_eq!(out[0].row, 1);
    assert_eq!(out[0].col, 3);
    assert_eq!(text_of(&out[0].contents), "TODO: one");
    assert_eq!(out[1].row, 3);
    assert_eq!(out[1].col, 3);
    assert_eq!(text_of(&out[1].contents), "FIXME: two");
}

#[test]
fn duplicate_reminder_lines_get_distinct_positions() {
    let contents = cv("fn a() {}\n// TODO: same text\nfn b() {}\nfn c() {}\n// TODO: same text\n");
    let comments = vec![cv(" TODO: same text"), cv(" TODO: same text")];
    let out = scan_comments(&contents, &comments);
    assert_eq!(out.len(), 2);
    assert_eq!(out[0].row, 2);
    assert_eq!(out[1].row, 5);
    assert_eq!(out[0].col, 3);
    assert_eq!(out[1].col, 3);
    assert_eq!(text_of(&out[0].contents), "TODO: same text");
    assert_eq!(text_of(&out[1].contents), "TODO: same text");
}

#[test]
fn multi_line_block_comment_lines_are_scanned() {
    let contents = cv("/* TODO: first\nBUG: second */\n");
    let comments = vec![cv(" TODO: first\nBUG: second ")];
    let out = scan_comments(&contents, &comments);
    assert_eq!(out.len(), 2);
    assert_eq!(out[0].row, 1);
    assert_eq!(out[0].col, 3);
    assert_eq!(text_of(&out[0].contents), "TODO: first");
    assert_eq!(out[1].row, 2);
    assert_eq!(out[1].col, 0);
    assert_eq!(text_of(&out[1].contents), "BUG: second ");
}

#[test]
fn interior_lines_keep_their_leading_whitespace() {
    // Only the span's leading whitespace is trimmed: an interior line that
    // starts with spaces does not match the anchored pattern.
    let contents = cv("/* TODO: first\n   BUG: indented */\n");
    let comments = vec![cv(" TODO: first\n   BUG: indented ")];
    let out = scan_comments(&contents, &comments);
    assert_eq!(out.len(), 1);
    assert_eq!(text_of(&out[0].contents), "TODO: first");
}

#[test]
fn seen_paths_deduplicate_across_roots() {
    let mut seen = SeenPaths::new();
    let p1 = cv("/tmp/project/a.rs");
    let p2 = cv("/tmp/project/b.rs");
    assert!(seen.try_mark(&p1));
    assert!(!seen.try_mark(&p1));
    assert!(seen.try_mark(&p2));
    assert!(!seen.try_mark(&p1));
    assert!(!seen.try_mark(&p2));
}

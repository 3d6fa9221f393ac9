use reminder_scan::adapter::list_reminders;

fn text_of(v: &[char]) -> String {
    v.iter().collect()
}

#[test]
fn rust_file_yields_allow_listed_reminders_with_positions() {
    let contents = "// TODO: fix parsing\nfn f() {}\n// FIXME: handle overflow\n// NOTE: not a reminder\n";
    let out = list_reminders("a.rs", contents).expect("rust files are recognized");
    assert_eq!(out.len(), 2);
    assert_eq!(out[0].row, 1);
    assert_eq!(out[0].col, 3);
    assert_eq!(text_of(&out[0].contents), "TODO: fix parsing");
    assert_eq!(out[1].row, 3);
    assert_eq!(out[1].col, 3);
    assert_eq!(text_of(&out[1].contents), "FIXME: handle overflow");
}

#[test]
fn duplicate_reminder_lines_report_both_rows() {
    let contents = "fn a() {}\n// TODO: same text\nfn b() {}\nfn c() {}\n// TODO: same text\n";
    let out = list_reminders("b.rs", contents).expect("rust files are recognized");
    assert_eq!(out.len(), 2);
    assert_eq!(out[0].row, 2);
    assert_eq!(out[1].row, 5);
    assert_eq!(text_of(&out[0].contents), "TODO: same text");
    assert_eq!(text_of(&out[1].contents), "TODO: same text");
}

#[test]
fn unrecognized_file_type_is_skipped_silently() {
    assert!(list_reminders("notes.xyzdata", "TODO: in plain text\n").is_none());
    assert!(list_reminders("binary.bin", "// TODO: looks like code\n").is_none());
}

#[test]
fn recognized_file_without_reminders_yields_empty_output() {
    let out = list_reminders("c.rs", "fn main() {}\n").expect("rust files are recognized");
    assert_eq!(out.len(), 0);
}

#[test]
fn python_comments_are_recognized() {
    let contents = "# TODO: port this\nx = 1\n# NOTE: nothing\n";
    let out = list_reminders("d.py", contents).expect("python files are recognized");
    assert_eq!(out.len(), 1);
    assert_eq!(out[0].row, 1);
    assert_eq!(out[0].col, 2);
    assert_eq!(text_of(&out[0].contents), "TODO: port this");
}

#[test]
fn block_comment_reminders_are_found() {
    let contents = "/* TODO: first\nBUG: second */\nfn f() {}\n";
    let out = list_reminders("e.rs", contents).expect("rust files are recognized");
    assert_eq!(out.len(), 2);
    assert_eq!(out[0].row, 1);
    assert_eq!(out[0].col, 3);
    assert_eq!(text_of(&out[0].contents), "TODO: first");
    assert_eq!(out[1].row, 2);
    assert_eq!(out[1].col, 0);
    assert_eq!(text_of(&out[1].contents), "BUG: second ");
}

#[test]
fn scanning_twice_gives_identical_output() {
    let contents = "// TODO: a\nfn f() {}\n// BUG: b\n";
    let a = list_reminders("f.rs", contents).expect("rust files are recognized");
    let b = list_reminders("f.rs", contents).expect("rust files are recognized");
    assert_eq!(a.len(), b.len());
    for i in 0..a.len() {
        assert_eq!(a[i].row, b[i].row);
        assert_eq!(a[i].col, b[i].col);
        assert_eq!(text_of(&a[i].contents), text_of(&b[i].contents));
    }
}

#[test]
fn string_literals_are_not_comments() {
    let contents = "fn f() { let s = \"TODO: in a string\"; }\n// TODO: real\n";
    let out = list_reminders("g.rs", contents).expect("rust files are recognized");
    assert_eq!(out.len(), 1);
    assert_eq!(out[0].row, 2);
    assert_eq!(text_of(&out[0].contents), "TODO: real");
}

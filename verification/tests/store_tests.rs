use journal_tasks::DecodeError;
use journal_tasks::codec::decode;
use journal_tasks::store::{RecordFile, list_pending, set_status, set_status_at};

fn record(path: &str, id: &str, status: &str, body: &str) -> RecordFile {
    RecordFile {
        path: String::from(path),
        content: format!(
            "---\nid: {}\nlinked_note: notes/{}.md\nstatus: {}\n---\n\n{}\n",
            id, id, status, body
        ),
    }
}

#[test]
fn filtering_keeps_exactly_pending() {
    let files = vec![
        record("a.md", "1", "pending", "first"),
        record("b.md", "2", "done", "second"),
        record("c.md", "3", "pending", "third"),
        record("d.md", "4", "waiting", "fourth"),
    ];
    let items = list_pending(Some(files)).expect("listing");
    assert_eq!(items.len(), 2);
    let mut ids: Vec<String> = items.iter().map(|t| t.id.clone()).collect();
    ids.sort();
    assert_eq!(ids, vec![String::from("1"), String::from("3")]);
    for t in &items {
        assert_eq!(t.status, "pending");
    }
}

#[test]
fn filtering_is_independent_of_enumeration_order() {
    let forward = vec![
        record("a.md", "1", "pending", "x"),
        record("b.md", "2", "done", "y"),
        record("c.md", "3", "pending", "z"),
    ];
    let backward = vec![
        record("c.md", "3", "pending", "z"),
        record("b.md", "2", "done", "y"),
        record("a.md", "1", "pending", "x"),
    ];
    let f = list_pending(Some(forward)).expect("listing");
    let b = list_pending(Some(backward)).expect("listing");
    let fp: Vec<&str> = f.iter().map(|t| t.path.as_str()).collect();
    let bp: Vec<&str> = b.iter().map(|t| t.path.as_str()).collect();
    assert_eq!(fp, bp);
}

#[test]
fn ordering_is_path_descending() {
    let files = vec![
        record("a.md", "1", "pending", "x"),
        record("b.md", "2", "pending", "y"),
        record("c.md", "3", "pending", "z"),
    ];
    let items = list_pending(Some(files)).expect("listing");
    let paths: Vec<&str> = items.iter().map(|t| t.path.as_str()).collect();
    assert_eq!(paths, vec!["c.md", "b.md", "a.md"]);
}

#[test]
fn missing_directory_is_empty_not_error() {
    let items = list_pending(None).expect("listing");
    assert_eq!(items.len(), 0);
}

#[test]
fn malformed_record_aborts_whole_listing() {
    let files = vec![
        record("a.md", "1", "pending", "x"),
        RecordFile { path: String::from("b.md"), content: String::from("no delimiters here") },
        record("c.md", "3", "pending", "z"),
    ];
    assert_eq!(list_pending(Some(files)).unwrap_err(), DecodeError::MalformedRecord);
}

#[test]
fn bad_header_aborts_whole_listing() {
    let files = vec![
        record("a.md", "1", "pending", "x"),
        RecordFile {
            path: String::from("b.md"),
            content: String::from("---\nstatus: pending\n---\n\nx\n"),
        },
    ];
    assert_eq!(list_pending(Some(files)).unwrap_err(), DecodeError::HeaderParse);
}

#[test]
fn non_record_files_are_passed_over() {
    let files = vec![
        record("a.md", "1", "pending", "x"),
        RecordFile { path: String::from("notes.txt"), content: String::from("not a record") },
        RecordFile { path: String::from(".md"), content: String::from("hidden, no stem") },
        RecordFile { path: String::from("md"), content: String::from("no extension") },
        RecordFile { path: String::from("b.md.tmp"), content: String::from("left-over side file") },
    ];
    let items = list_pending(Some(files)).expect("listing");
    assert_eq!(items.len(), 1);
    assert_eq!(items[0].id, "1");
}

#[test]
fn summary_takes_first_body_line_as_title() {
    let files = vec![record("a.md", "1", "pending", "First line\nsecond line")];
    let items = list_pending(Some(files)).expect("listing");
    assert_eq!(items[0].text, "First line");
    assert_eq!(items[0].linked_note, "notes/1.md");
}

#[test]
fn status_transition_stamps_and_keeps_completed() {
    let raw = record("a.md", "1", "pending", "task").content;
    let done = set_status_at(raw.as_str(), "done", "T1").expect("set done");
    let (h1, body1) = decode(done.as_str()).expect("decode");
    assert_eq!(h1.status, "done");
    assert_eq!(h1.updated.as_deref(), Some("T1"));
    assert_eq!(h1.completed.as_deref(), Some("T1"));
    assert_eq!(body1, "task");
    let back = set_status_at(done.as_str(), "pending", "T2").expect("set pending");
    let (h2, body2) = decode(back.as_str()).expect("decode");
    assert_eq!(h2.status, "pending");
    assert_eq!(h2.updated.as_deref(), Some("T2"));
    assert_eq!(h2.completed.as_deref(), Some("T1"));
    assert_eq!(body2, "task");
}

#[test]
fn set_status_stamps_with_clock() {
    let raw = record("a.md", "1", "pending", "task").content;
    let done = set_status(raw.as_str(), "done").expect("set done");
    let (h, _) = decode(done.as_str()).expect("decode");
    assert_eq!(h.status, "done");
    let updated = h.updated.expect("updated stamped");
    let completed = h.completed.expect("completed stamped");
    assert!(updated.len() >= 20);
    assert!(updated.ends_with('Z'));
    assert!(completed.len() >= 20);
    assert!(completed.ends_with('Z'));
    assert!(completed.contains('T'));
}

#[test]
fn set_status_away_from_done_never_stamps_completed() {
    let raw = record("a.md", "1", "pending", "task").content;
    let moved = set_status_at(raw.as_str(), "waiting", "T9").expect("set waiting");
    let (h, _) = decode(moved.as_str()).expect("decode");
    assert_eq!(h.status, "waiting");
    assert_eq!(h.updated.as_deref(), Some("T9"));
    assert_eq!(h.completed, None);
}

#[test]
fn set_status_on_malformed_record_fails() {
    assert_eq!(
        set_status_at("garbage", "done", "T1").unwrap_err(),
        DecodeError::MalformedRecord
    );
}

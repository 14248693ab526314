use journal_tasks::DecodeError;
use journal_tasks::codec::{decode, encode};
use journal_tasks::header::TodoFrontmatter;

fn full_header() -> TodoFrontmatter {
    TodoFrontmatter {
        id: String::from("20240101-abc"),
        linked_note: String::from("notes/2024-01-01.md"),
        created: Some(String::from("2024-01-01T10:00:00Z")),
        updated: Some(String::from("2024-01-02T10:00:00Z")),
        status: String::from("pending"),
        completed: None,
        due: Some(String::from("2024-02-01")),
        priority: Some(String::from("high")),
        tags: Some(vec![String::from("work"), String::from("deep")]),
    }
}

#[test]
fn round_trip_full_header() {
    let h = full_header();
    let raw = encode(&h, "Write the report\nwith details\n");
    let (h2, body) = decode(raw.as_str()).expect("decode");
    assert_eq!(h2.id, "20240101-abc");
    assert_eq!(h2.linked_note, "notes/2024-01-01.md");
    assert_eq!(h2.created.as_deref(), Some("2024-01-01T10:00:00Z"));
    assert_eq!(h2.updated.as_deref(), Some("2024-01-02T10:00:00Z"));
    assert_eq!(h2.status, "pending");
    assert_eq!(h2.completed, None);
    assert_eq!(h2.due.as_deref(), Some("2024-02-01"));
    assert_eq!(h2.priority.as_deref(), Some("high"));
    assert_eq!(
        h2.tags,
        Some(vec![String::from("work"), String::from("deep")])
    );
    assert_eq!(body, "Write the report\nwith details");
}

#[test]
fn round_trip_minimal_header_trims_body() {
    let h = TodoFrontmatter {
        id: String::from("1"),
        linked_note: String::from("n.md"),
        created: None,
        updated: None,
        status: String::from("pending"),
        completed: None,
        due: None,
        priority: None,
        tags: None,
    };
    let raw = encode(&h, "  \n\n  A task  \n\n ");
    let (h2, body) = decode(raw.as_str()).expect("decode");
    assert_eq!(h2.id, "1");
    assert_eq!(h2.tags, None);
    assert_eq!(body, "A task");
}

#[test]
fn encode_exact_text() {
    let h = TodoFrontmatter {
        id: String::from("1"),
        linked_note: String::from("n.md"),
        created: None,
        updated: None,
        status: String::from("pending"),
        completed: None,
        due: None,
        priority: None,
        tags: None,
    };
    let raw = encode(&h, "Task");
    assert_eq!(raw, "---\nid: 1\nlinked_note: n.md\nstatus: pending\n---\n\nTask\n");
}

#[test]
fn encode_exact_text_with_tags() {
    let mut h = full_header();
    h.created = None;
    h.updated = None;
    h.due = None;
    h.priority = None;
    let raw = encode(&h, "T");
    assert_eq!(
        raw,
        "---\nid: 20240101-abc\nlinked_note: notes/2024-01-01.md\nstatus: pending\ntags:\n- work\n- deep\n---\n\nT\n"
    );
}

#[test]
fn no_delimiter_is_malformed() {
    assert_eq!(decode("id: 1\nstatus: pending\n").unwrap_err(), DecodeError::MalformedRecord);
}

#[test]
fn one_delimiter_is_malformed() {
    assert_eq!(
        decode("---\nid: 1\nlinked_note: n\nstatus: pending\n").unwrap_err(),
        DecodeError::MalformedRecord
    );
}

#[test]
fn empty_input_is_malformed() {
    assert_eq!(decode("").unwrap_err(), DecodeError::MalformedRecord);
}

#[test]
fn missing_required_field_is_header_error() {
    let raw = "---\nstatus: pending\n---\n\nbody\n";
    assert_eq!(decode(raw).unwrap_err(), DecodeError::HeaderParse);
}

#[test]
fn stray_header_line_is_header_error() {
    let raw = "---\nid: 1\nlinked_note: n\nstatus: pending\nnot a key value line\n---\n\nx\n";
    assert_eq!(decode(raw).unwrap_err(), DecodeError::HeaderParse);
}

#[test]
fn text_before_first_delimiter_is_discarded() {
    let raw = "junk---\nid: a\nlinked_note: n\nstatus: done\n---\n\nbody text\n";
    let (h, body) = decode(raw).expect("decode");
    assert_eq!(h.id, "a");
    assert_eq!(h.status, "done");
    assert_eq!(body, "body text");
}

#[test]
fn unknown_keys_are_ignored() {
    let raw = "---\nid: a\nlinked_note: n\nstatus: done\ncolour: red\n---\n\nb\n";
    let (h, _) = decode(raw).expect("decode");
    assert_eq!(h.id, "a");
}

#[test]
fn crlf_records_decode() {
    let raw = "---\r\nid: a\r\nlinked_note: n\r\nstatus: pending\r\n---\r\n\r\nBody\r\n";
    let (h, body) = decode(raw).expect("decode");
    assert_eq!(h.id, "a");
    assert_eq!(h.status, "pending");
    assert_eq!(body, "Body");
}

#[test]
fn body_keeps_inner_delimiters() {
    let h = TodoFrontmatter {
        id: String::from("1"),
        linked_note: String::from("n.md"),
        created: None,
        updated: None,
        status: String::from("pending"),
        completed: None,
        due: None,
        priority: None,
        tags: None,
    };
    let raw = encode(&h, "above\n---\nbelow");
    let (_, body) = decode(raw.as_str()).expect("decode");
    assert_eq!(body, "above\n---\nbelow");
}

#[test]
fn values_keep_colons() {
    let raw = "---\nid: a:b:c\nlinked_note: n\nstatus: pending\n---\n\nx\n";
    let (h, _) = decode(raw).expect("decode");
    assert_eq!(h.id, "a:b:c");
}

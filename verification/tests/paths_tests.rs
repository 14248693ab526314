use journal_tasks::actions::{DependencyStatus, SummarizeMode, dependency_status, entry_content_ok, summarize_mode};
use journal_tasks::paths::{first_line, is_record_file, path_join, temp_path};

#[test]
fn join_relative_reference() {
    assert_eq!(path_join("/root", "a/b.md"), "/root/a/b.md");
}

#[test]
fn join_keeps_single_separator() {
    assert_eq!(path_join("/root/", "a.md"), "/root/a.md");
}

#[test]
fn join_absolute_reference_replaces_base() {
    assert_eq!(path_join("/root", "/abs/n.md"), "/abs/n.md");
}

#[test]
fn join_empty_base() {
    assert_eq!(path_join("", "x"), "x");
}

#[test]
fn temp_path_replaces_record_extension() {
    assert_eq!(temp_path("a/b.md"), "a/b.md.tmp");
}

#[test]
fn temp_path_appends_when_no_extension() {
    assert_eq!(temp_path("noext"), "noext.md.tmp");
}

#[test]
fn temp_path_uses_last_extension_of_file_name() {
    assert_eq!(temp_path("d.ir/b.x.md"), "d.ir/b.x.md.tmp");
    assert_eq!(temp_path("d.ir/plain"), "d.ir/plain.md.tmp");
}

#[test]
fn record_file_names() {
    assert!(is_record_file("a.md"));
    assert!(is_record_file("dir/x.md"));
    assert!(!is_record_file("a.txt"));
    assert!(!is_record_file(".md"));
    assert!(!is_record_file("md"));
    assert!(!is_record_file("a.md.tmp"));
}

#[test]
fn first_line_of_text() {
    assert_eq!(first_line("one\ntwo"), "one");
    assert_eq!(first_line("single"), "single");
    assert_eq!(first_line(""), "");
    assert_eq!(first_line("crlf\r\nrest"), "crlf");
}

#[test]
fn entry_content_blank_is_rejected() {
    assert!(!entry_content_ok(""));
    assert!(!entry_content_ok("   \n\t "));
    assert!(entry_content_ok("  note "));
}

#[test]
fn summarize_mode_precedence() {
    assert_eq!(summarize_mode(None, None), SummarizeMode::Today);
    assert_eq!(summarize_mode(Some(false), Some(false)), SummarizeMode::Today);
    assert_eq!(summarize_mode(Some(true), None), SummarizeMode::Week);
    assert_eq!(summarize_mode(Some(true), Some(true)), SummarizeMode::PreviousWeek);
    assert_eq!(summarize_mode(None, Some(true)), SummarizeMode::PreviousWeek);
}

#[test]
fn dependency_status_reports_both_probes() {
    let s: DependencyStatus = dependency_status(true, false);
    assert!(s.journal_ai);
    assert!(!s.file_journal);
}

use zed_shell_marks::ide_tools::{
    close_tab_message, diagnostic_item, open_file_selection, opened_message, dirty_status, file_summary_item, file_url, open_editor_entry, severity_str, uri_to_path,
};

#[test]
fn uri_to_path_strips_file_scheme() {
    assert_eq!(uri_to_path("file:///home/me/a.rs"), "/home/me/a.rs");
    assert_eq!(uri_to_path("/home/me/a.rs"), "/home/me/a.rs");
    assert_eq!(uri_to_path("file://"), "");
    assert_eq!(uri_to_path("file:/x"), "file:/x");
    assert_eq!(uri_to_path("http://x"), "http://x");
    assert_eq!(uri_to_path(""), "");
}

#[test]
fn file_url_round_trips() {
    for path in ["/a/b.rs", "", "rel/x", "file://nested"] {
        let url = file_url(path);
        assert_eq!(url, format!("file://{path}"));
        assert_eq!(uri_to_path(&url), path);
    }
}

#[test]
fn severity_names() {
    assert_eq!(severity_str(1), "error");
    assert_eq!(severity_str(2), "warning");
    assert_eq!(severity_str(3), "information");
    assert_eq!(severity_str(4), "hint");
    assert_eq!(severity_str(0), "info");
    assert_eq!(severity_str(5), "info");
}

#[test]
fn file_summary_counts() {
    assert_eq!(file_summary_item("/a", 0, 0), None);
    let item = file_summary_item("/a", 2, 3).expect("entry");
    assert_eq!(item.file_path, "/a");
    assert_eq!(item.severity, "error");
    assert_eq!(item.line, 0);
    assert_eq!(item.character, 0);
    assert_eq!(item.message, "2 error(s), 3 warning(s)");
    assert_eq!(item.source, None);
    let item = file_summary_item("/b", 0, 12).expect("entry");
    assert_eq!(item.severity, "warning");
    assert_eq!(item.message, "0 error(s), 12 warning(s)");
}

#[test]
fn open_editor_fields() {
    let e = open_editor_entry("/w/main.rs", true, false);
    assert_eq!(e.file_path, "/w/main.rs");
    assert_eq!(e.file_url, "file:///w/main.rs");
    assert!(e.is_active);
    assert!(!e.is_dirty);
}

#[test]
fn dirty_reports() {
    assert_eq!(dirty_status(None), r#"{"isDirty":false,"isOpen":false}"#);
    assert_eq!(dirty_status(Some(true)), r#"{"isDirty":true,"isOpen":true}"#);
    assert_eq!(dirty_status(Some(false)), r#"{"isDirty":false,"isOpen":true}"#);
}

#[test]
fn open_file_messages_and_selection() {
    assert_eq!(open_file_selection(None, Some(3)), None);
    assert_eq!(open_file_selection(Some(4), None), Some((4, 4)));
    assert_eq!(open_file_selection(Some(4), Some(8)), Some((4, 8)));
    assert_eq!(opened_message("file:///a.rs"), "opened file:///a.rs");
    assert_eq!(close_tab_message(true), "closed");
    assert_eq!(close_tab_message(false), "no matching tab");
}

#[test]
fn per_file_diagnostic_item() {
    let item = diagnostic_item("/a.rs", 2, 4, 7, "unused", Some("rustc"));
    assert_eq!(item.file_path, "/a.rs");
    assert_eq!(item.severity, "warning");
    assert_eq!((item.line, item.character), (4, 7));
    assert_eq!(item.message, "unused");
    assert_eq!(item.source.as_deref(), Some("rustc"));
    assert_eq!(diagnostic_item("/b", 9, 0, 0, "m", None).severity, "info");
    assert_eq!(diagnostic_item("/b", 9, 0, 0, "m", None).source, None);
}

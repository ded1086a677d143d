//! The computed parts of the editor's MCP tools: turning a `file://` URI
//! into a path, naming a diagnostic's severity, summarising a file's
//! diagnostic counts, describing an open editor tab, and the dirty-state
//! report. Reading the workspace and encoding JSON happen around these.

use vstd::prelude::*;
use crate::text::{chars_of, string_from_chars, decimal, decimal_string};

verus! {

/// The URI scheme prefix of a local file.
pub open spec fn file_scheme() -> Seq<char> {
    seq!['f', 'i', 'l', 'e', ':', '/', '/']
}

/// The path that a `file://` URI (or a bare path) names: the text after
/// the prefix when there is one, else the whole text.
pub open spec fn path_of_uri(uri: Seq<char>) -> Seq<char> {
    if uri.len() >= 7 && uri.subrange(0, 7) == file_scheme() {
        uri.subrange(7, uri.len() as int)
    } else {
        uri
    }
}

/// Turns a `file://` URI (or a bare path) into a filesystem path.
pub fn uri_to_path(uri: &str) -> (r: String)
    ensures
        r@ == path_of_uri(uri@),
{
    let chars = chars_of(uri);
    let n = chars.len();
    let prefix: [char; 7] = ['f', 'i', 'l', 'e', ':', '/', '/'];
    let mut matches = n >= 7;
    let mut i: usize = 0;
    while matches && i < 7
        invariant
            n == chars@.len(),
            i <= 7,
            prefix@ == file_scheme(),
            matches ==> n >= 7,
            matches ==> forall|j: int| 0 <= j < i ==> chars@[j] == file_scheme()[j],
            !matches ==> !(n >= 7 && chars@.subrange(0, 7) == file_scheme()),
        decreases 7 - i,
    {
        if chars[i] != prefix[i] {
            assert(chars@.subrange(0, 7)[i as int] != file_scheme()[i as int]);
            matches = false;
        }
        i = i + 1;
    }
    if matches {
        assert(chars@.subrange(0, 7) =~= file_scheme());
        string_from_chars(chars.as_slice(), 7, n)
    } else {
        string_from_chars(chars.as_slice(), 0, n)
    }
}

/// The `file://` URL of an absolute path.
pub open spec fn file_url_of(path: Seq<char>) -> Seq<char> {
    file_scheme() + path
}

/// The `file://` URL of an absolute path, as an open-editor entry gives it.
pub fn file_url(path: &str) -> (r: String)
    ensures
        r@ == file_url_of(path@),
{
    let mut out = String::new();
    out.push('f');
    out.push('i');
    out.push('l');
    out.push('e');
    out.push(':');
    out.push('/');
    out.push('/');
    out.push_str(path);
    assert(out@ =~= file_url_of(path@));
    out
}

/// The word for an LSP diagnostic severity code.
pub open spec fn severity_word(severity: i32) -> Seq<char> {
    if severity == 1 {
        "error"@
    } else if severity == 2 {
        "warning"@
    } else if severity == 3 {
        "information"@
    } else if severity == 4 {
        "hint"@
    } else {
        "info"@
    }
}

/// Names a diagnostic severity: error (1), warning (2), information (3),
/// hint (4), and info for any other code.
pub fn severity_str(severity: i32) -> (r: &'static str)
    ensures
        r@ == severity_word(severity),
{
    if severity == 1 {
        "error"
    } else if severity == 2 {
        "warning"
    } else if severity == 3 {
        "information"
    } else if severity == 4 {
        "hint"
    } else {
        "info"
    }
}

/// One diagnostic as the tools report it.
#[derive(Debug, Clone, PartialEq, Eq)]
pub struct DiagnosticItem {
    pub file_path: String,
    pub severity: String,
    pub line: u32,
    pub character: u32,
    pub message: String,
    pub source: Option<String>,
}

/// One diagnostic of an open file, as the per-file report gives it: the
/// file's path, the word for its severity, where its range starts, its
/// message and its source.
pub fn diagnostic_item(
    file_path: &str,
    severity: i32,
    line: u32,
    character: u32,
    message: &str,
    source: Option<&str>,
) -> (r: DiagnosticItem)
    ensures
        r.file_path@ == file_path@,
        r.severity@ == severity_word(severity),
        r.line == line,
        r.character == character,
        r.message@ == message@,
        match source {
            Some(s) => r.source matches Some(t) && t@ == s@,
            None => r.source is None,
        },
{
    let mut path = String::new();
    path.push_str(file_path);
    let mut word = String::new();
    word.push_str(severity_str(severity));
    let mut text = String::new();
    text.push_str(message);
    let src = match source {
        Some(s) => {
            let mut t = String::new();
            t.push_str(s);
            Some(t)
        },
        None => None,
    };
    DiagnosticItem { file_path: path, severity: word, line, character, message: text, source: src }
}

/// The message that sums up a file's diagnostics.
pub open spec fn counts_message(error_count: nat, warning_count: nat) -> Seq<char> {
    decimal(error_count) + " error(s), "@ + decimal(warning_count) + " warning(s)"@
}

/// The project-wide entry for one file: none when it has neither errors
/// nor warnings; else at line 0, column 0, with severity "error" when
/// there is an error and "warning" otherwise, and the counts as message.
pub fn file_summary_item(file_path: &str, error_count: usize, warning_count: usize) -> (r: Option<
    DiagnosticItem,
>)
    ensures
        r is None <==> (error_count == 0 && warning_count == 0),
        r matches Some(item) ==> {
            &&& item.file_path@ == file_path@
            &&& item.severity@ == (if error_count > 0 {
                "error"@
            } else {
                "warning"@
            })
            &&& item.line == 0
            &&& item.character == 0
            &&& item.message@ == counts_message(error_count as nat, warning_count as nat)
            &&& item.source is None
        },
{
    if error_count == 0 && warning_count == 0 {
        return None;
    }
    let mut path = String::new();
    path.push_str(file_path);
    let mut severity = String::new();
    if error_count > 0 {
        severity.push_str("error");
    } else {
        severity.push_str("warning");
    }
    let mut message = decimal_string(error_count);
    message.push_str(" error(s), ");
    let warnings = decimal_string(warning_count);
    message.push_str(warnings.as_str());
    message.push_str(" warning(s)");
    Some(
        DiagnosticItem {
            file_path: path,
            severity,
            line: 0,
            character: 0,
            message,
            source: None,
        },
    )
}

/// One open editor tab as the tools report it.
#[derive(Debug, Clone, PartialEq, Eq)]
pub struct OpenEditor {
    pub file_path: String,
    pub file_url: String,
    pub is_active: bool,
    pub is_dirty: bool,
}

/// Describes an open editor tab on an absolute path.
pub fn open_editor_entry(file_path: &str, is_active: bool, is_dirty: bool) -> (r: OpenEditor)
    ensures
        r.file_path@ == file_path@,
        r.file_url@ == file_url_of(file_path@),
        r.is_active == is_active,
        r.is_dirty == is_dirty,
{
    let mut path = String::new();
    path.push_str(file_path);
    OpenEditor { file_path: path, file_url: file_url(file_path), is_active, is_dirty }
}

/// The text of the dirty-state report: whether the buffer has unsaved
/// changes and whether it is open at all.
pub open spec fn dirty_report(open_dirty: Option<bool>) -> Seq<char> {
    match open_dirty {
        None => "{\"isDirty\":false,\"isOpen\":false}"@,
        Some(true) => "{\"isDirty\":true,\"isOpen\":true}"@,
        Some(false) => "{\"isDirty\":false,\"isOpen\":true}"@,
    }
}

/// The dirty-state report for a path: `None` when no buffer is open for
/// it (which then counts as clean), else whether the open buffer is dirty.
pub fn dirty_status(open_dirty: Option<bool>) -> (r: String)
    ensures
        r@ == dirty_report(open_dirty),
{
    let mut out = String::new();
    match open_dirty {
        None => out.push_str("{\"isDirty\":false,\"isOpen\":false}"),
        Some(true) => out.push_str("{\"isDirty\":true,\"isOpen\":true}"),
        Some(false) => out.push_str("{\"isDirty\":false,\"isOpen\":true}"),
    }
    out
}

/// The lines that opening a file selects: from the start line to the end
/// line (the start line again when no end is given); nothing without a
/// start line.
pub fn open_file_selection(start_line: Option<u32>, end_line: Option<u32>) -> (r: Option<(u32, u32)>)
    ensures
        r == match start_line {
            Some(start) => Some(
                (
                    start,
                    match end_line {
                        Some(end) => end,
                        None => start,
                    },
                ),
            ),
            None => None,
        },
{
    match start_line {
        Some(start) => {
            let end = match end_line {
                Some(end) => end,
                None => start,
            };
            Some((start, end))
        },
        None => None,
    }
}

/// The answer to opening a file: "opened" and the path as it was asked for.
pub fn opened_message(file_path: &str) -> (r: String)
    ensures
        r@ == "opened "@ + file_path@,
{
    let mut out = String::new();
    out.push_str("opened ");
    out.push_str(file_path);
    out
}

/// The answer to closing a tab: whether a tab on the path was found.
pub fn close_tab_message(closed: bool) -> (r: &'static str)
    ensures
        r@ == if closed {
            "closed"@
        } else {
            "no matching tab"@
        },
{
    if closed {
        "closed"
    } else {
        "no matching tab"
    }
}

/// An editor tab's URL leads back to its path: `uri_to_path` undoes
/// `file_url`.
pub proof fn lemma_file_url_round_trip(path: Seq<char>)
    ensures
        path_of_uri(file_url_of(path)) == path,
{
    let u = file_url_of(path);
    assert(u.subrange(0, 7) =~= file_scheme());
    assert(u.subrange(7, u.len() as int) =~= path);
}

} // verus!

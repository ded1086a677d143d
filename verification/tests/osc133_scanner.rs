use zed_shell_marks::osc133_scanner::{Osc133Scanner, ScanState, MAX_PAYLOAD_LEN};
use zed_shell_marks::semantic_zones::{Column, Line, Point, SemanticMarkType};
use zed_shell_marks::term::Term;

fn make_term(cols: usize, lines: usize) -> Term {
    Term::new(cols, lines)
}

#[test]
fn scanner_bel_terminated() {
    let mut term = make_term(80, 24);
    let mut scanner = Osc133Scanner::new();

    // ESC ] 133 ; A BEL
    scanner.advance(&mut term, b"\x1b]133;A\x07");

    let marks = term.semantic_marks();
    assert_eq!(marks.len(), 1);
    assert_eq!(marks[0].mark_type, SemanticMarkType::PromptStart);
    assert_eq!(marks[0].point, Point::new(Line(0), Column(0)));
}

#[test]
fn scanner_st_terminated() {
    let mut term = make_term(80, 24);
    let mut scanner = Osc133Scanner::new();

    // ESC ] 133 ; B ESC backslash
    scanner.advance(&mut term, b"\x1b]133;B\x1b\\");

    let marks = term.semantic_marks();
    assert_eq!(marks.len(), 1);
    assert_eq!(marks[0].mark_type, SemanticMarkType::CommandStart);
}

#[test]
fn scanner_all_subcommands() {
    let mut term = make_term(80, 24);
    let mut scanner = Osc133Scanner::new();

    scanner.advance(&mut term, b"\x1b]133;A\x07");
    scanner.advance(&mut term, b"\x1b]133;B\x07");
    scanner.advance(&mut term, b"\x1b]133;C\x07");
    scanner.advance(&mut term, b"\x1b]133;D;0\x07");

    let marks = term.semantic_marks();
    assert_eq!(marks.len(), 4);
    assert_eq!(marks[0].mark_type, SemanticMarkType::PromptStart);
    assert_eq!(marks[1].mark_type, SemanticMarkType::CommandStart);
    assert_eq!(marks[2].mark_type, SemanticMarkType::OutputStart);
    assert_eq!(marks[3].mark_type, SemanticMarkType::CommandFinished(Some(0)));
}

#[test]
fn scanner_exit_code_variations() {
    let mut term = make_term(80, 24);
    let mut scanner = Osc133Scanner::new();

    // Exit code 127.
    scanner.advance(&mut term, b"\x1b]133;D;127\x07");
    match term.semantic_marks().last().map(|m| m.mark_type) {
        Some(SemanticMarkType::CommandFinished(Some(127))) => {},
        other => panic!("Expected CommandFinished(Some(127)), got {:?}", other),
    }

    // No exit code.
    scanner.advance(&mut term, b"\x1b]133;D\x07");
    match term.semantic_marks().last().map(|m| m.mark_type) {
        Some(SemanticMarkType::CommandFinished(None)) => {},
        other => panic!("Expected CommandFinished(None), got {:?}", other),
    }

    // Negative exit code (signal).
    scanner.advance(&mut term, b"\x1b]133;D;-9\x07");
    match term.semantic_marks().last().map(|m| m.mark_type) {
        Some(SemanticMarkType::CommandFinished(Some(-9))) => {},
        other => panic!("Expected CommandFinished(Some(-9)), got {:?}", other),
    }
}

#[test]
fn scanner_mixed_with_normal_output() {
    let mut term = make_term(80, 24);
    let mut scanner = Osc133Scanner::new();

    // Normal text interspersed with shell integration sequences.
    let stream = b"hello\x1b]133;A\x07$ \x1b]133;B\x07ls\x1b]133;C\x07file1\n\x1b]133;D;0\x07";
    scanner.advance(&mut term, stream);

    let marks = term.semantic_marks();
    assert_eq!(marks.len(), 4);
}

#[test]
fn scanner_split_across_reads() {
    let mut term = make_term(80, 24);
    let mut scanner = Osc133Scanner::new();

    // The OSC 133 sequence is split across two reads.
    scanner.advance(&mut term, b"\x1b]13");
    assert!(term.semantic_marks().is_empty());

    scanner.advance(&mut term, b"3;A\x07");
    assert_eq!(term.semantic_marks().len(), 1);
    assert_eq!(
        term.semantic_marks()[0].mark_type,
        SemanticMarkType::PromptStart,
    );
}

#[test]
fn scanner_split_at_every_byte() {
    let mut term = make_term(80, 24);
    let mut scanner = Osc133Scanner::new();

    // Feed one byte at a time.
    for &byte in b"\x1b]133;C\x07" {
        scanner.advance(&mut term, &[byte]);
    }

    assert_eq!(term.semantic_marks().len(), 1);
    assert_eq!(
        term.semantic_marks()[0].mark_type,
        SemanticMarkType::OutputStart,
    );
}

#[test]
fn scanner_ignores_other_osc_codes() {
    let mut term = make_term(80, 24);
    let mut scanner = Osc133Scanner::new();

    // OSC 0 (set title).
    scanner.advance(&mut term, b"\x1b]0;My Title\x07");
    assert!(term.semantic_marks().is_empty());

    // OSC 52 (clipboard).
    scanner.advance(&mut term, b"\x1b]52;c;dGVzdA==\x07");
    assert!(term.semantic_marks().is_empty());

    // OSC 1337 (shares the "133" prefix).
    scanner.advance(&mut term, b"\x1b]1337;SetMark\x07");
    assert!(term.semantic_marks().is_empty());
}

#[test]
fn scanner_ignores_unknown_subcommands() {
    let mut term = make_term(80, 24);
    let mut scanner = Osc133Scanner::new();

    scanner.advance(&mut term, b"\x1b]133;Z\x07");
    assert!(term.semantic_marks().is_empty());

    scanner.advance(&mut term, b"\x1b]133;X;foo\x07");
    assert!(term.semantic_marks().is_empty());
}

#[test]
fn scanner_consecutive_sequences() {
    let mut term = make_term(80, 24);
    let mut scanner = Osc133Scanner::new();

    // Two sequences back-to-back with no gap.
    scanner.advance(&mut term, b"\x1b]133;A\x07\x1b]133;B\x07");
    assert_eq!(term.semantic_marks().len(), 2);
}

#[test]
fn scanner_esc_in_middle_of_non_osc() {
    let mut term = make_term(80, 24);
    let mut scanner = Osc133Scanner::new();

    // An ESC that starts something other than OSC, followed by a real
    // OSC 133. The scanner should recover.
    scanner.advance(&mut term, b"\x1b[31m\x1b]133;A\x07");
    assert_eq!(term.semantic_marks().len(), 1);
}

#[test]
fn scanner_truncates_oversized_payload() {
    let mut term = make_term(80, 24);
    let mut scanner = Osc133Scanner::new();

    // A payload exceeding MAX_PAYLOAD_LEN.
    let mut data = Vec::new();
    data.extend_from_slice(b"\x1b]133;");
    data.extend(std::iter::repeat(b'A').take(MAX_PAYLOAD_LEN + 10));
    data.push(0x07);
    scanner.advance(&mut term, &data);

    // Should be dropped (payload too long).
    assert!(term.semantic_marks().is_empty());
}

#[test]
fn scanner_st_split_across_reads() {
    let mut term = make_term(80, 24);
    let mut scanner = Osc133Scanner::new();

    // ESC ] 133 ; A ESC  (split)  backslash
    scanner.advance(&mut term, b"\x1b]133;A\x1b");
    assert!(term.semantic_marks().is_empty());

    scanner.advance(&mut term, b"\\");
    assert_eq!(term.semantic_marks().len(), 1);
}

#[test]
fn scanner_broken_st_recovers() {
    let mut term = make_term(80, 24);
    let mut scanner = Osc133Scanner::new();

    // The ESC is not followed by a backslash (broken ST); a valid
    // sequence follows.
    scanner.advance(&mut term, b"\x1b]133;A\x1b[m\x1b]133;B\x07");

    let marks = term.semantic_marks();
    assert_eq!(marks.len(), 1);
    assert_eq!(marks[0].mark_type, SemanticMarkType::CommandStart);
}

#[test]
fn scanner_payload_at_limit_is_kept() {
    let mut term = make_term(80, 24);
    let mut scanner = Osc133Scanner::new();

    // "D;" followed by 62 digits is exactly the limit: dispatched, though
    // the exit code does not fit an i32.
    let mut data = Vec::new();
    data.extend_from_slice(b"\x1b]133;D;");
    data.extend(std::iter::repeat(b'1').take(MAX_PAYLOAD_LEN - 2));
    data.push(0x07);
    scanner.advance(&mut term, &data);
    assert_eq!(term.semantic_marks().len(), 1);
    assert_eq!(
        term.semantic_marks()[0].mark_type,
        SemanticMarkType::CommandFinished(None)
    );
}

#[test]
fn scanner_invalid_utf8_payload_dropped() {
    let mut term = make_term(80, 24);
    let mut scanner = Osc133Scanner::new();
    scanner.advance(&mut term, b"\x1b]133;\xff\x07");
    assert!(term.semantic_marks().is_empty());
    // The scanner is back on the ground and takes the next one.
    scanner.advance(&mut term, b"\x1b]133;A\x07");
    assert_eq!(term.semantic_marks().len(), 1);
}

#[test]
fn scanner_esc_after_partial_prefix_restarts() {
    let mut term = make_term(80, 24);
    let mut scanner = Osc133Scanner::new();
    // `ESC ] 1` then a fresh `ESC ] 133;B BEL`.
    scanner.advance(&mut term, b"\x1b]1\x1b]133;B\x07");
    assert_eq!(term.semantic_marks().len(), 1);
    assert_eq!(term.semantic_marks()[0].mark_type, SemanticMarkType::CommandStart);
}

#[test]
fn scanner_payload_esc_bracket_opens_new_osc() {
    let mut term = make_term(80, 24);
    let mut scanner = Osc133Scanner::new();
    // Inside a payload, `ESC ]` starts a new OSC right away.
    scanner.advance(&mut term, b"\x1b]133;A\x1b]133;C\x07");
    assert_eq!(term.semantic_marks().len(), 1);
    assert_eq!(term.semantic_marks()[0].mark_type, SemanticMarkType::OutputStart);
}

#[test]
fn scanner_default_is_new() {
    let mut term = make_term(80, 24);
    let mut scanner = Osc133Scanner::default();
    scanner.advance(&mut term, b"\x1b]133;A\x07");
    assert_eq!(term.semantic_marks().len(), 1);
    let _ = ScanState::Ground;
}

#[test]
fn scanner_marks_at_cursor() {
    let mut term = make_term(80, 24);
    let mut scanner = Osc133Scanner::new();
    for c in "$ ".chars() {
        term.input(c);
    }
    scanner.advance(&mut term, b"\x1b]133;B\x07");
    assert_eq!(term.semantic_marks()[0].point, Point::new(Line(0), Column(2)));
}

#[test]
fn scanner_stray_esc_before_sequence() {
    let mut term = make_term(80, 24);
    let mut scanner = Osc133Scanner::new();
    scanner.advance(&mut term, b"\x1b\x1b]133;A\x07");
    assert_eq!(term.semantic_marks().len(), 1);
    assert_eq!(term.semantic_marks()[0].mark_type, SemanticMarkType::PromptStart);
}

#[test]
fn scanner_esc_after_payload_esc_starts_new_sequence() {
    let mut term = make_term(80, 24);
    let mut scanner = Osc133Scanner::new();
    // The first payload's ESC is followed by another ESC, which opens the
    // next sequence.
    scanner.advance(&mut term, b"\x1b]133;A\x1b\x1b]133;B\x07");
    assert_eq!(term.semantic_marks().len(), 1);
    assert_eq!(term.semantic_marks()[0].mark_type, SemanticMarkType::CommandStart);
}

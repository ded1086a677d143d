use zed_shell_marks::semantic_zones::{
    Column, Line, Point, SemanticMark, SemanticMarkType, SemanticZone, SemanticZoneType,
    find_last_exit_code, last_output_zone, mark_type_for_payload, zones_from_marks,
};
use zed_shell_marks::term::{Term, TermMode};

fn make_term(cols: usize, lines: usize) -> Term {
    Term::new(cols, lines)
}

#[test]
fn osc133_basic_zone_construction() {
    let mut term = make_term(80, 24);

    // Prompt at (0, 0).
    term.handle_osc_133("A");

    for c in "$ ".chars() {
        term.input(c);
    }

    // Command start at current cursor.
    term.handle_osc_133("B");

    for c in "ls -la".chars() {
        term.input(c);
    }

    // Output start.
    term.handle_osc_133("C");

    term.linefeed();
    term.carriage_return();
    for c in "file1.txt".chars() {
        term.input(c);
    }

    // Command finished with exit code 0.
    term.handle_osc_133("D;0");

    let zones = term.semantic_zones();
    assert_eq!(zones.len(), 3, "Expected 3 zones, got: {:?}", zones);

    assert_eq!(zones[0].zone_type, SemanticZoneType::Prompt);
    assert_eq!(zones[0].start, Point::new(Line(0), Column(0)));

    assert_eq!(zones[1].zone_type, SemanticZoneType::Input);

    assert_eq!(zones[2].zone_type, SemanticZoneType::Output);
}

#[test]
fn osc133_last_command_output() {
    let mut term = make_term(80, 24);

    // First command cycle.
    term.handle_osc_133("A");
    term.handle_osc_133("B");
    term.handle_osc_133("C");
    for c in "output1".chars() {
        term.input(c);
    }
    term.handle_osc_133("D;0");

    // Second command cycle.
    term.handle_osc_133("A");
    term.handle_osc_133("B");
    term.handle_osc_133("C");
    for c in "output2".chars() {
        term.input(c);
    }
    term.handle_osc_133("D;1");

    let last_output = term.last_command_output();
    assert!(last_output.is_some());
    let zone = last_output.expect("should have last output zone");
    assert_eq!(zone.zone_type, SemanticZoneType::Output);

    // The last exit code should be 1.
    assert_eq!(term.last_exit_code(), Some(Some(1)));
}

#[test]
fn osc133_command_finished_without_exit_code() {
    let mut term = make_term(80, 24);

    term.handle_osc_133("A");
    term.handle_osc_133("B");
    term.handle_osc_133("C");
    term.handle_osc_133("D");

    assert_eq!(term.last_exit_code(), Some(None));
}

#[test]
fn osc133_unknown_subcommand_ignored() {
    let mut term = make_term(80, 24);
    let before = term.semantic_marks().len();
    term.handle_osc_133("Z");
    term.handle_osc_133("");
    term.handle_osc_133("X;foo");
    assert_eq!(term.semantic_marks().len(), before);
}

#[test]
fn osc133_alt_screen_ignored() {
    let mut term = make_term(80, 24);

    // Switch to alt screen.
    term.swap_alt();
    assert!(term.mode().contains(TermMode::ALT_SCREEN));

    term.handle_osc_133("A");
    assert!(term.semantic_marks().is_empty());

    // Switch back.
    term.swap_alt();
    assert!(!term.mode().contains(TermMode::ALT_SCREEN));

    term.handle_osc_133("A");
    assert_eq!(term.semantic_marks().len(), 1);
}

#[test]
fn osc133_reset_clears_marks() {
    let mut term = make_term(80, 24);
    term.handle_osc_133("A");
    term.handle_osc_133("B");
    assert_eq!(term.semantic_marks().len(), 2);

    term.reset_state();
    assert!(term.semantic_marks().is_empty());
}

#[test]
fn osc133_command_for_output() {
    let mut term = make_term(80, 24);

    // Prompt.
    term.handle_osc_133("A");
    for c in "$ ".chars() {
        term.input(c);
    }

    // Command: "echo hello".
    term.handle_osc_133("B");
    for c in "echo hello".chars() {
        term.input(c);
    }

    // Output.
    term.handle_osc_133("C");
    term.linefeed();
    term.carriage_return();
    for c in "hello".chars() {
        term.input(c);
    }

    term.handle_osc_133("D;0");

    let output_zone = term.last_command_output().expect("should have output zone");
    let command = term.command_for_output(&output_zone);
    assert_eq!(command.as_deref(), Some("echo hello"));
}

#[test]
fn osc133_empty_zones() {
    let term = make_term(80, 24);
    assert!(term.semantic_zones().is_empty());
    assert!(term.last_command_output().is_none());
    assert!(term.last_exit_code().is_none());
}

#[test]
fn osc133_multiple_prompt_starts() {
    // Some shells re-emit PromptStart when redrawing the prompt.
    let mut term = make_term(80, 24);

    term.handle_osc_133("A");
    for c in "$ ".chars() {
        term.input(c);
    }
    // Shell redraws prompt.
    term.handle_osc_133("A");
    for c in "$ ".chars() {
        term.input(c);
    }
    term.handle_osc_133("B");
    for c in "pwd".chars() {
        term.input(c);
    }
    term.handle_osc_133("C");

    let zones = term.semantic_zones();
    // Should have: Prompt, Prompt, Input, Output.
    assert_eq!(zones.len(), 4);
    assert_eq!(zones[0].zone_type, SemanticZoneType::Prompt);
    assert_eq!(zones[1].zone_type, SemanticZoneType::Prompt);
    assert_eq!(zones[2].zone_type, SemanticZoneType::Input);
    assert_eq!(zones[3].zone_type, SemanticZoneType::Output);
}

#[test]
fn osc133_scroll_adjusts_marks() {
    let mut term = make_term(80, 10);

    term.handle_osc_133("A");
    let initial_line = term.semantic_marks()[0].point.line;

    // Generate enough newlines to cause scrolling.
    for _ in 0..15 {
        term.linefeed();
    }

    // The mark should have been adjusted to a negative line (scrollback).
    assert!(
        term.semantic_marks()[0].point.line < initial_line,
        "Mark should have scrolled into history, was {:?}",
        term.semantic_marks()[0].point.line,
    );
}

#[test]
fn osc133_exit_code_parsing() {
    let mut term = make_term(80, 24);

    // Positive exit code.
    term.handle_osc_133("D;42");
    assert_eq!(term.last_exit_code(), Some(Some(42)));

    // Negative exit code (signal).
    term.handle_osc_133("D;-1");
    assert_eq!(term.last_exit_code(), Some(Some(-1)));

    // Exit code with whitespace.
    term.handle_osc_133("D; 7 ");
    assert_eq!(term.last_exit_code(), Some(Some(7)));

    // No exit code.
    term.handle_osc_133("D");
    assert_eq!(term.last_exit_code(), Some(None));

    // Invalid exit code (not a number) — treated as no code.
    term.handle_osc_133("D;abc");
    assert_eq!(term.last_exit_code(), Some(None));
}

#[test]
fn zones_exact_bounds() {
    let mut term = make_term(80, 24);
    term.handle_osc_133("A");
    for c in "$ ".chars() {
        term.input(c);
    }
    term.handle_osc_133("B");
    for c in "ls".chars() {
        term.input(c);
    }
    term.handle_osc_133("C");
    let zones = term.semantic_zones();
    assert_eq!(
        zones,
        vec![
            SemanticZone {
                zone_type: SemanticZoneType::Prompt,
                start: Point::new(Line(0), Column(0)),
                end: Point::new(Line(0), Column(1)),
            },
            SemanticZone {
                zone_type: SemanticZoneType::Input,
                start: Point::new(Line(0), Column(2)),
                end: Point::new(Line(0), Column(3)),
            },
            SemanticZone {
                zone_type: SemanticZoneType::Output,
                start: Point::new(Line(0), Column(4)),
                end: Point::new(Line(0), Column(4)),
            },
        ]
    );
}

#[test]
fn zone_end_wraps_to_previous_line() {
    // A mark at column 0 ends the previous zone at the last column of the
    // line above.
    let mark = |line: i32, col: usize, t: SemanticMarkType| SemanticMark {
        point: Point::new(Line(line), Column(col)),
        mark_type: t,
    };
    let marks = vec![
        mark(0, 3, SemanticMarkType::OutputStart),
        mark(2, 0, SemanticMarkType::PromptStart),
    ];
    let zones = zones_from_marks(&marks, Point::new(Line(2), Column(5)), Line(0), Column(79));
    assert_eq!(zones.len(), 2);
    assert_eq!(zones[0].end, Point::new(Line(1), Column(79)));
    assert_eq!(zones[1].start, Point::new(Line(2), Column(0)));
    assert_eq!(zones[1].end, Point::new(Line(2), Column(5)));
}

#[test]
fn command_finished_marks_open_no_zone() {
    let marks = vec![
        SemanticMark {
            point: Point::new(Line(0), Column(0)),
            mark_type: SemanticMarkType::OutputStart,
        },
        SemanticMark {
            point: Point::new(Line(1), Column(0)),
            mark_type: SemanticMarkType::CommandFinished(Some(0)),
        },
    ];
    let zones = zones_from_marks(&marks, Point::new(Line(3), Column(0)), Line(0), Column(9));
    assert_eq!(zones.len(), 1);
    assert_eq!(zones[0].end, Point::new(Line(0), Column(9)));
    assert_eq!(last_output_zone(&zones), Some(zones[0]));
    assert_eq!(find_last_exit_code(&marks), Some(Some(0)));
}

#[test]
fn payload_parsing_edges() {
    assert_eq!(mark_type_for_payload("A"), Some(SemanticMarkType::PromptStart));
    assert_eq!(mark_type_for_payload("AB"), None);
    assert_eq!(mark_type_for_payload("Dx"), Some(SemanticMarkType::CommandFinished(None)));
    assert_eq!(
        mark_type_for_payload("D;2147483647"),
        Some(SemanticMarkType::CommandFinished(Some(2147483647)))
    );
    assert_eq!(
        mark_type_for_payload("D;-2147483648"),
        Some(SemanticMarkType::CommandFinished(Some(-2147483648)))
    );
    assert_eq!(
        mark_type_for_payload("D;2147483648"),
        Some(SemanticMarkType::CommandFinished(None))
    );
    assert_eq!(mark_type_for_payload("D;+5"), Some(SemanticMarkType::CommandFinished(Some(5))));
    assert_eq!(mark_type_for_payload("D;"), Some(SemanticMarkType::CommandFinished(None)));
}

#[test]
fn last_output_skips_later_prompt() {
    let mut term = make_term(80, 24);
    term.handle_osc_133("C");
    term.input('x');
    term.handle_osc_133("A");
    let out = term.last_command_output().expect("output zone");
    assert_eq!(out.start, Point::new(Line(0), Column(0)));
    assert_eq!(out.end, Point::new(Line(0), Column(0)));
}

#[test]
fn command_for_output_without_input_is_none() {
    let mut term = make_term(80, 24);
    term.handle_osc_133("C");
    let out = term.last_command_output().expect("output zone");
    assert_eq!(term.command_for_output(&out), None);
}

#[test]
fn command_for_blank_input_is_none() {
    let mut term = make_term(80, 24);
    term.handle_osc_133("B");
    term.input(' ');
    term.handle_osc_133("C");
    let out = term.last_command_output().expect("output zone");
    assert_eq!(term.command_for_output(&out), None);
}

#[test]
fn command_spanning_wrapped_line() {
    let mut term = make_term(5, 4);
    term.handle_osc_133("B");
    for c in "abcdefg".chars() {
        term.input(c);
    }
    term.handle_osc_133("C");
    let out = term.last_command_output().expect("output zone");
    assert_eq!(term.command_for_output(&out).as_deref(), Some("abcdefg"));
}

#[test]
fn bounds_to_string_joins_lines() {
    let mut term = make_term(10, 4);
    for c in "ab".chars() {
        term.input(c);
    }
    term.linefeed();
    term.carriage_return();
    for c in "cd".chars() {
        term.input(c);
    }
    let text = term.bounds_to_string(Point::new(Line(0), Column(0)), Point::new(Line(1), Column(9)));
    assert_eq!(text, "ab\ncd");
}

#[test]
fn adjust_marks_drops_marks_above_history() {
    let mut term = make_term(80, 3);
    term.handle_osc_133("A");
    // No history yet: moving the mark up by one drops it.
    term.adjust_semantic_marks_for_scroll(&(Line(0)..Line(3)), 1);
    assert!(term.semantic_marks().is_empty());
}

#[test]
fn adjust_marks_outside_region_stay() {
    let mut term = make_term(80, 5);
    term.linefeed();
    term.linefeed();
    term.handle_osc_133("A");
    term.adjust_semantic_marks_for_scroll(&(Line(0)..Line(2)), 1);
    assert_eq!(term.semantic_marks()[0].point.line, Line(2));
}

#[test]
fn cursor_and_geometry() {
    let mut term = make_term(4, 2);
    assert_eq!(term.cursor_point(), Point::new(Line(0), Column(0)));
    assert_eq!(term.last_column(), Column(3));
    assert_eq!(term.topmost_line(), Line(0));
    term.linefeed();
    term.linefeed();
    assert_eq!(term.topmost_line(), Line(-1));
    assert_eq!(term.cursor_point(), Point::new(Line(1), Column(0)));
}

#[test]
fn osc133_zone_bounds_after_typing() {
    let mut term = make_term(80, 24);
    term.handle_osc_133("A");
    for c in "$ ".chars() {
        term.input(c);
    }
    term.handle_osc_133("B");
    for c in "ls -la".chars() {
        term.input(c);
    }
    term.handle_osc_133("C");
    term.linefeed();
    term.carriage_return();
    for c in "file1.txt".chars() {
        term.input(c);
    }
    term.handle_osc_133("D;0");
    let zones = term.semantic_zones();
    let bounds: Vec<((i32, usize), (i32, usize))> = zones
        .iter()
        .map(|z| ((z.start.line.0, z.start.column.0), (z.end.line.0, z.end.column.0)))
        .collect();
    assert_eq!(bounds, vec![((0, 0), (0, 1)), ((0, 2), (0, 7)), ((0, 8), (1, 8))]);
}

#[test]
fn typing_to_the_last_column_then_wrapping() {
    let mut term = make_term(3, 4);
    for c in "abc".chars() {
        term.input(c);
    }
    assert_eq!(term.cursor_point(), Point::new(Line(0), Column(2)));
    term.input('d');
    assert_eq!(term.cursor_point(), Point::new(Line(1), Column(1)));
    term.carriage_return();
    term.input('e');
    assert_eq!(term.cursor_point(), Point::new(Line(1), Column(1)));
}

#[test]
fn leaving_alt_screen_restores_primary() {
    let mut term = make_term(10, 4);
    for c in "ab".chars() {
        term.input(c);
    }
    term.swap_alt();
    for c in "xyz".chars() {
        term.input(c);
    }
    term.linefeed();
    term.swap_alt();
    assert_eq!(term.cursor_point(), Point::new(Line(0), Column(2)));
    let text = term.bounds_to_string(Point::new(Line(0), Column(0)), Point::new(Line(0), Column(9)));
    assert_eq!(text, "ab");
}

use zed_shell_marks::mention_nav::{
    crease_click, crease_hover, mention_action, navigation_handled, CreaseClick, CreaseHover,
    MentionAction, MentionCrease, MentionTarget, TERMINAL_SCROLL_LINE,
};

#[test]
fn file_mentions_open_files() {
    assert_eq!(
        mention_action(MentionTarget::File { abs_path: "/a.rs".to_string() }),
        MentionAction::OpenFile { abs_path: "/a.rs".to_string(), select_line: None }
    );
    assert_eq!(
        mention_action(MentionTarget::Symbol {
            abs_path: "/b.rs".to_string(),
            line_start: 4,
            line_end: 9,
        }),
        MentionAction::OpenFile { abs_path: "/b.rs".to_string(), select_line: Some(4) }
    );
    assert_eq!(
        mention_action(MentionTarget::Selection {
            abs_path: Some("/c.rs".to_string()),
            line_start: 2,
            line_end: 3,
        }),
        MentionAction::OpenFile { abs_path: "/c.rs".to_string(), select_line: Some(2) }
    );
    assert_eq!(
        mention_action(MentionTarget::Selection { abs_path: None, line_start: 2, line_end: 3 }),
        MentionAction::Fallback
    );
}

#[test]
fn other_mentions() {
    assert_eq!(
        mention_action(MentionTarget::Directory { abs_path: "/d".to_string() }),
        MentionAction::RevealInProjectPanel { abs_path: "/d".to_string() }
    );
    assert_eq!(
        mention_action(MentionTarget::Thread { id: "t1".to_string(), name: "Thread".to_string() }),
        MentionAction::OpenThread { id: "t1".to_string(), name: "Thread".to_string() }
    );
    assert_eq!(mention_action(MentionTarget::TextThread), MentionAction::Done);
    assert_eq!(
        mention_action(MentionTarget::Rule { user_uuid: Some("u".to_string()) }),
        MentionAction::OpenRulesLibrary { uuid: "u".to_string() }
    );
    assert_eq!(mention_action(MentionTarget::Rule { user_uuid: None }), MentionAction::Done);
    assert_eq!(
        mention_action(MentionTarget::Fetch { url: "https://x".to_string() }),
        MentionAction::OpenUrl { url: "https://x".to_string() }
    );
    assert_eq!(
        mention_action(MentionTarget::TerminalSelection {
            terminal_id: Some(3),
            scroll_line: Some(-4),
            scroll_col: Some(1),
        }),
        MentionAction::ScrollTerminal { terminal_id: 3 }
    );
    assert_eq!(
        mention_action(MentionTarget::TerminalSelection {
            terminal_id: None,
            scroll_line: None,
            scroll_col: None,
        }),
        MentionAction::Fallback
    );
    assert_eq!(mention_action(MentionTarget::PastedImage), MentionAction::Fallback);
    assert_eq!(mention_action(MentionTarget::Diagnostics), MentionAction::Fallback);
    assert_eq!(mention_action(MentionTarget::GitDiff), MentionAction::Fallback);
    assert_eq!(TERMINAL_SCROLL_LINE, -10);
}

#[test]
fn handled_results() {
    assert!(!navigation_handled(&MentionAction::Fallback, true));
    assert!(navigation_handled(&MentionAction::Done, false));
    assert!(navigation_handled(&MentionAction::OpenUrl { url: "https://x".to_string() }, false));
    assert!(navigation_handled(&MentionAction::ScrollTerminal { terminal_id: 1 }, true));
    assert!(!navigation_handled(&MentionAction::ScrollTerminal { terminal_id: 1 }, false));
    let open = MentionAction::OpenFile { abs_path: "/missing".to_string(), select_line: None };
    assert!(!navigation_handled(&open, false));
    assert!(navigation_handled(&open, true));
    let reveal = MentionAction::RevealInProjectPanel { abs_path: "/d".to_string() };
    assert!(!navigation_handled(&reveal, false));
    let thread = MentionAction::OpenThread { id: "t".to_string(), name: "n".to_string() };
    assert!(!navigation_handled(&thread, false));
    let rule = MentionAction::OpenRulesLibrary { uuid: "u".to_string() };
    assert!(!navigation_handled(&rule, false));
}

#[test]
fn crease_clicks() {
    assert_eq!(crease_click(false, true, false, true), CreaseClick::NotClickable);
    assert_eq!(crease_click(true, true, true, true), CreaseClick::Unfold);
    assert_eq!(crease_click(true, true, true, false), CreaseClick::Navigate);
    assert_eq!(crease_click(true, false, true, false), CreaseClick::Nothing);
    assert_eq!(crease_click(false, false, true, false), CreaseClick::Nothing);
}

#[test]
fn crease_hovers() {
    assert_eq!(crease_hover(true, true), CreaseHover::ImagePreview);
    assert_eq!(crease_hover(false, true), CreaseHover::TooltipText);
    assert_eq!(crease_hover(false, false), CreaseHover::Nothing);
}

type Crease = MentionCrease<u32, u32, (u32, u32), u8>;

#[test]
fn crease_builder_behaviours() {
    let plain: Crease = MentionCrease::new("c1".to_string(), "icon".to_string(), "main.rs".to_string());
    assert_eq!(plain.click_behaviour(), CreaseClick::NotClickable);
    assert_eq!(plain.hover_behaviour(), CreaseHover::Nothing);

    let linked: Crease = MentionCrease::new("c2".to_string(), "icon".to_string(), "a".to_string())
        .mention_uri(Some(MentionTarget::File { abs_path: "/a".to_string() }))
        .workspace(Some(1))
        .is_toggled(true)
        .is_loading(false)
        .tooltip("the file".to_string());
    assert_eq!(linked.click_behaviour(), CreaseClick::Navigate);
    assert_eq!(linked.hover_behaviour(), CreaseHover::TooltipText);

    let folded = linked.fold_range((3, 9)).editor(7).image_preview(0);
    assert_eq!(folded.click_behaviour(), CreaseClick::Unfold);
    assert_eq!(folded.hover_behaviour(), CreaseHover::ImagePreview);

    let no_editor: Crease = MentionCrease::new("c3".to_string(), "i".to_string(), "l".to_string())
        .fold_range((0, 1));
    assert_eq!(no_editor.click_behaviour(), CreaseClick::Nothing);
}

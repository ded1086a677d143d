//! What clicking a mention crease in the agent panel does: unfold it in
//! place, or navigate to what the mention names (a file at a line, a
//! directory in the project panel, a thread, a rule, a URL, a terminal).
//! The decisions are made here; the editor and workspace carry them out.

use vstd::prelude::*;

verus! {

/// What a mention refers to, with the values that navigation reads.
#[derive(Debug, Clone, PartialEq, Eq)]
pub enum MentionTarget {
    File { abs_path: String },
    Symbol { abs_path: String, line_start: u32, line_end: u32 },
    Selection { abs_path: Option<String>, line_start: u32, line_end: u32 },
    Directory { abs_path: String },
    Thread { id: String, name: String },
    TextThread,
    /// A rule; `user_uuid` is set for a user rule, which the rules library
    /// can open.
    Rule { user_uuid: Option<String> },
    Fetch { url: String },
    TerminalSelection { terminal_id: Option<u64>, scroll_line: Option<i32>, scroll_col: Option<usize> },
    PastedImage,
    Diagnostics,
    GitDiff,
}

/// What navigating to a mention does.
#[derive(Debug, Clone, PartialEq, Eq)]
pub enum MentionAction {
    /// Open the file, selecting the start of `select_line` when given.
    OpenFile { abs_path: String, select_line: Option<u32> },
    /// Reveal the directory in the project panel.
    RevealInProjectPanel { abs_path: String },
    /// Load the thread in the agent panel.
    OpenThread { id: String, name: String },
    /// Open the rules library on this rule.
    OpenRulesLibrary { uuid: String },
    /// Open the URL.
    OpenUrl { url: String },
    /// Focus the terminal panel and scroll this terminal to
    /// `TERMINAL_SCROLL_LINE`; falls back when the terminal is gone.
    ScrollTerminal { terminal_id: u64 },
    /// Navigation is done and nothing more is to happen.
    Done,
    /// Nothing to navigate to: the caller falls back.
    Fallback,
}

/// The scrollback line a terminal mention scrolls to.
pub const TERMINAL_SCROLL_LINE: i32 = -10;

/// The navigation a mention calls for.
pub open spec fn action_for(target: MentionTarget) -> MentionAction {
    match target {
        MentionTarget::File { abs_path } => MentionAction::OpenFile { abs_path, select_line: None },
        MentionTarget::Symbol { abs_path, line_start, .. } => MentionAction::OpenFile {
            abs_path,
            select_line: Some(line_start),
        },
        MentionTarget::Selection { abs_path, line_start, .. } => match abs_path {
            Some(p) => MentionAction::OpenFile { abs_path: p, select_line: Some(line_start) },
            None => MentionAction::Fallback,
        },
        MentionTarget::Directory { abs_path } => MentionAction::RevealInProjectPanel { abs_path },
        MentionTarget::Thread { id, name } => MentionAction::OpenThread { id, name },
        MentionTarget::TextThread => MentionAction::Done,
        MentionTarget::Rule { user_uuid } => match user_uuid {
            Some(uuid) => MentionAction::OpenRulesLibrary { uuid },
            None => MentionAction::Done,
        },
        MentionTarget::Fetch { url } => MentionAction::OpenUrl { url },
        MentionTarget::TerminalSelection { terminal_id, .. } => match terminal_id {
            Some(id) => MentionAction::ScrollTerminal { terminal_id: id },
            None => MentionAction::Fallback,
        },
        MentionTarget::PastedImage => MentionAction::Fallback,
        MentionTarget::Diagnostics => MentionAction::Fallback,
        MentionTarget::GitDiff => MentionAction::Fallback,
    }
}

/// Decides how to navigate to a mention: files (and symbols and
/// selections with a path, at their first line), directories, threads,
/// user rules, URLs and terminals each have their action; a text thread
/// or another rule needs none; the rest fall back.
pub fn mention_action(target: MentionTarget) -> (r: MentionAction)
    ensures
        r == action_for(target),
{
    match target {
        MentionTarget::File { abs_path } => MentionAction::OpenFile { abs_path, select_line: None },
        MentionTarget::Symbol { abs_path, line_start, .. } => MentionAction::OpenFile {
            abs_path,
            select_line: Some(line_start),
        },
        MentionTarget::Selection { abs_path, line_start, .. } => match abs_path {
            Some(p) => MentionAction::OpenFile { abs_path: p, select_line: Some(line_start) },
            None => MentionAction::Fallback,
        },
        MentionTarget::Directory { abs_path } => MentionAction::RevealInProjectPanel { abs_path },
        MentionTarget::Thread { id, name } => MentionAction::OpenThread { id, name },
        MentionTarget::TextThread => MentionAction::Done,
        MentionTarget::Rule { user_uuid } => match user_uuid {
            Some(uuid) => MentionAction::OpenRulesLibrary { uuid },
            None => MentionAction::Done,
        },
        MentionTarget::Fetch { url } => MentionAction::OpenUrl { url },
        MentionTarget::TerminalSelection { terminal_id, .. } => match terminal_id {
            Some(id) => MentionAction::ScrollTerminal { terminal_id: id },
            None => MentionAction::Fallback,
        },
        MentionTarget::PastedImage => MentionAction::Fallback,
        MentionTarget::Diagnostics => MentionAction::Fallback,
        MentionTarget::GitDiff => MentionAction::Fallback,
    }
}

/// Whether navigating to a mention succeeded, so that the caller need not
/// fall back: never for `Fallback`; always when nothing more was to happen
/// (`Done`) or a URL was handed to the system; for the other actions
/// (opening a file, revealing a directory, loading a thread, opening the
/// rules library, scrolling a terminal) exactly when carrying the action
/// out succeeded (`succeeded`).
pub fn navigation_handled(action: &MentionAction, succeeded: bool) -> (r: bool)
    ensures
        r == match action {
            MentionAction::Fallback => false,
            MentionAction::Done => true,
            MentionAction::OpenUrl { .. } => true,
            _ => succeeded,
        },
{
    match action {
        MentionAction::Fallback => false,
        MentionAction::Done => true,
        MentionAction::OpenUrl { .. } => true,
        _ => succeeded,
    }
}

/// What a click on a mention crease does.
#[derive(Debug, Clone, Copy, PartialEq, Eq, Structural)]
pub enum CreaseClick {
    /// The crease takes no clicks.
    NotClickable,
    /// Unfold the folded range in the editor.
    Unfold,
    /// Navigate to the mention.
    Navigate,
    /// Clickable, but nothing is at hand to act on.
    Nothing,
}

/// The click behaviour of a crease: clickable when it has a mention or a
/// fold range; a click unfolds when both the fold range and the editor are
/// there, else navigates when both the mention and the workspace are.
pub fn crease_click(
    has_mention: bool,
    has_workspace: bool,
    has_fold_range: bool,
    has_editor: bool,
) -> (r: CreaseClick)
    ensures
        r == if !(has_mention || has_fold_range) {
            CreaseClick::NotClickable
        } else if has_fold_range && has_editor {
            CreaseClick::Unfold
        } else if has_mention && has_workspace {
            CreaseClick::Navigate
        } else {
            CreaseClick::Nothing
        },
{
    if !(has_mention || has_fold_range) {
        CreaseClick::NotClickable
    } else if has_fold_range && has_editor {
        CreaseClick::Unfold
    } else if has_mention && has_workspace {
        CreaseClick::Navigate
    } else {
        CreaseClick::Nothing
    }
}

/// What a crease shows on hover.
#[derive(Debug, Clone, Copy, PartialEq, Eq, Structural)]
pub enum CreaseHover {
    ImagePreview,
    TooltipText,
    Nothing,
}

/// An image preview, when the crease has one, takes the place of the
/// tooltip text.
pub fn crease_hover(has_image_preview: bool, has_tooltip: bool) -> (r: CreaseHover)
    ensures
        r == if has_image_preview {
            CreaseHover::ImagePreview
        } else if has_tooltip {
            CreaseHover::TooltipText
        } else {
            CreaseHover::Nothing
        },
{
    if has_image_preview {
        CreaseHover::ImagePreview
    } else if has_tooltip {
        CreaseHover::TooltipText
    } else {
        CreaseHover::Nothing
    }
}

/// A mention shown as a crease in the agent panel's editor: its id, icon
/// and label, what it refers to, and the handles that clicking and hovering
/// need (the workspace `W`, the editor `E`, the folded range `R` and an
/// image preview `P`).
pub struct MentionCrease<W, E, R, P> {
    id: String,
    icon: String,
    label: String,
    mention_uri: Option<MentionTarget>,
    workspace: Option<W>,
    is_toggled: bool,
    is_loading: bool,
    tooltip: Option<String>,
    image_preview: Option<P>,
    fold_range: Option<R>,
    editor: Option<E>,
}

/// What a crease holds, its texts as characters.
pub struct CreaseState<W, E, R, P> {
    pub id: Seq<char>,
    pub icon: Seq<char>,
    pub label: Seq<char>,
    pub mention_uri: Option<MentionTarget>,
    pub workspace: Option<W>,
    pub is_toggled: bool,
    pub is_loading: bool,
    pub tooltip: Option<Seq<char>>,
    pub image_preview: Option<P>,
    pub fold_range: Option<R>,
    pub editor: Option<E>,
}

/// The click behaviour of a crease in a given state.
pub open spec fn click_of<W, E, R, P>(c: CreaseState<W, E, R, P>) -> CreaseClick {
    let has_mention = c.mention_uri is Some;
    let has_fold_range = c.fold_range is Some;
    if !(has_mention || has_fold_range) {
        CreaseClick::NotClickable
    } else if has_fold_range && c.editor is Some {
        CreaseClick::Unfold
    } else if has_mention && c.workspace is Some {
        CreaseClick::Navigate
    } else {
        CreaseClick::Nothing
    }
}

/// The hover behaviour of a crease in a given state.
pub open spec fn hover_of<W, E, R, P>(c: CreaseState<W, E, R, P>) -> CreaseHover {
    if c.image_preview is Some {
        CreaseHover::ImagePreview
    } else if c.tooltip is Some {
        CreaseHover::TooltipText
    } else {
        CreaseHover::Nothing
    }
}

impl<W, E, R, P> View for MentionCrease<W, E, R, P> {
    type V = CreaseState<W, E, R, P>;

    closed spec fn view(&self) -> CreaseState<W, E, R, P> {
        CreaseState {
            id: self.id@,
            icon: self.icon@,
            label: self.label@,
            mention_uri: self.mention_uri,
            workspace: self.workspace,
            is_toggled: self.is_toggled,
            is_loading: self.is_loading,
            tooltip: match self.tooltip {
                Some(t) => Some(t@),
                None => None,
            },
            image_preview: self.image_preview,
            fold_range: self.fold_range,
            editor: self.editor,
        }
    }
}

impl<W, E, R, P> MentionCrease<W, E, R, P> {
    /// A crease with an id, an icon and a label, and nothing else set.
    pub fn new(id: String, icon: String, label: String) -> (r: Self)
        ensures
            r@ == (CreaseState::<W, E, R, P> {
                id: id@,
                icon: icon@,
                label: label@,
                mention_uri: None,
                workspace: None,
                is_toggled: false,
                is_loading: false,
                tooltip: None,
                image_preview: None,
                fold_range: None,
                editor: None,
            }),
    {
        MentionCrease {
            id,
            icon,
            label,
            mention_uri: None,
            workspace: None,
            is_toggled: false,
            is_loading: false,
            tooltip: None,
            image_preview: None,
            fold_range: None,
            editor: None,
        }
    }

    pub fn mention_uri(self, mention_uri: Option<MentionTarget>) -> (r: Self)
        ensures
            r@ == (CreaseState { mention_uri, ..self@ }),
    {
        MentionCrease { mention_uri, ..self }
    }

    pub fn workspace(self, workspace: Option<W>) -> (r: Self)
        ensures
            r@ == (CreaseState { workspace, ..self@ }),
    {
        MentionCrease { workspace, ..self }
    }

    pub fn is_toggled(self, is_toggled: bool) -> (r: Self)
        ensures
            r@ == (CreaseState { is_toggled, ..self@ }),
    {
        MentionCrease { is_toggled, ..self }
    }

    pub fn is_loading(self, is_loading: bool) -> (r: Self)
        ensures
            r@ == (CreaseState { is_loading, ..self@ }),
    {
        MentionCrease { is_loading, ..self }
    }

    pub fn fold_range(self, range: R) -> (r: Self)
        ensures
            r@ == (CreaseState { fold_range: Some(range), ..self@ }),
    {
        MentionCrease { fold_range: Some(range), ..self }
    }

    pub fn editor(self, editor: E) -> (r: Self)
        ensures
            r@ == (CreaseState { editor: Some(editor), ..self@ }),
    {
        MentionCrease { editor: Some(editor), ..self }
    }

    pub fn tooltip(self, tooltip: String) -> (r: Self)
        ensures
            r@ == (CreaseState { tooltip: Some(tooltip@), ..self@ }),
    {
        MentionCrease { tooltip: Some(tooltip), ..self }
    }

    pub fn image_preview(self, preview: P) -> (r: Self)
        ensures
            r@ == (CreaseState { image_preview: Some(preview), ..self@ }),
    {
        MentionCrease { image_preview: Some(preview), ..self }
    }

    /// What a click on the crease does (see `crease_click`).
    pub fn click_behaviour(&self) -> (r: CreaseClick)
        ensures
            r == click_of(self@),
    {
        crease_click(
            self.mention_uri.is_some(),
            self.workspace.is_some(),
            self.fold_range.is_some(),
            self.editor.is_some(),
        )
    }

    /// What hovering over the crease shows (see `crease_hover`).
    pub fn hover_behaviour(&self) -> (r: CreaseHover)
        ensures
            r == hover_of(self@),
    {
        crease_hover(self.image_preview.is_some(), self.tooltip.is_some())
    }
}

} // verus!

//! A terminal grid that carries shell-integration marks: the screen lines,
//! the scrollback history, the cursor, the alternate screen, and the OSC 133
//! marks placed on it. Every character takes one cell; a blank cell holds a
//! space.

use vstd::prelude::*;
use crate::semantic_zones::{
    Point, Line, Column, SemanticMark, SemanticZone, zones_of, zones_from_marks, last_output,
    last_output_zone, last_exit_code_of, find_last_exit_code, input_before, input_zone_before,
    adjusted, shift_fits, adjust_marks, mark_type_for, mark_type_for_payload, marks_within,
    zone_on_grid, lemma_zones_on_grid, lemma_adjusted_within, SemanticZoneType,
    first_occurrence_at, lemma_input_before_is_input,
};
use crate::text::{trim, trim_bounds, string_from_chars};

verus! {

/// The number of scrollback lines kept behind the primary screen.
pub const SCROLLBACK_LINES: usize = 10000;

/// One screen of cells with its scrollback, the cursor and the pending-wrap
/// state. Row `history + l` holds line `l`; line 0 is the top of the screen.
pub(crate) struct Grid {
    pub(crate) rows: Vec<Vec<char>>,
    pub(crate) wrapped: Vec<bool>,
    pub(crate) history: usize,
    pub(crate) max_history: usize,
    pub(crate) cursor: Point,
    pub(crate) input_needs_wrap: bool,
}

impl Grid {
    pub(crate) open spec fn row_views(&self) -> Seq<Seq<char>> {
        self.rows@.map_values(|r: Vec<char>| r@)
    }

    pub(crate) open spec fn wf(&self, columns: nat, screen_lines: nat) -> bool {
        &&& self.rows@.len() == self.history + screen_lines
        &&& self.wrapped@.len() == self.rows@.len()
        &&& forall|i: int| 0 <= i < self.rows@.len() ==> (#[trigger] self.rows@[i])@.len() == columns
        &&& self.history <= self.max_history <= SCROLLBACK_LINES
        &&& 0 <= self.cursor.line.0 < screen_lines
        &&& self.cursor.column.0 < columns
        &&& self.input_needs_wrap ==> self.cursor.column.0 == columns - 1
    }

    fn blank_row(columns: usize) -> (r: Vec<char>)
        ensures
            r@ == Seq::new(columns as nat, |i: int| ' '),
    {
        let mut row: Vec<char> = Vec::new();
        let mut i: usize = 0;
        while i < columns
            invariant
                i <= columns,
                row@ == Seq::new(i as nat, |j: int| ' '),
            decreases columns - i,
        {
            row.push(' ');
            i = i + 1;
        }
        row
    }

    fn blank(columns: usize, screen_lines: usize, max_history: usize) -> (r: Grid)
        requires
            columns >= 1,
            screen_lines >= 1,
            max_history <= SCROLLBACK_LINES,
        ensures
            r.wf(columns as nat, screen_lines as nat),
            r.history == 0,
            r.max_history == max_history,
            r.cursor == (Point { line: Line(0), column: Column(0) }),
            !r.input_needs_wrap,
            forall|i: int| 0 <= i < r.rows@.len() ==> (#[trigger] r.rows@[i])@ == Seq::new(
                columns as nat,
                |j: int| ' ',
            ),
            forall|i: int| 0 <= i < r.wrapped@.len() ==> !#[trigger] r.wrapped@[i],
    {
        let mut rows: Vec<Vec<char>> = Vec::new();
        let mut wrapped: Vec<bool> = Vec::new();
        let mut i: usize = 0;
        while i < screen_lines
            invariant
                i <= screen_lines,
                rows@.len() == i,
                wrapped@.len() == i,
                forall|k: int| 0 <= k < i ==> (#[trigger] rows@[k])@ == Seq::new(
                    columns as nat,
                    |j: int| ' ',
                ),
                forall|k: int| 0 <= k < i ==> !#[trigger] wrapped@[k],
            decreases screen_lines - i,
        {
            rows.push(Self::blank_row(columns));
            wrapped.push(false);
            i = i + 1;
        }
        Grid {
            rows,
            wrapped,
            history: 0,
            max_history,
            cursor: Point { line: Line(0), column: Column(0) },
            input_needs_wrap: false,
        }
    }

    /// Moves the top screen line into the history (dropping the oldest
    /// history line when the history is full) and opens a blank line at the
    /// bottom.
    fn scroll_up_one(&mut self, columns: usize, screen_lines: usize)
        requires
            old(self).wf(columns as nat, screen_lines as nat),
            columns >= 1,
        ensures
            final(self).wf(columns as nat, screen_lines as nat),
            final(self).cursor == old(self).cursor,
            final(self).input_needs_wrap == old(self).input_needs_wrap,
            final(self).max_history == old(self).max_history,
            final(self).history == if old(self).history < old(self).max_history {
                old(self).history + 1
            } else {
                old(self).history as int
            },
            final(self).row_views() == if old(self).history < old(self).max_history {
                old(self).row_views().push(Seq::new(columns as nat, |j: int| ' '))
            } else {
                old(self).row_views().drop_first().push(Seq::new(columns as nat, |j: int| ' '))
            },
            final(self).wrapped@ == if old(self).history < old(self).max_history {
                old(self).wrapped@.push(false)
            } else {
                old(self).wrapped@.drop_first().push(false)
            },
    {
        if self.history < self.max_history {
            self.history = self.history + 1;
        } else {
            self.rows.remove(0);
            self.wrapped.remove(0);
        }
        self.rows.push(Self::blank_row(columns));
        self.wrapped.push(false);
        assert(self.row_views() =~= if old(self).history < old(self).max_history {
            old(self).row_views().push(Seq::new(columns as nat, |j: int| ' '))
        } else {
            old(self).row_views().drop_first().push(Seq::new(columns as nat, |j: int| ' '))
        });
    }

    /// Writes `c` into the cell under the cursor; writing the last column
    /// clears that line's wrap flag.
    fn write_at_cursor(&mut self, c: char, columns: usize, screen_lines: usize)
        requires
            old(self).wf(columns as nat, screen_lines as nat),
        ensures
            final(self).wf(columns as nat, screen_lines as nat),
            final(self).cursor == old(self).cursor,
            final(self).input_needs_wrap == old(self).input_needs_wrap,
            final(self).history == old(self).history,
            final(self).max_history == old(self).max_history,
            ({
                let idx = old(self).history + old(self).cursor.line.0;
                let col = old(self).cursor.column.0 as int;
                &&& final(self).row_views() == old(self).row_views().update(
                    idx,
                    old(self).row_views()[idx].update(col, c),
                )
                &&& final(self).wrapped@ == if col == columns - 1 {
                    old(self).wrapped@.update(idx, false)
                } else {
                    old(self).wrapped@
                }
            }),
    {
        let idx = self.history + self.cursor.line.0 as usize;
        let col = self.cursor.column.0;
        let mut row = self.rows[idx].clone();
        row.set(col, c);
        self.rows.set(idx, row);
        if col + 1 == columns {
            self.wrapped.set(idx, false);
        }
        assert(self.row_views() =~= old(self).row_views().update(
            idx as int,
            old(self).row_views()[idx as int].update(col as int, c),
        ));
    }
}

/// A mode bit of the terminal; the alternate screen is the only one kept.
#[allow(non_camel_case_types)]
#[derive(Debug, Clone, Copy, PartialEq, Eq, Structural)]
pub enum TermMode {
    ALT_SCREEN,
}

/// The set of mode bits that are on.
#[derive(Debug, Clone, Copy, PartialEq, Eq, Structural)]
pub struct ModeSet {
    pub alt_screen: bool,
}

impl ModeSet {
    /// Whether the bit `flag` is on.
    pub fn contains(&self, flag: TermMode) -> (r: bool)
        ensures
            r == match flag {
                TermMode::ALT_SCREEN => self.alt_screen,
            },
    {
        match flag {
            TermMode::ALT_SCREEN => self.alt_screen,
        }
    }
}

/// The index after the last non-blank cell of `row`.
pub open spec fn occupied_len(row: Seq<char>) -> int
    decreases row.len(),
{
    if row.len() == 0 {
        0
    } else if row.last() != ' ' {
        row.len() as int
    } else {
        occupied_len(row.drop_last())
    }
}

/// The length of a line's text: the whole row when it wraps onto the next
/// line, otherwise up to its last non-blank cell.
pub open spec fn line_length(row: Seq<char>, wrapped: bool) -> int {
    if wrapped {
        row.len() as int
    } else {
        occupied_len(row)
    }
}

/// The text of one line between `start_col` and `end_col` (inclusive),
/// with a newline when the range reaches the last column and the line does
/// not wrap.
pub open spec fn line_text(
    row: Seq<char>,
    wrapped: bool,
    start_col: int,
    end_col: int,
    columns: int,
) -> Seq<char> {
    let full = line_length(row, wrapped);
    let len = if full <= end_col { full } else { end_col + 1 };
    let body = if start_col < len { row.subrange(start_col, len) } else { Seq::empty() };
    if end_col >= columns - 1 && (len == 0 || !(wrapped && len == columns)) {
        body.push('\n')
    } else {
        body
    }
}

/// The text of the lines `start.line .. upto` of the grid, each from its
/// start column (the start point's column on the first line, else 0) to
/// its end column (the end point's column on the end line, else the last).
pub open spec fn lines_text(
    rows: Seq<Seq<char>>,
    wrapped: Seq<bool>,
    history: int,
    columns: int,
    start: Point,
    end: Point,
    upto: int,
) -> Seq<char>
    decreases upto - start.line.0,
{
    if upto <= start.line.0 {
        Seq::empty()
    } else {
        let line = upto - 1;
        let start_col = if line == start.line.0 { start.column.0 as int } else { 0 };
        let end_col = if line == end.line.0 { end.column.0 as int } else { columns - 1 };
        lines_text(rows, wrapped, history, columns, start, end, upto - 1) + line_text(
            rows[history + line],
            wrapped[history + line],
            start_col,
            end_col,
            columns,
        )
    }
}

/// The text between two points of the grid, without a final newline.
pub open spec fn bounds_text(
    rows: Seq<Seq<char>>,
    wrapped: Seq<bool>,
    history: int,
    columns: int,
    start: Point,
    end: Point,
) -> Seq<char> {
    let t = lines_text(rows, wrapped, history, columns, start, end, end.line.0 + 1);
    if t.len() > 0 && t.last() == '\n' {
        t.drop_last()
    } else {
        t
    }
}

/// The rows after the screen scrolls up by one line: a blank line opens
/// at the bottom, and the oldest history line goes when the history is
/// full.
pub open spec fn scrolled_rows(rows: Seq<Seq<char>>, history_grows: bool, columns: nat) -> Seq<
    Seq<char>,
> {
    if history_grows {
        rows.push(Seq::new(columns, |j: int| ' '))
    } else {
        rows.drop_first().push(Seq::new(columns, |j: int| ' '))
    }
}

/// A terminal: its size, the active and the inactive grid (the alternate
/// screen when the primary one is active, and the other way round), whether
/// the alternate screen is active, and the shell-integration marks.
pub struct Term {
    pub(crate) columns: usize,
    pub(crate) screen_lines: usize,
    pub(crate) grid: Grid,
    pub(crate) inactive_grid: Grid,
    pub(crate) alt_screen: bool,
    pub(crate) semantic_marks: Vec<SemanticMark>,
}

impl Term {
    pub closed spec fn wf(&self) -> bool {
        &&& self.columns >= 1
        &&& self.screen_lines >= 1
        &&& self.screen_lines + SCROLLBACK_LINES <= i32::MAX
        &&& self.grid.wf(self.columns as nat, self.screen_lines as nat)
        &&& self.inactive_grid.wf(self.columns as nat, self.screen_lines as nat)
        &&& self.grid.max_history == if self.alt_screen { 0 } else { SCROLLBACK_LINES }
        &&& self.inactive_grid.max_history == if self.alt_screen { SCROLLBACK_LINES } else { 0 }
    }

    /// The shell-integration marks, oldest first.
    pub closed spec fn marks(&self) -> Seq<SemanticMark> {
        self.semantic_marks@
    }

    /// Every mark lies on the primary screen: on one of its history or
    /// screen lines, and in one of its columns.
    pub closed spec fn marks_on_grid(&self) -> bool {
        let primary_history = if self.alt_screen {
            self.inactive_grid.history
        } else {
            self.grid.history
        };
        marks_within(
            self.semantic_marks@,
            -(primary_history as int),
            self.screen_lines as int,
            self.columns as int,
        )
    }

    /// The cursor of the active screen.
    pub closed spec fn cursor(&self) -> Point {
        self.grid.cursor
    }

    /// The last write filled the last column; the next one wraps first.
    pub closed spec fn wrap_pending(&self) -> bool {
        self.grid.input_needs_wrap
    }

    pub closed spec fn is_alt(&self) -> bool {
        self.alt_screen
    }

    pub closed spec fn columns_count(&self) -> nat {
        self.columns as nat
    }

    pub closed spec fn lines_count(&self) -> nat {
        self.screen_lines as nat
    }

    /// How many history lines the active screen can hold: none on the
    /// alternate screen.
    pub closed spec fn history_limit(&self) -> nat {
        self.grid.max_history as nat
    }

    /// How many history lines the active screen holds.
    pub closed spec fn history_len(&self) -> nat {
        self.grid.history as nat
    }

    /// The rows of the active screen, history first.
    pub closed spec fn rows(&self) -> Seq<Seq<char>> {
        self.grid.row_views()
    }

    /// Whether each row of the active screen wraps onto the next.
    pub closed spec fn row_wraps(&self) -> Seq<bool> {
        self.grid.wrapped@
    }

    /// The active screen: its rows, their wrap flags, the cursor, the
    /// pending wrap and the number of history lines.
    pub open spec fn active_screen(&self) -> (Seq<Seq<char>>, Seq<bool>, Point, bool, nat) {
        (self.rows(), self.row_wraps(), self.cursor(), self.wrap_pending(), self.history_len())
    }

    /// The screen that is not active, in the same form: the primary screen
    /// saved while the alternate one is active.
    pub closed spec fn saved_screen(&self) -> (Seq<Seq<char>>, Seq<bool>, Point, bool, nat) {
        (
            self.inactive_grid.row_views(),
            self.inactive_grid.wrapped@,
            self.inactive_grid.cursor,
            self.inactive_grid.input_needs_wrap,
            self.inactive_grid.history as nat,
        )
    }

    /// The topmost line of the active screen (the oldest history line).
    pub open spec fn topmost(&self) -> int {
        -(self.history_len() as int)
    }

    /// The last column.
    pub open spec fn last_col(&self) -> int {
        self.columns_count() - 1
    }

    /// The zones derived from the marks, with the cursor, topmost line and
    /// last column of the active screen.
    pub open spec fn zones(&self) -> Seq<SemanticZone> {
        zones_of(self.marks(), self.cursor(), self.topmost(), self.last_col())
    }

    /// The text of the active screen between two points.
    pub open spec fn text_between(&self, start: Point, end: Point) -> Seq<char> {
        bounds_text(
            self.rows(),
            self.row_wraps(),
            self.history_len() as int,
            self.columns_count() as int,
            start,
            end,
        )
    }

    /// The two points can be read from the active screen: either the range
    /// is empty, or its lines exist and the start column is on the grid.
    pub open spec fn readable(&self, start: Point, end: Point) -> bool {
        start.line.0 > end.line.0 || (self.topmost() <= start.line.0 && end.line.0
            < self.lines_count() && start.column.0 < self.columns_count())
    }

    /// The rest of the terminal is as in `other`; only the marks may differ.
    pub open spec fn same_screen(&self, other: &Term) -> bool {
        &&& self.wf() == other.wf()
        &&& self.cursor() == other.cursor()
        &&& self.wrap_pending() == other.wrap_pending()
        &&& self.history_limit() == other.history_limit()
        &&& self.saved_screen() == other.saved_screen()
        &&& self.is_alt() == other.is_alt()
        &&& self.columns_count() == other.columns_count()
        &&& self.lines_count() == other.lines_count()
        &&& self.history_len() == other.history_len()
        &&& self.rows() == other.rows()
        &&& self.row_wraps() == other.row_wraps()
    }

    /// A terminal of `columns` × `screen_lines` blank cells, cursor at the
    /// top left, primary screen active, no marks.
    pub fn new(columns: usize, screen_lines: usize) -> (r: Term)
        requires
            columns >= 1,
            screen_lines >= 1,
            screen_lines + SCROLLBACK_LINES <= i32::MAX,
        ensures
            r.wf(),
            r.columns_count() == columns,
            r.lines_count() == screen_lines,
            r.marks() == Seq::<SemanticMark>::empty(),
            r.cursor() == (Point { line: Line(0), column: Column(0) }),
            !r.is_alt(),
            r.history_len() == 0,
            !r.wrap_pending(),
            r.history_limit() == SCROLLBACK_LINES,
            r.marks_on_grid(),
    {
        Term {
            columns,
            screen_lines,
            grid: Grid::blank(columns, screen_lines, SCROLLBACK_LINES),
            inactive_grid: Grid::blank(columns, screen_lines, 0),
            alt_screen: false,
            semantic_marks: Vec::new(),
        }
    }

    /// The mode bits.
    pub fn mode(&self) -> (r: ModeSet)
        ensures
            r.alt_screen == self.is_alt(),
    {
        ModeSet { alt_screen: self.alt_screen }
    }

    /// The cursor position on the active screen.
    pub fn cursor_point(&self) -> (r: Point)
        ensures
            r == self.cursor(),
    {
        self.grid.cursor
    }

    /// The topmost line of the active screen.
    pub fn topmost_line(&self) -> (r: Line)
        requires
            self.wf(),
        ensures
            r.0 == self.topmost(),
    {
        Line(0 - self.grid.history as i32)
    }

    /// The last column.
    pub fn last_column(&self) -> (r: Column)
        requires
            self.wf(),
        ensures
            r.0 == self.last_col(),
    {
        Column(self.columns - 1)
    }

    /// Moves the cursor to the start of its line.
    pub fn carriage_return(&mut self)
        requires
            old(self).wf(),
        ensures
            final(self).wf(),
            final(self).marks() == old(self).marks(),
            final(self).cursor() == (Point { line: old(self).cursor().line, column: Column(0) }),
            final(self).is_alt() == old(self).is_alt(),
            final(self).history_len() == old(self).history_len(),
            final(self).rows() == old(self).rows(),
            final(self).row_wraps() == old(self).row_wraps(),
            final(self).columns_count() == old(self).columns_count(),
            final(self).lines_count() == old(self).lines_count(),
            !final(self).wrap_pending(),
            final(self).history_limit() == old(self).history_limit(),
            final(self).marks_on_grid() == old(self).marks_on_grid(),
            final(self).saved_screen() == old(self).saved_screen(),
    {
        self.grid.cursor.column = Column(0);
        self.grid.input_needs_wrap = false;
    }

    /// Moves the cursor down a line; at the bottom of the screen the screen
    /// scrolls up by one line instead, and the marks follow (see
    /// `adjust_semantic_marks_for_scroll`).
    pub fn linefeed(&mut self)
        requires
            old(self).wf(),
        ensures
            final(self).wf(),
            final(self).is_alt() == old(self).is_alt(),
            final(self).columns_count() == old(self).columns_count(),
            final(self).lines_count() == old(self).lines_count(),
            old(self).cursor().line.0 + 1 < old(self).lines_count() ==> {
                &&& final(self).cursor() == (Point {
                    line: Line((old(self).cursor().line.0 + 1) as i32),
                    column: old(self).cursor().column,
                })
                &&& final(self).marks() == old(self).marks()
                &&& final(self).history_len() == old(self).history_len()
                &&& final(self).rows() == old(self).rows()
            },
            old(self).cursor().line.0 + 1 == old(self).lines_count() ==> {
                &&& final(self).cursor() == old(self).cursor()
                &&& final(self).rows() == scrolled_rows(
                    old(self).rows(),
                    old(self).history_len() < old(self).history_limit(),
                    old(self).columns_count(),
                )
                &&& final(self).history_len() == if old(self).history_len()
                    < old(self).history_limit() {
                    old(self).history_len() + 1
                } else {
                    old(self).history_len()
                }
                &&& final(self).marks() == adjusted(
                    old(self).marks(),
                    0,
                    old(self).lines_count() as int,
                    1,
                    final(self).topmost(),
                )
            },
            final(self).wrap_pending() == old(self).wrap_pending(),
            final(self).history_limit() == old(self).history_limit(),
            old(self).marks_on_grid() ==> final(self).marks_on_grid(),
            final(self).saved_screen() == old(self).saved_screen(),
    {
        let next = self.grid.cursor.line.0 + 1;
        if next as usize == self.screen_lines {
            self.scroll_up_one_line();
        } else {
            self.grid.cursor.line = Line(next);
        }
    }

    fn scroll_up_one_line(&mut self)
        requires
            old(self).wf(),
        ensures
            final(self).wf(),
            final(self).is_alt() == old(self).is_alt(),
            final(self).columns_count() == old(self).columns_count(),
            final(self).lines_count() == old(self).lines_count(),
            final(self).cursor() == old(self).cursor(),
            final(self).wrap_pending() == old(self).wrap_pending(),
            final(self).rows() == scrolled_rows(
                old(self).rows(),
                old(self).history_len() < old(self).history_limit(),
                old(self).columns_count(),
            ),
            final(self).history_len() == if old(self).history_len() < old(self).history_limit() {
                old(self).history_len() + 1
            } else {
                old(self).history_len()
            },
            final(self).marks() == adjusted(
                old(self).marks(),
                0,
                old(self).lines_count() as int,
                1,
                final(self).topmost(),
            ),
            final(self).history_limit() == old(self).history_limit(),
            old(self).marks_on_grid() ==> final(self).marks_on_grid(),
            final(self).saved_screen() == old(self).saved_screen(),
    {
        self.grid.scroll_up_one(self.columns, self.screen_lines);
        let region = Line(0)..Line(self.screen_lines as i32);
        self.adjust_semantic_marks_for_scroll(&region, 1);
    }

    /// Ends the current line and moves to the start of the next one (the
    /// automatic wrap when a character is written past the last column).
    fn wrapline(&mut self)
        requires
            old(self).wf(),
        ensures
            final(self).wf(),
            final(self).is_alt() == old(self).is_alt(),
            final(self).columns_count() == old(self).columns_count(),
            final(self).lines_count() == old(self).lines_count(),
            final(self).cursor().column.0 == 0,
            !final(self).wrap_pending(),
            final(self).cursor().line.0 == if old(self).cursor().line.0 + 1 < old(self).lines_count() {
                old(self).cursor().line.0 + 1
            } else {
                old(self).cursor().line.0 as int
            },
            old(self).cursor().line.0 + 1 < old(self).lines_count() ==> final(self).marks() == old(
                self,
            ).marks(),
            old(self).cursor().line.0 + 1 == old(self).lines_count() ==> final(self).marks()
                == adjusted(
                old(self).marks(),
                0,
                old(self).lines_count() as int,
                1,
                final(self).topmost(),
            ),
            final(self).history_limit() == old(self).history_limit(),
            old(self).marks_on_grid() ==> final(self).marks_on_grid(),
            final(self).saved_screen() == old(self).saved_screen(),
    {
        if self.grid.cursor.column.0 + 1 == self.columns {
            let idx = self.grid.history + self.grid.cursor.line.0 as usize;
            self.grid.wrapped.set(idx, true);
        }
        if self.grid.cursor.line.0 as usize + 1 >= self.screen_lines {
            self.linefeed();
        } else {
            self.grid.cursor.line = Line(self.grid.cursor.line.0 + 1);
        }
        self.grid.cursor.column = Column(0);
        self.grid.input_needs_wrap = false;
    }

    /// Writes `c` at the cursor (after wrapping to the next line when the
    /// previous character filled the last column) and advances the cursor;
    /// at the last column the cursor stays and the next character wraps.
    pub fn input(&mut self, c: char)
        requires
            old(self).wf(),
        ensures
            final(self).wf(),
            final(self).is_alt() == old(self).is_alt(),
            final(self).columns_count() == old(self).columns_count(),
            final(self).lines_count() == old(self).lines_count(),
            final(self).history_limit() == old(self).history_limit(),
            old(self).marks_on_grid() ==> final(self).marks_on_grid(),
            final(self).saved_screen() == old(self).saved_screen(),
            !old(self).wrap_pending() ==> {
                &&& final(self).wrap_pending() == (old(self).cursor().column.0 + 1
                    == old(self).columns_count())
                &&& final(self).marks() == old(self).marks()
                &&& final(self).history_len() == old(self).history_len()
                &&& final(self).cursor().line == old(self).cursor().line
                &&& final(self).cursor().column.0 == if old(self).cursor().column.0 + 1
                    < old(self).columns_count() {
                    old(self).cursor().column.0 + 1
                } else {
                    old(self).cursor().column.0 as int
                }
                &&& final(self).rows() == old(self).rows().update(
                    old(self).history_len() + old(self).cursor().line.0,
                    old(self).rows()[old(self).history_len()
                        + old(self).cursor().line.0].update(old(self).cursor().column.0 as int, c),
                )
            },
            old(self).wrap_pending() ==> {
                &&& final(self).cursor().line.0 == if old(self).cursor().line.0 + 1 < old(
                    self,
                ).lines_count() {
                    old(self).cursor().line.0 + 1
                } else {
                    old(self).cursor().line.0 as int
                }
                &&& final(self).cursor().column.0 == if 1 < old(self).columns_count() {
                    1int
                } else {
                    0int
                }
                &&& final(self).wrap_pending() == (old(self).columns_count() == 1)
                &&& old(self).cursor().line.0 + 1 < old(self).lines_count() ==> final(self).marks()
                    == old(self).marks()
                &&& old(self).cursor().line.0 + 1 == old(self).lines_count() ==> final(self).marks()
                    == adjusted(
                    old(self).marks(),
                    0,
                    old(self).lines_count() as int,
                    1,
                    final(self).topmost(),
                )
            },
    {
        if self.grid.input_needs_wrap {
            self.wrapline();
        }
        self.grid.write_at_cursor(c, self.columns, self.screen_lines);
        if self.grid.cursor.column.0 + 1 < self.columns {
            self.grid.cursor.column = Column(self.grid.cursor.column.0 + 1);
        } else {
            self.grid.input_needs_wrap = true;
        }
    }

    /// Switches between the primary and the alternate screen. Entering the
    /// alternate screen clears it and starts it at the primary cursor.
    pub fn swap_alt(&mut self)
        requires
            old(self).wf(),
        ensures
            final(self).wf(),
            final(self).is_alt() == !old(self).is_alt(),
            final(self).marks() == old(self).marks(),
            final(self).columns_count() == old(self).columns_count(),
            final(self).lines_count() == old(self).lines_count(),
            !old(self).is_alt() ==> final(self).cursor() == old(self).cursor(),
            !old(self).is_alt() ==> final(self).wrap_pending() == old(self).wrap_pending(),
            final(self).history_limit() == if final(self).is_alt() {
                0
            } else {
                SCROLLBACK_LINES
            },
            final(self).marks_on_grid() == old(self).marks_on_grid(),
            !old(self).is_alt() ==> final(self).saved_screen() == old(self).active_screen(),
            old(self).is_alt() ==> final(self).active_screen() == old(self).saved_screen(),
    {
        if !self.alt_screen {
            let mut fresh = Grid::blank(self.columns, self.screen_lines, 0);
            fresh.cursor = self.grid.cursor;
            fresh.input_needs_wrap = self.grid.input_needs_wrap;
            self.inactive_grid = fresh;
        }
        std::mem::swap(&mut self.grid, &mut self.inactive_grid);
        self.alt_screen = !self.alt_screen;
    }

    /// Resets the terminal: primary screen, blank grids without history,
    /// cursor at the top left, and no marks.
    pub fn reset_state(&mut self)
        requires
            old(self).wf(),
        ensures
            final(self).wf(),
            !final(self).is_alt(),
            final(self).marks() == Seq::<SemanticMark>::empty(),
            final(self).cursor() == (Point { line: Line(0), column: Column(0) }),
            final(self).history_len() == 0,
            final(self).columns_count() == old(self).columns_count(),
            final(self).lines_count() == old(self).lines_count(),
            !final(self).wrap_pending(),
            final(self).history_limit() == SCROLLBACK_LINES,
            final(self).marks_on_grid(),
    {
        self.grid = Grid::blank(self.columns, self.screen_lines, SCROLLBACK_LINES);
        self.inactive_grid = Grid::blank(self.columns, self.screen_lines, 0);
        self.alt_screen = false;
        self.semantic_marks.clear();
    }

    /// The text of the active screen between two points (both inclusive):
    /// each line's text up to its last non-blank cell (or all of it when it
    /// wraps), lines joined by newlines unless they wrap.
    pub fn bounds_to_string(&self, start: Point, end: Point) -> (r: String)
        requires
            self.wf(),
            self.readable(start, end),
        ensures
            r@ == self.text_between(start, end),
    {
        let mut out: Vec<char> = Vec::new();
        let columns = self.columns;
        if start.line.0 <= end.line.0 {
            let mut line: i32 = start.line.0;
            while line <= end.line.0
                invariant
                    self.wf(),
                    self.readable(start, end),
                    columns == self.columns,
                    start.line.0 <= line <= end.line.0 + 1,
                    out@ == lines_text(
                        self.rows(),
                        self.row_wraps(),
                        self.history_len() as int,
                        self.columns_count() as int,
                        start,
                        end,
                        line as int,
                    ),
                decreases end.line.0 + 1 - line,
            {
                let idx = (self.grid.history as i64 + line as i64) as usize;
                let start_col = if line == start.line.0 { start.column.0 } else { 0 };
                let end_col = if line == end.line.0 { end.column.0 } else { columns - 1 };
                let row = &self.grid.rows[idx];
                let wrapped = self.grid.wrapped[idx];
                let full = if wrapped { columns } else { occupied_length(row) };
                let len = if full <= end_col { full } else { end_col + 1 };
                let ghost before = out@;
                let mut col: usize = start_col;
                while col < len
                    invariant
                        row@.len() == columns,
                        len <= columns,
                        start_col <= col <= len || (col == start_col && start_col >= len),
                        out@ == before + if start_col < len {
                            row@.subrange(start_col as int, col as int)
                        } else {
                            Seq::empty()
                        },
                    decreases len - col,
                {
                    out.push(row[col]);
                    assert(row@.subrange(start_col as int, col + 1) =~= row@.subrange(
                        start_col as int,
                        col as int,
                    ).push(row@[col as int]));
                    col = col + 1;
                }
                if end_col >= columns - 1 && (len == 0 || !(wrapped && len == columns)) {
                    out.push('\n');
                }
                proof {
                    assert(self.rows()[self.history_len() + line] == row@);
                    let lt = line_text(
                        row@,
                        wrapped,
                        start_col as int,
                        end_col as int,
                        columns as int,
                    );
                    assert(out@ =~= before + lt);
                }
                line = line + 1;
            }
        }
        let n = out.len();
        if n > 0 && out[n - 1] == '\n' {
            string_from_chars(out.as_slice(), 0, n - 1)
        } else {
            proof {
                assert(out@.subrange(0, n as int) =~= out@);
            }
            string_from_chars(out.as_slice(), 0, n)
        }
    }

    /// Handle an OSC 133 subcommand received from the PTY.
    ///
    /// `payload` is the portion after `133;`, e.g. `"A"`, `"B"`, `"C"`,
    /// `"D;0"`, `"D"`. On the alternate screen, or for any other payload,
    /// nothing changes; otherwise a mark of the payload's type is placed at
    /// the cursor.
    pub fn handle_osc_133(&mut self, payload: &str)
        requires
            old(self).wf(),
        ensures
            final(self).same_screen(old(self)),
            final(self).marks() == match mark_type_for(payload@) {
                Some(t) if !old(self).is_alt() => old(self).marks().push(
                    SemanticMark { point: old(self).cursor(), mark_type: t },
                ),
                _ => old(self).marks(),
            },
            old(self).marks_on_grid() ==> final(self).marks_on_grid(),
    {
        // Ignore shell integration marks on the alternate screen — full-screen
        // applications (vim, less, etc.) don't use shell integration.
        if self.alt_screen {
            return;
        }
        let point = self.grid.cursor;
        match mark_type_for_payload(payload) {
            Some(mark_type) => {
                self.semantic_marks.push(SemanticMark { point, mark_type });
            },
            None => {},
        }
    }

    /// Returns semantic zones derived from the stored shell integration marks:
    /// each prompt, command and output start opens a zone that ends just
    /// before the next mark (or at the cursor, for the last mark).
    pub fn semantic_zones(&self) -> (r: Vec<SemanticZone>)
        requires
            self.wf(),
        ensures
            r@ == self.zones(),
    {
        let cursor = self.cursor_point();
        let topmost = self.topmost_line();
        let last = self.last_column();
        zones_from_marks(self.semantic_marks.as_slice(), cursor, topmost, last)
    }

    /// Returns the most recent command output zone, if any.
    pub fn last_command_output(&self) -> (r: Option<SemanticZone>)
        requires
            self.wf(),
        ensures
            r == last_output(self.zones()),
    {
        let zones = self.semantic_zones();
        last_output_zone(zones.as_slice())
    }

    /// The command text that `command_for_output` gives for `output_zone`:
    /// the trimmed text of the input zone right before it, when that text
    /// is not empty.
    pub open spec fn command_text_for(&self, output_zone: SemanticZone) -> Option<Seq<char>> {
        match input_before(self.zones(), output_zone) {
            Some(input) => {
                let text = trim(self.text_between(input.start, input.end));
                if text.len() == 0 {
                    None
                } else {
                    Some(text)
                }
            },
            None => None,
        }
    }

    /// Extract the command text from the `Input` zone that immediately
    /// precedes the given output zone.
    ///
    /// Returns `None` if no matching input zone is found or if the zone
    /// contents are empty.
    pub fn command_for_output(&self, output_zone: &SemanticZone) -> (r: Option<String>)
        requires
            self.wf(),
            match input_before(self.zones(), *output_zone) {
                Some(input) => self.readable(input.start, input.end),
                None => true,
            },
        ensures
            match r {
                Some(s) => self.command_text_for(*output_zone) == Some(s@),
                None => self.command_text_for(*output_zone).is_none(),
            },
    {
        let zones = self.semantic_zones();
        match input_zone_before(zones.as_slice(), output_zone) {
            Some(input) => {
                let text = self.bounds_to_string(input.start, input.end);
                let chars = crate::text::chars_of(text.as_str());
                let (a, b) = trim_bounds(chars.as_slice(), 0, chars.len());
                proof {
                    assert(chars@.subrange(0, chars@.len() as int) =~= chars@);
                }
                if a == b {
                    None
                } else {
                    Some(string_from_chars(chars.as_slice(), a, b))
                }
            },
            None => None,
        }
    }

    /// Read-only access to the raw semantic marks.
    pub fn semantic_marks(&self) -> (r: &[SemanticMark])
        ensures
            r@ == self.marks(),
    {
        self.semantic_marks.as_slice()
    }

    /// Returns the exit code from the most recent `CommandFinished` mark, if any.
    pub fn last_exit_code(&self) -> (r: Option<Option<i32>>)
        ensures
            r == last_exit_code_of(self.marks()),
    {
        find_last_exit_code(self.semantic_marks.as_slice())
    }

    /// Adjust semantic mark positions after a scroll-up operation.
    ///
    /// Marks on the lines of `region` move up by `delta` lines; marks that
    /// end up above the topmost line of the history are discarded.
    pub fn adjust_semantic_marks_for_scroll(&mut self, region: &std::ops::Range<Line>, delta: i32)
        requires
            old(self).wf(),
            shift_fits(old(self).marks(), region.start.0 as int, region.end.0 as int, delta as int),
        ensures
            final(self).same_screen(old(self)),
            final(self).wrap_pending() == old(self).wrap_pending(),
            final(self).marks() == adjusted(
                old(self).marks(),
                region.start.0 as int,
                region.end.0 as int,
                delta as int,
                old(self).topmost(),
            ),
            delta >= 0 && old(self).marks_on_grid() ==> final(self).marks_on_grid(),
    {
        let topmost = self.topmost_line();
        adjust_marks(&mut self.semantic_marks, region.start, region.end, delta, topmost);
        proof {
            if delta >= 0 && old(self).marks_on_grid() {
                let primary_history = if self.alt_screen {
                    self.inactive_grid.history
                } else {
                    self.grid.history
                };
                lemma_adjusted_within(
                    old(self).semantic_marks@,
                    region.start.0 as int,
                    region.end.0 as int,
                    delta as int,
                    topmost.0 as int,
                    -(primary_history as int),
                    self.screen_lines as int,
                    self.columns as int,
                );
                assert(-(primary_history as int) <= topmost.0);
            }
        }
    }
}

/// On the primary screen, when the marks lie on the grid, the input zone
/// before any output zone can be read: `command_for_output` may be called
/// with it.
pub proof fn lemma_command_zone_readable(t: Term, output_zone: SemanticZone)
    requires
        t.wf(),
        t.marks_on_grid(),
        !t.is_alt(),
    ensures
        match input_before(t.zones(), output_zone) {
            Some(input) => t.readable(input.start, input.end),
            None => true,
        },
{
    lemma_zones_on_grid(
        t.marks(),
        t.cursor(),
        t.topmost(),
        t.last_col(),
        t.lines_count() as int,
        t.columns_count() as int,
        output_zone,
    );
}

proof fn lemma_occupied_covers(row: Seq<char>, k: int)
    requires
        0 <= k < row.len(),
        row[k] != ' ',
    ensures
        k < occupied_len(row) <= row.len(),
    decreases row.len(),
{
    if row.last() == ' ' {
        lemma_occupied_covers(row.drop_last(), k);
    }
}

/// Text read within one line is the run of cells from the start column
/// on, never reaching past the end column; and when none of the cells
/// from the start to the end column is blank or a newline, it is exactly
/// those cells.
pub proof fn lemma_text_on_one_line(t: Term, start: Point, end: Point)
    requires
        t.wf(),
        start.line == end.line,
        t.topmost() <= start.line.0 < t.lines_count(),
        start.column.0 <= end.column.0 < t.columns_count(),
    ensures
        ({
            let text = t.text_between(start, end);
            let row = t.rows()[t.history_len() + start.line.0];
            let sc = start.column.0 as int;
            let ec = end.column.0 as int;
            &&& text.len() <= ec - sc + 1
            &&& forall|i: int| 0 <= i < text.len() ==> #[trigger] text[i] == row[sc + i]
            &&& (forall|c: int| sc <= c <= ec ==> #[trigger] row[c] != ' ' && row[c] != '\n')
                ==> text == row.subrange(sc, ec + 1)
        }),
{
    let rows = t.rows();
    let wraps = t.row_wraps();
    let h = t.history_len() as int;
    let cols = t.columns_count() as int;
    let l = start.line.0 as int;
    let sc = start.column.0 as int;
    let ec = end.column.0 as int;
    let row = rows[h + l];
    assert(row.len() == cols) by {
        assert(t.grid.rows@[h + l]@ == row);
    }
    assert(lines_text(rows, wraps, h, cols, start, end, l) == Seq::<char>::empty());
    let lt = line_text(row, wraps[h + l], sc, ec, cols);
    assert(lines_text(rows, wraps, h, cols, start, end, l + 1) == Seq::<char>::empty() + lt);
    assert(Seq::<char>::empty() + lt =~= lt);
    let full = line_length(row, wraps[h + l]);
    lemma_occupied_bound(row);
    let len = if full <= ec { full } else { ec + 1 };
    let body = if sc < len { row.subrange(sc, len) } else { Seq::<char>::empty() };
    let text = t.text_between(start, end);
    assert(lt == body || lt == body.push('\n'));
    if lt == body.push('\n') {
        assert(lt.drop_last() =~= body);
    }
    assert(text == body || text == body.drop_last());
    assert forall|i: int| 0 <= i < text.len() implies #[trigger] text[i] == row[sc + i] by {
        assert(text[i] == body[i]);
    }
    if forall|c: int| sc <= c <= ec ==> #[trigger] row[c] != ' ' && row[c] != '\n' {
        assert(row[ec] != ' ' && row[ec] != '\n');
        if !wraps[h + l] {
            lemma_occupied_covers(row, ec);
        }
        assert(len == ec + 1);
        assert(body == row.subrange(sc, ec + 1));
        if lt == body.push('\n') {
            assert(text == body);
        } else {
            assert(lt.last() == row[ec]);
            assert(text == body);
        }
    }
}

proof fn lemma_occupied_bound(row: Seq<char>)
    ensures
        0 <= occupied_len(row) <= row.len(),
    decreases row.len(),
{
    if row.len() > 0 && row.last() == ' ' {
        lemma_occupied_bound(row.drop_last());
    }
}

/// A command is only ever read from an input zone: when `command_for_output`
/// finds text for an output zone, the zone right before the output zone's
/// first occurrence is an input zone and the text is read from it; when
/// that zone is of another type (or there is none), nothing is found.
pub proof fn lemma_command_from_input_zone(t: Term, output_zone: SemanticZone)
    ensures
        ({
            let zones = t.zones();
            &&& t.command_text_for(output_zone) is Some ==> exists|k: int|
                #[trigger] first_occurrence_at(zones, output_zone, k) && k >= 1 && zones[k
                    - 1].zone_type == SemanticZoneType::Input && t.command_text_for(output_zone)
                    == Some(trim(t.text_between(zones[k - 1].start, zones[k - 1].end)))
            &&& forall|k: int|
                #[trigger] first_occurrence_at(zones, output_zone, k) && (k == 0 || zones[k
                    - 1].zone_type != SemanticZoneType::Input) ==> t.command_text_for(output_zone)
                    is None
        }),
{
    lemma_input_before_is_input(t.zones(), output_zone);
    let zones = t.zones();
    match input_before(zones, output_zone) {
        Some(z) => {
            let k = choose|k: int|
                #[trigger] first_occurrence_at(zones, output_zone, k) && k >= 1 && zones[k - 1] == z;
            assert forall|k2: int| #[trigger] first_occurrence_at(zones, output_zone, k2) implies k2
                == k by {
                if k2 < k {
                    assert(zones[k2] != output_zone);
                } else if k2 > k {
                    assert(zones[k] != output_zone);
                }
            }
        },
        None => {},
    }
}

fn occupied_length(row: &Vec<char>) -> (r: usize)
    ensures
        r == occupied_len(row@),
        r <= row@.len(),
{
    let mut n: usize = row.len();
    assert(row@.subrange(0, n as int) =~= row@);
    while n > 0 && row[n - 1] == ' '
        invariant
            n <= row@.len(),
            occupied_len(row@) == occupied_len(row@.subrange(0, n as int)),
        decreases n,
    {
        assert(row@.subrange(0, n as int).drop_last() =~= row@.subrange(0, n - 1));
        n = n - 1;
    }
    n
}

} // verus!

//! Shell-integration marks (the four OSC 133 subcommands) and the semantic
//! zones (prompt, input, output) derived from them. Everything here works on
//! plain values; `crate::term::Term` holds the marks and calls in.

use vstd::prelude::*;
use crate::text::{
    chars_of, parse_i32_chars, trim_bounds, parse_i32, trim, decimal, lemma_decimal_digits,
    lemma_parse_decimal_i32, lemma_trim_digits, all_digits,
};

verus! {

/// A line of the terminal grid: 0 is the top of the screen, negative lines
/// are in the scrollback history.
#[derive(Debug, Clone, Copy, PartialEq, Eq, PartialOrd, Ord, Hash, Structural)]
pub struct Line(pub i32);

/// A column of the terminal grid, 0 at the left.
#[derive(Debug, Clone, Copy, PartialEq, Eq, PartialOrd, Ord, Hash, Structural)]
pub struct Column(pub usize);

/// A cell position in the terminal grid, ordered by line, then column.
#[derive(Debug, Clone, Copy, PartialEq, Eq, PartialOrd, Ord, Hash, Structural)]
pub struct Point {
    pub line: Line,
    pub column: Column,
}

impl Point {
    pub fn new(line: Line, column: Column) -> (r: Point)
        ensures
            r == (Point { line, column }),
    {
        Point { line, column }
    }
}

/// `a` comes strictly before `b` (by line, then by column).
pub open spec fn point_lt(a: Point, b: Point) -> bool {
    a.line.0 < b.line.0 || (a.line.0 == b.line.0 && a.column.0 < b.column.0)
}

/// The type of a semantic zone derived from shell integration marks.
#[derive(Debug, Clone, Copy, PartialEq, Eq, Structural)]
pub enum SemanticZoneType {
    /// The shell prompt (between OSC 133;A and OSC 133;B).
    Prompt,
    /// User input on the command line (between OSC 133;B and OSC 133;C).
    Input,
    /// Command output (between OSC 133;C and OSC 133;D or the next OSC 133;A).
    Output,
}

/// A semantic zone in the terminal grid, tracking shell integration boundaries.
#[derive(Debug, Clone, Copy, PartialEq, Eq, Structural)]
pub struct SemanticZone {
    /// The type of this zone.
    pub zone_type: SemanticZoneType,
    /// Start point in the grid (inclusive).
    pub start: Point,
    /// End point in the grid (inclusive).
    pub end: Point,
}

/// The type of a shell integration mark (one of the four OSC 133 subcommands).
#[derive(Debug, Clone, Copy, PartialEq, Eq, Structural)]
pub enum SemanticMarkType {
    /// OSC 133 ; A — prompt start.
    PromptStart,
    /// OSC 133 ; B — command start (user pressed enter).
    CommandStart,
    /// OSC 133 ; C — command output start.
    OutputStart,
    /// OSC 133 ; D ; <exit_code> — command finished.
    CommandFinished(Option<i32>),
}

/// A single shell integration mark: the cursor position when the escape
/// sequence arrived, and the type of transition.
#[derive(Debug, Clone, Copy, PartialEq, Eq, Structural)]
pub struct SemanticMark {
    pub point: Point,
    pub mark_type: SemanticMarkType,
}

/// The mark that an OSC 133 payload (the text after `133;`) asks for:
/// `A`, `B` and `C` exactly; anything starting with `D`, with the exit code
/// parsed from what follows `D;` (trimmed) when that is an `i32`; nothing
/// for any other payload.
pub open spec fn mark_type_for(payload: Seq<char>) -> Option<SemanticMarkType> {
    if payload == seq!['A'] {
        Some(SemanticMarkType::PromptStart)
    } else if payload == seq!['B'] {
        Some(SemanticMarkType::CommandStart)
    } else if payload == seq!['C'] {
        Some(SemanticMarkType::OutputStart)
    } else if payload.len() > 0 && payload[0] == 'D' {
        Some(
            SemanticMarkType::CommandFinished(
                if payload.len() >= 2 && payload[1] == ';' {
                    parse_i32(trim(payload.subrange(2, payload.len() as int)))
                } else {
                    None
                },
            ),
        )
    } else {
        None
    }
}

/// Reads an OSC 133 payload into the mark type it asks for.
pub fn mark_type_for_payload(payload: &str) -> (r: Option<SemanticMarkType>)
    ensures
        r == mark_type_for(payload@),
{
    let chars = chars_of(payload);
    let n = chars.len();
    if n == 1 && chars[0] == 'A' {
        assert(payload@ =~= seq!['A']);
        Some(SemanticMarkType::PromptStart)
    } else if n == 1 && chars[0] == 'B' {
        assert(payload@ =~= seq!['B']);
        Some(SemanticMarkType::CommandStart)
    } else if n == 1 && chars[0] == 'C' {
        assert(payload@ =~= seq!['C']);
        Some(SemanticMarkType::OutputStart)
    } else if n > 0 && chars[0] == 'D' {
        assert(payload@ != seq!['A'] && payload@ != seq!['B'] && payload@ != seq!['C']) by {
            if payload@.len() == 1 {
                assert(payload@[0] == 'D');
            }
        }
        if n >= 2 && chars[1] == ';' {
            let (a, b) = trim_bounds(chars.as_slice(), 2, n);
            let code = parse_i32_chars(chars.as_slice(), a, b);
            Some(SemanticMarkType::CommandFinished(code))
        } else {
            Some(SemanticMarkType::CommandFinished(None))
        }
    } else {
        assert(payload@ != seq!['A'] && payload@ != seq!['B'] && payload@ != seq!['C']) by {
            if payload@ =~= seq!['A'] || payload@ =~= seq!['B'] || payload@ =~= seq!['C'] {
                assert(payload@.len() == 1);
            }
        }
        None
    }
}

/// Where the zone starting at mark `i` ends: just before the next mark's
/// point (one column back, or the last column of the line above when the
/// next mark is at column 0 and not on the topmost line), or the cursor
/// for the last mark.
pub open spec fn zone_end(
    marks: Seq<SemanticMark>,
    i: int,
    cursor: Point,
    topmost: int,
    last_column: int,
) -> Point {
    if i + 1 < marks.len() {
        let next = marks[i + 1].point;
        if next.column.0 > 0 {
            Point { line: next.line, column: Column((next.column.0 - 1) as usize) }
        } else if next.line.0 > topmost {
            Point { line: Line((next.line.0 - 1) as i32), column: Column(last_column as usize) }
        } else {
            next
        }
    } else {
        cursor
    }
}

/// The zone that mark `i` opens, if any: `PromptStart`, `CommandStart` and
/// `OutputStart` open a prompt, input and output zone from the mark to its
/// end point, unless that end lies before the mark; `CommandFinished` opens
/// none.
pub open spec fn zone_at(
    marks: Seq<SemanticMark>,
    i: int,
    cursor: Point,
    topmost: int,
    last_column: int,
) -> Option<SemanticZone> {
    let mark = marks[i];
    let end = zone_end(marks, i, cursor, topmost, last_column);
    if point_lt(end, mark.point) {
        None
    } else {
        match mark.mark_type {
            SemanticMarkType::PromptStart => Some(
                SemanticZone { zone_type: SemanticZoneType::Prompt, start: mark.point, end },
            ),
            SemanticMarkType::CommandStart => Some(
                SemanticZone { zone_type: SemanticZoneType::Input, start: mark.point, end },
            ),
            SemanticMarkType::OutputStart => Some(
                SemanticZone { zone_type: SemanticZoneType::Output, start: mark.point, end },
            ),
            SemanticMarkType::CommandFinished(_) => None,
        }
    }
}

/// The zones opened by the first `n` marks, in mark order.
pub open spec fn zones_upto(
    marks: Seq<SemanticMark>,
    n: int,
    cursor: Point,
    topmost: int,
    last_column: int,
) -> Seq<SemanticZone>
    decreases n,
{
    if n <= 0 {
        Seq::empty()
    } else {
        let prev = zones_upto(marks, n - 1, cursor, topmost, last_column);
        match zone_at(marks, n - 1, cursor, topmost, last_column) {
            Some(z) => prev.push(z),
            None => prev,
        }
    }
}

/// All zones derived from `marks`.
pub open spec fn zones_of(
    marks: Seq<SemanticMark>,
    cursor: Point,
    topmost: int,
    last_column: int,
) -> Seq<SemanticZone> {
    zones_upto(marks, marks.len() as int, cursor, topmost, last_column)
}

/// Derives the semantic zones from the marks, given the cursor, the topmost
/// line of the grid and its last column.
pub fn zones_from_marks(
    marks: &[SemanticMark],
    cursor: Point,
    topmost: Line,
    last_column: Column,
) -> (r: Vec<SemanticZone>)
    requires
        topmost.0 <= 0,
    ensures
        r@ == zones_of(marks@, cursor, topmost.0 as int, last_column.0 as int),
{
    let mut zones: Vec<SemanticZone> = Vec::new();
    let n = marks.len();
    let mut i: usize = 0;
    while i < n
        invariant
            n == marks@.len(),
            i <= n,
            topmost.0 <= 0,
            zones@ == zones_upto(marks@, i as int, cursor, topmost.0 as int, last_column.0 as int),
        decreases n - i,
    {
        let mark = marks[i];
        let end_point = if i + 1 < n {
            let next_point = marks[i + 1].point;
            if next_point.column.0 > 0 {
                Point { line: next_point.line, column: Column(next_point.column.0 - 1) }
            } else if next_point.line.0 > topmost.0 {
                Point { line: Line(next_point.line.0 - 1), column: last_column }
            } else {
                next_point
            }
        } else {
            cursor
        };
        assert(end_point == zone_end(marks@, i as int, cursor, topmost.0 as int, last_column.0 as int));
        let before = end_point.line.0 < mark.point.line.0 || (end_point.line.0 == mark.point.line.0
            && end_point.column.0 < mark.point.column.0);
        if !before {
            match mark.mark_type {
                SemanticMarkType::PromptStart => {
                    zones.push(
                        SemanticZone {
                            zone_type: SemanticZoneType::Prompt,
                            start: mark.point,
                            end: end_point,
                        },
                    );
                },
                SemanticMarkType::CommandStart => {
                    zones.push(
                        SemanticZone {
                            zone_type: SemanticZoneType::Input,
                            start: mark.point,
                            end: end_point,
                        },
                    );
                },
                SemanticMarkType::OutputStart => {
                    zones.push(
                        SemanticZone {
                            zone_type: SemanticZoneType::Output,
                            start: mark.point,
                            end: end_point,
                        },
                    );
                },
                SemanticMarkType::CommandFinished(_) => {},
            }
        }
        i = i + 1;
    }
    zones
}

/// The last output zone of `zones`, if any.
pub open spec fn last_output(zones: Seq<SemanticZone>) -> Option<SemanticZone>
    decreases zones.len(),
{
    if zones.len() == 0 {
        None
    } else if zones.last().zone_type == SemanticZoneType::Output {
        Some(zones.last())
    } else {
        last_output(zones.drop_last())
    }
}

/// Finds the most recent output zone.
pub fn last_output_zone(zones: &[SemanticZone]) -> (r: Option<SemanticZone>)
    ensures
        r == last_output(zones@),
{
    let mut i: usize = zones.len();
    assert(zones@.subrange(0, i as int) =~= zones@);
    while i > 0
        invariant
            i <= zones@.len(),
            last_output(zones@) == last_output(zones@.subrange(0, i as int)),
        decreases i,
    {
        let ghost prefix = zones@.subrange(0, i as int);
        assert(prefix.drop_last() =~= zones@.subrange(0, i - 1));
        if zones[i - 1].zone_type == SemanticZoneType::Output {
            return Some(zones[i - 1]);
        }
        i = i - 1;
    }
    None
}

/// The exit code carried by the last `CommandFinished` mark: `None` when
/// there is no such mark, `Some(None)` when it carried no code.
pub open spec fn last_exit_code_of(marks: Seq<SemanticMark>) -> Option<Option<i32>>
    decreases marks.len(),
{
    if marks.len() == 0 {
        None
    } else {
        match marks.last().mark_type {
            SemanticMarkType::CommandFinished(code) => Some(code),
            _ => last_exit_code_of(marks.drop_last()),
        }
    }
}

/// Finds the exit code of the most recent `CommandFinished` mark.
pub fn find_last_exit_code(marks: &[SemanticMark]) -> (r: Option<Option<i32>>)
    ensures
        r == last_exit_code_of(marks@),
{
    let mut i: usize = marks.len();
    assert(marks@.subrange(0, i as int) =~= marks@);
    while i > 0
        invariant
            i <= marks@.len(),
            last_exit_code_of(marks@) == last_exit_code_of(marks@.subrange(0, i as int)),
        decreases i,
    {
        let ghost prefix = marks@.subrange(0, i as int);
        assert(prefix.drop_last() =~= marks@.subrange(0, i - 1));
        match marks[i - 1].mark_type {
            SemanticMarkType::CommandFinished(code) => {
                return Some(code);
            },
            _ => {},
        }
        i = i - 1;
    }
    None
}

/// The index of the first zone equal to `z`, or -1.
pub open spec fn position_of(zones: Seq<SemanticZone>, z: SemanticZone) -> int
    decreases zones.len(),
{
    if zones.len() == 0 {
        -1
    } else {
        let p = position_of(zones.drop_last(), z);
        if p >= 0 {
            p
        } else if zones.last() == z {
            zones.len() - 1
        } else {
            -1
        }
    }
}

/// The input zone right before the first occurrence of `output_zone` in
/// `zones`, if there is one.
pub open spec fn input_before(zones: Seq<SemanticZone>, output_zone: SemanticZone) -> Option<
    SemanticZone,
> {
    let idx = position_of(zones, output_zone);
    if idx <= 0 {
        None
    } else if zones[idx - 1].zone_type == SemanticZoneType::Input {
        Some(zones[idx - 1])
    } else {
        None
    }
}

proof fn lemma_position_bounds(zones: Seq<SemanticZone>, z: SemanticZone)
    ensures
        -1 <= position_of(zones, z) < zones.len(),
        position_of(zones, z) >= 0 ==> zones[position_of(zones, z)] == z,
        position_of(zones, z) >= 0 ==> forall|j: int|
            0 <= j < position_of(zones, z) ==> zones[j] != z,
        position_of(zones, z) == -1 ==> forall|j: int| 0 <= j < zones.len() ==> zones[j] != z,
    decreases zones.len(),
{
    if zones.len() > 0 {
        lemma_position_bounds(zones.drop_last(), z);
        assert forall|j: int| 0 <= j < zones.len() - 1 implies zones.drop_last()[j] == zones[j] by {}
    }
}

/// Finds the input zone that immediately precedes the first zone equal to
/// `output_zone`.
pub fn input_zone_before(zones: &[SemanticZone], output_zone: &SemanticZone) -> (r: Option<
    SemanticZone,
>)
    ensures
        r == input_before(zones@, *output_zone),
{
    proof {
        lemma_position_bounds(zones@, *output_zone);
    }
    let n = zones.len();
    let mut i: usize = 0;
    while i < n
        invariant
            n == zones@.len(),
            i <= n,
            forall|j: int| 0 <= j < i ==> zones@[j] != *output_zone,
            -1 <= position_of(zones@, *output_zone) < zones@.len(),
            position_of(zones@, *output_zone) >= 0 ==> zones@[position_of(zones@, *output_zone)]
                == *output_zone,
            position_of(zones@, *output_zone) >= 0 ==> forall|j: int|
                0 <= j < position_of(zones@, *output_zone) ==> zones@[j] != *output_zone,
            position_of(zones@, *output_zone) == -1 ==> forall|j: int|
                0 <= j < zones@.len() ==> zones@[j] != *output_zone,
        decreases n - i,
    {
        if zones[i] == *output_zone {
            assert(position_of(zones@, *output_zone) == i);
            if i == 0 {
                return None;
            }
            if zones[i - 1].zone_type == SemanticZoneType::Input {
                return Some(zones[i - 1]);
            }
            return None;
        }
        i = i + 1;
    }
    None
}

/// Zone `k` is the first occurrence of `z` in `zones`.
pub open spec fn first_occurrence_at(zones: Seq<SemanticZone>, z: SemanticZone, k: int) -> bool {
    &&& 0 <= k < zones.len()
    &&& zones[k] == z
    &&& forall|j: int| 0 <= j < k ==> #[trigger] zones[j] != z
}

/// The zone looked up before an output zone is an input zone, and it is
/// the zone right before the output zone's first occurrence; when the zone
/// right before that first occurrence is not an input zone (or there is
/// none), nothing is found.
pub proof fn lemma_input_before_is_input(zones: Seq<SemanticZone>, output_zone: SemanticZone)
    ensures
        match input_before(zones, output_zone) {
            Some(z) => {
                &&& z.zone_type == SemanticZoneType::Input
                &&& exists|k: int|
                    #[trigger] first_occurrence_at(zones, output_zone, k) && k >= 1 && zones[k - 1]
                        == z
            },
            None => forall|k: int|
                #[trigger] first_occurrence_at(zones, output_zone, k) ==> k == 0 || zones[k
                    - 1].zone_type != SemanticZoneType::Input,
        },
{
    lemma_position_bounds(zones, output_zone);
    let idx = position_of(zones, output_zone);
    if idx >= 0 {
        assert(first_occurrence_at(zones, output_zone, idx));
    }
    assert forall|k: int| #[trigger] first_occurrence_at(zones, output_zone, k) implies k == idx by {
        if idx == -1 {
            assert(zones[k] != output_zone);
        } else if k < idx {
            assert(zones[k] != output_zone);
        } else if k > idx {
            assert(zones[idx] != output_zone);
        }
    }
}

/// Shifts a mark up by `delta` lines when its line lies in `start..end`.
pub open spec fn shift_mark(m: SemanticMark, start: int, end: int, delta: int) -> SemanticMark {
    if start <= m.point.line.0 < end {
        SemanticMark {
            point: Point { line: Line((m.point.line.0 - delta) as i32), column: m.point.column },
            mark_type: m.mark_type,
        }
    } else {
        m
    }
}

/// The first `n` marks after a scroll of the lines `start..end` by `delta`,
/// keeping only those at or below `topmost`.
pub open spec fn adjusted_upto(
    marks: Seq<SemanticMark>,
    n: int,
    start: int,
    end: int,
    delta: int,
    topmost: int,
) -> Seq<SemanticMark>
    decreases n,
{
    if n <= 0 {
        Seq::empty()
    } else {
        let prev = adjusted_upto(marks, n - 1, start, end, delta, topmost);
        let m = shift_mark(marks[n - 1], start, end, delta);
        if m.point.line.0 >= topmost {
            prev.push(m)
        } else {
            prev
        }
    }
}

/// The marks after a scroll, as `adjust_marks` leaves them.
pub open spec fn adjusted(
    marks: Seq<SemanticMark>,
    start: int,
    end: int,
    delta: int,
    topmost: int,
) -> Seq<SemanticMark> {
    adjusted_upto(marks, marks.len() as int, start, end, delta, topmost)
}

/// A shift of the lines `start..end` by `delta` keeps every mark's line in
/// the range of `i32`.
pub open spec fn shift_fits(marks: Seq<SemanticMark>, start: int, end: int, delta: int) -> bool {
    forall|i: int|
        0 <= i < marks.len() && start <= #[trigger] marks[i].point.line.0 < end ==> i32::MIN
            <= marks[i].point.line.0 - delta <= i32::MAX
}

/// Moves the marks on the lines `start..end` up by `delta` lines and drops
/// those that end up above `topmost`.
pub fn adjust_marks(
    marks: &mut Vec<SemanticMark>,
    start: Line,
    end: Line,
    delta: i32,
    topmost: Line,
)
    requires
        shift_fits(old(marks)@, start.0 as int, end.0 as int, delta as int),
    ensures
        final(marks)@ == adjusted(
            old(marks)@,
            start.0 as int,
            end.0 as int,
            delta as int,
            topmost.0 as int,
        ),
{
    let mut kept: Vec<SemanticMark> = Vec::new();
    let n = marks.len();
    let mut i: usize = 0;
    while i < n
        invariant
            n == marks@.len(),
            i <= n,
            shift_fits(marks@, start.0 as int, end.0 as int, delta as int),
            kept@ == adjusted_upto(
                marks@,
                i as int,
                start.0 as int,
                end.0 as int,
                delta as int,
                topmost.0 as int,
            ),
        decreases n - i,
    {
        let mut mark = marks[i];
        if mark.point.line.0 >= start.0 && mark.point.line.0 < end.0 {
            mark.point.line = Line(mark.point.line.0 - delta);
        }
        if mark.point.line.0 >= topmost.0 {
            kept.push(mark);
        }
        i = i + 1;
    }
    *marks = kept;
}


/// Every zone starts no later than it ends.
pub proof fn lemma_zones_ordered(marks: Seq<SemanticMark>, cursor: Point, topmost: int, last_column: int)
    ensures
        forall|i: int|
            0 <= i < zones_of(marks, cursor, topmost, last_column).len() ==> !point_lt(
                (#[trigger] zones_of(marks, cursor, topmost, last_column)[i]).end,
                zones_of(marks, cursor, topmost, last_column)[i].start,
            ),
{
    lemma_zones_upto_ordered(marks, marks.len() as int, cursor, topmost, last_column);
}

proof fn lemma_zones_upto_ordered(
    marks: Seq<SemanticMark>,
    n: int,
    cursor: Point,
    topmost: int,
    last_column: int,
)
    requires
        n <= marks.len(),
    ensures
        forall|i: int|
            0 <= i < zones_upto(marks, n, cursor, topmost, last_column).len() ==> !point_lt(
                (#[trigger] zones_upto(marks, n, cursor, topmost, last_column)[i]).end,
                zones_upto(marks, n, cursor, topmost, last_column)[i].start,
            ),
    decreases n,
{
    if n > 0 {
        lemma_zones_upto_ordered(marks, n - 1, cursor, topmost, last_column);
    }
}

/// The last output zone is an output zone among the zones, and no output
/// zone comes after it; when there is none, no zone is an output zone.
pub proof fn lemma_last_output(zones: Seq<SemanticZone>)
    ensures
        match last_output(zones) {
            Some(z) => {
                &&& z.zone_type == SemanticZoneType::Output
                &&& exists|k: int|
                    0 <= k < zones.len() && #[trigger] zones[k] == z && forall|j: int|
                        k < j < zones.len() ==> (#[trigger] zones[j]).zone_type
                            != SemanticZoneType::Output
            },
            None => forall|j: int|
                0 <= j < zones.len() ==> (#[trigger] zones[j]).zone_type != SemanticZoneType::Output,
        },
    decreases zones.len(),
{
    if zones.len() > 0 {
        lemma_last_output(zones.drop_last());
        let k = zones.len() - 1;
        if zones.last().zone_type == SemanticZoneType::Output {
            assert(zones[k] == zones.last());
        } else {
            match last_output(zones.drop_last()) {
                Some(z) => {
                    let k0 = choose|k0: int|
                        0 <= k0 < zones.drop_last().len() && #[trigger] zones.drop_last()[k0] == z
                            && forall|j: int|
                            k0 < j < zones.drop_last().len() ==> (#[trigger] zones.drop_last()[j]).zone_type
                                != SemanticZoneType::Output;
                    assert(zones[k0] == z);
                    assert forall|j: int| k0 < j < zones.len() implies (#[trigger] zones[j]).zone_type
                        != SemanticZoneType::Output by {
                        if j < zones.len() - 1 {
                            assert(zones[j] == zones.drop_last()[j]);
                        }
                    }
                },
                None => {
                    assert forall|j: int| 0 <= j < zones.len() implies (#[trigger] zones[j]).zone_type
                        != SemanticZoneType::Output by {
                        if j < zones.len() - 1 {
                            assert(zones[j] == zones.drop_last()[j]);
                        }
                    }
                },
            }
        }
    }
}

/// A command-finished mark makes its exit code the last one; any other
/// mark leaves the last exit code as it was.
pub proof fn lemma_last_exit_code_push(marks: Seq<SemanticMark>, mark: SemanticMark)
    ensures
        last_exit_code_of(marks.push(mark)) == match mark.mark_type {
            SemanticMarkType::CommandFinished(code) => Some(code),
            _ => last_exit_code_of(marks),
        },
{
    assert(marks.push(mark).drop_last() =~= marks);
}

/// `D;` followed by an exit code written in decimal (with `-` when
/// negative) asks for a command-finished mark carrying that code.
pub proof fn lemma_exit_code_payload(code: i32)
    ensures
        mark_type_for(
            seq!['D', ';'] + if code < 0 {
                seq!['-'] + decimal((-code) as nat)
            } else {
                decimal(code as nat)
            },
        ) == Some(SemanticMarkType::CommandFinished(Some(code))),
{
    let digits = if code < 0 { seq!['-'] + decimal((-code) as nat) } else { decimal(code as nat) };
    let p = seq!['D', ';'] + digits;
    assert(p.subrange(2, p.len() as int) =~= digits);
    assert(p[0] == 'D' && p[1] == ';');
    assert(p != seq!['A'] && p != seq!['B'] && p != seq!['C']) by {
        assert(p[0] == 'D');
        if p.len() == 1 {
            assert(false);
        }
    }
    lemma_parse_decimal_i32(code);
    if code < 0 {
        lemma_decimal_digits((-code) as nat);
        assert(digits[0] == '-');
        assert(!crate::text::is_whitespace(digits[0]));
        let d = decimal((-code) as nat);
        assert(digits.last() == d.last());
        assert(crate::text::is_digit(d[d.len() - 1]));
        assert(!crate::text::is_whitespace(digits.last()));
        assert(crate::text::trim_start(digits) == digits);
        assert(crate::text::trim_end(digits) == digits);
    } else {
        lemma_decimal_digits(code as nat);
        lemma_trim_digits(digits);
    }
}

/// After a scroll, every mark kept lies at or below the topmost line, and
/// no mark is added.
pub proof fn lemma_adjusted_bounds(
    marks: Seq<SemanticMark>,
    start: int,
    end: int,
    delta: int,
    topmost: int,
)
    ensures
        adjusted(marks, start, end, delta, topmost).len() <= marks.len(),
        forall|i: int|
            0 <= i < adjusted(marks, start, end, delta, topmost).len() ==> (#[trigger] adjusted(
                marks,
                start,
                end,
                delta,
                topmost,
            )[i]).point.line.0 >= topmost,
{
    lemma_adjusted_upto_bounds(marks, marks.len() as int, start, end, delta, topmost);
}

proof fn lemma_adjusted_upto_bounds(
    marks: Seq<SemanticMark>,
    n: int,
    start: int,
    end: int,
    delta: int,
    topmost: int,
)
    requires
        0 <= n <= marks.len(),
    ensures
        adjusted_upto(marks, n, start, end, delta, topmost).len() <= n,
        forall|i: int|
            0 <= i < adjusted_upto(marks, n, start, end, delta, topmost).len() ==> (
            #[trigger] adjusted_upto(marks, n, start, end, delta, topmost)[i]).point.line.0 >= topmost,
    decreases n,
{
    if n > 0 {
        lemma_adjusted_upto_bounds(marks, n - 1, start, end, delta, topmost);
    }
}

/// Every mark lies on a grid whose topmost line is `topmost`, with `lines`
/// screen lines and `cols` columns.
pub open spec fn marks_within(marks: Seq<SemanticMark>, topmost: int, lines: int, cols: int) -> bool {
    forall|i: int|
        0 <= i < marks.len() ==> {
            &&& topmost <= (#[trigger] marks[i]).point.line.0 < lines
            &&& marks[i].point.column.0 < cols
        }
}

/// A zone starts on a line and a column of such a grid, and ends above
/// its bottom.
pub open spec fn zone_on_grid(z: SemanticZone, topmost: int, lines: int, cols: int) -> bool {
    &&& topmost <= z.start.line.0
    &&& z.start.column.0 < cols
    &&& z.end.line.0 < lines
}

/// When the marks and the cursor lie on the grid, so does every zone, and
/// so does the input zone before any output zone.
pub proof fn lemma_zones_on_grid(
    marks: Seq<SemanticMark>,
    cursor: Point,
    topmost: int,
    last_column: int,
    lines: int,
    cols: int,
    output_zone: SemanticZone,
)
    requires
        marks_within(marks, topmost, lines, cols),
        cursor.line.0 < lines,
        i32::MIN <= topmost,
    ensures
        forall|j: int|
            0 <= j < zones_of(marks, cursor, topmost, last_column).len() ==> zone_on_grid(
                #[trigger] zones_of(marks, cursor, topmost, last_column)[j],
                topmost,
                lines,
                cols,
            ),
        match input_before(zones_of(marks, cursor, topmost, last_column), output_zone) {
            Some(z) => zone_on_grid(z, topmost, lines, cols),
            None => true,
        },
{
    let zones = zones_of(marks, cursor, topmost, last_column);
    lemma_zones_upto_on_grid(marks, marks.len() as int, cursor, topmost, last_column, lines, cols);
    lemma_position_bounds(zones, output_zone);
    let idx = position_of(zones, output_zone);
    if idx > 0 {
        assert(zone_on_grid(zones[idx - 1], topmost, lines, cols));
    }
}

proof fn lemma_zones_upto_on_grid(
    marks: Seq<SemanticMark>,
    n: int,
    cursor: Point,
    topmost: int,
    last_column: int,
    lines: int,
    cols: int,
)
    requires
        n <= marks.len(),
        marks_within(marks, topmost, lines, cols),
        cursor.line.0 < lines,
        i32::MIN <= topmost,
    ensures
        forall|j: int|
            0 <= j < zones_upto(marks, n, cursor, topmost, last_column).len() ==> zone_on_grid(
                #[trigger] zones_upto(marks, n, cursor, topmost, last_column)[j],
                topmost,
                lines,
                cols,
            ),
    decreases n,
{
    if n > 0 {
        lemma_zones_upto_on_grid(marks, n - 1, cursor, topmost, last_column, lines, cols);
        let prev = zones_upto(marks, n - 1, cursor, topmost, last_column);
        let i = n - 1;
        assert(topmost <= marks[i].point.line.0 < lines);
        if i + 1 < marks.len() {
            assert(topmost <= marks[i + 1].point.line.0 < lines);
        }
        match zone_at(marks, i, cursor, topmost, last_column) {
            Some(z) => {
                assert(zone_on_grid(z, topmost, lines, cols));
                let cur = prev.push(z);
                assert forall|j: int| 0 <= j < cur.len() implies zone_on_grid(
                    #[trigger] cur[j],
                    topmost,
                    lines,
                    cols,
                ) by {
                    if j < prev.len() {
                        assert(cur[j] == prev[j]);
                    }
                }
            },
            None => {},
        }
    }
}

/// A scroll up (`delta` not negative) keeps marks on the grid: lines only
/// move up, and marks above the new topmost line are dropped.
pub proof fn lemma_adjusted_within(
    marks: Seq<SemanticMark>,
    start: int,
    end: int,
    delta: int,
    topmost: int,
    low: int,
    lines: int,
    cols: int,
)
    requires
        marks_within(marks, low, lines, cols),
        delta >= 0,
        shift_fits(marks, start, end, delta),
    ensures
        marks_within(adjusted(marks, start, end, delta, topmost), topmost, lines, cols),
{
    lemma_adjusted_upto_within(marks, marks.len() as int, start, end, delta, topmost, low, lines, cols);
}

proof fn lemma_adjusted_upto_within(
    marks: Seq<SemanticMark>,
    n: int,
    start: int,
    end: int,
    delta: int,
    topmost: int,
    low: int,
    lines: int,
    cols: int,
)
    requires
        0 <= n <= marks.len(),
        marks_within(marks, low, lines, cols),
        delta >= 0,
        shift_fits(marks, start, end, delta),
    ensures
        marks_within(adjusted_upto(marks, n, start, end, delta, topmost), topmost, lines, cols),
    decreases n,
{
    if n > 0 {
        lemma_adjusted_upto_within(marks, n - 1, start, end, delta, topmost, low, lines, cols);
        let prev = adjusted_upto(marks, n - 1, start, end, delta, topmost);
        let m0 = marks[n - 1];
        assert(low <= m0.point.line.0 < lines);
        let m = shift_mark(m0, start, end, delta);
        if start <= m0.point.line.0 < end {
            assert(i32::MIN <= m0.point.line.0 - delta <= i32::MAX);
        }
        if m.point.line.0 >= topmost {
            let cur = prev.push(m);
            assert forall|j: int| 0 <= j < cur.len() implies {
                &&& topmost <= (#[trigger] cur[j]).point.line.0 < lines
                &&& cur[j].point.column.0 < cols
            } by {
                if j < prev.len() {
                    assert(cur[j] == prev[j]);
                }
            }
        }
    }
}

} // verus!

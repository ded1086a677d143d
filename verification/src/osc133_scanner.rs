//! A byte-level recognizer for OSC 133 sequences (`ESC ] 133 ; <payload>`
//! ended by `BEL` or by `ESC \`) in the raw PTY stream. Each complete
//! payload is handed to `Term::handle_osc_133`.

use vstd::prelude::*;
use vstd::utf8::{valid_utf8, decode_utf8, encode_utf8_decode_utf8};
use crate::semantic_zones::{SemanticMark, Point, mark_type_for};
use crate::term::Term;
use vstd::string::StringSliceAdditionalSpecFns;

verus! {

/// Maximum payload length we'll buffer before giving up on a malformed sequence.
pub const MAX_PAYLOAD_LEN: usize = 64;

/// Internal states of the OSC 133 recognizer; the names describe what has
/// been consumed so far.
#[derive(Debug, Clone, Copy, PartialEq, Eq, Structural)]
pub enum ScanState {
    Ground,
    Esc,
    OscOpen,
    Osc1,
    Osc13,
    Osc133,
    Payload,
    PayloadEsc,
}

/// The state after an unexpected byte: `Esc` if it is ESC, so that a new
/// `ESC ]` right behind it is not missed, else `Ground`.
pub open spec fn reset_or_esc_state(byte: u8) -> ScanState {
    if byte == 0x1b {
        ScanState::Esc
    } else {
        ScanState::Ground
    }
}

/// One byte through the recognizer: the next state, the next payload
/// buffer, and the payload dispatched by this byte, if any.
pub open spec fn step(state: ScanState, payload: Seq<u8>, byte: u8) -> (
    ScanState,
    Seq<u8>,
    Option<Seq<u8>>,
) {
    match state {
        ScanState::Ground => (
            if byte == 0x1b {
                ScanState::Esc
            } else {
                ScanState::Ground
            },
            payload,
            None,
        ),
        ScanState::Esc => (
            if byte == 0x5d {
                ScanState::OscOpen
            } else {
                reset_or_esc_state(byte)
            },
            payload,
            None,
        ),
        ScanState::OscOpen => (
            if byte == 0x31 {
                ScanState::Osc1
            } else {
                reset_or_esc_state(byte)
            },
            payload,
            None,
        ),
        ScanState::Osc1 => (
            if byte == 0x33 {
                ScanState::Osc13
            } else {
                reset_or_esc_state(byte)
            },
            payload,
            None,
        ),
        ScanState::Osc13 => (
            if byte == 0x33 {
                ScanState::Osc133
            } else {
                reset_or_esc_state(byte)
            },
            payload,
            None,
        ),
        ScanState::Osc133 => if byte == 0x3b {
            (ScanState::Payload, Seq::empty(), None)
        } else {
            (reset_or_esc_state(byte), payload, None)
        },
        ScanState::Payload => if byte == 0x07 {
            (ScanState::Ground, Seq::empty(), Some(payload))
        } else if byte == 0x1b {
            (ScanState::PayloadEsc, payload, None)
        } else if payload.len() < MAX_PAYLOAD_LEN {
            (ScanState::Payload, payload.push(byte), None)
        } else {
            (ScanState::Ground, Seq::empty(), None)
        },
        ScanState::PayloadEsc => if byte == 0x5c {
            (ScanState::Ground, Seq::empty(), Some(payload))
        } else if byte == 0x5d {
            (ScanState::OscOpen, Seq::empty(), None)
        } else {
            (reset_or_esc_state(byte), Seq::empty(), None)
        },
    }
}

/// The bytes through the recognizer, one after the other: the final state,
/// the final payload buffer, and every payload dispatched, in order.
pub open spec fn run(state: ScanState, payload: Seq<u8>, bytes: Seq<u8>) -> (
    ScanState,
    Seq<u8>,
    Seq<Seq<u8>>,
)
    decreases bytes.len(),
{
    if bytes.len() == 0 {
        (state, payload, Seq::empty())
    } else {
        let prev = run(state, payload, bytes.drop_last());
        let next = step(prev.0, prev.1, bytes.last());
        (
            next.0,
            next.1,
            match next.2 {
                Some(p) => prev.2.push(p),
                None => prev.2,
            },
        )
    }
}

/// The marks after the dispatched payloads reach a terminal whose cursor
/// is at `cursor`: each payload that is valid UTF-8 and names a mark adds
/// that mark at the cursor, unless the alternate screen is active.
pub open spec fn marks_after(
    marks: Seq<SemanticMark>,
    cursor: Point,
    alt: bool,
    payloads: Seq<Seq<u8>>,
) -> Seq<SemanticMark>
    decreases payloads.len(),
{
    if payloads.len() == 0 {
        marks
    } else {
        let prev = marks_after(marks, cursor, alt, payloads.drop_last());
        let p = payloads.last();
        if !alt && valid_utf8(p) {
            match mark_type_for(decode_utf8(p)) {
                Some(t) => prev.push(SemanticMark { point: cursor, mark_type: t }),
                None => prev,
            }
        } else {
            prev
        }
    }
}

/// `std::str::from_utf8`: `Some` exactly when `bytes` are valid UTF-8, and
/// then the string whose UTF-8 encoding is `bytes`.
#[verifier::external_body]
fn str_from_utf8(bytes: &[u8]) -> (r: Option<&str>)
    ensures
        r is Some <==> valid_utf8(bytes@),
        r matches Some(s) ==> s.spec_bytes() == bytes@,
{
    match std::str::from_utf8(bytes) {
        Ok(s) => Some(s),
        Err(_) => None,
    }
}

/// State machine for detecting OSC 133 sequences in a raw byte stream.
///
/// Recognizes both BEL-terminated (`ESC ] 133 ; <payload> BEL`) and
/// ST-terminated (`ESC ] 133 ; <payload> ESC \`) forms.
pub struct Osc133Scanner {
    state: ScanState,
    payload: Vec<u8>,
}

impl Osc133Scanner {
    /// The recognizer's state.
    pub closed spec fn scan_state(&self) -> ScanState {
        self.state
    }

    /// The payload bytes buffered so far.
    pub closed spec fn buffered(&self) -> Seq<u8> {
        self.payload@
    }

    /// A scanner in the ground state with nothing buffered.
    pub fn new() -> (r: Osc133Scanner)
        ensures
            r.scan_state() == ScanState::Ground,
            r.buffered() == Seq::<u8>::empty(),
    {
        Osc133Scanner { state: ScanState::Ground, payload: Vec::with_capacity(32) }
    }

    /// Feed raw PTY bytes through the scanner.
    ///
    /// Every complete `ESC ] 133 ; <payload> ST` found reaches
    /// `terminal.handle_osc_133` with the payload string, in order; the
    /// scanner keeps its place between calls, so a sequence may be split
    /// across reads.
    pub fn advance(&mut self, terminal: &mut Term, bytes: &[u8])
        requires
            old(terminal).wf(),
        ensures
            ({
                let r = run(old(self).scan_state(), old(self).buffered(), bytes@);
                &&& final(self).scan_state() == r.0
                &&& final(self).buffered() == r.1
                &&& final(terminal).same_screen(old(terminal))
                &&& final(terminal).marks() == marks_after(
                    old(terminal).marks(),
                    old(terminal).cursor(),
                    old(terminal).is_alt(),
                    r.2,
                )
            }),
            old(terminal).marks_on_grid() ==> final(terminal).marks_on_grid(),
    {
        let n = bytes.len();
        let mut i: usize = 0;
        while i < n
            invariant
                n == bytes@.len(),
                i <= n,
                terminal.wf(),
                terminal.same_screen(old(terminal)),
                old(terminal).marks_on_grid() ==> terminal.marks_on_grid(),
                ({
                    let r = run(old(self).scan_state(), old(self).buffered(), bytes@.subrange(0, i as int));
                    &&& self.state == r.0
                    &&& self.payload@ == r.1
                    &&& terminal.marks() == marks_after(
                        old(terminal).marks(),
                        old(terminal).cursor(),
                        old(terminal).is_alt(),
                        r.2,
                    )
                }),
            decreases n - i,
        {
            let byte = bytes[i];
            let ghost prefix = bytes@.subrange(0, i + 1);
            assert(prefix.drop_last() =~= bytes@.subrange(0, i as int));
            let ghost r0 = run(old(self).scan_state(), old(self).buffered(), bytes@.subrange(0, i as int));
            let ghost nx = step(r0.0, r0.1, byte);
            assert(prefix.last() == byte);
            self.state = match self.state {
                ScanState::Ground => {
                    if byte == 0x1b {
                        ScanState::Esc
                    } else {
                        ScanState::Ground
                    }
                },
                ScanState::Esc => {
                    if byte == 0x5d {
                        ScanState::OscOpen
                    } else {
                        // Not an OSC; another ESC starts a new sequence.
                        self.reset_or_esc(byte)
                    }
                },
                ScanState::OscOpen => {
                    if byte == 0x31 {
                        ScanState::Osc1
                    } else {
                        // Some other OSC (title, colour, clipboard, …).
                        self.reset_or_esc(byte)
                    }
                },
                ScanState::Osc1 => {
                    if byte == 0x33 {
                        ScanState::Osc13
                    } else {
                        self.reset_or_esc(byte)
                    }
                },
                ScanState::Osc13 => {
                    if byte == 0x33 {
                        ScanState::Osc133
                    } else {
                        self.reset_or_esc(byte)
                    }
                },
                ScanState::Osc133 => {
                    if byte == 0x3b {
                        self.payload.clear();
                        ScanState::Payload
                    } else {
                        // `ESC ] 133` followed by something other than `;`,
                        // e.g. `ESC ] 1337`. Ignore.
                        self.reset_or_esc(byte)
                    }
                },
                ScanState::Payload => {
                    if byte == 0x07 {
                        // BEL terminator.
                        self.dispatch(terminal);
                        ScanState::Ground
                    } else if byte == 0x1b {
                        // Possible start of ST (`ESC \`).
                        ScanState::PayloadEsc
                    } else if self.payload.len() < MAX_PAYLOAD_LEN {
                        self.payload.push(byte);
                        ScanState::Payload
                    } else {
                        // Payload too long — not a valid OSC 133. Bail out.
                        self.payload.clear();
                        ScanState::Ground
                    }
                },
                ScanState::PayloadEsc => {
                    if byte == 0x5c {
                        // ST terminator (`ESC \`).
                        self.dispatch(terminal);
                        ScanState::Ground
                    } else {
                        // The ESC was not part of an ST: drop the payload. The
                        // byte might be `]` opening a new OSC, or another ESC.
                        self.payload.clear();
                        if byte == 0x5d {
                            ScanState::OscOpen
                        } else {
                            self.reset_or_esc(byte)
                        }
                    }
                },
            };
            proof {
                if let Some(p) = nx.2 {
                    assert(r0.2.push(p).drop_last() =~= r0.2);
                }
            }
            assert(self.state == nx.0);
            assert(self.payload@ == nx.1);
            assert(terminal.marks() == marks_after(
                old(terminal).marks(),
                old(terminal).cursor(),
                old(terminal).is_alt(),
                match nx.2 {
                    Some(p) => r0.2.push(p),
                    None => r0.2,
                },
            ));
            i = i + 1;
        }
        assert(bytes@.subrange(0, n as int) =~= bytes@);
    }

    /// Dispatch the collected payload to the terminal and clear it.
    fn dispatch(&mut self, terminal: &mut Term)
        requires
            old(terminal).wf(),
        ensures
            final(self).state == old(self).state,
            final(self).payload@ == Seq::<u8>::empty(),
            final(terminal).same_screen(old(terminal)),
            old(terminal).marks_on_grid() ==> final(terminal).marks_on_grid(),
            final(terminal).marks() == if !old(terminal).is_alt() && valid_utf8(old(self).payload@) {
                match mark_type_for(decode_utf8(old(self).payload@)) {
                    Some(t) => old(terminal).marks().push(
                        SemanticMark { point: old(terminal).cursor(), mark_type: t },
                    ),
                    None => old(terminal).marks(),
                }
            } else {
                old(terminal).marks()
            },
    {
        match str_from_utf8(self.payload.as_slice()) {
            Some(payload) => {
                proof {
                    encode_utf8_decode_utf8(payload@);
                }
                terminal.handle_osc_133(payload);
            },
            None => {},
        }
        self.payload.clear();
    }

    /// If the unexpected byte is ESC, go to the Esc state so that a new
    /// `ESC ]` right behind it is not missed; otherwise back to Ground.
    fn reset_or_esc(&self, byte: u8) -> (r: ScanState)
        ensures
            r == reset_or_esc_state(byte),
    {
        if byte == 0x1b {
            ScanState::Esc
        } else {
            ScanState::Ground
        }
    }
}

impl Default for Osc133Scanner {
    fn default() -> (r: Self)
        ensures
            r.scan_state() == ScanState::Ground,
            r.buffered() == Seq::<u8>::empty(),
    {
        Self::new()
    }
}


/// Feeding `a` and then `b` through the scanner is the same as feeding
/// `a + b` at once: the same final state and buffer, and the payloads of
/// both parts dispatched in order.
pub proof fn lemma_run_split(state: ScanState, payload: Seq<u8>, a: Seq<u8>, b: Seq<u8>)
    ensures
        ({
            let ra = run(state, payload, a);
            let rb = run(ra.0, ra.1, b);
            run(state, payload, a + b) == (rb.0, rb.1, ra.2 + rb.2)
        }),
    decreases b.len(),
{
    let ra = run(state, payload, a);
    if b.len() == 0 {
        assert(a + b =~= a);
        assert(ra.2 + Seq::<Seq<u8>>::empty() =~= ra.2);
    } else {
        lemma_run_split(state, payload, a, b.drop_last());
        assert((a + b).drop_last() =~= a + b.drop_last());
        assert((a + b).last() == b.last());
        let rb1 = run(ra.0, ra.1, b.drop_last());
        let nx = step(rb1.0, rb1.1, b.last());
        match nx.2 {
            Some(p) => {
                assert(ra.2 + rb1.2.push(p) =~= (ra.2 + rb1.2).push(p));
            },
            None => {},
        }
    }
}

/// Dispatching payloads in two batches gives the same marks as
/// dispatching them all at once.
pub proof fn lemma_marks_after_split(
    marks: Seq<SemanticMark>,
    cursor: Point,
    alt: bool,
    first: Seq<Seq<u8>>,
    second: Seq<Seq<u8>>,
)
    ensures
        marks_after(marks, cursor, alt, first + second) == marks_after(
            marks_after(marks, cursor, alt, first),
            cursor,
            alt,
            second,
        ),
    decreases second.len(),
{
    if second.len() == 0 {
        assert(first + second =~= first);
    } else {
        lemma_marks_after_split(marks, cursor, alt, first, second.drop_last());
        assert((first + second).drop_last() =~= first + second.drop_last());
        assert((first + second).last() == second.last());
    }
}

/// The scanner never buffers more than `MAX_PAYLOAD_LEN` bytes, and every
/// payload it dispatches is at most that long.
pub proof fn lemma_run_bounded(state: ScanState, payload: Seq<u8>, bytes: Seq<u8>)
    requires
        payload.len() <= MAX_PAYLOAD_LEN,
    ensures
        run(state, payload, bytes).1.len() <= MAX_PAYLOAD_LEN,
        forall|i: int|
            0 <= i < run(state, payload, bytes).2.len() ==> (#[trigger] run(
                state,
                payload,
                bytes,
            ).2[i]).len() <= MAX_PAYLOAD_LEN,
    decreases bytes.len(),
{
    if bytes.len() > 0 {
        lemma_run_bounded(state, payload, bytes.drop_last());
    }
}

/// The bytes of a complete OSC 133 sequence with `payload`:
/// `ESC ] 1 3 3 ;`, the payload, then the terminator.
pub open spec fn osc133_sequence(payload: Seq<u8>, terminator: Seq<u8>) -> Seq<u8> {
    seq![0x1bu8, 0x5du8, 0x31u8, 0x33u8, 0x33u8, 0x3bu8] + payload + terminator
}

/// Inside a payload, bytes that are neither BEL nor ESC are buffered.
proof fn lemma_payload_bytes(payload: Seq<u8>, start: Seq<u8>)
    requires
        forall|i: int| 0 <= i < payload.len() ==> #[trigger] payload[i] != 0x07 && payload[i] != 0x1b,
        start.len() + payload.len() <= MAX_PAYLOAD_LEN,
    ensures
        run(ScanState::Payload, start, payload) == (ScanState::Payload, start + payload, Seq::<Seq<u8>>::empty()),
    decreases payload.len(),
{
    if payload.len() == 0 {
        assert(start + payload =~= start);
    } else {
        lemma_payload_bytes(payload.drop_last(), start);
        assert(start + payload.drop_last() + seq![payload.last()] =~= start + payload);
        assert(payload.last() == payload[payload.len() - 1]);
    }
}

/// A complete OSC 133 sequence, ended by BEL or by `ESC \`, read from the
/// ground state dispatches exactly its payload and leaves the scanner in
/// the ground state with nothing buffered — provided the payload holds no
/// BEL or ESC and is no longer than `MAX_PAYLOAD_LEN`.
pub proof fn lemma_sequence_dispatches(payload: Seq<u8>, st_terminated: bool)
    requires
        forall|i: int| 0 <= i < payload.len() ==> #[trigger] payload[i] != 0x07 && payload[i] != 0x1b,
        payload.len() <= MAX_PAYLOAD_LEN,
    ensures
        run(
            ScanState::Ground,
            Seq::empty(),
            osc133_sequence(payload, if st_terminated { seq![0x1bu8, 0x5cu8] } else { seq![0x07u8] }),
        ) == (ScanState::Ground, Seq::<u8>::empty(), seq![payload]),
{
    let head: Seq<u8> = seq![0x1bu8, 0x5du8, 0x31u8, 0x33u8, 0x33u8, 0x3bu8];
    let term: Seq<u8> = if st_terminated { seq![0x1bu8, 0x5cu8] } else { seq![0x07u8] };
    let empty = Seq::<u8>::empty();
    reveal_with_fuel(run, 7);
    assert(head.drop_last().drop_last().drop_last().drop_last().drop_last().drop_last() =~= Seq::<u8>::empty());
    assert(run(ScanState::Ground, empty, head) == (ScanState::Payload, empty, Seq::<Seq<u8>>::empty()));
    lemma_payload_bytes(payload, empty);
    lemma_run_split(ScanState::Ground, empty, head, payload);
    assert(empty + payload =~= payload);
    let after = run(ScanState::Ground, empty, head + payload);
    assert(after == (ScanState::Payload, payload, Seq::<Seq<u8>>::empty()));
    lemma_run_split(ScanState::Ground, empty, head + payload, term);
    reveal_with_fuel(run, 3);
    if st_terminated {
        assert(term.drop_last() =~= seq![0x1bu8]);
        assert(term.drop_last().drop_last() =~= Seq::<u8>::empty());
    } else {
        assert(term.drop_last() =~= Seq::<u8>::empty());
    }
    assert(Seq::<Seq<u8>>::empty() + seq![payload] =~= seq![payload]);
    assert(head + payload + term =~= osc133_sequence(payload, term));
}

} // verus!

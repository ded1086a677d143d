//! Frame buffers that an extension publishes frames into, and the registry
//! that hands out their ids.
//!
//! A buffer keeps the latest frame and a generation counter that moves on
//! with every published frame, so a viewer can tell a new frame from the
//! one it already shows. Sharing a buffer or the registry between threads
//! is the caller's business (a lock around the value); what is decided here
//! is what each operation does to the state.

use vstd::prelude::*;
use std::collections::HashMap;
use vstd::std_specs::iter::IteratorSpec;
use crate::text::{decimal, decimal_string_u64};

verus! {

broadcast use vstd::std_specs::hash::group_hash_axioms;

/// The id of a frame buffer within its registry.
#[derive(Debug, Clone, Copy, PartialEq, Eq, Hash, Structural)]
pub struct FrameBufferId(pub u64);

/// `n + 1`, wrapping to 0 after `u64::MAX`, as an atomic counter's
/// `fetch_add(1)` moves on.
pub open spec fn next_count(n: u64) -> u64 {
    if n == u64::MAX {
        0
    } else {
        (n + 1) as u64
    }
}

/// A frame buffer of fixed size holding the latest frame published into it.
pub struct SharedFrameBuffer<F> {
    pub id: FrameBufferId,
    pub width: u32,
    pub height: u32,
    current_frame: Option<F>,
    generation: u64,
}

impl<F> SharedFrameBuffer<F> {
    /// The buffer's id.
    pub closed spec fn buffer_id(&self) -> FrameBufferId {
        self.id
    }

    /// The buffer's width.
    pub closed spec fn buffer_width(&self) -> u32 {
        self.width
    }

    /// The buffer's height.
    pub closed spec fn buffer_height(&self) -> u32 {
        self.height
    }

    /// The frame last published, if any.
    pub closed spec fn frame(&self) -> Option<F> {
        self.current_frame
    }

    /// How many frames have been published (wrapping).
    pub closed spec fn frame_count(&self) -> u64 {
        self.generation
    }

    /// An empty buffer: no frame yet, generation 0.
    pub fn new(id: FrameBufferId, width: u32, height: u32) -> (r: Self)
        ensures
            r.buffer_id() == id,
            r.buffer_width() == width,
            r.buffer_height() == height,
            r.frame() is None,
            r.frame_count() == 0,
    {
        SharedFrameBuffer { id, width, height, current_frame: None, generation: 0 }
    }

    /// Publishes a new frame: it replaces the current one and the
    /// generation moves on by one.
    pub fn set_frame(&mut self, frame: F)
        ensures
            final(self).buffer_id() == old(self).buffer_id(),
            final(self).buffer_width() == old(self).buffer_width(),
            final(self).buffer_height() == old(self).buffer_height(),
            final(self).frame() == Some(frame),
            final(self).frame_count() == next_count(old(self).frame_count()),
    {
        self.current_frame = Some(frame);
        self.generation = self.generation.wrapping_add(1);
    }

    /// The latest frame, if one has been published.
    pub fn current_frame(&self) -> (r: Option<F>) where F: Clone
        ensures
            r is Some <==> self.frame() is Some,
            r is Some ==> cloned(self.frame()->0, r->0),
    {
        self.current_frame.clone()
    }

    /// The generation: how many frames have been published so far
    /// (wrapping), so that a viewer can poll for a new one.
    pub fn generation(&self) -> (r: u64)
        ensures
            r == self.frame_count(),
    {
        self.generation
    }
}

/// The frame buffers that exist, by id, and the id the next one gets.
pub struct FrameBufferRegistry<F> {
    buffers: HashMap<u64, SharedFrameBuffer<F>>,
    next_id: u64,
}

impl<F> FrameBufferRegistry<F> {
    /// The buffers by their id's number.
    pub closed spec fn buffer_map(&self) -> Map<u64, SharedFrameBuffer<F>> {
        self.buffers@
    }

    /// The id that the next buffer created gets.
    pub closed spec fn next_raw_id(&self) -> u64 {
        self.next_id
    }

    /// Each buffer is filed under its own id.
    pub open spec fn wf(&self) -> bool {
        forall|k: u64| #[trigger] self.buffer_map().contains_key(k) ==> self.buffer_map()[k].buffer_id()
            == FrameBufferId(k)
    }

    /// An empty registry whose first id is 1.
    pub fn new() -> (r: Self)
        ensures
            r.wf(),
            r.buffer_map() == Map::<u64, SharedFrameBuffer<F>>::empty(),
            r.next_raw_id() == 1,
    {
        FrameBufferRegistry { buffers: HashMap::new(), next_id: 1 }
    }

    /// Creates an empty buffer of the given size under the next id, and
    /// returns that id; the next id moves on by one (wrapping).
    pub fn create(&mut self, width: u32, height: u32) -> (id: FrameBufferId)
        requires
            old(self).wf(),
        ensures
            final(self).wf(),
            id == FrameBufferId(old(self).next_raw_id()),
            final(self).next_raw_id() == next_count(old(self).next_raw_id()),
            final(self).buffer_map().dom() == old(self).buffer_map().dom().insert(id.0),
            forall|k: u64| k != id.0 && #[trigger] old(self).buffer_map().contains_key(k)
                ==> final(self).buffer_map()[k] == old(self).buffer_map()[k],
            ({
                let b = final(self).buffer_map()[id.0];
                &&& b.buffer_id() == id
                &&& b.buffer_width() == width
                &&& b.buffer_height() == height
                &&& b.frame() is None
                &&& b.frame_count() == 0
            }),
    {
        let id = FrameBufferId(self.next_id);
        self.next_id = self.next_id.wrapping_add(1);
        let buffer = SharedFrameBuffer::new(id, width, height);
        self.buffers.insert(id.0, buffer);
        proof {
            assert forall|k: u64| #[trigger] self.buffer_map().contains_key(k) implies self.buffer_map()[
                k
            ].buffer_id() == FrameBufferId(k) by {
                if k != id.0 {
                    assert(old(self).buffer_map().contains_key(k));
                }
            }
        }
        id
    }

    /// The buffer with this id, if it exists.
    pub fn get(&self, id: FrameBufferId) -> (r: Option<&SharedFrameBuffer<F>>)
        ensures
            match r {
                Some(b) => self.buffer_map().contains_key(id.0) && *b == self.buffer_map()[id.0],
                None => !self.buffer_map().contains_key(id.0),
            },
    {
        self.buffers.get(&id.0)
    }

    /// Publishes a frame into the buffer with this id; false when there is
    /// no such buffer, and then nothing changes.
    pub fn set_frame(&mut self, id: FrameBufferId, frame: F) -> (found: bool)
        requires
            old(self).wf(),
        ensures
            final(self).wf(),
            found == old(self).buffer_map().contains_key(id.0),
            final(self).next_raw_id() == old(self).next_raw_id(),
            final(self).buffer_map().dom() == old(self).buffer_map().dom(),
            forall|k: u64| k != id.0 && #[trigger] old(self).buffer_map().contains_key(k)
                ==> final(self).buffer_map()[k] == old(self).buffer_map()[k],
            found ==> ({
                let before = old(self).buffer_map()[id.0];
                let after = final(self).buffer_map()[id.0];
                &&& after.buffer_id() == before.buffer_id()
                &&& after.buffer_width() == before.buffer_width()
                &&& after.buffer_height() == before.buffer_height()
                &&& after.frame() == Some(frame)
                &&& after.frame_count() == next_count(before.frame_count())
            }),
    {
        match self.buffers.remove(&id.0) {
            Some(mut buffer) => {
                buffer.set_frame(frame);
                self.buffers.insert(id.0, buffer);
                proof {
                    assert(self.buffers@.dom() =~= old(self).buffers@.dom());
                }
                true
            },
            None => false,
        }
    }

    /// Takes the buffer with this id out of the registry.
    pub fn remove(&mut self, id: FrameBufferId) -> (r: Option<SharedFrameBuffer<F>>)
        requires
            old(self).wf(),
        ensures
            final(self).wf(),
            final(self).buffer_map() == old(self).buffer_map().remove(id.0),
            final(self).next_raw_id() == old(self).next_raw_id(),
            match r {
                Some(b) => old(self).buffer_map().contains_key(id.0) && b == old(
                    self,
                ).buffer_map()[id.0],
                None => !old(self).buffer_map().contains_key(id.0),
            },
    {
        self.buffers.remove(&id.0)
    }

    /// The ids of all buffers, each once, in no particular order.
    pub fn list(&self) -> (r: Vec<FrameBufferId>)
        ensures
            r@.len() == self.buffer_map().dom().len(),
            forall|i: int| 0 <= i < r@.len() ==> self.buffer_map().contains_key(#[trigger] r@[i].0),
            forall|k: u64| #[trigger] self.buffer_map().contains_key(k) ==> exists|i: int|
                0 <= i < r@.len() && #[trigger] r@[i] == FrameBufferId(k),
            forall|i: int, j: int| 0 <= i < j < r@.len() ==> #[trigger] r@[i] != #[trigger] r@[j],
    {
        let mut out: Vec<FrameBufferId> = Vec::new();
        let ghost keys = self.buffers.keys().remaining().unref();
        for k in it: self.buffers.keys()
            invariant
                keys == it.seq().unref(),
                keys.to_set() == self.buffers@.dom(),
                keys.no_duplicates(),
                keys.len() == self.buffers@.dom().len(),
                out@.len() == it.index(),
                forall|i: int| 0 <= i < it.index() ==> #[trigger] out@[i] == FrameBufferId(keys[i]),
        {
            out.push(FrameBufferId(*k));
        }
        proof {
            assert forall|i: int| 0 <= i < out@.len() implies self.buffer_map().contains_key(
                #[trigger] out@[i].0,
            ) by {
                assert(keys.to_set().contains(keys[i]));
            }
            assert forall|k: u64| #[trigger] self.buffer_map().contains_key(k) implies exists|i: int|
                0 <= i < out@.len() && #[trigger] out@[i] == FrameBufferId(k) by {
                assert(keys.to_set().contains(k));
                let i = keys.index_of(k);
                assert(out@[i] == FrameBufferId(k));
            }
            assert forall|i: int, j: int| 0 <= i < j < out@.len() implies #[trigger] out@[i]
                != #[trigger] out@[j] by {
                assert(keys[i] != keys[j]);
            }
        }
        out
    }
}

/// Publishing a frame is never missed: a viewer that was up to date with
/// a buffer before `set_frame` sees a different generation afterwards,
/// so its next `poll` redraws.
pub proof fn lemma_publish_is_seen<F: Clone>(
    view: FrameViewState<F>,
    before: SharedFrameBuffer<F>,
    after: SharedFrameBuffer<F>,
)
    requires
        view.seen_generation() == before.frame_count(),
        after.frame_count() == next_count(before.frame_count()),
    ensures
        view.seen_generation() != after.frame_count(),
{
}

/// What a viewer of one frame buffer shows: the frame it took at the
/// generation it last saw.
pub struct FrameViewState<F> {
    last_generation: u64,
    current_image: Option<F>,
}

impl<F: Clone> FrameViewState<F> {
    /// The generation the viewer last took a frame at.
    pub closed spec fn seen_generation(&self) -> u64 {
        self.last_generation
    }

    /// The frame the viewer shows, if any.
    pub closed spec fn shown(&self) -> Option<F> {
        self.current_image
    }

    /// A viewer that starts from the buffer's current frame and generation.
    pub fn new(buffer: &SharedFrameBuffer<F>) -> (r: Self)
        ensures
            r.seen_generation() == buffer.frame_count(),
            r.shown() is Some <==> buffer.frame() is Some,
            r.shown() is Some ==> cloned(buffer.frame()->0, r.shown()->0),
    {
        FrameViewState { last_generation: buffer.generation(), current_image: buffer.current_frame() }
    }

    /// One poll of the buffer: when its generation differs from the one
    /// last seen, take its current frame and that generation and answer
    /// true (the view must be redrawn); otherwise change nothing.
    pub fn poll(&mut self, buffer: &SharedFrameBuffer<F>) -> (redraw: bool)
        ensures
            redraw == (old(self).seen_generation() != buffer.frame_count()),
            redraw ==> final(self).seen_generation() == buffer.frame_count(),
            redraw ==> (final(self).shown() is Some <==> buffer.frame() is Some),
            redraw ==> (final(self).shown() is Some ==> cloned(
                buffer.frame()->0,
                final(self).shown()->0,
            )),
            !redraw ==> final(self).seen_generation() == old(self).seen_generation(),
            !redraw ==> final(self).shown() == old(self).shown(),
    {
        let generation = buffer.generation();
        if generation != self.last_generation {
            self.last_generation = generation;
            self.current_image = buffer.current_frame();
            true
        } else {
            false
        }
    }

    /// The frame the viewer shows.
    pub fn current_image(&self) -> (r: Option<&F>)
        ensures
            r is Some <==> self.shown() is Some,
            r is Some ==> *(r->0) == self.shown()->0,
    {
        self.current_image.as_ref()
    }
}

/// The title of a viewer's tab: "Frame Buffer" and the buffer's number.
pub fn frame_buffer_title(id: FrameBufferId) -> (r: String)
    ensures
        r@ == "Frame Buffer "@ + decimal(id.0 as nat),
{
    let mut out = String::new();
    out.push_str("Frame Buffer ");
    let number = decimal_string_u64(id.0);
    out.push_str(number.as_str());
    out
}

/// The viewer's status line: the buffer's size and the zoom in percent.
pub fn frame_status_text(width: u32, height: u32, zoom_percent: u32) -> (r: String)
    ensures
        r@ == decimal(width as nat) + "\u{d7}"@ + decimal(height as nat) + "  \u{b7}  "@ + decimal(
            zoom_percent as nat,
        ) + "%"@,
{
    let mut out = decimal_string_u64(width as u64);
    out.push_str("\u{d7}");
    let h = decimal_string_u64(height as u64);
    out.push_str(h.as_str());
    out.push_str("  \u{b7}  ");
    let z = decimal_string_u64(zoom_percent as u64);
    out.push_str(z.as_str());
    out.push_str("%");
    out
}

} // verus!

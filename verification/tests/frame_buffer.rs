use std::sync::Arc;
use zed_shell_marks::frame_buffer::{
    frame_buffer_title, frame_status_text, FrameBufferId, FrameBufferRegistry, FrameViewState,
    SharedFrameBuffer,
};

#[test]
fn buffer_starts_empty() {
    let b: SharedFrameBuffer<Arc<Vec<u8>>> = SharedFrameBuffer::new(FrameBufferId(7), 640, 480);
    assert_eq!(b.id, FrameBufferId(7));
    assert_eq!(b.width, 640);
    assert_eq!(b.height, 480);
    assert!(b.current_frame().is_none());
    assert_eq!(b.generation(), 0);
}

#[test]
fn set_frame_publishes_and_counts() {
    let mut b = SharedFrameBuffer::new(FrameBufferId(1), 2, 2);
    b.set_frame(Arc::new(vec![1u8, 2, 3]));
    assert_eq!(b.generation(), 1);
    assert_eq!(b.current_frame().as_deref(), Some(&vec![1u8, 2, 3]));
    b.set_frame(Arc::new(vec![9u8]));
    assert_eq!(b.generation(), 2);
    assert_eq!(b.current_frame().as_deref(), Some(&vec![9u8]));
}

#[test]
fn registry_hands_out_ids_from_one() {
    let mut r: FrameBufferRegistry<Arc<Vec<u8>>> = FrameBufferRegistry::new();
    let a = r.create(10, 20);
    let b = r.create(30, 40);
    assert_eq!(a, FrameBufferId(1));
    assert_eq!(b, FrameBufferId(2));
    let got = r.get(a).expect("buffer a");
    assert_eq!(got.id, a);
    assert_eq!((got.width, got.height), (10, 20));
    let mut ids = r.list();
    ids.sort_by_key(|id| id.0);
    assert_eq!(ids, vec![FrameBufferId(1), FrameBufferId(2)]);
}

#[test]
fn registry_set_frame_and_remove() {
    let mut r: FrameBufferRegistry<Arc<Vec<u8>>> = FrameBufferRegistry::new();
    let a = r.create(1, 1);
    assert!(r.set_frame(a, Arc::new(vec![5u8])));
    assert!(!r.set_frame(FrameBufferId(99), Arc::new(vec![6u8])));
    let got = r.get(a).expect("buffer");
    assert_eq!(got.generation(), 1);
    assert_eq!(got.current_frame().as_deref(), Some(&vec![5u8]));
    let removed = r.remove(a).expect("removed");
    assert_eq!(removed.id, a);
    assert!(r.get(a).is_none());
    assert!(r.remove(a).is_none());
    assert!(r.list().is_empty());
    // Ids are not reused after a removal.
    assert_eq!(r.create(1, 1), FrameBufferId(2));
}

#[test]
fn viewer_polls_for_new_frames() {
    let mut b = SharedFrameBuffer::new(FrameBufferId(4), 8, 8);
    let mut view = FrameViewState::new(&b);
    assert!(view.current_image().is_none());
    assert!(!view.poll(&b));
    b.set_frame(Arc::new(vec![1u8]));
    assert!(view.poll(&b));
    assert_eq!(view.current_image().map(|f| f.as_slice()), Some(&[1u8][..]));
    assert!(!view.poll(&b));
}

#[test]
fn viewer_texts() {
    assert_eq!(frame_buffer_title(FrameBufferId(12)), "Frame Buffer 12");
    assert_eq!(frame_status_text(640, 480, 150), "640\u{d7}480  \u{b7}  150%");
}

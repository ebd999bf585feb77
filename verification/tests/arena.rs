//! Frames cut from shared chunks.

use bytes::BufMut;
use nats_server_rs::arena::{Arena, CHUNK};

#[test]
fn frames_share_a_chunk_until_it_is_full() {
    let mut a = Arena::new();
    a.tail(8).put_slice(b"aaaa");
    let first = a.seal();
    a.tail(8).put_slice(b"bbbb");
    let second = a.seal();
    assert_eq!(&first[..], b"aaaa");
    assert_eq!(&second[..], b"bbbb");
    // Same allocation: the two views differ only by their offset into it.
    assert_eq!(
        (first.as_ptr() as usize).wrapping_sub(second.as_ptr() as usize),
        -4isize as usize,
        "consecutive frames should come from one chunk"
    );
}

#[test]
fn an_oversized_frame_takes_its_own_buffer() {
    let mut a = Arena::new();
    let big = vec![b'x'; CHUNK * 3];
    a.tail(big.len()).put_slice(&big);
    let frame = a.seal();
    assert_eq!(frame.len(), big.len());
    // And the cursor moved on: the next frame is a fresh allocation.
    a.tail(4).put_slice(b"yyyy");
    let next = a.seal();
    assert_eq!(&next[..], b"yyyy");
    assert_ne!(
        frame.as_ptr() as usize - frame.len(),
        next.as_ptr() as usize - 4,
        "a dedicated buffer must not be reused as a chunk"
    );
}

#[test]
fn a_view_keeps_the_chunk_alive() {
    let mut a = Arena::new();
    a.tail(4).put_slice(b"abcd");
    let view = a.seal();
    // Hand the rest of the chunk out, then drop our handle on it: the view
    // must still read back what was written into it.
    a.tail(CHUNK).put_slice(b"zz");
    a.seal();
    assert_eq!(&view[..], b"abcd");
}

#[test]
fn what_is_not_sealed_is_handed_over_with_what_follows() {
    let mut a = Arena::new();
    a.tail(2).put_slice(b"ab");
    a.tail(CHUNK).put_slice(b"c");
    assert_eq!(&a.seal()[..], b"abc");
    a.tail(1).put_slice(b"d");
    assert_eq!(&a.seal()[..], b"d", "and nothing twice");
}

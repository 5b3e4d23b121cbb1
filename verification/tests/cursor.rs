//! Draining a growing buffer.

use snemu::cursor::Cursor;

#[test]
fn a_fresh_cursor_drains_everything() {
    let mut c = Cursor::new();
    assert_eq!(c.drain(b"hello"), b"hello");
}

#[test]
fn draining_an_unchanged_buffer_again_yields_nothing() {
    let mut c = Cursor::new();
    c.drain(b"hello");
    assert_eq!(c.drain(b"hello"), b"");
}

#[test]
fn a_drain_after_an_append_yields_only_the_new_bytes() {
    let mut c = Cursor::new();
    c.drain(b"hello");
    assert_eq!(c.drain(b"hello world"), b" world");
}

#[test]
fn the_drains_concatenated_reproduce_the_buffer_exactly() {
    let whole = b"the quick brown fox jumps over the lazy dog";
    let mut c = Cursor::new();
    let mut seen = Vec::new();
    for len in [0, 1, 2, 2, 7, 20, 21, 41, whole.len()] {
        seen.extend_from_slice(c.drain(&whole[..len]));
    }
    assert_eq!(seen, whole);
}

#[test]
fn draining_an_empty_buffer_yields_nothing() {
    let mut c = Cursor::new();
    assert_eq!(c.drain(b""), b"");
}

#[test]
fn a_buffer_that_shrank_yields_nothing_and_resyncs() {
    let mut c = Cursor::new();
    c.drain(b"output from the previous machine");
    assert_eq!(c.drain(b""), b"", "a replaced machine has produced nothing yet");
    assert_eq!(c.drain(b"new"), b"new", "and the cursor tracks the new buffer from 0");
}

#[test]
fn it_carries_arbitrary_bytes_not_just_text() {
    let mut c = Cursor::new();
    c.drain(&[0x00, 0xff]);
    assert_eq!(c.drain(&[0x00, 0xff, 0x80, 0x0a]), &[0x80, 0x0a]);
}

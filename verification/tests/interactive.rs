//! The terminal on the guest's UART.

use snemu::interactive::{unshown, QUIT_BYTE};

#[test]
fn nothing_new_shows_nothing() {
    assert!(unshown(b"boot log", 8).is_empty());
}

#[test]
fn only_the_bytes_written_since_last_time_are_shown() {
    assert_eq!(unshown(b"stitch> let x =", 8), b"let x =");
}

#[test]
fn an_empty_buffer_shows_nothing() {
    assert!(unshown(b"", 0).is_empty());
}

#[test]
fn a_cursor_past_the_end_shows_nothing_rather_than_panicking() {
    assert!(unshown(b"short", 99).is_empty());
}

#[test]
fn the_quit_key_is_a_second_escape_not_the_only_one() {
    assert_eq!(QUIT_BYTE, 0x1d);
    assert_ne!(QUIT_BYTE, 0x03);
}

use neko::shell::{merge_reads, ShellBuffers, ShellEvent};

#[test]
fn keys_are_reported_and_lines_closed_by_enter() {
    let mut b = ShellBuffers::new();
    assert_eq!(b.record_input(b'l'), ShellEvent::KeyDown(b'l'));
    assert_eq!(b.record_input(b's'), ShellEvent::KeyDown(b's'));
    assert_eq!(b.record_input(10), ShellEvent::KeyDownEnterCommand(b"ls\n".to_vec()));
    assert_eq!(b.record_input(b'x'), ShellEvent::KeyDown(b'x'));
    assert_eq!(b.record_input(13), ShellEvent::KeyDownEnterCommand(b"x\r".to_vec()));
}

#[test]
fn output_is_kept_up_to_capacity() {
    let mut b = ShellBuffers::new();
    assert!(b.record_output_within(b"abc", 10));
    assert!(b.record_output_within(b"def", 10));
    assert_eq!(b.printed_bytes(), b"abcdef".to_vec());
    // 6 kept + 4 new reaches 10: the 4 oldest go first
    assert!(b.record_output_within(b"ghij", 10));
    assert_eq!(b.printed_bytes(), b"efghij".to_vec());
    // 6 kept + 7 new: fewer kept than must go
    assert!(!b.record_output_within(b"klmnopq", 10));
    assert_eq!(b.printed_bytes(), b"efghij".to_vec());
    assert!(b.record_output(b"more"));
    let kept = b.printed_bytes();
    assert!(kept == b"efghijmore".to_vec() || kept == b"ijmore".to_vec());
}

#[test]
fn reads_are_merged() {
    assert_eq!(merge_reads::<Vec<u8>>(None, None), None);
    assert_eq!(merge_reads(None, Some((vec![1u8], 1usize))), Some((None, Some((vec![1u8], 1)))));
    assert_eq!(merge_reads(None, Some((vec![1u8], 0usize))), None);
    assert_eq!(merge_reads::<Vec<u8>>(Some((b'a', 1)), None), Some((Some(b'a'), None)));
    assert_eq!(merge_reads::<Vec<u8>>(Some((b'a', 0)), None), None);
}

#[test]
fn enter_on_a_new_line_reports_just_the_key() {
    let mut b = ShellBuffers::new();
    assert_eq!(b.record_input(13), ShellEvent::KeyDownEnterCommand(b"\r".to_vec()));
    assert_eq!(b.record_input(10), ShellEvent::KeyDownEnterCommand(b"\n".to_vec()));
}

#[test]
fn a_read_keeps_output_then_adds_the_key() {
    let mut b = ShellBuffers::new();
    assert_eq!(b.handle_read(None, Some(&b"$ "[..])), Some(None));
    assert_eq!(b.printed_bytes(), b"$ ".to_vec());
    assert_eq!(b.handle_read(Some(b'a'), None), Some(Some(ShellEvent::KeyDown(b'a'))));
    assert_eq!(b.handle_read(Some(10), Some(&b"x"[..])), Some(Some(ShellEvent::KeyDownEnterCommand(b"a\n".to_vec()))));
    assert_eq!(b.printed_bytes(), b"$ x".to_vec());
    assert_eq!(b.handle_read(None, None), Some(None));
}

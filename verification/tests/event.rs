use neko::event::{
    parse_event, parse_utf8_char, read_utf8_char, try_parse_event, Event, EventError, Key, MouseButton,
    MouseEvent,
};
use neko::stream::ByteStream;

fn parse(bytes: &[u8]) -> (Option<Result<Event, EventError>>, usize) {
    let mut stream = ByteStream::new(bytes[1..].to_vec());
    let r = try_parse_event(bytes[0], &mut stream);
    (r, stream.len())
}

fn key(bytes: &[u8]) -> Key {
    match parse(bytes).0 {
        Some(Ok(Event::Key(k))) => k,
        other => panic!("not a key: {:?}", other),
    }
}

fn mouse(bytes: &[u8]) -> MouseEvent {
    match parse(bytes).0 {
        Some(Ok(Event::Mouse(m))) => m,
        other => panic!("not a mouse event: {:?}", other),
    }
}

#[test]
fn test_parse_utf8() {
    let st = "abcéŷ¤£€ù%323";
    let mut bytes = ByteStream::new(st.as_bytes().to_vec());
    let chars = st.chars();
    for c in chars {
        let b = bytes.next().unwrap();
        assert!(c == parse_utf8_char(b, &mut bytes).unwrap());
    }
}

#[test]
fn utf8_char_reads_only_its_continuation_bytes() {
    let mut bytes = ByteStream::new(vec![0x82, 0xac, b'x']);
    assert_eq!(parse_utf8_char(0xe2, &mut bytes), Ok('€'));
    assert_eq!(bytes.next(), Some(b'x'));
    assert_eq!(bytes.next(), None);
}

#[test]
fn utf8_char_refuses_four_bytes_that_are_not_utf8() {
    let mut bytes = ByteStream::new(vec![b'a', b'b', b'c', b'd']);
    assert_eq!(parse_utf8_char(0x80, &mut bytes), Err(EventError::InvalidUtf8));
    assert_eq!(bytes.len(), 1);
}

#[test]
fn utf8_char_without_enough_bytes_has_no_answer() {
    let mut bytes = ByteStream::new(vec![0xa9]);
    assert_eq!(read_utf8_char(0xe2, &mut bytes), None);
}

#[test]
fn every_char_round_trips() {
    for c in ['a', '~', 'é', 'ŷ', '€', '😀', '\u{7ff}', '\u{800}', '\u{ffff}', '\u{10000}', '\u{10ffff}'] {
        let mut buf = [0u8; 4];
        let enc = c.encode_utf8(&mut buf).as_bytes().to_vec();
        let mut rest = enc[1..].to_vec();
        rest.extend_from_slice(b"tail");
        let mut stream = ByteStream::new(rest);
        assert_eq!(parse_event(enc[0], &mut stream), Ok(Event::Key(Key::Char(c))));
        assert_eq!(stream.len(), 4);
    }
}

#[test]
fn control_bytes() {
    assert_eq!(key(b"\n"), Key::Char('\n'));
    assert_eq!(key(b"\r"), Key::Char('\n'));
    assert_eq!(key(b"\t"), Key::Char('\t'));
    assert_eq!(key(&[0x7f]), Key::Backspace);
    assert_eq!(key(&[0x01]), Key::Ctrl('a'));
    assert_eq!(key(&[0x1a]), Key::Ctrl('z'));
    assert_eq!(key(&[0x1c]), Key::Ctrl('4'));
    assert_eq!(key(&[0x1f]), Key::Ctrl('7'));
    assert_eq!(key(&[0x00]), Key::Null);
    assert_eq!(key(b"q"), Key::Char('q'));
}

#[test]
fn control_bytes_read_nothing_more() {
    assert_eq!(parse(b"\x01abc").1, 3);
}

#[test]
fn escape_sequences_for_keys() {
    assert_eq!(key(b"\x1b[A"), Key::Up);
    assert_eq!(key(b"\x1b[B"), Key::Down);
    assert_eq!(key(b"\x1b[C"), Key::Right);
    assert_eq!(key(b"\x1b[D"), Key::Left);
    assert_eq!(key(b"\x1b[H"), Key::Home);
    assert_eq!(key(b"\x1b[F"), Key::End);
    assert_eq!(key(b"\x1bOP"), Key::F(1));
    assert_eq!(key(b"\x1bOS"), Key::F(4));
    assert_eq!(key(b"\x1ba"), Key::Alt('a'));
    assert_eq!(key("\x1bé".as_bytes()), Key::Alt('é'));
}

#[test]
fn special_key_codes() {
    assert_eq!(key(b"\x1b[1~"), Key::Home);
    assert_eq!(key(b"\x1b[7~"), Key::Home);
    assert_eq!(key(b"\x1b[2~"), Key::Insert);
    assert_eq!(key(b"\x1b[3~"), Key::Delete);
    assert_eq!(key(b"\x1b[4~"), Key::End);
    assert_eq!(key(b"\x1b[8~"), Key::End);
    assert_eq!(key(b"\x1b[5~"), Key::PageUp);
    assert_eq!(key(b"\x1b[6~"), Key::PageDown);
    assert_eq!(key(b"\x1b[11~"), Key::F(1));
    assert_eq!(key(b"\x1b[15~"), Key::F(5));
    assert_eq!(key(b"\x1b[17~"), Key::F(6));
    assert_eq!(key(b"\x1b[21~"), Key::F(10));
    assert_eq!(key(b"\x1b[23~"), Key::F(11));
    assert_eq!(key(b"\x1b[24~"), Key::F(12));
    assert_eq!(parse(b"\x1b[16~").0, Some(Err(EventError::Unparsable)));
    assert_eq!(parse(b"\x1b[99~").0, Some(Err(EventError::Unparsable)));
}

#[test]
fn unknown_sequences_are_refused() {
    assert_eq!(parse(b"\x1b").0, Some(Err(EventError::Unparsable)));
    assert_eq!(parse(b"\x1b[").0, Some(Err(EventError::Unparsable)));
    assert_eq!(parse(b"\x1b[Z").0, Some(Err(EventError::Unparsable)));
    assert_eq!(parse(b"\x1bOZ").0, Some(Err(EventError::Unparsable)));
    assert_eq!(parse(b"\x1bO").0, Some(Err(EventError::Unparsable)));
}

#[test]
fn invalid_utf8_is_refused() {
    assert_eq!(parse(&[0xff, b'a', b'b', b'c']).0, Some(Err(EventError::InvalidUtf8)));
    assert_eq!(parse(&[0x1b, 0xff, b'a', b'b', b'c']).0, Some(Err(EventError::InvalidUtf8)));
}

#[test]
fn x10_mouse_reports() {
    assert_eq!(mouse(&[0x1b, b'[', b'M', 32, 33, 34]), MouseEvent::Press(MouseButton::Left, 1, 2));
    assert_eq!(mouse(&[0x1b, b'[', b'M', 33, 40, 50]), MouseEvent::Press(MouseButton::Wheel, 8, 18));
    assert_eq!(mouse(&[0x1b, b'[', b'M', 34, 40, 50]), MouseEvent::Press(MouseButton::Right, 8, 18));
    assert_eq!(mouse(&[0x1b, b'[', b'M', 35, 40, 50]), MouseEvent::Release(8, 18));
    assert_eq!(mouse(&[0x1b, b'[', b'M', 96, 40, 50]), MouseEvent::Press(MouseButton::WheelUp, 8, 18));
    assert_eq!(mouse(&[0x1b, b'[', b'M', 97, 40, 50]), MouseEvent::Press(MouseButton::WheelDown, 8, 18));
    assert_eq!(mouse(&[0x1b, b'[', b'M', 32, 10, 0]), MouseEvent::Press(MouseButton::Left, 0, 0));
    assert_eq!(mouse(&[0x1b, b'[', b'M', 0, 10, 0]), MouseEvent::Press(MouseButton::WheelUp, 0, 0));
    assert_eq!(mouse(&[0x1b, b'[', b'M', 160, 33, 33]), MouseEvent::Press(MouseButton::Left, 1, 1));
}

#[test]
fn x10_mouse_report_without_an_answer() {
    assert_eq!(parse(&[0x1b, b'[', b'M', 32, 33]).0, None);
    assert_eq!(parse(&[0x1b, b'[', b'M', 140, 33, 33]).0, None);
}

#[test]
fn xterm_mouse_reports() {
    assert_eq!(mouse(b"\x1b[<0;20;10M"), MouseEvent::Press(MouseButton::Left, 20, 10));
    assert_eq!(mouse(b"\x1b[<0;20;10m"), MouseEvent::Release(20, 10));
    assert_eq!(mouse(b"\x1b[<2;1;1M"), MouseEvent::Press(MouseButton::Right, 1, 1));
    assert_eq!(mouse(b"\x1b[<64;3;4M"), MouseEvent::Press(MouseButton::WheelUp, 3, 4));
    assert_eq!(mouse(b"\x1b[<65;3;4M"), MouseEvent::Press(MouseButton::WheelDown, 3, 4));
    assert_eq!(mouse(b"\x1b[<32;5;6M"), MouseEvent::Drag(MouseButton::LeftDrag, 5, 6));
    assert_eq!(mouse(b"\x1b[<32;5;6m"), MouseEvent::Drag(MouseButton::LeftDrag, 5, 6));
    assert_eq!(mouse(b"\x1b[<4;5;6M"), MouseEvent::Press(MouseButton::ShiftLeft, 5, 6));
    assert_eq!(mouse(b"\x1b[<38;5;6M"), MouseEvent::Drag(MouseButton::ShiftRightDrag, 5, 6));
    assert_eq!(mouse(b"\x1b[<17;5;6M"), MouseEvent::Press(MouseButton::CtrlWheel, 5, 6));
    assert_eq!(mouse(b"\x1b[<80;5;6M"), MouseEvent::Press(MouseButton::CtrlWheelUp, 5, 6));
    assert_eq!(mouse(b"\x1b[<81;5;6M"), MouseEvent::Press(MouseButton::CtrlWheelDown, 5, 6));
    assert_eq!(mouse(b"\x1b[<50;5;6M"), MouseEvent::Drag(MouseButton::CtrlRightDrag, 5, 6));
    assert_eq!(mouse(b"\x1b[<22;5;6M"), MouseEvent::Press(MouseButton::ShiftCtrlRight, 5, 6));
    assert_eq!(mouse(b"\x1b[<53;5;6M"), MouseEvent::Drag(MouseButton::ShiftCtrlWheelDrag, 5, 6));
    assert_eq!(mouse(b"\x1b[<0;+20;10;junk M"), MouseEvent::Press(MouseButton::Left, 20, 10));
    assert_eq!(parse(b"\x1b[<3;20;10M").0, Some(Err(EventError::Unparsable)));
}

#[test]
fn xterm_mouse_report_reads_up_to_its_end() {
    assert_eq!(parse(b"\x1b[<0;20;10Mxyz").1, 3);
}

#[test]
fn malformed_xterm_mouse_reports_have_no_answer() {
    assert_eq!(parse(b"\x1b[<0;20;10").0, None);
    assert_eq!(parse(b"\x1b[<0;20M").0, None);
    assert_eq!(parse(b"\x1b[<0;70000;1M").0, None);
    assert_eq!(parse(b"\x1b[<0;a;1M").0, None);
    assert_eq!(parse(b"\x1b[<0;;1M").0, None);
    assert_eq!(parse(&[0x1b, b'[', b'<', b'0', b';', b'1', b';', b'1', b';', 0xff, b'M']).0, None);
}

#[test]
fn rxvt_mouse_reports() {
    assert_eq!(mouse(b"\x1b[32;20;10M"), MouseEvent::Press(MouseButton::Left, 20, 10));
    assert_eq!(mouse(b"\x1b[33;20;10M"), MouseEvent::Press(MouseButton::Wheel, 20, 10));
    assert_eq!(mouse(b"\x1b[34;20;10M"), MouseEvent::Press(MouseButton::Right, 20, 10));
    assert_eq!(mouse(b"\x1b[35;20;10M"), MouseEvent::Release(20, 10));
    assert_eq!(mouse(b"\x1b[96;20;10M"), MouseEvent::Press(MouseButton::WheelUp, 20, 10));
    assert_eq!(mouse(b"\x1b[97;20;10M"), MouseEvent::Press(MouseButton::WheelUp, 20, 10));
    assert_eq!(parse(b"\x1b[36;20;10M").0, Some(Err(EventError::Unparsable)));
    assert_eq!(parse(b"\x1b[32;20M").0, None);
}

#[test]
fn special_key_number_that_is_not_a_byte_has_no_answer() {
    assert_eq!(parse(b"\x1b[300~").0, None);
    assert_eq!(parse(b"\x1b[1;5~").0, None);
    assert_eq!(parse(b"\x1b[15").0, None);
}

#[test]
fn special_key_code_reads_up_to_the_tilde() {
    let mut stream = ByteStream::new(b"[17~".to_vec());
    assert_eq!(parse_event(0x1b, &mut stream), Ok(Event::Key(Key::F(6))));
    assert_eq!(stream.next(), None);
}

#[test]
fn printable_ascii_reads_nothing_more() {
    let mut stream = ByteStream::new(b"xy".to_vec());
    assert_eq!(parse_event(b'A', &mut stream), Ok(Event::Key(Key::Char('A'))));
    assert_eq!(stream.len(), 2);
}

use vstd::prelude::*;
use vstd::utf8::*;
use vstd::string::StrSliceExecFns;
use crate::stream::ByteStream;
use crate::bytes::{split_field, is_first_of, all_digits, digits_value, first_of, three_fields, decimal, three_fields_exec, parse_decimal, lemma_first_of_none, lemma_first_of_unique, lemma_first_of_prefix};

verus! {

/// An event reported by the terminal.
#[derive(Debug, Copy, Clone, PartialEq, Eq, Structural, Hash)]
pub enum Event {
    /// A key press.
    Key(Key),
    /// A mouse button press, release or wheel use at specific coordinates.
    Mouse(MouseEvent),
    /// An event that cannot currently be evaluated.
    Unsupported,
}

/// A mouse related event.
#[derive(Debug, Copy, Clone, PartialEq, Eq, Structural, Hash)]
pub enum MouseEvent {
    /// A mouse button was pressed, the coordinates are one-based.
    Press(MouseButton, u16, u16),
    /// A mouse button was released, the coordinates are one-based.
    Release(u16, u16),
    /// A mouse button is held down, the coordinates are one-based.
    Drag(MouseButton, u16, u16),
}

/// A mouse button, possibly with the modifiers held while it was used.
#[derive(Debug, Copy, Clone, PartialEq, Eq, Structural, Hash)]
pub enum MouseButton {
    /// The left mouse button.
    Left,
    /// The right mouse button.
    Right,
    /// The mouse wheel button.
    Wheel,
    /// The mouse wheel is going up.
    WheelUp,
    /// The mouse wheel is going down.
    WheelDown,
    /// The left mouse button is held while moving the pointer.
    LeftDrag,
    /// The wheel mouse button is held while moving the pointer.
    WheelDrag,
    /// The right mouse button is held while moving the pointer.
    RightDrag,
    ShiftLeft,
    ShiftWheel,
    ShiftRight,
    ShiftLeftDrag,
    ShiftWheelDrag,
    ShiftRightDrag,
    CtrlLeft,
    CtrlWheel,
    CtrlRight,
    CtrlLeftDrag,
    CtrlWheelDrag,
    CtrlRightDrag,
    CtrlWheelUp,
    CtrlWheelDown,
    ShiftCtrlLeft,
    ShiftCtrlWheel,
    ShiftCtrlRight,
    ShiftCtrlLeftDrag,
    ShiftCtrlWheelDrag,
    ShiftCtrlRightDrag,
}

/// A key.
#[derive(Debug, Copy, Clone, PartialEq, Eq, Structural, Hash)]
pub enum Key {
    /// Backspace.
    Backspace,
    /// Left arrow.
    Left,
    /// Right arrow.
    Right,
    /// Up arrow.
    Up,
    /// Down arrow.
    Down,
    /// Home key.
    Home,
    /// End key.
    End,
    /// Page Up key.
    PageUp,
    /// Page Down key.
    PageDown,
    /// Delete key.
    Delete,
    /// Insert key.
    Insert,
    /// Function keys; only function keys 1 through 12 are produced.
    F(u8),
    /// Normal character.
    Char(char),
    /// Alt modified character.
    Alt(char),
    /// Ctrl modified character.
    Ctrl(char),
    /// Null byte.
    Null,
}

/// Why a byte sequence could not be decoded into an event.
#[derive(Debug, Copy, Clone, PartialEq, Eq, Structural, Hash)]
pub enum EventError {
    /// "Could not parse an event": the bytes form no known sequence.
    Unparsable,
    /// "Input character is not valid UTF-8".
    InvalidUtf8,
}


/// What a decoder hands back, and how many bytes of the stream it read:
/// `None` stands for the inputs on which decoding cannot go on (the stream
/// ends in the middle of a sequence, or the sequence is malformed in a way
/// that has no answer).
pub open spec fn outcome_matches<T>(
    r: Option<Result<T, EventError>>,
    expected: Option<(Result<T, EventError>, nat)>,
    before: Seq<u8>,
    after: Seq<u8>,
) -> bool {
    match expected {
        None => r is None,
        Some((res, n)) => r == Some(res) && n <= before.len() && after == before.skip(n as int),
    }
}

/// `std::str::from_utf8`: the slice is accepted exactly when it is valid
/// UTF-8, and the string it gives holds the characters the bytes encode.
#[verifier::external_body]
fn str_from_utf8(bytes: &[u8]) -> (r: Option<&str>)
    ensures
        r is Some <==> valid_utf8(bytes@),
        r matches Some(st) ==> st@ == decode_utf8(bytes@),
{
    std::str::from_utf8(bytes).ok()
}

/// The character that `c` followed by the first `k + 1` bytes of `s`
/// encodes, when `c` starts a multi-byte sequence and no shorter prefix
/// was valid; at most three bytes follow the leading one.
pub open spec fn utf8_char_after(c: u8, s: Seq<u8>, k: nat) -> Option<(Result<char, EventError>, nat)>
    decreases 3 - k,
{
    if k >= 3 {
        Some((Err(EventError::InvalidUtf8), 3))
    } else if s.len() <= k {
        None
    } else if valid_utf8(seq![c] + s.take(k + 1int)) {
        Some((Ok(decode_utf8(seq![c] + s.take(k + 1int))[0]), (k + 1) as nat))
    } else if k + 1 >= 3 {
        Some((Err(EventError::InvalidUtf8), 3))
    } else {
        utf8_char_after(c, s, (k + 1) as nat)
    }
}

/// The character that starts with byte `c` and goes on with `s`: an ASCII
/// byte is its own character; otherwise bytes are added one at a time until
/// they form valid UTF-8, and four bytes that do not are refused.
pub open spec fn utf8_char(c: u8, s: Seq<u8>) -> Option<(Result<char, EventError>, nat)> {
    if c < 0x80 {
        Some((Ok(c as char), 0))
    } else {
        utf8_char_after(c, s, 0)
    }
}

/// Reads the character that starts with `c`; `None` where the stream ends
/// before the character does.
pub fn read_utf8_char(c: u8, iter: &mut ByteStream) -> (r: Option<Result<char, EventError>>)
    ensures
        outcome_matches(r, utf8_char(c, old(iter)@), old(iter)@, final(iter)@),
{
    if c < 0x80 {
        assert(old(iter)@.skip(0) =~= old(iter)@);
        return Some(Ok(c as char));
    }
    let ghost s = old(iter)@;
    let mut buf: Vec<u8> = Vec::new();
    buf.push(c);
    assert(buf@ =~= seq![c] + s.take(0));
    assert(iter@ =~= s.skip(0));
    loop
        invariant
            1 <= buf.len() <= 3,
            s == old(iter)@,
            buf@ =~= seq![c] + s.take(buf.len() - 1),
            iter@ == s.skip(buf.len() - 1),
            buf.len() - 1 <= s.len(),
            c >= 0x80,
            utf8_char(c, s) == utf8_char_after(c, s, (buf.len() - 1) as nat),
        decreases 4 - buf.len(),
    {
        let ghost k: nat = (buf.len() - 1) as nat;
        match iter.next() {
            None => {
                return None;
            },
            Some(b) => {
                buf.push(b);
            },
        }
        assert(s.skip(k as int).drop_first() =~= s.skip(k + 1int));
        assert(buf@ =~= seq![c] + s.take(k + 1int));
        match str_from_utf8(buf.as_slice()) {
            Some(st) => {
                assert(decode_utf8(buf@).len() > 0);
                return Some(Ok(st.get_char(0)));
            },
            None => {},
        }
        if buf.len() >= 4 {
            return Some(Err(EventError::InvalidUtf8));
        }
    }
}

/// Parses `c`, and the bytes after it as far as needed, as one UTF-8
/// character.
pub fn parse_utf8_char(c: u8, iter: &mut ByteStream) -> (r: Result<char, EventError>)
    requires
        utf8_char(c, old(iter)@) is Some,
    ensures
        utf8_char(c, old(iter)@) == Some((r, (old(iter)@.len() - final(iter)@.len()) as nat)),
        final(iter)@.len() <= old(iter)@.len(),
        final(iter)@ == old(iter)@.skip(old(iter)@.len() - final(iter)@.len()),
{
    let r = read_utf8_char(c, iter);
    r.unwrap()
}


/// The event of a key.
pub open spec fn key_event(k: Key) -> Result<Event, EventError> {
    Ok(Event::Key(k))
}

/// The button code of an X10 mouse report byte: the byte less 32, as the
/// two's complement byte of the signed difference.
pub open spec fn x10_code(b: u8) -> u8 {
    if b >= 32 { (b - 32) as u8 } else { (b + 224) as u8 }
}

/// A coordinate of an X10 mouse report byte: the byte less 32, or 0.
pub open spec fn x10_coord(b: u8) -> u16 {
    (if b >= 32 { (b - 32) as u8 } else { 0u8 }) as u16
}

/// The X10 mouse event of the button code `code` at `(cx, cy)`.
pub open spec fn x10_event(code: u8, cx: u16, cy: u16) -> Result<Event, EventError> {
    let low = code & 3;
    if low == 0 {
        if code & 0x40 != 0 {
            Ok(Event::Mouse(MouseEvent::Press(MouseButton::WheelUp, cx, cy)))
        } else {
            Ok(Event::Mouse(MouseEvent::Press(MouseButton::Left, cx, cy)))
        }
    } else if low == 1 {
        if code & 0x40 != 0 {
            Ok(Event::Mouse(MouseEvent::Press(MouseButton::WheelDown, cx, cy)))
        } else {
            Ok(Event::Mouse(MouseEvent::Press(MouseButton::Wheel, cx, cy)))
        }
    } else if low == 2 {
        Ok(Event::Mouse(MouseEvent::Press(MouseButton::Right, cx, cy)))
    } else if low == 3 {
        Ok(Event::Mouse(MouseEvent::Release(cx, cy)))
    } else {
        Err(EventError::Unparsable)
    }
}

/// An X10 mouse report, `ESC [ M` followed by three bytes; `s` starts after
/// the `M`. A first byte from 128 to 159 has no signed difference with 32.
pub open spec fn x10_spec(s: Seq<u8>) -> Option<(Result<Event, EventError>, nat)> {
    if s.len() < 3 || (128 <= s[0] <= 159) {
        None
    } else {
        Some((x10_event(x10_code(s[0]), x10_coord(s[1]), x10_coord(s[2])), 3))
    }
}

/// The button of an xterm (SGR) mouse code, and whether the code reports a
/// drag.
pub open spec fn sgr_button(cb: int) -> Option<(MouseButton, bool)> {
    if cb == 0 { Some((MouseButton::Left, false)) }
    else if cb == 1 { Some((MouseButton::Wheel, false)) }
    else if cb == 2 { Some((MouseButton::Right, false)) }
    else if cb == 64 { Some((MouseButton::WheelUp, false)) }
    else if cb == 65 { Some((MouseButton::WheelDown, false)) }
    else if cb == 32 { Some((MouseButton::LeftDrag, true)) }
    else if cb == 33 { Some((MouseButton::WheelDrag, true)) }
    else if cb == 34 { Some((MouseButton::RightDrag, true)) }
    else if cb == 4 { Some((MouseButton::ShiftLeft, false)) }
    else if cb == 5 { Some((MouseButton::ShiftWheel, false)) }
    else if cb == 6 { Some((MouseButton::ShiftRight, false)) }
    else if cb == 36 { Some((MouseButton::ShiftLeftDrag, true)) }
    else if cb == 37 { Some((MouseButton::ShiftWheelDrag, true)) }
    else if cb == 38 { Some((MouseButton::ShiftRightDrag, true)) }
    else if cb == 16 { Some((MouseButton::CtrlLeft, false)) }
    else if cb == 17 { Some((MouseButton::CtrlWheel, false)) }
    else if cb == 18 { Some((MouseButton::CtrlRight, false)) }
    else if cb == 80 { Some((MouseButton::CtrlWheelUp, false)) }
    else if cb == 81 { Some((MouseButton::CtrlWheelDown, false)) }
    else if cb == 48 { Some((MouseButton::CtrlLeftDrag, true)) }
    else if cb == 49 { Some((MouseButton::CtrlWheelDrag, true)) }
    else if cb == 50 { Some((MouseButton::CtrlRightDrag, true)) }
    else if cb == 20 { Some((MouseButton::ShiftCtrlLeft, false)) }
    else if cb == 21 { Some((MouseButton::ShiftCtrlWheel, false)) }
    else if cb == 22 { Some((MouseButton::ShiftCtrlRight, false)) }
    else if cb == 52 { Some((MouseButton::ShiftCtrlLeftDrag, true)) }
    else if cb == 53 { Some((MouseButton::ShiftCtrlWheelDrag, true)) }
    else if cb == 54 { Some((MouseButton::ShiftCtrlRightDrag, true)) }
    else { None }
}

/// The xterm mouse event of code `cb` at `(cx, cy)`, ended by `term`
/// (`M` for a press, `m` for a release); drags are reported whatever ends
/// them.
pub open spec fn sgr_event(cb: int, cx: int, cy: int, term: u8) -> Result<Event, EventError> {
    match sgr_button(cb) {
        None => Err(EventError::Unparsable),
        Some((button, true)) => Ok(Event::Mouse(MouseEvent::Drag(button, cx as u16, cy as u16))),
        Some((button, false)) => if term == 0x4d {
            Ok(Event::Mouse(MouseEvent::Press(button, cx as u16, cy as u16)))
        } else if term == 0x6d {
            Ok(Event::Mouse(MouseEvent::Release(cx as u16, cy as u16)))
        } else {
            Err(EventError::Unparsable)
        },
    }
}

/// The three `;`-separated 16-bit numbers that open `buf`, when `buf` is
/// UTF-8 and has them.
pub open spec fn three_numbers(buf: Seq<u8>) -> Option<(int, int, int)> {
    if !valid_utf8(buf) {
        None
    } else {
        match three_fields(buf) {
            None => None,
            Some((a, b, c)) => match (decimal(a, 65535), decimal(b, 65535), decimal(c, 65535)) {
                (Some(x), Some(y), Some(z)) => Some((x, y, z)),
                _ => None,
            },
        }
    }
}

/// An xterm mouse report `ESC [ < Cb ; Cx ; Cy (M | m)`; `s` starts after
/// the `<`.
pub open spec fn sgr_spec(s: Seq<u8>) -> Option<(Result<Event, EventError>, nat)> {
    match first_of(s, 0x6d, 0x4d) {
        None => None,
        Some(k) => match three_numbers(s.take(k)) {
            None => None,
            Some((cb, cx, cy)) => Some((sgr_event(cb, cx, cy, s[k]), (k + 1) as nat)),
        },
    }
}

/// The rxvt mouse event of code `cb` at `(cx, cy)`.
pub open spec fn rxvt_event(cb: int, cx: int, cy: int) -> Result<Event, EventError> {
    let (x, y) = (cx as u16, cy as u16);
    if cb == 32 { Ok(Event::Mouse(MouseEvent::Press(MouseButton::Left, x, y))) }
    else if cb == 33 { Ok(Event::Mouse(MouseEvent::Press(MouseButton::Wheel, x, y))) }
    else if cb == 34 { Ok(Event::Mouse(MouseEvent::Press(MouseButton::Right, x, y))) }
    else if cb == 35 { Ok(Event::Mouse(MouseEvent::Release(x, y))) }
    else if cb == 96 { Ok(Event::Mouse(MouseEvent::Press(MouseButton::WheelUp, x, y))) }
    else if cb == 97 { Ok(Event::Mouse(MouseEvent::Press(MouseButton::WheelUp, x, y))) }
    else { Err(EventError::Unparsable) }
}

/// The key of a special key code `ESC [ num ~`.
pub open spec fn tilde_key(num: int) -> Result<Event, EventError> {
    if num == 1 || num == 7 { key_event(Key::Home) }
    else if num == 2 { key_event(Key::Insert) }
    else if num == 3 { key_event(Key::Delete) }
    else if num == 4 || num == 8 { key_event(Key::End) }
    else if num == 5 { key_event(Key::PageUp) }
    else if num == 6 { key_event(Key::PageDown) }
    else if 11 <= num <= 15 { key_event(Key::F((num - 10) as u8)) }
    else if 17 <= num <= 21 { key_event(Key::F((num - 11) as u8)) }
    else if 23 <= num <= 24 { key_event(Key::F((num - 12) as u8)) }
    else { Err(EventError::Unparsable) }
}

/// A numbered escape code `ESC [ c ...` ended by `M` (rxvt mouse report) or
/// `~` (special key); `c` is the digit after the `[` and `s` what follows it.
pub open spec fn numbered_spec(c: u8, s: Seq<u8>) -> Option<(Result<Event, EventError>, nat)> {
    match first_of(s, 0x4d, 0x7e) {
        None => None,
        Some(k) => {
            let buf = seq![c] + s.take(k);
            if s[k] == 0x4d {
                match three_numbers(buf) {
                    None => None,
                    Some((cb, cx, cy)) => Some((rxvt_event(cb, cx, cy), (k + 1) as nat)),
                }
            } else if !valid_utf8(buf) {
                None
            } else {
                match decimal(buf, 255) {
                    None => None,
                    Some(num) => Some((tilde_key(num), (k + 1) as nat)),
                }
            }
        },
    }
}

/// Shifts a decoder's outcome by `d` bytes read before it.
pub open spec fn after<T>(o: Option<(Result<T, EventError>, nat)>, d: nat) -> Option<(Result<T, EventError>, nat)> {
    match o {
        None => None,
        Some((r, n)) => Some((r, n + d)),
    }
}

/// A control sequence `ESC [ ...`; `s` starts after the `[`.
pub open spec fn csi_spec(s: Seq<u8>) -> Option<(Result<Event, EventError>, nat)> {
    if s.len() == 0 {
        Some((Err(EventError::Unparsable), 0))
    } else {
        let c = s[0];
        if c == 0x44 { Some((key_event(Key::Left), 1)) }
        else if c == 0x43 { Some((key_event(Key::Right), 1)) }
        else if c == 0x41 { Some((key_event(Key::Up), 1)) }
        else if c == 0x42 { Some((key_event(Key::Down), 1)) }
        else if c == 0x48 { Some((key_event(Key::Home), 1)) }
        else if c == 0x46 { Some((key_event(Key::End), 1)) }
        else if c == 0x4d { after(x10_spec(s.drop_first()), 1) }
        else if c == 0x3c { after(sgr_spec(s.drop_first()), 1) }
        else if 0x30 <= c <= 0x39 { after(numbered_spec(c, s.drop_first()), 1) }
        else { Some((Err(EventError::Unparsable), 1)) }
    }
}

/// What follows an escape byte; `s` starts after it.
pub open spec fn escape_spec(s: Seq<u8>) -> Option<(Result<Event, EventError>, nat)> {
    if s.len() == 0 {
        Some((Err(EventError::Unparsable), 0))
    } else if s[0] == 0x4f {
        if s.len() >= 2 && 0x50 <= s[1] <= 0x53 {
            Some((key_event(Key::F((1 + s[1] - 0x50) as u8)), 2))
        } else if s.len() >= 2 {
            Some((Err(EventError::Unparsable), 2))
        } else {
            Some((Err(EventError::Unparsable), 1))
        }
    } else if s[0] == 0x5b {
        after(csi_spec(s.drop_first()), 1)
    } else {
        match utf8_char(s[0], s.drop_first()) {
            None => None,
            Some((Ok(ch), n)) => Some((key_event(Key::Alt(ch)), n + 1)),
            Some((Err(e), n)) => Some((Err(e), n + 1)),
        }
    }
}

/// The event that starts with byte `item` and goes on, as far as needed,
/// with the bytes `s`; with the number of bytes of `s` that it takes.
/// `None` for the inputs that have no answer: the stream ends in the middle
/// of a sequence, a mouse report is malformed, or a special key number is
/// not a byte.
pub open spec fn event_spec(item: u8, s: Seq<u8>) -> Option<(Result<Event, EventError>, nat)> {
    if item == 0x1b {
        escape_spec(s)
    } else if item == 0x0a || item == 0x0d {
        Some((key_event(Key::Char('\n')), 0))
    } else if item == 0x09 {
        Some((key_event(Key::Char('\t')), 0))
    } else if item == 0x7f {
        Some((key_event(Key::Backspace), 0))
    } else if 0x01 <= item <= 0x1a {
        Some((key_event(Key::Ctrl(((item - 0x01 + 0x61) as u8) as char)), 0))
    } else if 0x1c <= item <= 0x1f {
        Some((key_event(Key::Ctrl(((item - 0x1c + 0x34) as u8) as char)), 0))
    } else if item == 0 {
        Some((key_event(Key::Null), 0))
    } else {
        match utf8_char(item, s) {
            None => None,
            Some((Ok(ch), n)) => Some((key_event(Key::Char(ch)), n)),
            Some((Err(e), n)) => Some((Err(e), n)),
        }
    }
}


/// Reads up to the first byte that is `a` or `b`: the bytes before it and
/// the byte itself; `None` where the stream ends first.
fn read_until(iter: &mut ByteStream, a: u8, b: u8) -> (r: Option<(Vec<u8>, u8)>)
    ensures
        match first_of(old(iter)@, a, b) {
            None => r is None,
            Some(k) => r matches Some((buf, t)) && buf@ == old(iter)@.take(k) && t == old(iter)@[k]
                && final(iter)@ == old(iter)@.skip(k + 1),
        },
{
    let ghost s = old(iter)@;
    let mut buf: Vec<u8> = Vec::new();
    assert(iter@ =~= s.skip(0));
    loop
        invariant
            s == old(iter)@,
            buf.len() <= s.len(),
            buf@ =~= s.take(buf.len() as int),
            iter@ == s.skip(buf.len() as int),
            forall|j: int| 0 <= j < buf.len() ==> s[j] != a && s[j] != b,
        decreases s.len() - buf.len(),
    {
        let ghost i = buf.len() as int;
        match iter.next() {
            None => {
                proof { lemma_first_of_none(s, a, b); }
                return None;
            },
            Some(c) => {
                assert(s.skip(i).drop_first() =~= s.skip(i + 1));
                assert(c == s[i]);
                if c == a || c == b {
                    proof { lemma_first_of_unique(s, a, b, i); }
                    return Some((buf, c));
                }
                buf.push(c);
                assert(buf@ =~= s.take(i + 1));
            },
        }
    }
}

/// Parses the three `;`-separated 16-bit numbers that open `buf`.
fn read_three_numbers(buf: &[u8]) -> (r: Option<(u16, u16, u16)>)
    ensures
        match (r, three_numbers(buf@)) {
            (Some((x, y, z)), Some((a, b, c))) => x == a && y == b && z == c,
            (None, None) => true,
            _ => false,
        },
{
    if str_from_utf8(buf).is_none() {
        return None;
    }
    let fields = three_fields_exec(buf);
    match fields {
        None => None,
        Some((f0, f1, f2)) => {
            let cb = parse_decimal(f0.as_slice(), 65535);
            let cx = parse_decimal(f1.as_slice(), 65535);
            let cy = parse_decimal(f2.as_slice(), 65535);
            match (cb, cx, cy) {
                (Some(cb), Some(cx), Some(cy)) => Some((cb as u16, cx as u16, cy as u16)),
                _ => None,
            }
        },
    }
}

fn x10_event_exec(code: u8, cx: u16, cy: u16) -> (r: Result<Event, EventError>)
    ensures
        r == x10_event(code, cx, cy),
{
    match code & 3 {
        0 => {
            if code & 0x40 != 0 {
                Ok(Event::Mouse(MouseEvent::Press(MouseButton::WheelUp, cx, cy)))
            } else {
                Ok(Event::Mouse(MouseEvent::Press(MouseButton::Left, cx, cy)))
            }
        },
        1 => {
            if code & 0x40 != 0 {
                Ok(Event::Mouse(MouseEvent::Press(MouseButton::WheelDown, cx, cy)))
            } else {
                Ok(Event::Mouse(MouseEvent::Press(MouseButton::Wheel, cx, cy)))
            }
        },
        2 => Ok(Event::Mouse(MouseEvent::Press(MouseButton::Right, cx, cy))),
        3 => Ok(Event::Mouse(MouseEvent::Release(cx, cy))),
        _ => Err(EventError::Unparsable),
    }
}

/// X10 mouse encoding: `ESC [ M Cb Cx Cy`, read after the `M`.
#[verifier::spinoff_prover]
#[verifier::rlimit(50)]
fn parse_x10(iter: &mut ByteStream) -> (r: Option<Result<Event, EventError>>)
    ensures
        outcome_matches(r, x10_spec(old(iter)@), old(iter)@, final(iter)@),
{
    let ghost s = old(iter)@;
    let b0 = match iter.next() {
        Some(b) => b,
        None => return None,
    };
    if 128 <= b0 && b0 <= 159 {
        return None;
    }
    let code: u8 = if b0 >= 32 { b0 - 32 } else { b0 + 224 };
    let b1 = match iter.next() {
        Some(b) => b,
        None => return None,
    };
    let cx = b1.saturating_sub(32) as u16;
    let b2 = match iter.next() {
        Some(b) => b,
        None => return None,
    };
    let cy = b2.saturating_sub(32) as u16;
    assert(iter@ =~= s.skip(3));
    Some(x10_event_exec(code, cx, cy))
}

fn sgr_button_exec(cb: u16) -> (r: Option<(MouseButton, bool)>)
    ensures
        r == sgr_button(cb as int),
{
    match cb {
        0 => Some((MouseButton::Left, false)),
        1 => Some((MouseButton::Wheel, false)),
        2 => Some((MouseButton::Right, false)),
        64 => Some((MouseButton::WheelUp, false)),
        65 => Some((MouseButton::WheelDown, false)),
        32 => Some((MouseButton::LeftDrag, true)),
        33 => Some((MouseButton::WheelDrag, true)),
        34 => Some((MouseButton::RightDrag, true)),
        4 => Some((MouseButton::ShiftLeft, false)),
        5 => Some((MouseButton::ShiftWheel, false)),
        6 => Some((MouseButton::ShiftRight, false)),
        36 => Some((MouseButton::ShiftLeftDrag, true)),
        37 => Some((MouseButton::ShiftWheelDrag, true)),
        38 => Some((MouseButton::ShiftRightDrag, true)),
        16 => Some((MouseButton::CtrlLeft, false)),
        17 => Some((MouseButton::CtrlWheel, false)),
        18 => Some((MouseButton::CtrlRight, false)),
        80 => Some((MouseButton::CtrlWheelUp, false)),
        81 => Some((MouseButton::CtrlWheelDown, false)),
        48 => Some((MouseButton::CtrlLeftDrag, true)),
        49 => Some((MouseButton::CtrlWheelDrag, true)),
        50 => Some((MouseButton::CtrlRightDrag, true)),
        20 => Some((MouseButton::ShiftCtrlLeft, false)),
        21 => Some((MouseButton::ShiftCtrlWheel, false)),
        22 => Some((MouseButton::ShiftCtrlRight, false)),
        52 => Some((MouseButton::ShiftCtrlLeftDrag, true)),
        53 => Some((MouseButton::ShiftCtrlWheelDrag, true)),
        54 => Some((MouseButton::ShiftCtrlRightDrag, true)),
        _ => None,
    }
}

/// xterm mouse encoding: `ESC [ < Cb ; Cx ; Cy (M | m)`, read after the `<`.
#[verifier::spinoff_prover]
#[verifier::rlimit(50)]
fn parse_sgr(iter: &mut ByteStream) -> (r: Option<Result<Event, EventError>>)
    ensures
        outcome_matches(r, sgr_spec(old(iter)@), old(iter)@, final(iter)@),
{
    let (buf, c) = match read_until(iter, 0x6d, 0x4d) {
        Some(found) => found,
        None => return None,
    };
    let (cb, cx, cy) = match read_three_numbers(buf.as_slice()) {
        Some(nums) => nums,
        None => return None,
    };
    let button = match sgr_button_exec(cb) {
        Some((button, true)) => return Some(Ok(Event::Mouse(MouseEvent::Drag(button, cx, cy)))),
        Some((button, false)) => button,
        None => return Some(Err(EventError::Unparsable)),
    };
    Some(
        match c {
            0x4d => Ok(Event::Mouse(MouseEvent::Press(button, cx, cy))),
            0x6d => Ok(Event::Mouse(MouseEvent::Release(cx, cy))),
            _ => Err(EventError::Unparsable),
        },
    )
}

fn rxvt_event_exec(cb: u16, cx: u16, cy: u16) -> (r: Result<Event, EventError>)
    ensures
        r == rxvt_event(cb as int, cx as int, cy as int),
{
    match cb {
        32 => Ok(Event::Mouse(MouseEvent::Press(MouseButton::Left, cx, cy))),
        33 => Ok(Event::Mouse(MouseEvent::Press(MouseButton::Wheel, cx, cy))),
        34 => Ok(Event::Mouse(MouseEvent::Press(MouseButton::Right, cx, cy))),
        35 => Ok(Event::Mouse(MouseEvent::Release(cx, cy))),
        96 => Ok(Event::Mouse(MouseEvent::Press(MouseButton::WheelUp, cx, cy))),
        97 => Ok(Event::Mouse(MouseEvent::Press(MouseButton::WheelUp, cx, cy))),
        _ => Err(EventError::Unparsable),
    }
}

fn tilde_key_exec(num: u8) -> (r: Result<Event, EventError>)
    ensures
        r == tilde_key(num as int),
{
    match num {
        1 | 7 => Ok(Event::Key(Key::Home)),
        2 => Ok(Event::Key(Key::Insert)),
        3 => Ok(Event::Key(Key::Delete)),
        4 | 8 => Ok(Event::Key(Key::End)),
        5 => Ok(Event::Key(Key::PageUp)),
        6 => Ok(Event::Key(Key::PageDown)),
        11..=15 => Ok(Event::Key(Key::F(num - 10))),
        17..=21 => Ok(Event::Key(Key::F(num - 11))),
        23..=24 => Ok(Event::Key(Key::F(num - 12))),
        _ => Err(EventError::Unparsable),
    }
}

/// `c` followed by the bytes of `rest`.
fn prepend(c: u8, rest: &Vec<u8>) -> (buf: Vec<u8>)
    ensures
        buf@ == seq![c] + rest@,
{
    let mut buf: Vec<u8> = Vec::new();
    buf.push(c);
    let mut i: usize = 0;
    while i < rest.len()
        invariant
            i <= rest.len(),
            buf@ =~= seq![c] + rest@.take(i as int),
        decreases rest.len() - i,
    {
        buf.push(rest[i]);
        i = i + 1;
        assert(buf@ =~= seq![c] + rest@.take(i as int));
    }
    assert(rest@.take(rest.len() as int) =~= rest@);
    buf
}

/// A numbered escape code, read after its first digit `c`.
#[verifier::spinoff_prover]
#[verifier::rlimit(50)]
fn parse_numbered(c: u8, iter: &mut ByteStream) -> (r: Option<Result<Event, EventError>>)
    ensures
        outcome_matches(r, numbered_spec(c, old(iter)@), old(iter)@, final(iter)@),
{
    let ghost s = old(iter)@;
    let (rest, t) = match read_until(iter, 0x4d, 0x7e) {
        Some(found) => found,
        None => return None,
    };
    let buf = prepend(c, &rest);
    if t == 0x4d {
        match read_three_numbers(buf.as_slice()) {
            Some((cb, cx, cy)) => Some(rxvt_event_exec(cb, cx, cy)),
            None => None,
        }
    } else {
        if str_from_utf8(buf.as_slice()).is_none() {
            return None;
        }
        match parse_decimal(buf.as_slice(), 255) {
            Some(num) => Some(tilde_key_exec(num as u8)),
            None => None,
        }
    }
}

/// A control sequence, read after `ESC [`.
#[verifier::spinoff_prover]
#[verifier::rlimit(50)]
fn parse_csi(iter: &mut ByteStream) -> (r: Option<Result<Event, EventError>>)
    ensures
        outcome_matches(r, csi_spec(old(iter)@), old(iter)@, final(iter)@),
{
    let ghost s = old(iter)@;
    let c = match iter.next() {
        Some(c) => c,
        None => {
            assert(s.skip(0) =~= s);
            return Some(Err(EventError::Unparsable));
        },
    };
    assert(iter@ == s.skip(1));
    let r = match c {
        0x44 => Some(Ok(Event::Key(Key::Left))),
        0x43 => Some(Ok(Event::Key(Key::Right))),
        0x41 => Some(Ok(Event::Key(Key::Up))),
        0x42 => Some(Ok(Event::Key(Key::Down))),
        0x48 => Some(Ok(Event::Key(Key::Home))),
        0x46 => Some(Ok(Event::Key(Key::End))),
        0x4d => parse_x10(iter),
        0x3c => parse_sgr(iter),
        0x30..=0x39 => parse_numbered(c, iter),
        _ => Some(Err(EventError::Unparsable)),
    };
    proof {
        let rest = s.drop_first();
        assert(rest =~= s.skip(1));
        if let Some((_, n)) = csi_spec(s) {
            if n >= 1 {
                assert(rest.skip(n - 1) =~= s.skip(n as int));
            }
        }
    }
    r
}

/// What follows an escape byte.
#[verifier::spinoff_prover]
#[verifier::rlimit(50)]
fn parse_escape(iter: &mut ByteStream) -> (r: Option<Result<Event, EventError>>)
    ensures
        outcome_matches(r, escape_spec(old(iter)@), old(iter)@, final(iter)@),
{
    let ghost s = old(iter)@;
    let c = match iter.next() {
        Some(c) => c,
        None => {
            assert(s.skip(0) =~= s);
            return Some(Err(EventError::Unparsable));
        },
    };
    assert(iter@ == s.skip(1));
    let ghost rest = s.drop_first();
    assert(rest =~= s.skip(1));
    if c == 0x4f {
        let ghost mid = iter@;
        match iter.next() {
            Some(v) => {
                assert(s.skip(1).drop_first() =~= s.skip(2));
                if 0x50 <= v && v <= 0x53 {
                    Some(Ok(Event::Key(Key::F(1 + v - 0x50))))
                } else {
                    Some(Err(EventError::Unparsable))
                }
            },
            None => Some(Err(EventError::Unparsable)),
        }
    } else if c == 0x5b {
        let r = parse_csi(iter);
        proof {
            if let Some((_, n)) = csi_spec(rest) {
                assert(rest.skip(n as int) =~= s.skip(n + 1int));
            }
        }
        r
    } else {
        let r = read_utf8_char(c, iter);
        proof {
            if let Some((_, n)) = utf8_char(c, rest) {
                assert(rest.skip(n as int) =~= s.skip(n + 1int));
            }
        }
        match r {
            None => None,
            Some(Ok(ch)) => Some(Ok(Event::Key(Key::Alt(ch)))),
            Some(Err(e)) => Some(Err(e)),
        }
    }
}

/// Parses an event from `item` and possibly subsequent bytes through
/// `iter`; `None` on the inputs that `event_spec` gives no answer for.
#[verifier::spinoff_prover]
#[verifier::rlimit(50)]
pub fn try_parse_event(item: u8, iter: &mut ByteStream) -> (r: Option<Result<Event, EventError>>)
    ensures
        outcome_matches(r, event_spec(item, old(iter)@), old(iter)@, final(iter)@),
{
    proof { assert(old(iter)@.skip(0) =~= old(iter)@); }
    match item {
        0x1b => parse_escape(iter),
        0x0a | 0x0d => Some(Ok(Event::Key(Key::Char('\n')))),
        0x09 => Some(Ok(Event::Key(Key::Char('\t')))),
        0x7f => Some(Ok(Event::Key(Key::Backspace))),
        0x01..=0x1a => Some(Ok(Event::Key(Key::Ctrl((item - 0x01 + 0x61) as char)))),
        0x1c..=0x1f => Some(Ok(Event::Key(Key::Ctrl((item - 0x1c + 0x34) as char)))),
        0 => Some(Ok(Event::Key(Key::Null))),
        _ => match read_utf8_char(item, iter) {
            None => None,
            Some(Ok(ch)) => Some(Ok(Event::Key(Key::Char(ch)))),
            Some(Err(e)) => Some(Err(e)),
        },
    }
}

/// Parses an event from `item` and possibly subsequent bytes through
/// `iter`, on the inputs for which `event_spec` has an answer.
pub fn parse_event(item: u8, iter: &mut ByteStream) -> (r: Result<Event, EventError>)
    requires
        event_spec(item, old(iter)@) is Some,
    ensures
        event_spec(item, old(iter)@) == Some((r, (old(iter)@.len() - final(iter)@.len()) as nat)),
        final(iter)@.len() <= old(iter)@.len(),
        final(iter)@ == old(iter)@.skip(old(iter)@.len() - final(iter)@.len()),
{
    try_parse_event(item, iter).unwrap()
}


proof fn lemma_leading_byte_ranges(v: u32)
    ensures
        has_width_1_encoding(v) ==> leading_byte_width_1(v) == v,
        has_width_2_encoding(v) ==> 0xc0 <= leading_byte_width_2(v) <= 0xdf,
        has_width_3_encoding(v) ==> 0xe0 <= leading_byte_width_3(v) <= 0xef,
        has_width_4_encoding(v) ==> 0xf0 <= leading_byte_width_4(v) <= 0xf7,
{
    assert(0 <= v <= 0x7F ==> (v & 0x7F) as u8 == v) by (bit_vector);
    assert(0x80 <= v <= 0x7FF ==> 0xc0 <= (0xC0 | ((v >> 6) & 0x1F) as u8) <= 0xdf) by (bit_vector);
    assert(0x800 <= v <= 0xFFFF ==> 0xe0 <= (0xE0 | ((v >> 12) & 0x0F) as u8) <= 0xef) by (bit_vector);
    assert(0x10000 <= v <= 0x10FFFF ==> 0xf0 <= (0xF0 | ((v >> 18) & 0x7) as u8) <= 0xf7) by (bit_vector);
}

/// Decoding the UTF-8 encoding of a character, one leading byte then the
/// stream, gives the character back and reads exactly its continuation
/// bytes, whatever follows them.
pub proof fn lemma_utf8_char_roundtrip(ch: char, rest: Seq<u8>)
    ensures
        ({
            let enc = encode_scalar(ch as u32);
            utf8_char(enc[0], enc.drop_first() + rest) == Some((Ok::<char, EventError>(ch), (enc.len() - 1) as nat))
        }),
{
    let v = ch as u32;
    char_is_scalar(ch);
    char_u32_cast(ch, v);
    lemma_leading_byte_ranges(v);
    let enc = encode_scalar(v);
    let s = enc.drop_first() + rest;
    assert(encode_utf8(seq![ch]) =~= enc) by {
        assert(seq![ch].drop_first() =~= Seq::<char>::empty());
        reveal_with_fuel(encode_utf8, 2);
    }
    encode_utf8_valid_utf8(seq![ch]);
    encode_utf8_decode_utf8(seq![ch]);
    assert(decode_utf8(enc) == seq![ch]);
    assert(valid_utf8(enc));
    if has_width_1_encoding(v) {
        assert(enc[0] < 0x80);
        assert(enc[0] as u32 == v);
        assert((enc[0] as char) == ch);
        assert(utf8_char(enc[0], s) == Some((Ok::<char, EventError>(ch), 0nat)));
    } else if has_width_2_encoding(v) {
        assert(seq![enc[0]] + s.take(1) =~= enc);
        assert(decode_utf8(enc)[0] == ch);
        assert(utf8_char_after(enc[0], s, 0) == Some((Ok::<char, EventError>(ch), 1nat)));
    } else if has_width_3_encoding(v) {
        let b2 = seq![enc[0]] + s.take(1);
        assert(!valid_utf8(b2));
        assert(seq![enc[0]] + s.take(2) =~= enc);
        assert(decode_utf8(enc)[0] == ch);
        assert(utf8_char_after(enc[0], s, 1) == Some((Ok::<char, EventError>(ch), 2nat)));
        assert(utf8_char_after(enc[0], s, 0) == Some((Ok::<char, EventError>(ch), 2nat)));
    } else {
        let b2 = seq![enc[0]] + s.take(1);
        let b3 = seq![enc[0]] + s.take(2);
        assert(!valid_utf8(b2));
        assert(!valid_utf8(b3));
        assert(seq![enc[0]] + s.take(3) =~= enc);
        assert(decode_utf8(enc)[0] == ch);
        assert(utf8_char_after(enc[0], s, 2) == Some((Ok::<char, EventError>(ch), 3nat)));
        assert(utf8_char_after(enc[0], s, 1) == Some((Ok::<char, EventError>(ch), 3nat)));
        assert(utf8_char_after(enc[0], s, 0) == Some((Ok::<char, EventError>(ch), 3nat)));
    }
}


/// A character that is not an ASCII control character is decoded, from its
/// UTF-8 encoding, as the key of that character, whatever follows it.
pub proof fn lemma_char_key_roundtrip(ch: char, rest: Seq<u8>)
    requires
        ch as u32 >= 0x20,
        ch as u32 != 0x7f,
    ensures
        ({
            let enc = encode_scalar(ch as u32);
            event_spec(enc[0], enc.drop_first() + rest)
                == Some((key_event(Key::Char(ch)), (enc.len() - 1) as nat))
        }),
{
    lemma_utf8_char_roundtrip(ch, rest);
    lemma_leading_byte_ranges(ch as u32);
}

/// An escape byte followed by the UTF-8 encoding of a character other than
/// `O` and `[` is decoded as that character with Alt, whatever follows it.
pub proof fn lemma_alt_key_roundtrip(ch: char, rest: Seq<u8>)
    requires
        ch != 'O',
        ch != '[',
    ensures
        ({
            let enc = encode_scalar(ch as u32);
            event_spec(0x1b, enc + rest) == Some((key_event(Key::Alt(ch)), enc.len() as nat))
        }),
{
    let v = ch as u32;
    let enc = encode_scalar(v);
    lemma_utf8_char_roundtrip(ch, rest);
    lemma_leading_byte_ranges(v);
    char_u32_cast(ch, v);
    assert((enc + rest).drop_first() =~= enc.drop_first() + rest);
    assert((enc + rest)[0] == enc[0]);
    if has_width_1_encoding(v) {
        assert(v != 0x4f) by {
            if v == 0x4f { assert((v as char) == 'O'); }
        }
        assert(v != 0x5b) by {
            if v == 0x5b { assert((v as char) == '['); }
        }
    }
}


proof fn lemma_utf8_after_prefix(c: u8, s: Seq<u8>, k: nat, t: Seq<u8>)
    requires
        utf8_char_after(c, s, k) matches Some((Ok(_), n)),
    ensures
        ({
            let n = utf8_char_after(c, s, k).unwrap().1;
            utf8_char_after(c, s.take(n as int) + t, k) == utf8_char_after(c, s, k)
        }),
    decreases 3 - k,
{
    let n = utf8_char_after(c, s, k).unwrap().1;
    let s2 = s.take(n as int) + t;
    lemma_utf8_after_steps(c, s, k);
    if k < 3 && s.len() > k {
        assert(s2.take(k + 1int) =~= s.take(k + 1int));
        if !valid_utf8(seq![c] + s.take(k + 1int)) && k + 1 < 3 {
            lemma_utf8_after_prefix(c, s, (k + 1) as nat, t);
        }
    }
}

proof fn lemma_utf8_after_steps(c: u8, s: Seq<u8>, k: nat)
    requires
        utf8_char_after(c, s, k) matches Some((Ok(_), n)),
    ensures
        utf8_char_after(c, s, k).unwrap().1 > k,
        utf8_char_after(c, s, k).unwrap().1 <= s.len(),
    decreases 3 - k,
{
    if k < 3 && s.len() > k && !valid_utf8(seq![c] + s.take(k + 1int)) && k + 1 < 3 {
        lemma_utf8_after_steps(c, s, (k + 1) as nat);
    }
}

proof fn lemma_utf8_char_prefix(c: u8, s: Seq<u8>, t: Seq<u8>)
    requires
        utf8_char(c, s) matches Some((Ok(_), n)),
    ensures
        utf8_char(c, s).unwrap().1 <= s.len(),
        utf8_char(c, s.take(utf8_char(c, s).unwrap().1 as int) + t) == utf8_char(c, s),
{
    if c >= 0x80 {
        lemma_utf8_after_prefix(c, s, 0, t);
        lemma_utf8_after_steps(c, s, 0);
    } else {
        assert(s.take(0) + t =~= t);
    }
}

proof fn lemma_sgr_prefix(s: Seq<u8>, t: Seq<u8>)
    requires
        sgr_spec(s) matches Some((Ok(_), n)),
    ensures
        sgr_spec(s).unwrap().1 <= s.len(),
        sgr_spec(s.take(sgr_spec(s).unwrap().1 as int) + t) == sgr_spec(s),
{
    let k = first_of(s, 0x6d, 0x4d).unwrap();
    lemma_first_of_prefix(s, 0x6d, 0x4d, k, t);
    let s2 = s.take(k + 1) + t;
    assert(s2.take(k) =~= s.take(k));
    assert(s2[k] == s[k]);
}

proof fn lemma_numbered_prefix(c: u8, s: Seq<u8>, t: Seq<u8>)
    requires
        numbered_spec(c, s) matches Some((Ok(_), n)),
    ensures
        numbered_spec(c, s).unwrap().1 <= s.len(),
        numbered_spec(c, s.take(numbered_spec(c, s).unwrap().1 as int) + t) == numbered_spec(c, s),
{
    let k = first_of(s, 0x4d, 0x7e).unwrap();
    lemma_first_of_prefix(s, 0x4d, 0x7e, k, t);
    let s2 = s.take(k + 1) + t;
    assert(s2.take(k) =~= s.take(k));
    assert(s2[k] == s[k]);
}

proof fn lemma_x10_prefix(s: Seq<u8>, t: Seq<u8>)
    requires
        x10_spec(s) is Some,
    ensures
        x10_spec(s).unwrap().1 <= s.len(),
        x10_spec(s.take(x10_spec(s).unwrap().1 as int) + t) == x10_spec(s),
{
    let s2 = s.take(3) + t;
    assert(s2[0] == s[0] && s2[1] == s[1] && s2[2] == s[2]);
}

#[verifier::spinoff_prover]
#[verifier::rlimit(50)]
proof fn lemma_csi_prefix(s: Seq<u8>, t: Seq<u8>)
    requires
        csi_spec(s) matches Some((Ok(_), n)),
    ensures
        1 <= csi_spec(s).unwrap().1 <= s.len(),
        csi_spec(s.take(csi_spec(s).unwrap().1 as int) + t) == csi_spec(s),
{
    let n = csi_spec(s).unwrap().1;
    assert(s.len() > 0);
    let c = s[0];
    let rest = s.drop_first();
    if c == 0x4d {
        lemma_x10_prefix(rest, t);
    } else if c == 0x3c {
        lemma_sgr_prefix(rest, t);
    } else if 0x30 <= c <= 0x39 {
        lemma_numbered_prefix(c, rest, t);
    }
    assert(1 <= n <= s.len());
    let s2 = s.take(n as int) + t;
    assert(s2[0] == c);
    assert(s2.drop_first() =~= rest.take(n - 1) + t);
}

#[verifier::spinoff_prover]
#[verifier::rlimit(50)]
proof fn lemma_escape_prefix(s: Seq<u8>, t: Seq<u8>)
    requires
        escape_spec(s) matches Some((Ok(_), n)),
    ensures
        escape_spec(s.take(escape_spec(s).unwrap().1 as int) + t) == escape_spec(s),
{
    let n = escape_spec(s).unwrap().1;
    assert(s.len() > 0);
    let c = s[0];
    let rest = s.drop_first();
    if c == 0x4f {
        assert(n == 2);
    } else if c == 0x5b {
        lemma_csi_prefix(rest, t);
    } else {
        lemma_utf8_char_prefix(c, rest, t);
    }
    assert(1 <= n <= s.len());
    let s2 = s.take(n as int) + t;
    assert(s2[0] == c);
    assert(s2.drop_first() =~= rest.take(n - 1) + t);
    if c == 0x4f {
        assert(s2[1] == s[1]);
    }
}

/// The event decoded from a stream depends only on the bytes it read: the
/// same item followed by those bytes and then anything else decodes to the
/// same event, reading as many bytes.
#[verifier::spinoff_prover]
#[verifier::rlimit(50)]
pub proof fn lemma_event_reads_no_further(item: u8, s: Seq<u8>, t: Seq<u8>)
    requires
        event_spec(item, s) matches Some((Ok(_), n)),
    ensures
        event_spec(item, s.take(event_spec(item, s).unwrap().1 as int) + t) == event_spec(item, s),
{
    if item == 0x1b {
        lemma_escape_prefix(s, t);
    } else if item == 0x0a || item == 0x0d || item == 0x09 || item == 0x7f || (0x01 <= item <= 0x1a)
        || (0x1c <= item <= 0x1f) || item == 0 {
    } else {
        lemma_utf8_char_prefix(item, s, t);
    }
}


/// The key of a decoded character, with the decoder's error and byte count.
pub open spec fn char_key(o: Option<(Result<char, EventError>, nat)>, alt: bool, shift: nat) -> Option<(Result<Event, EventError>, nat)> {
    match o {
        None => None,
        Some((Ok(ch), n)) => Some((key_event(if alt { Key::Alt(ch) } else { Key::Char(ch) }), n + shift)),
        Some((Err(e), n)) => Some((Err(e), n + shift)),
    }
}

/// A byte of 0x80 or more is decoded as the character it starts; an escape
/// byte followed by a byte other than `O` and `[` as that byte's character
/// with Alt, the byte itself counted as read. Errors, byte counts and
/// inputs without an answer are the character decoder's, for every input.
pub proof fn lemma_event_delegates_to_utf8(item: u8, s: Seq<u8>)
    ensures
        item >= 0x80 ==> event_spec(item, s) == char_key(utf8_char(item, s), false, 0),
        item == 0x1b && s.len() > 0 && s[0] != 0x4f && s[0] != 0x5b ==>
            event_spec(item, s) == char_key(utf8_char(s[0], s.drop_first()), true, 1),
{
}


/// `ESC O` followed by `P`, `Q`, `R` or `S` is function key 1, 2, 3 or 4,
/// read in two bytes whatever follows.
pub proof fn lemma_ss3_function_keys(b: u8, rest: Seq<u8>)
    requires
        0x50 <= b <= 0x53,
    ensures
        event_spec(0x1b, seq![0x4fu8, b] + rest)
            == Some((Ok::<Event, EventError>(Event::Key(Key::F((b - 0x4f) as u8))), 2nat)),
{
    let s = seq![0x4fu8, b] + rest;
    assert(s[0] == 0x4f);
    assert(s[1] == b);
}

proof fn lemma_ascii_valid_utf8(s: Seq<u8>)
    requires
        forall|i: int| 0 <= i < s.len() ==> s[i] < 0x80,
    ensures
        valid_utf8(s),
    decreases s.len(),
{
    if s.len() > 0 {
        let b = s[0];
        assert((b & 0x7F) as u32 <= 0x7F) by (bit_vector);
        assert(valid_first_scalar(s));
        let rest = pop_first_scalar(s);
        assert(rest =~= s.subrange(1, s.len() as int));
        lemma_ascii_valid_utf8(rest);
    }
}

/// The bytes of `s` are all ASCII digits or `;`.
spec fn digits_or_semicolons(s: Seq<u8>) -> bool {
    forall|j: int| 0 <= j < s.len() ==> (0x30 <= #[trigger] s[j] <= 0x39 || s[j] == 0x3b)
}

proof fn lemma_report_bytes(dc: Seq<u8>, dx: Seq<u8>, dy: Seq<u8>)
    requires
        all_digits(dc),
        all_digits(dx),
        all_digits(dy),
    ensures
        digits_or_semicolons(dc + seq![0x3bu8] + dx + seq![0x3bu8] + dy),
{
    let buf = dc + seq![0x3bu8] + dx + seq![0x3bu8] + dy;
    let a = dc.len() as int;
    let b = a + 1 + dx.len();
    assert forall|j: int| 0 <= j < buf.len() implies (0x30 <= #[trigger] buf[j] <= 0x39 || buf[j] == 0x3b) by {
        if j < a {
            assert(buf[j] == dc[j]);
        } else if a < j < b {
            assert(buf[j] == dx[j - a - 1]);
        } else if b < j {
            assert(buf[j] == dy[j - b - 1]);
        }
    }
}

proof fn lemma_split_at_digits(d: Seq<u8>, r: Seq<u8>)
    requires
        all_digits(d),
    ensures
        split_field(d + seq![0x3bu8] + r) == (d, Some(r)),
{
    let s = d + seq![0x3bu8] + r;
    let m = d.len() as int;
    assert forall|j: int| 0 <= j < m implies s[j] != 0x3b by {
        assert(s[j] == d[j]);
    }
    assert(s[m] == 0x3b);
    assert(is_first_of(s, 0x3b, 0x3b, m));
    lemma_first_of_unique(s, 0x3b, 0x3b, m);
    assert(s.take(m) =~= d);
    assert(s.skip(m + 1) =~= r);
}

proof fn lemma_decimal_digits(d: Seq<u8>)
    requires
        d.len() > 0,
        all_digits(d),
        digits_value(d) <= 65535,
    ensures
        decimal(d, 65535) == Some(digits_value(d)),
        digits_value(d) <= 255 ==> decimal(d, 255) == Some(digits_value(d)),
        digits_value(d) > 255 ==> decimal(d, 255) is None,
{
    assert(0x30 <= d[0] <= 0x39);
}

/// Three `;`-separated runs of decimal digits that fit 16 bits are read as
/// their three numbers.
proof fn lemma_three_numbers(dc: Seq<u8>, dx: Seq<u8>, dy: Seq<u8>)
    requires
        dc.len() > 0,
        dx.len() > 0,
        dy.len() > 0,
        all_digits(dc),
        all_digits(dx),
        all_digits(dy),
        digits_value(dc) <= 65535,
        digits_value(dx) <= 65535,
        digits_value(dy) <= 65535,
    ensures
        three_numbers(dc + seq![0x3bu8] + dx + seq![0x3bu8] + dy) == Some((digits_value(dc), digits_value(dx), digits_value(dy))),
{
    let buf = dc + seq![0x3bu8] + dx + seq![0x3bu8] + dy;
    lemma_report_bytes(dc, dx, dy);
    assert forall|j: int| 0 <= j < buf.len() implies buf[j] < 0x80 by {
        assert(0x30 <= buf[j] <= 0x39 || buf[j] == 0x3b);
    }
    lemma_ascii_valid_utf8(buf);
    assert(buf =~= dc + seq![0x3bu8] + (dx + seq![0x3bu8] + dy));
    lemma_split_at_digits(dc, dx + seq![0x3bu8] + dy);
    lemma_split_at_digits(dx, dy);
    assert forall|j: int| 0 <= j < dy.len() implies dy[j] != 0x3b && dy[j] != 0x3b by {
        assert(0x30 <= dy[j] <= 0x39);
    }
    lemma_first_of_none(dy, 0x3b, 0x3b);
    assert(three_fields(buf) == Some((dc, dx, dy)));
    lemma_decimal_digits(dc);
    lemma_decimal_digits(dx);
    lemma_decimal_digits(dy);
}

/// Reading up to the first `m` or `M` of `body + [term] + rest`, where the
/// body holds only digits and `;`, stops at `term`.
proof fn lemma_first_terminator(body: Seq<u8>, term: u8, rest: Seq<u8>, a: u8, b: u8)
    requires
        digits_or_semicolons(body),
        term == a || term == b,
        !(0x30 <= a <= 0x39) && a != 0x3b,
        !(0x30 <= b <= 0x39) && b != 0x3b,
    ensures
        first_of(body + seq![term] + rest, a, b) == Some(body.len() as int),
        (body + seq![term] + rest).take(body.len() as int) == body,
        (body + seq![term] + rest)[body.len() as int] == term,
{
    let u = body + seq![term] + rest;
    let k = body.len() as int;
    assert forall|j: int| 0 <= j < k implies u[j] != a && u[j] != b by {
        assert(u[j] == body[j]);
        assert(0x30 <= body[j] <= 0x39 || body[j] == 0x3b);
    }
    assert(u[k] == term);
    assert(is_first_of(u, a, b, k));
    lemma_first_of_unique(u, a, b, k);
    assert(u.take(k) =~= body);
}

/// An xterm mouse report `ESC [ < c ; x ; y t` ended by `t` = `M` (press)
/// or `m` (release): codes 0, 1, 2 are the left, middle (wheel) and right
/// buttons, 64 and 65 the wheel turned up and down, and a press is reported
/// as such and a release as a release at `(x, y)`; codes 32, 33, 34 are
/// drags of the left, middle and right buttons, reported as drags whatever
/// ends them; code 3 is refused. The report is read up to and including
/// `t`, whatever follows.
#[verifier::spinoff_prover]
#[verifier::rlimit(50)]
pub proof fn lemma_sgr_report(dc: Seq<u8>, dx: Seq<u8>, dy: Seq<u8>, term: u8, rest: Seq<u8>)
    requires
        dc.len() > 0,
        dx.len() > 0,
        dy.len() > 0,
        all_digits(dc),
        all_digits(dx),
        all_digits(dy),
        digits_value(dc) <= 65535,
        digits_value(dx) <= 65535,
        digits_value(dy) <= 65535,
        term == 0x4d || term == 0x6d,
    ensures
        ({
            let body = seq![0x5bu8, 0x3cu8] + dc + seq![0x3bu8] + dx + seq![0x3bu8] + dy;
            let r = event_spec(0x1b, body + seq![term] + rest);
            let n = (body.len() + 1) as nat;
            let (c, x, y) = (digits_value(dc), digits_value(dx) as u16, digits_value(dy) as u16);
            let click = |b: MouseButton| if term == 0x4d {
                Ok::<Event, EventError>(Event::Mouse(MouseEvent::Press(b, x, y)))
            } else {
                Ok::<Event, EventError>(Event::Mouse(MouseEvent::Release(x, y)))
            };
            &&& c == 0 ==> r == Some((click(MouseButton::Left), n))
            &&& c == 1 ==> r == Some((click(MouseButton::Wheel), n))
            &&& c == 2 ==> r == Some((click(MouseButton::Right), n))
            &&& c == 64 ==> r == Some((click(MouseButton::WheelUp), n))
            &&& c == 65 ==> r == Some((click(MouseButton::WheelDown), n))
            &&& c == 32 ==> r == Some((Ok::<Event, EventError>(Event::Mouse(MouseEvent::Drag(MouseButton::LeftDrag, x, y))), n))
            &&& c == 33 ==> r == Some((Ok::<Event, EventError>(Event::Mouse(MouseEvent::Drag(MouseButton::WheelDrag, x, y))), n))
            &&& c == 34 ==> r == Some((Ok::<Event, EventError>(Event::Mouse(MouseEvent::Drag(MouseButton::RightDrag, x, y))), n))
            &&& c == 3 ==> r == Some((Err::<Event, EventError>(EventError::Unparsable), n))
        }),
{
    let buf = dc + seq![0x3bu8] + dx + seq![0x3bu8] + dy;
    let body = seq![0x5bu8, 0x3cu8] + dc + seq![0x3bu8] + dx + seq![0x3bu8] + dy;
    let s = body + seq![term] + rest;
    let t = s.drop_first();
    let u = t.drop_first();
    assert(u =~= buf + seq![term] + rest);
    lemma_report_bytes(dc, dx, dy);
    lemma_first_terminator(buf, term, rest, 0x6d, 0x4d);
    lemma_three_numbers(dc, dx, dy);
    assert(sgr_spec(u) == Some((sgr_event(digits_value(dc), digits_value(dx), digits_value(dy), term), (buf.len() + 1) as nat)));
    assert(s[0] == 0x5b);
    assert(t[0] == 0x3c);
    assert(csi_spec(t) == after(sgr_spec(u), 1));
    assert(body.len() == buf.len() + 2);
}

/// An rxvt mouse report `ESC [ c ; x ; y M` (the code starting with a
/// digit): codes 32, 33, 34 are presses of the left, middle (wheel) and
/// right buttons, 35 a release, 96 and 97 the wheel turned up, at `(x, y)`;
/// code 36 is refused. The report is read up to and including the `M`,
/// whatever follows.
#[verifier::spinoff_prover]
#[verifier::rlimit(50)]
pub proof fn lemma_rxvt_report(dc: Seq<u8>, dx: Seq<u8>, dy: Seq<u8>, rest: Seq<u8>)
    requires
        dc.len() > 0,
        dx.len() > 0,
        dy.len() > 0,
        all_digits(dc),
        all_digits(dx),
        all_digits(dy),
        digits_value(dc) <= 65535,
        digits_value(dx) <= 65535,
        digits_value(dy) <= 65535,
    ensures
        ({
            let body = seq![0x5bu8] + dc + seq![0x3bu8] + dx + seq![0x3bu8] + dy;
            let r = event_spec(0x1b, body + seq![0x4du8] + rest);
            let n = (body.len() + 1) as nat;
            let (c, x, y) = (digits_value(dc), digits_value(dx) as u16, digits_value(dy) as u16);
            &&& c == 32 ==> r == Some((Ok::<Event, EventError>(Event::Mouse(MouseEvent::Press(MouseButton::Left, x, y))), n))
            &&& c == 33 ==> r == Some((Ok::<Event, EventError>(Event::Mouse(MouseEvent::Press(MouseButton::Wheel, x, y))), n))
            &&& c == 34 ==> r == Some((Ok::<Event, EventError>(Event::Mouse(MouseEvent::Press(MouseButton::Right, x, y))), n))
            &&& c == 35 ==> r == Some((Ok::<Event, EventError>(Event::Mouse(MouseEvent::Release(x, y))), n))
            &&& c == 96 ==> r == Some((Ok::<Event, EventError>(Event::Mouse(MouseEvent::Press(MouseButton::WheelUp, x, y))), n))
            &&& c == 97 ==> r == Some((Ok::<Event, EventError>(Event::Mouse(MouseEvent::Press(MouseButton::WheelUp, x, y))), n))
            &&& c == 36 ==> r == Some((Err::<Event, EventError>(EventError::Unparsable), n))
        }),
{
    let buf = dc + seq![0x3bu8] + dx + seq![0x3bu8] + dy;
    let body = seq![0x5bu8] + dc + seq![0x3bu8] + dx + seq![0x3bu8] + dy;
    let s = body + seq![0x4du8] + rest;
    let t = s.drop_first();
    assert(t =~= buf + seq![0x4du8] + rest);
    let c0 = dc[0];
    assert(0x30 <= c0 <= 0x39);
    let tail = t.drop_first();
    let inner = buf.drop_first();
    assert(tail =~= inner + seq![0x4du8] + rest);
    lemma_report_bytes(dc, dx, dy);
    assert(digits_or_semicolons(inner)) by {
        assert forall|j: int| 0 <= j < inner.len() implies (0x30 <= #[trigger] inner[j] <= 0x39 || inner[j] == 0x3b) by {
            assert(inner[j] == buf[j + 1]);
        }
    }
    lemma_first_terminator(inner, 0x4d, rest, 0x4d, 0x7e);
    assert(seq![c0] + inner =~= buf);
    lemma_three_numbers(dc, dx, dy);
    assert(numbered_spec(c0, tail) == Some((rxvt_event(digits_value(dc), digits_value(dx), digits_value(dy)), (inner.len() + 1) as nat)));
    assert(s[0] == 0x5b);
    assert(t[0] == c0);
    assert(csi_spec(t) == after(numbered_spec(c0, tail), 1));
    assert(body.len() == buf.len() + 1);
}

/// `ESC [` followed by `A`, `B`, `C`, `D`, `H` or `F` is the up, down,
/// right or left arrow, Home or End, read in two bytes whatever follows.
pub proof fn lemma_csi_keys(c: u8, rest: Seq<u8>)
    ensures
        ({
            let r = event_spec(0x1b, seq![0x5bu8, c] + rest);
            &&& c == 0x41 ==> r == Some((Ok::<Event, EventError>(Event::Key(Key::Up)), 2nat))
            &&& c == 0x42 ==> r == Some((Ok::<Event, EventError>(Event::Key(Key::Down)), 2nat))
            &&& c == 0x43 ==> r == Some((Ok::<Event, EventError>(Event::Key(Key::Right)), 2nat))
            &&& c == 0x44 ==> r == Some((Ok::<Event, EventError>(Event::Key(Key::Left)), 2nat))
            &&& c == 0x48 ==> r == Some((Ok::<Event, EventError>(Event::Key(Key::Home)), 2nat))
            &&& c == 0x46 ==> r == Some((Ok::<Event, EventError>(Event::Key(Key::End)), 2nat))
        }),
{
    let s = seq![0x5bu8, c] + rest;
    assert(s[0] == 0x5b);
    assert(s.drop_first()[0] == c);
}

/// A special key code `ESC [ n ~`, with `n` a run of decimal digits: 1 and
/// 7 are Home, 2 Insert, 3 Delete, 4 and 8 End, 5 Page Up, 6 Page Down,
/// 11 to 15 function keys 1 to 5, 17 to 21 function keys 6 to 10, 23 and 24
/// function keys 11 and 12, and any other number up to 255 is refused; the
/// code is read up to and including the `~`, whatever follows. A number
/// above 255 has no answer.
#[verifier::spinoff_prover]
#[verifier::rlimit(50)]
pub proof fn lemma_tilde_keys(dn: Seq<u8>, rest: Seq<u8>)
    requires
        dn.len() > 0,
        all_digits(dn),
        digits_value(dn) <= 65535,
    ensures
        ({
            let body = seq![0x5bu8] + dn;
            let r = event_spec(0x1b, body + seq![0x7eu8] + rest);
            let n = digits_value(dn);
            let read = (body.len() + 1) as nat;
            let key = |k: Key| Some((Ok::<Event, EventError>(Event::Key(k)), read));
            &&& (n == 1 || n == 7) ==> r == key(Key::Home)
            &&& n == 2 ==> r == key(Key::Insert)
            &&& n == 3 ==> r == key(Key::Delete)
            &&& (n == 4 || n == 8) ==> r == key(Key::End)
            &&& n == 5 ==> r == key(Key::PageUp)
            &&& n == 6 ==> r == key(Key::PageDown)
            &&& 11 <= n <= 15 ==> r == key(Key::F((n - 10) as u8))
            &&& 17 <= n <= 21 ==> r == key(Key::F((n - 11) as u8))
            &&& 23 <= n <= 24 ==> r == key(Key::F((n - 12) as u8))
            &&& (n == 0 || n == 9 || n == 10 || n == 16 || n == 22 || 25 <= n <= 255)
                ==> r == Some((Err::<Event, EventError>(EventError::Unparsable), read))
            &&& n > 255 ==> r is None
        }),
{
    let body = seq![0x5bu8] + dn;
    let s = body + seq![0x7eu8] + rest;
    let t = s.drop_first();
    assert(t =~= dn + seq![0x7eu8] + rest);
    let c0 = dn[0];
    assert(0x30 <= c0 <= 0x39);
    let tail = t.drop_first();
    let inner = dn.drop_first();
    assert(tail =~= inner + seq![0x7eu8] + rest);
    assert(digits_or_semicolons(inner)) by {
        assert forall|j: int| 0 <= j < inner.len() implies (0x30 <= #[trigger] inner[j] <= 0x39 || inner[j] == 0x3b) by {
            assert(inner[j] == dn[j + 1]);
        }
    }
    lemma_first_terminator(inner, 0x7e, rest, 0x4d, 0x7e);
    assert(seq![c0] + inner =~= dn);
    assert forall|j: int| 0 <= j < dn.len() implies dn[j] < 0x80 by {
        assert(0x30 <= dn[j] <= 0x39);
    }
    lemma_ascii_valid_utf8(dn);
    lemma_decimal_digits(dn);
    assert(s[0] == 0x5b);
    assert(t[0] == c0);
    assert(csi_spec(t) == after(numbered_spec(c0, tail), 1));
}

/// An X10 mouse report `ESC [ M b x y`: button byte 32, 33, 34 is a press
/// of the left, middle (wheel) or right button, 35 a release, 96 and 97 the
/// wheel turned up and down; the coordinates are the bytes less 32 (0 below
/// that); five bytes are read, whatever follows.
pub proof fn lemma_x10_report(b: u8, x: u8, y: u8, rest: Seq<u8>)
    ensures
        ({
            let r = event_spec(0x1b, seq![0x5bu8, 0x4du8, b, x, y] + rest);
            let cx = (if x >= 32 { x - 32 } else { 0 }) as u16;
            let cy = (if y >= 32 { y - 32 } else { 0 }) as u16;
            let mouse = |m: MouseEvent| Some((Ok::<Event, EventError>(Event::Mouse(m)), 5nat));
            &&& b == 32 ==> r == mouse(MouseEvent::Press(MouseButton::Left, cx, cy))
            &&& b == 33 ==> r == mouse(MouseEvent::Press(MouseButton::Wheel, cx, cy))
            &&& b == 34 ==> r == mouse(MouseEvent::Press(MouseButton::Right, cx, cy))
            &&& b == 35 ==> r == mouse(MouseEvent::Release(cx, cy))
            &&& b == 96 ==> r == mouse(MouseEvent::Press(MouseButton::WheelUp, cx, cy))
            &&& b == 97 ==> r == mouse(MouseEvent::Press(MouseButton::WheelDown, cx, cy))
        }),
{
    let s = seq![0x5bu8, 0x4du8, b, x, y] + rest;
    let t = s.drop_first();
    let u = t.drop_first();
    assert(s[0] == 0x5b);
    assert(t[0] == 0x4d);
    assert(u[0] == b && u[1] == x && u[2] == y);
    assert(x10_coord(x) == (if x >= 32 { x - 32 } else { 0 }) as u16);
    assert(x10_coord(y) == (if y >= 32 { y - 32 } else { 0 }) as u16);
    assert(0u8 & 3 == 0 && 0u8 & 0x40 == 0) by (bit_vector);
    assert(1u8 & 3 == 1 && 1u8 & 0x40 == 0) by (bit_vector);
    assert(2u8 & 3 == 2) by (bit_vector);
    assert(3u8 & 3 == 3) by (bit_vector);
    assert(64u8 & 3 == 0 && 64u8 & 0x40 != 0) by (bit_vector);
    assert(65u8 & 3 == 1 && 65u8 & 0x40 != 0) by (bit_vector);
}

/// A control byte is a key on its own, read with nothing after it: Enter
/// (`\n` or `\r`) is the character `\n`, Tab the character `\t`, DEL is
/// Backspace, NUL is Null, bytes 1 to 26 are Ctrl with `a` to `z`, and
/// bytes 28 to 31 are Ctrl with `4` to `7`.
pub proof fn lemma_control_bytes(b: u8, rest: Seq<u8>)
    ensures
        ({
            let r = event_spec(b, rest);
            let key = |k: Key| Some((Ok::<Event, EventError>(Event::Key(k)), 0nat));
            &&& (b == 0x0a || b == 0x0d) ==> r == key(Key::Char('\n'))
            &&& b == 0x09 ==> r == key(Key::Char('\t'))
            &&& b == 0x7f ==> r == key(Key::Backspace)
            &&& b == 0 ==> r == key(Key::Null)
            &&& (1 <= b <= 26 && b != 0x09 && b != 0x0a && b != 0x0d) ==> r == key(Key::Ctrl(((b + 0x60) as u8) as char))
            &&& 28 <= b <= 31 ==> r == key(Key::Ctrl(((b + 0x18) as u8) as char))
        }),
{
}

} // verus!

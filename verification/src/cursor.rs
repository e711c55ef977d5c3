use vstd::prelude::*;

verus! {

/// One more digit `ch` after the number `acc`, in an integer type with `m`
/// values: the character's code is cut to the type (`ch as u16` or
/// `ch as u8`); `None` where `acc * 10`, the code less 48, or their sum
/// leaves the type.
pub open spec fn digit_step(acc: int, ch: char, m: int) -> Option<int> {
    let code = (ch as u32) as int % m;
    if acc * 10 > m - 1 || code < 48 || acc * 10 + code - 48 > m - 1 {
        None
    } else {
        Some(acc * 10 + code - 48)
    }
}

/// One character of a cursor position report `ESC [ row ; col R`, read in
/// the state `(stage, col, row)`: stage 0 waits for `[`, stage 1 reads the
/// row up to `;`, stage 2 the column up to `R`, stage 3 ignores the rest.
pub open spec fn report_step(st: (int, int, int), ch: char, m: int) -> Option<(int, int, int)> {
    let (stage, x, y) = st;
    if stage == 0 && ch == '[' {
        Some((1, x, y))
    } else if stage == 1 && ch != ';' {
        match digit_step(y, ch, m) {
            Some(ny) => Some((1, x, ny)),
            None => None,
        }
    } else if stage == 1 {
        Some((2, x, y))
    } else if stage == 2 && ch != 'R' {
        match digit_step(x, ch, m) {
            Some(nx) => Some((2, nx, y)),
            None => None,
        }
    } else if stage == 2 {
        Some((3, x, y))
    } else {
        Some(st)
    }
}

/// The state after reading all of `s` from stage 0 with both numbers 0.
pub open spec fn report_state(s: Seq<char>, m: int) -> Option<(int, int, int)>
    decreases s.len(),
{
    if s.len() == 0 {
        Some((0, 0, 0))
    } else {
        match report_state(s.drop_last(), m) {
            None => None,
            Some(st) => report_step(st, s.last(), m),
        }
    }
}

/// The column and the row that a cursor position report gives, in an
/// integer type with `m` values.
pub open spec fn cursor_report(s: Seq<char>, m: int) -> Option<(int, int)> {
    match report_state(s, m) {
        None => None,
        Some((_, x, y)) => Some((x, y)),
    }
}

/// Once a report has no answer, no longer report has one.
proof fn lemma_report_none_extends(s: Seq<char>, k: int, m: int)
    requires
        0 <= k <= s.len(),
        report_state(s.take(k), m) is None,
    ensures
        report_state(s, m) is None,
    decreases s.len() - k,
{
    if k == s.len() {
        assert(s.take(k) =~= s);
    } else {
        assert(s.take(k + 1).drop_last() =~= s.take(k));
        lemma_report_none_extends(s, k + 1, m);
    }
}

fn scan_report(chars: &[char], m: u32) -> (r: Option<(u32, u32)>)
    requires
        m == 256 || m == 65536,
    ensures
        r matches Some((x, y)) ==> x < m && y < m,
        match (r, cursor_report(chars@, m as int)) {
            (Some((x, y)), Some((a, b))) => x == a && y == b,
            (None, None) => true,
            _ => false,
        },
{
    let mut stage: u8 = 0;
    let mut x: u32 = 0;
    let mut y: u32 = 0;
    let mut i: usize = 0;
    assert(chars@.take(0) =~= Seq::<char>::empty());
    while i < chars.len()
        invariant
            m == 256 || m == 65536,
            i <= chars@.len(),
            x < m,
            y < m,
            report_state(chars@.take(i as int), m as int) == Some((stage as int, x as int, y as int)),
        decreases chars.len() - i,
    {
        let ch = chars[i];
        let ghost prefix = chars@.take(i + 1);
        assert(prefix.drop_last() =~= chars@.take(i as int));
        assert(prefix.last() == ch);
        let code: u32 = (ch as u32) % m;
        if stage == 0 && ch == '[' {
            stage = 1;
        } else if stage == 1 && ch != ';' {
            if y * 10 > m - 1 || code < 48 || y * 10 + code - 48 > m - 1 {
                proof { lemma_report_none_extends(chars@, i + 1, m as int); }
                return None;
            }
            y = y * 10 + code - 48;
        } else if stage == 1 {
            stage = 2;
        } else if stage == 2 && ch != 'R' {
            if x * 10 > m - 1 || code < 48 || x * 10 + code - 48 > m - 1 {
                proof { lemma_report_none_extends(chars@, i + 1, m as int); }
                return None;
            }
            x = x * 10 + code - 48;
        } else if stage == 2 {
            stage = 3;
        }
        i = i + 1;
    }
    assert(chars@.take(i as int) =~= chars@);
    Some((x, y))
}

/// Reads the column and the row of a cursor position report with 16-bit
/// numbers; `None` where a number leaves `u16` or a digit position holds a
/// character whose code, cut to 16 bits, is below `'0'`.
pub fn parse_cursor_report(chars: &[char]) -> (r: Option<(u16, u16)>)
    ensures
        match (r, cursor_report(chars@, 65536)) {
            (Some((x, y)), Some((a, b))) => x == a && y == b,
            (None, None) => true,
            _ => false,
        },
{
    match scan_report(chars, 65536) {
        Some((x, y)) => Some((x as u16, y as u16)),
        None => None,
    }
}

/// Reads the column and the row of a cursor position report with 8-bit
/// numbers; `None` where a number leaves `u8` or a digit position holds a
/// character whose code, cut to 8 bits, is below `'0'`.
pub fn parse_cursor_report_u8(chars: &[char]) -> (r: Option<(u8, u8)>)
    ensures
        match (r, cursor_report(chars@, 256)) {
            (Some((x, y)), Some((a, b))) => x == a && y == b,
            (None, None) => true,
            _ => false,
        },
{
    match scan_report(chars, 256) {
        Some((x, y)) => Some((x as u8, y as u8)),
        None => None,
    }
}


/// Every character of `s` is an ASCII decimal digit.
pub open spec fn all_char_digits(s: Seq<char>) -> bool {
    forall|i: int| 0 <= i < s.len() ==> 48 <= #[trigger] (s[i] as u32) <= 57
}

/// The number that the decimal digit characters `s` spell.
pub open spec fn char_digits_value(s: Seq<char>) -> int
    decreases s.len(),
{
    if s.len() == 0 {
        0
    } else {
        char_digits_value(s.drop_last()) * 10 + (s.last() as u32 - 48)
    }
}

proof fn lemma_char_digits_nonneg(s: Seq<char>)
    requires
        all_char_digits(s),
    ensures
        char_digits_value(s) >= 0,
    decreases s.len(),
{
    if s.len() > 0 {
        assert(all_char_digits(s.drop_last()));
        lemma_char_digits_nonneg(s.drop_last());
        assert(48 <= (s[s.len() - 1] as u32));
    }
}

/// Reading decimal digits at stage 1 (the row) or 2 (the column) that
/// start from 0 leaves the number they spell, when it fits.
proof fn lemma_read_digits(p: Seq<char>, d: Seq<char>, m: int, stage: int, other: int)
    requires
        m == 256 || m == 65536,
        stage == 1 || stage == 2,
        all_char_digits(d),
        char_digits_value(d) < m,
        report_state(p, m) == (if stage == 1 { Some((1int, other, 0int)) } else { Some((2int, 0int, other)) }),
    ensures
        report_state(p + d, m) == (if stage == 1 { Some((1int, other, char_digits_value(d))) } else {
            Some((2int, char_digits_value(d), other))
        }),
    decreases d.len(),
{
    if d.len() == 0 {
        assert(p + d =~= p);
    } else {
        let dl = d.drop_last();
        let c = d.last();
        assert((p + d).drop_last() =~= p + dl);
        assert((p + d).last() == c);
        assert(all_char_digits(dl));
        assert(48 <= (d[d.len() - 1] as u32) <= 57);
        lemma_char_digits_nonneg(dl);
        lemma_read_digits(p, dl, m, stage, other);
        assert(c != ';' && c != 'R') by {
            if c == ';' { assert((c as u32) == 59); }
            if c == 'R' { assert((c as u32) == 82); }
        }
        assert((c as u32) as int % m == (c as u32) as int);
    }
}

/// A report `ESC [ row ; col R` whose row and column are runs of decimal
/// digits spelling numbers that fit the integer type gives back that column
/// and row.
pub proof fn lemma_cursor_report_roundtrip(row: Seq<char>, col: Seq<char>, m: int)
    requires
        m == 256 || m == 65536,
        all_char_digits(row),
        all_char_digits(col),
        char_digits_value(row) < m,
        char_digits_value(col) < m,
    ensures
        cursor_report(seq!['\u{1b}', '['] + row + seq![';'] + col + seq!['R'], m)
            == Some((char_digits_value(col), char_digits_value(row))),
{
    let p0 = seq!['\u{1b}', '['];
    assert(p0.drop_last() =~= seq!['\u{1b}']);
    assert(seq!['\u{1b}'].drop_last() =~= Seq::<char>::empty());
    assert(seq!['\u{1b}'].last() == '\u{1b}');
    assert(report_state(Seq::<char>::empty(), m) == Some((0int, 0int, 0int)));
    assert(report_step((0int, 0int, 0int), '\u{1b}', m) == Some((0int, 0int, 0int)));
    assert(report_state(seq!['\u{1b}'], m) == Some((0int, 0int, 0int)));
    assert(report_state(p0, m) == Some((1int, 0int, 0int)));
    lemma_read_digits(p0, row, m, 1, 0);
    let p1 = p0 + row;
    let p2 = p1 + seq![';'];
    assert(p2.drop_last() =~= p1);
    assert(report_state(p2, m) == Some((2int, 0int, char_digits_value(row))));
    lemma_read_digits(p2, col, m, 2, char_digits_value(row));
    let p3 = p2 + col;
    let p4 = p3 + seq!['R'];
    assert(p4.drop_last() =~= p3);
    assert(p4 =~= seq!['\u{1b}', '['] + row + seq![';'] + col + seq!['R']);
}

} // verus!

use vstd::prelude::*;
use crate::event::Key;

verus! {

/// The state of the line being edited at the prompt: where the cursor is,
/// where the line began, and the terminal's size.
pub struct Term {
    pub line: Vec<String>,
    pub prompt: String,
    pub curs_x: u8,
    pub curs_y: u8,
    pub begin_x: u8,
    pub begin_y: u8,
    pub term_x: u8,
    pub term_y: u8,
}

impl Term {
    /// A line state for `prompt`, with every position at 0 and no text.
    pub fn new(prompt: String) -> (t: Term)
        ensures
            t.line@.len() == 0,
            t.prompt@ == prompt@,
            t.curs_x == 0,
            t.curs_y == 0,
            t.begin_x == 0,
            t.begin_y == 0,
            t.term_x == 0,
            t.term_y == 0,
    {
        Term {
            line: Vec::new(),
            prompt: prompt,
            curs_x: 0,
            curs_y: 0,
            begin_x: 0,
            begin_y: 0,
            term_x: 0,
            term_y: 0,
        }
    }
}

/// One thing to show on the terminal while a line is edited.
#[derive(Debug, Copy, Clone, PartialEq, Eq, Structural)]
pub enum Echo {
    /// Print the character at the cursor.
    Put(char),
    /// Move the cursor left by so many columns.
    Left(u16),
    /// Move the cursor right by so many columns.
    Right(u16),
}

/// The cursor move for a direction code: `0` is one column left, `1` one
/// column right, anything else no move.
pub fn move_it(way: u8) -> (r: Option<Echo>)
    ensures
        way == 0 ==> r == Some(Echo::Left(1)),
        way == 1 ==> r == Some(Echo::Right(1)),
        way > 1 ==> r is None,
{
    if way == 0 {
        Some(Echo::Left(1))
    } else if way == 1 {
        Some(Echo::Right(1))
    } else {
        None
    }
}

/// The cursor move by a signed number of columns: right when positive,
/// left when negative, none for 0.
pub fn move_to(way: i16) -> (r: Option<Echo>)
    requires
        way != i16::MIN,
    ensures
        way > 0 ==> r == Some(Echo::Right(way as u16)),
        way < 0 ==> r == Some(Echo::Left((-way) as u16)),
        way == 0 ==> r is None,
{
    if way > 0 {
        Some(Echo::Right(way as u16))
    } else if way < 0 {
        Some(Echo::Left((-way) as u16))
    } else {
        None
    }
}

/// What the line keeps of its text: the cursor column, the column where
/// the text began, the number of characters typed, and the characters.
pub struct EditView {
    pub curs_x: u8,
    pub begin_x: u8,
    pub size: u8,
    pub buf: Seq<char>,
}

/// The echo of one character.
pub open spec fn echo_put(c: char) -> Echo {
    Echo::Put(c)
}

/// The echo of each character of `s`, in order.
pub open spec fn put_all(s: Seq<char>) -> Seq<Echo>
    decreases s.len(),
{
    if s.len() == 0 {
        Seq::empty()
    } else {
        put_all(s.drop_last()).push(echo_put(s.last()))
    }
}

/// What one key does to the line: the new cursor column, character count
/// and text, what is shown, and whether the line is finished; `None` for
/// the keys that the line cannot take (a column or the count passes 255, or
/// Backspace falls outside the text).
pub open spec fn edit_spec(v: EditView, key: Key) -> Option<(u8, u8, Seq<char>, Seq<Echo>, bool)> {
    let unchanged = Some((v.curs_x, v.size, v.buf, Seq::<Echo>::empty(), false));
    match key {
        Key::Char(c) => if c == '\n' || c == '\0' {
            Some((v.curs_x, v.size, v.buf, Seq::<Echo>::empty(), true))
        } else if v.curs_x + 1 > 255 || v.size + 1 > 255 {
            None
        } else {
            Some(((v.curs_x + 1) as u8, (v.size + 1) as u8, v.buf.push(c), seq![Echo::Put(c)], false))
        },
        Key::Alt(c) => if v.curs_x + 2 > 255 || v.size + 1 > 255 {
            None
        } else {
            Some(((v.curs_x + 2) as u8, (v.size + 1) as u8, v.buf.push(c), seq![Echo::Put('^'), Echo::Put(c)], false))
        },
        Key::Ctrl(c) => if v.curs_x + 2 > 255 || v.size + 1 > 255 {
            None
        } else {
            Some(((v.curs_x + 2) as u8, (v.size + 1) as u8, v.buf.push(c), seq![Echo::Put('*'), Echo::Put(c)], false))
        },
        Key::Left => if v.curs_x > v.begin_x {
            Some(((v.curs_x - 1) as u8, v.size, v.buf, seq![Echo::Left(1)], false))
        } else {
            unchanged
        },
        Key::Right => if v.size + v.begin_x > 255 {
            None
        } else if v.curs_x < v.size + v.begin_x {
            Some(((v.curs_x + 1) as u8, v.size, v.buf, seq![Echo::Right(1)], false))
        } else {
            unchanged
        },
        Key::Backspace => if v.size > 0 && v.curs_x > v.begin_x {
            let idx = v.curs_x - 1 - v.begin_x;
            if idx >= v.buf.len() {
                None
            } else {
                let tail = v.buf.subrange(idx + 1, v.buf.len() as int);
                let back = if tail.len() > 0 { seq![Echo::Left(tail.len() as u16)] } else { Seq::<Echo>::empty() };
                Some((
                    (v.curs_x - 1) as u8,
                    (v.size - 1) as u8,
                    v.buf.remove(idx),
                    seq![Echo::Left(1)] + put_all(tail) + seq![Echo::Put(' ')] + back + seq![Echo::Left(1)],
                    false,
                ))
            }
        } else {
            unchanged
        },
        _ => unchanged,
    }
}

/// Adds the echo of each character of `buf` from `from` on to `out`.
fn append_puts(out: &mut Vec<Echo>, buf: &Vec<char>, from: usize)
    requires
        from <= buf@.len(),
    ensures
        final(out)@ == old(out)@ + put_all(buf@.subrange(from as int, buf@.len() as int)),
{
    let ghost start = old(out)@;
    let mut i = from;
    assert(out@ =~= start + put_all(buf@.subrange(from as int, i as int)));
    while i < buf.len()
        invariant
            from <= i <= buf@.len(),
            out@ == start + put_all(buf@.subrange(from as int, i as int)),
        decreases buf.len() - i,
    {
        let ghost prev = buf@.subrange(from as int, i as int);
        let c = buf[i];
        out.push(Echo::Put(c));
        i = i + 1;
        let ghost cur = buf@.subrange(from as int, i as int);
        assert(cur.drop_last() =~= prev);
        assert(cur.last() == c);
        assert(put_all(cur) == put_all(prev).push(echo_put(c)));
        assert(out@ =~= start + put_all(buf@.subrange(from as int, i as int)));
    }
}

/// A line being edited: its cursor state, the number of characters typed
/// and the characters.
struct LineState {
    term: Term,
    size: u8,
    buf: Vec<char>,
}

impl LineState {
    spec fn state_view(self) -> EditView {
        EditView { curs_x: self.term.curs_x, begin_x: self.term.begin_x, size: self.size, buf: self.buf@ }
    }

    spec fn state_rest(self) -> (u8, u8, u8, u8) {
        (self.term.curs_y, self.term.begin_y, self.term.term_x, self.term.term_y)
    }

    #[verifier::spinoff_prover]
    #[verifier::rlimit(50)]
    fn apply(&mut self, key: Key) -> (r: Option<(Vec<Echo>, bool)>)
        requires
            old(self).buf@.len() == old(self).size,
        ensures
            final(self).buf@.len() == final(self).size,
            final(self).state_rest() == old(self).state_rest(),
            match edit_spec(old(self).state_view(), key) {
                None => r is None && final(self).state_view() == old(self).state_view(),
                Some((cx, size, buf, echoes, done)) => r matches Some((e, d)) && e@ == echoes && d == done
                    && final(self).state_view() == (EditView { curs_x: cx, begin_x: old(self).state_view().begin_x, size, buf }),
            },
    {
        let mut out: Vec<Echo> = Vec::new();
        match key {
            Key::Char(c) => {
                if c == '\n' || c == '\0' {
                    return Some((out, true));
                }
                if self.term.curs_x == 255 || self.size == 255 {
                    return None;
                }
                self.term.curs_x = self.term.curs_x + 1;
                self.size = self.size + 1;
                self.buf.push(c);
                out.push(Echo::Put(c));
            },
            Key::Alt(c) => {
                if self.term.curs_x > 253 || self.size == 255 {
                    return None;
                }
                self.term.curs_x = self.term.curs_x + 2;
                self.size = self.size + 1;
                self.buf.push(c);
                out.push(Echo::Put('^'));
                out.push(Echo::Put(c));
            },
            Key::Ctrl(c) => {
                if self.term.curs_x > 253 || self.size == 255 {
                    return None;
                }
                self.term.curs_x = self.term.curs_x + 2;
                self.size = self.size + 1;
                self.buf.push(c);
                out.push(Echo::Put('*'));
                out.push(Echo::Put(c));
            },
            Key::Left => {
                if self.term.curs_x > self.term.begin_x {
                    self.term.curs_x = self.term.curs_x - 1;
                    out.push(Echo::Left(1));
                }
            },
            Key::Right => {
                if self.size as u16 + self.term.begin_x as u16 > 255 {
                    return None;
                }
                if self.term.curs_x < self.size + self.term.begin_x {
                    self.term.curs_x = self.term.curs_x + 1;
                    out.push(Echo::Right(1));
                }
            },
            Key::Backspace => {
                if self.size > 0 && self.term.curs_x > self.term.begin_x {
                    let idx = (self.term.curs_x - 1 - self.term.begin_x) as usize;
                    if idx >= self.buf.len() {
                        return None;
                    }
                    let ghost old_buf = self.buf@;
                    self.size = self.size - 1;
                    self.term.curs_x = self.term.curs_x - 1;
                    out.push(Echo::Left(1));
                    self.buf.remove(idx);
                    let taille = self.buf.len() - idx;
                    append_puts(&mut out, &self.buf, idx);
                    out.push(Echo::Put(' '));
                    assert(taille <= 255);
                    match move_to((taille as i16) * -1) {
                        Some(m) => out.push(m),
                        None => {},
                    }
                    out.push(Echo::Left(1));
                    assert(self.buf@.subrange(idx as int, self.buf@.len() as int) =~= old_buf.subrange(idx + 1, old_buf.len() as int));
                    proof {
                        let tail = old_buf.subrange(idx + 1, old_buf.len() as int);
                        let back = if tail.len() > 0 { seq![Echo::Left(tail.len() as u16)] } else { Seq::<Echo>::empty() };
                        assert(out@ =~= seq![Echo::Left(1)] + put_all(tail) + seq![Echo::Put(' ')] + back + seq![Echo::Left(1)]);
                    }
                }
            },
            _ => {},
        }
        Some((out, false))
    }
}

/// A line being edited: its cursor state, the number of characters typed
/// and the characters, which are always as many as that number says.
pub struct LineEditor {
    state: LineState,
}

impl LineEditor {
    /// The text holds as many characters as the count says.
    #[verifier::type_invariant]
    spec fn counts_match(self) -> bool {
        self.state.buf@.len() == self.state.size
    }

    /// The editable part of the state.
    pub closed spec fn view(self) -> EditView {
        self.state.state_view()
    }

    /// The cursor state apart from the columns.
    pub closed spec fn term_rest(self) -> (u8, u8, u8, u8) {
        self.state.state_rest()
    }

    /// An empty line at the cursor state `term`.
    pub fn new(term: Term) -> (e: LineEditor)
        ensures
            e.view().buf.len() == e.view().size,
            e.view() == (EditView { curs_x: term.curs_x, begin_x: term.begin_x, size: 0, buf: Seq::<char>::empty() }),
            e.term_rest() == (term.curs_y, term.begin_y, term.term_x, term.term_y),
    {
        LineEditor { state: LineState { term, size: 0, buf: Vec::new() } }
    }

    /// The characters typed so far.
    pub fn text(&self) -> (r: &Vec<char>)
        ensures
            r@ == self.view().buf,
    {
        &self.state.buf
    }

    /// The number of characters typed so far.
    pub fn size(&self) -> (r: u8)
        ensures
            r == self.view().size,
            r == self.view().buf.len(),
    {
        proof { use_type_invariant(self); }
        self.state.size
    }

    /// The cursor column.
    pub fn cursor_x(&self) -> (r: u8)
        ensures
            r == self.view().curs_x,
    {
        self.state.term.curs_x
    }

    /// Applies one key: what to show, and whether the line is finished;
    /// `None`, with the line unchanged, for a key the line cannot take.
    pub fn step(&mut self, key: Key) -> (r: Option<(Vec<Echo>, bool)>)
        ensures
            final(self).view().buf.len() == final(self).view().size,
            final(self).term_rest() == old(self).term_rest(),
            match edit_spec(old(self).view(), key) {
                None => r is None && final(self).view() == old(self).view(),
                Some((cx, size, buf, echoes, done)) => r matches Some((e, d)) && e@ == echoes && d == done
                    && final(self).view() == (EditView { curs_x: cx, begin_x: old(self).view().begin_x, size, buf }),
            },
    {
        proof { use_type_invariant(&*self); }
        let mut taken = LineEditor { state: LineState { term: Term::new(String::new()), size: 0, buf: Vec::new() } };
        std::mem::swap(self, &mut taken);
        proof { use_type_invariant(&taken); }
        let LineEditor { state } = taken;
        let mut state = state;
        let r = state.apply(key);
        *self = LineEditor { state };
        r
    }
}

} // verus!

verus! {

/// Typing a character at the end of the line and then erasing it with
/// Backspace leaves the line as it was: the same cursor column, count and
/// text; what Backspace shows steps back, blanks the cell and steps back.
pub proof fn lemma_type_then_erase(v: EditView, c: char)
    requires
        v.buf.len() == v.size,
        v.curs_x == v.begin_x + v.size,
        c != '\n',
        c != '\0',
        v.curs_x < 255,
        v.size < 255,
    ensures
        edit_spec(v, Key::Char(c)) matches Some((cx, size, buf, _, false))
            && edit_spec(EditView { curs_x: cx, begin_x: v.begin_x, size, buf }, Key::Backspace)
                matches Some((cx2, size2, buf2, shown, false))
            && cx2 == v.curs_x && size2 == v.size && buf2 == v.buf
            && shown == seq![Echo::Left(1), Echo::Put(' '), Echo::Left(1)],
{
    let typed = v.buf.push(c);
    assert(typed.remove(v.size as int) =~= v.buf);
    let tail = typed.subrange(v.size + 1, typed.len() as int);
    assert(tail =~= Seq::<char>::empty());
    assert(put_all(tail) == Seq::<Echo>::empty());
    assert(seq![Echo::Left(1)] + put_all(tail) + seq![Echo::Put(' ')] + Seq::<Echo>::empty() + seq![Echo::Left(1)]
        =~= seq![Echo::Left(1), Echo::Put(' '), Echo::Left(1)]);
}

} // verus!

verus! {

/// How far one echo moves the screen cursor, in columns.
pub open spec fn echo_move(e: Echo) -> int {
    match e {
        Echo::Put(_) => 1int,
        Echo::Left(n) => -(n as int),
        Echo::Right(n) => n as int,
    }
}

/// How far a sequence of echoes moves the screen cursor, in columns: a
/// printed character moves it one to the right.
pub open spec fn net_move(e: Seq<Echo>) -> int
    decreases e.len(),
{
    if e.len() == 0 {
        0
    } else {
        net_move(e.drop_last()) + echo_move(e.last())
    }
}

proof fn lemma_net_move_concat(a: Seq<Echo>, b: Seq<Echo>)
    ensures
        net_move(a + b) == net_move(a) + net_move(b),
    decreases b.len(),
{
    if b.len() == 0 {
        assert(a + b =~= a);
    } else {
        assert((a + b).drop_last() =~= a + b.drop_last());
        assert((a + b).last() == b.last());
        lemma_net_move_concat(a, b.drop_last());
    }
}

proof fn lemma_net_move_puts(t: Seq<char>)
    ensures
        net_move(put_all(t)) == t.len(),
    decreases t.len(),
{
    if t.len() > 0 {
        lemma_net_move_puts(t.drop_last());
        let p = put_all(t);
        assert(p.drop_last() =~= put_all(t.drop_last()));
        assert(p.last() == echo_put(t.last()));
    }
}

proof fn lemma_net_move_short(x: Echo, y: Echo)
    ensures
        net_move(seq![x]) == echo_move(x),
        net_move(seq![x, y]) == echo_move(x) + echo_move(y),
{
    assert(net_move(Seq::<Echo>::empty()) == 0);
    assert(seq![x].drop_last() =~= Seq::<Echo>::empty());
    assert(seq![x].last() == x);
    assert(net_move(seq![x]) == echo_move(x));
    assert(seq![x, y].drop_last() =~= seq![x]);
    assert(seq![x, y].last() == y);
}

/// What a key shows keeps the screen cursor on the line's cursor: for every
/// key the line takes without finishing, the echo moves the screen cursor
/// by exactly as many columns as the cursor column changes. For Backspace in
/// the middle of the line this is one step left, the redrawn tail and blank
/// undone by moving back over them.
pub proof fn lemma_echo_follows_cursor(v: EditView, key: Key)
    requires
        v.buf.len() == v.size,
    ensures
        edit_spec(v, key) matches Some((cx, _, _, shown, done)) ==> (!done ==> net_move(shown) == cx - v.curs_x),
{
    lemma_net_move_short(Echo::Left(1), Echo::Left(1));
    match key {
        Key::Char(c) => {
            lemma_net_move_short(Echo::Put(c), Echo::Put(c));
            assert(echo_move(Echo::Put(c)) == 1);
        },
        Key::Alt(c) => {
            lemma_net_move_short(Echo::Put('^'), Echo::Put(c));
            assert(echo_move(Echo::Put('^')) == 1);
            assert(echo_move(Echo::Put(c)) == 1);
        },
        Key::Ctrl(c) => {
            lemma_net_move_short(Echo::Put('*'), Echo::Put(c));
            assert(echo_move(Echo::Put('*')) == 1);
            assert(echo_move(Echo::Put(c)) == 1);
        },
        Key::Right => {
            lemma_net_move_short(Echo::Right(1), Echo::Right(1));
        },
        Key::Backspace => {
            if v.size > 0 && v.curs_x > v.begin_x {
                let idx = v.curs_x - 1 - v.begin_x;
                if idx < v.buf.len() {
                    let tail = v.buf.subrange(idx + 1, v.buf.len() as int);
                    assert(tail.len() <= 255);
                    let back = if tail.len() > 0 { seq![Echo::Left(tail.len() as u16)] } else { Seq::<Echo>::empty() };
                    let one_left = seq![Echo::Left(1)];
                    let blank = seq![Echo::Put(' ')];
                    lemma_net_move_short(Echo::Put(' '), Echo::Put(' '));
                    lemma_net_move_short(Echo::Left(tail.len() as u16), Echo::Left(1));
                    assert(net_move(Seq::<Echo>::empty()) == 0);
                    lemma_net_move_puts(tail);
                    lemma_net_move_concat(one_left, put_all(tail));
                    lemma_net_move_concat(one_left + put_all(tail), blank);
                    lemma_net_move_concat(one_left + put_all(tail) + blank, back);
                    lemma_net_move_concat(one_left + put_all(tail) + blank + back, one_left);
                }
            }
        },
        _ => {},
    }
}

} // verus!

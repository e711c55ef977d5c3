use vstd::prelude::*;
use crate::event::{Event, Key};

verus! {

/// The screen as the cat sees it: a matrix of cell marks, the cursor and
/// where the prompt began.
pub struct Term {
    pub matrix: Vec<Vec<u8>>,
    pub curs_x: u16,
    pub curs_y: u16,
    pub begin_x: u16,
    pub begin_y: u16,
}

impl Term {
    /// An empty matrix, every position at 0.
    pub fn new() -> (t: Term)
        ensures
            t.matrix@.len() == 0,
            t.curs_x == 0,
            t.curs_y == 0,
            t.begin_x == 0,
            t.begin_y == 0,
    {
        Term { matrix: Vec::new(), curs_x: 0, curs_y: 0, begin_x: 0, begin_y: 0 }
    }
}

/// How many rows of a block `height` rows high, drawn below row `y`, fit
/// above the terminal's last row `term_h`.
pub open spec fn rows_spec(y: u16, height: u16, term_h: u16) -> int {
    if y >= term_h {
        0
    } else if height <= term_h - y {
        height as int
    } else {
        term_h - y
    }
}

/// How many columns of a block `width` columns wide, starting at column
/// `x`, fit up to the terminal's last column `term_w`.
pub open spec fn cols_spec(x: u16, width: u16, term_w: u16) -> int {
    if x > term_w {
        0
    } else if width <= term_w - x + 1 {
        width as int
    } else {
        term_w - x + 1
    }
}

/// The number of rows of a block that are drawn: a row `i` (from 0) is
/// drawn while `i < height` and `y + i < term_h`.
pub fn visible_rows(y: u16, height: u16, term_h: u16) -> (r: u16)
    ensures
        r == rows_spec(y, height, term_h),
{
    let mut i: u16 = 0;
    while i < height && y + i < term_h
        invariant
            i <= height,
            y as int + i as int <= term_h || i == 0,
            i <= rows_spec(y, height, term_h),
        decreases height - i,
    {
        i = i + 1;
    }
    i
}

/// The number of columns of a block that are drawn: a column `j` (from 0)
/// is drawn while `j < width` and `j + x <= term_w`; `None` where `j + x`
/// passes the largest `u16`.
pub fn visible_cols(x: u16, width: u16, term_w: u16) -> (r: Option<u16>)
    ensures
        (term_w == u16::MAX && x + width > 65536) <==> r is None,
        r matches Some(c) ==> c == cols_spec(x, width, term_w),
{
    if term_w == u16::MAX && x as u32 + width as u32 > 65536 {
        return None;
    }
    let mut j: u16 = 0;
    while j < width && j + x <= term_w
        invariant
            j <= width,
            j <= cols_spec(x, width, term_w),
            j == 0 || j + x <= term_w + 1,
            !(term_w == u16::MAX && x + width > 65536),
        decreases width - j,
    {
        j = j + 1;
    }
    Some(j)
}

/// The cat drawn on the screen: its character, the position and size of
/// its block, and the terminal's size.
pub struct Neko {
    pub tmp_char: u8,
    pub char_exe: char,
    pub coord_exe: (u16, u16),
    pub event: Event,
    pub coord: (u16, u16),
    pub size: (u16, u16),
    pub term: (u16, u16),
}

/// `Neko::new` can mark its block in `matrix`: every row it marks exists
/// and is wide enough, and no column sum passes the largest `u16`.
pub open spec fn can_place(coord: (u16, u16), size: (u16, u16), matrix: Seq<Vec<u8>>, term: (u16, u16)) -> bool {
    let rows = rows_spec(coord.1, size.1, term.1);
    let cols = cols_spec(coord.0, size.0, term.0);
    &&& rows > 0 ==> !(term.0 == u16::MAX && coord.0 + size.0 > 65536)
    &&& (rows > 0 && cols > 0) ==> rows < matrix.len()
        && forall|r: int| 1 <= r <= rows ==> cols <= #[trigger] matrix[r]@.len()
}

/// The character that follows `t` in the cat's cycle: the next byte up to
/// `~`, then back to `!`.
pub open spec fn next_char(t: u8) -> u8 {
    if t <= 126 { (t + 1) as u8 } else { 33 }
}

/// The character after `n` steps of the cycle from `t`.
pub open spec fn switch_times(t: u8, n: nat) -> u8
    decreases n,
{
    if n == 0 { t } else { switch_times(next_char(t), (n - 1) as nat) }
}

proof fn lemma_switch_climbs(t: u8, k: nat)
    requires
        33 <= t <= 127,
        k <= 127 - t,
    ensures
        switch_times(t, k) == t + k,
    decreases k,
{
    if k > 0 {
        lemma_switch_climbs((t + 1) as u8, (k - 1) as nat);
    }
}

proof fn lemma_switch_compose(t: u8, a: nat, b: nat)
    ensures
        switch_times(t, a + b) == switch_times(switch_times(t, a), b),
    decreases a,
{
    if a > 0 {
        lemma_switch_compose(next_char(t), (a - 1) as nat, b);
        assert((a + b - 1) as nat == (a - 1) as nat + b);
    }
}

/// The cat's character goes through the 95 printable ASCII characters in
/// turn: from any of them, 95 switches come back to it, and every switch
/// stays among them.
pub proof fn lemma_switch_cycle(t: u8)
    requires
        33 <= t <= 127,
    ensures
        switch_times(t, 95) == t,
        33 <= next_char(t) <= 127,
{
    let up = (127 - t) as nat;
    lemma_switch_climbs(t, up);
    lemma_switch_compose(t, up, (95 - up) as nat);
    assert(switch_times(127, (95 - up) as nat) == switch_times(33, (95 - up - 1) as nat));
    lemma_switch_climbs(33, (95 - up - 1) as nat);
}

/// Whether `Neko::new` can mark its block in `matrix` (see `can_place`).
pub fn can_place_exec(coord: (u16, u16), size: (u16, u16), matrix: &Vec<Vec<u8>>, term: (u16, u16)) -> (r: bool)
    ensures
        r == can_place(coord, size, matrix@, term),
{
    let rows = visible_rows(coord.1, size.1, term.1);
    if rows == 0 {
        return true;
    }
    let cols = match visible_cols(coord.0, size.0, term.0) {
        None => return false,
        Some(c) => c,
    };
    if cols == 0 {
        return true;
    }
    if rows as usize >= matrix.len() {
        return false;
    }
    let mut r: usize = 1;
    while r <= rows as usize
        invariant
            1 <= r <= rows as usize + 1,
            (rows as usize) < matrix@.len(),
            rows == rows_spec(coord.1, size.1, term.1),
            cols == cols_spec(coord.0, size.0, term.0),
            forall|q: int| 1 <= q < r ==> cols <= #[trigger] matrix@[q]@.len(),
        decreases rows as usize + 1 - r,
    {
        if matrix[r].len() < cols as usize {
            return false;
        }
        r = r + 1;
    }
    true
}

impl Neko {
    /// A cat at `coord` of block `size`, on a terminal of size `term`: the
    /// cells of its block are marked 4 in rows 1 to the number of drawn
    /// rows and columns 0 to the number of drawn columns less one.
    #[verifier::spinoff_prover]
    #[verifier::rlimit(50)]
    pub fn new(coord: (u16, u16), size: (u16, u16), the: &mut Term, term: (u16, u16)) -> (n: Neko)
        requires
            can_place(coord, size, old(the).matrix@, term),
        ensures
            n.coord == coord,
            n.size == size,
            n.char_exe == 'j',
            n.coord_exe == (1u16, 2u16),
            n.tmp_char == 0x21,
            n.event == Event::Key(Key::Char('\0')),
            n.term == term,
            final(the).curs_x == old(the).curs_x,
            final(the).curs_y == old(the).curs_y,
            final(the).begin_x == old(the).begin_x,
            final(the).begin_y == old(the).begin_y,
            final(the).matrix@.len() == old(the).matrix@.len(),
            forall|r: int| 0 <= r < old(the).matrix@.len() ==> (#[trigger] final(the).matrix@[r])@.len() == old(the).matrix@[r]@.len(),
            forall|r: int, c: int| #![trigger final(the).matrix@[r]@[c]] 0 <= r < old(the).matrix@.len() && 0 <= c < old(the).matrix@[r]@.len() ==>
                final(the).matrix@[r]@[c] == if 1 <= r <= rows_spec(coord.1, size.1, term.1)
                    && c < cols_spec(coord.0, size.0, term.0) { 4u8 } else { old(the).matrix@[r]@[c] },
    {
        let ghost rows = rows_spec(coord.1, size.1, term.1);
        let ghost cols = cols_spec(coord.0, size.0, term.0);
        let ghost m0 = old(the).matrix@;
        let mut i: u16 = 0;
        while i < size.1 && coord.1 + i < term.1
            invariant
                can_place(coord, size, m0, term),
                rows == rows_spec(coord.1, size.1, term.1),
                cols == cols_spec(coord.0, size.0, term.0),
                i <= size.1,
                coord.1 as int + i as int <= term.1 || i == 0,
                i <= rows,
                the.curs_x == old(the).curs_x,
                the.curs_y == old(the).curs_y,
                the.begin_x == old(the).begin_x,
                the.begin_y == old(the).begin_y,
                the.matrix@.len() == m0.len(),
                forall|r: int| 0 <= r < m0.len() ==> (#[trigger] the.matrix@[r])@.len() == m0[r]@.len(),
                forall|r: int, c: int| #![trigger the.matrix@[r]@[c]] 0 <= r < m0.len() && 0 <= c < m0[r]@.len() ==>
                    the.matrix@[r]@[c] == if 1 <= r <= i && c < cols { 4u8 } else { m0[r]@[c] },
            decreases size.1 - i,
        {
            i = i + 1;
            let mut j: u16 = 0;
            while j < size.0 && j + coord.0 <= term.0
                invariant
                    can_place(coord, size, m0, term),
                    rows == rows_spec(coord.1, size.1, term.1),
                    cols == cols_spec(coord.0, size.0, term.0),
                    1 <= i <= rows,
                    j <= size.0,
                    j <= cols,
                    j == 0 || j + coord.0 <= term.0 + 1,
                    the.curs_x == old(the).curs_x,
                    the.curs_y == old(the).curs_y,
                    the.begin_x == old(the).begin_x,
                    the.begin_y == old(the).begin_y,
                    the.matrix@.len() == m0.len(),
                    forall|r: int| 0 <= r < m0.len() ==> (#[trigger] the.matrix@[r])@.len() == m0[r]@.len(),
                    forall|r: int, c: int| #![trigger the.matrix@[r]@[c]] 0 <= r < m0.len() && 0 <= c < m0[r]@.len() ==>
                        the.matrix@[r]@[c] == if (1 <= r < i && c < cols) || (r == i && c < j) { 4u8 } else { m0[r]@[c] },
                decreases size.0 - j,
            {
                assert(cols > 0);
                assert(i < m0.len());
                assert(cols <= m0[i as int]@.len());
                the.matrix[i as usize][j as usize] = 4;
                j = j + 1;
            }
        }
        Neko {
            coord: coord,
            size: size,
            char_exe: 'j',
            coord_exe: (1, 2),
            tmp_char: 0x21,
            event: Event::Key(Key::Char('\0')),
            term: term,
        }
    }

    /// Moves the cat's character to the next printable one, from `~`
    /// (and above) back to `!`.
    pub fn switch(&mut self)
        ensures
            final(self).tmp_char == next_char(old(self).tmp_char),
            final(self).char_exe == old(self).char_exe,
            final(self).coord_exe == old(self).coord_exe,
            final(self).event == old(self).event,
            final(self).coord == old(self).coord,
            final(self).size == old(self).size,
            final(self).term == old(self).term,
    {
        if self.tmp_char <= 126 {
            self.tmp_char = self.tmp_char + 1;
        } else {
            self.tmp_char = 33;
        }
    }

    /// Whether the bottom of the cat's block is the terminal's last row;
    /// `None` where the sum passes the largest `u16`.
    pub fn touches_bottom(&self) -> (r: Option<bool>)
        ensures
            self.coord.1 + self.size.1 > u16::MAX <==> r is None,
            r matches Some(b) ==> b == (self.coord.1 + self.size.1 == self.term.1),
    {
        match self.coord.1.checked_add(self.size.1) {
            None => None,
            Some(bottom) => Some(bottom == self.term.1),
        }
    }
}

} // verus!

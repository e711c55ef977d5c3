use vstd::prelude::*;
use std::collections::VecDeque;
use crate::deque::deque_capacity;
use crate::bytes::copy_range;

verus! {

/// The size of a terminal window, in characters and in pixels.
#[derive(Debug, Copy, Clone, PartialEq, Eq, Structural)]
pub struct WindowSize {
    pub ws_row: u16,
    pub ws_col: u16,
    pub ws_xpixel: u16,
    pub ws_ypixel: u16,
}

/// The lines a pseudo-terminal printed, and its window size.
pub struct Page {
    lines: VecDeque<Vec<u8>>,
    size: WindowSize,
}

/// The window size of a page that was never resized.
pub open spec fn zero_size() -> WindowSize {
    WindowSize { ws_row: 0, ws_col: 0, ws_xpixel: 0, ws_ypixel: 0 }
}

/// An input that makes the page greet: a single `.`.
pub open spec fn greeting_input(input: Seq<u8>) -> bool {
    input == seq![46u8]
}

/// The lines a page keeps after `line` is pushed onto `lines`: the oldest
/// one is dropped, if there is one.
pub open spec fn after_push(lines: Seq<Vec<u8>>, line: Vec<u8>) -> Seq<Vec<u8>> {
    (if lines.len() > 0 { lines.drop_first() } else { lines }).push(line)
}

/// A page holds at most one line, the one pushed last: pushing onto a page
/// of at most one line leaves just the new line.
pub proof fn lemma_page_keeps_last_line(lines: Seq<Vec<u8>>, line: Vec<u8>)
    requires
        lines.len() <= 1,
    ensures
        after_push(lines, line) == seq![line],
{
    if lines.len() > 0 {
        assert(lines.drop_first() =~= Seq::<Vec<u8>>::empty());
    }
    assert(after_push(lines, line) =~= seq![line]);
}

impl Page {
    /// The lines kept, oldest first.
    pub closed spec fn lines(self) -> Seq<Vec<u8>> {
        self.lines@
    }

    /// The window size.
    pub closed spec fn window(self) -> WindowSize {
        self.size
    }

    /// An empty page, room made for `limit` lines.
    pub fn new(limit: usize) -> (p: Page)
        ensures
            p.lines().len() == 0,
            p.window() == zero_size(),
    {
        Page {
            lines: VecDeque::with_capacity(limit),
            size: WindowSize { ws_row: 0, ws_col: 0, ws_xpixel: 0, ws_ypixel: 0 },
        }
    }

    /// Keeps `line`. The oldest line is dropped first whenever the deque's
    /// capacity is at least its length, which it always is: so a page keeps
    /// only the line pushed last.
    pub fn push(&mut self, line: Vec<u8>)
        ensures
            final(self).lines() == after_push(old(self).lines(), line),
            final(self).window() == old(self).window(),
    {
        if deque_capacity(&self.lines) >= self.lines.len() {
            let _ = self.lines.pop_front();
        }
        assert(old(self).lines@.len() > 0 ==> old(self).lines@.subrange(1, old(self).lines@.len() as int) =~= old(self).lines@.drop_first());
        self.lines.push_back(line);
    }

    /// Keeps a copy of what the pseudo-terminal printed.
    pub fn output(&mut self, output: &[u8])
        ensures
            final(self).lines().len() > 0,
            final(self).lines().drop_last() == (if old(self).lines().len() > 0 {
                old(self).lines().drop_first()
            } else {
                old(self).lines()
            }),
            final(self).lines().last()@ == output@,
            final(self).window() == old(self).window(),
    {
        let line = copy_range(output, 0, output.len());
        assert(output@.subrange(0, output@.len() as int) =~= output@);
        self.push(line);
        assert(self.lines@.drop_last() =~= (if old(self).lines@.len() > 0 {
            old(self).lines@.drop_first()
        } else {
            old(self).lines@
        }));
    }

    /// The number of lines kept.
    pub fn line_count(&self) -> (r: usize)
        ensures
            r == self.lines().len(),
    {
        self.lines.len()
    }

    /// The line kept last, if any.
    pub fn last_line(&self) -> (r: Option<&Vec<u8>>)
        ensures
            self.lines().len() == 0 ==> r is None,
            self.lines().len() > 0 ==> r == Some(&self.lines().last()),
    {
        let n = self.lines.len();
        if n == 0 {
            None
        } else {
            Some(&self.lines[n - 1])
        }
    }

    /// The window size.
    pub fn size(&self) -> (r: WindowSize)
        ensures
            r == self.window(),
    {
        self.size
    }

    /// Whether `input` makes the page greet.
    pub fn greets(input: &[u8]) -> (r: bool)
        ensures
            r == greeting_input(input@),
    {
        if input.len() == 1 && input[0] == 46 {
            assert(input@ =~= seq![46u8]);
            true
        } else {
            false
        }
    }

    /// Takes the new window size.
    pub fn resize(&mut self, winsize: &WindowSize)
        ensures
            final(self).window() == *winsize,
            final(self).lines() == old(self).lines(),
    {
        self.size = *winsize;
    }
}

impl Default for Page {
    /// A page with room made for 1024 lines.
    fn default() -> (p: Page)
        ensures
            p.lines().len() == 0,
            p.window() == zero_size(),
    {
        Page::new(1024)
    }
}

} // verus!

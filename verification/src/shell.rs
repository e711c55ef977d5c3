use vstd::prelude::*;
use std::collections::VecDeque;
use crate::deque::deque_capacity;
use crate::bytes::copy_range;

verus! {

/// What the shell reports of a key typed at it.
#[derive(Debug, PartialEq, Eq)]
pub enum ShellEvent {
    /// A key other than Enter.
    KeyDown(u8),
    /// Enter: the whole line typed, the Enter key included.
    KeyDownEnterCommand(Vec<u8>),
}

/// Whether a read from the pseudo-terminal of `len` bytes is kept:
/// `usize::checked_neg` is `None` for every length but 0.
pub open spec fn output_kept(len: usize) -> bool {
    len != 0
}

/// Combines what one wait on the two channels brought: a key read from the
/// keyboard (the buffer's first byte and the number of bytes read) or a
/// chunk read from the pseudo-terminal (with its length). A chunk of length
/// 0 is dropped; a keyboard read that is not exactly one byte ends the
/// stream, as does a wait that brought nothing.
pub fn merge_reads<T>(rx_in: Option<(u8, usize)>, rx_out: Option<(T, usize)>) -> (r: Option<(Option<u8>, Option<(T, usize)>)>)
    ensures
        ({
            let out = match rx_out {
                Some((buf, len)) => if output_kept(len) { Some((buf, len)) } else { None },
                None => None,
            };
            r == match (rx_in, out) {
                (None, None) => None,
                (None, o) => Some((None, o)),
                (Some((key, n)), o) => if n == 1 { Some((Some(key), o)) } else { None },
            }
        }),
        rx_in is None && rx_out is None ==> r is None,
        rx_in is None ==> (rx_out matches Some((buf, len)) ==> (len > 0 ==> r == Some((None::<u8>, Some((buf, len)))))),
        rx_in is None && (rx_out matches Some((_, len)) && len == 0) ==> r is None,
        rx_out is None ==> (rx_in matches Some((key, n)) ==> (n == 1 ==> r == Some((Some(key), None::<(T, usize)>)))),
        (rx_in matches Some((_, n)) && n != 1) ==> r is None,
{
    let out = match rx_out {
        Some((buf, len)) => if len != 0 { Some((buf, len)) } else { None },
        None => None,
    };
    match (rx_in, out) {
        (None, None) => None,
        (None, o) => Some((None, o)),
        (Some((key, 1)), o) => Some((Some(key), o)),
        _ => None,
    }
}

/// The shell's history: every byte it printed, kept up to the buffer's
/// capacity, and the lines typed at it, the last one still open.
pub struct ShellBuffers {
    output: VecDeque<u8>,
    input: VecDeque<Vec<u8>>,
}

/// The room the buffer of printed bytes is made with. Its capacity never
/// falls below it: `VecDeque::with_capacity` makes room for at least this
/// many, and nothing here shrinks the buffer.
pub const OUTPUT_ROOM: usize = 4096;

/// The views of a sequence of lines.
pub open spec fn line_views(lines: Seq<Vec<u8>>) -> Seq<Seq<u8>> {
    lines.map_values(|l: Vec<u8>| l@)
}

/// The lines typed after the key `key` is added to `lines`: the key ends
/// the last line, if there is one; `\n` and `\r` then open a new empty line.
pub open spec fn typed_after(lines: Seq<Seq<u8>>, key: u8) -> Seq<Seq<u8>> {
    let updated = if lines.len() > 0 { lines.drop_last().push(lines.last().push(key)) } else { lines };
    if key != 10 && key != 13 { updated } else { updated.push(Seq::<u8>::empty()) }
}

/// The line that `\n` or `\r` closes: the last line with the key, or no
/// bytes when there was no line.
pub open spec fn entered_line(lines: Seq<Seq<u8>>, key: u8) -> Seq<u8> {
    if lines.len() > 0 { lines.last().push(key) } else { Seq::<u8>::empty() }
}

/// The shell always has a line open: it starts with one, a key keeps their
/// number, and Enter (`\n` or `\r`) adds exactly one.
pub proof fn lemma_typed_lines_grow(lines: Seq<Seq<u8>>, key: u8)
    requires
        lines.len() >= 1,
    ensures
        typed_after(lines, key).len() == lines.len() + (if key == 10 || key == 13 { 1int } else { 0int }),
        typed_after(lines, key).len() >= 1,
{
}

/// The lines typed after the keys `keys` came in, in order, starting from
/// `lines`; a read that brought no key leaves them as they are.
pub open spec fn typed_after_all(lines: Seq<Seq<u8>>, keys: Seq<Option<u8>>) -> Seq<Seq<u8>>
    decreases keys.len(),
{
    if keys.len() == 0 {
        lines
    } else {
        let before = typed_after_all(lines, keys.drop_last());
        match keys.last() {
            None => before,
            Some(k) => typed_after(before, k),
        }
    }
}

/// How many of the keys are Enter (`\n` or `\r`).
pub open spec fn enters(keys: Seq<Option<u8>>) -> nat
    decreases keys.len(),
{
    if keys.len() == 0 {
        0
    } else {
        enters(keys.drop_last()) + if keys.last() == Some(10u8) || keys.last() == Some(13u8) { 1nat } else { 0nat }
    }
}

/// Over a whole run of reads from a fresh shell, one line is open at the
/// start and each Enter adds one: the shell keeps `1 + enters` lines, never
/// fewer than one.
pub proof fn lemma_typed_lines_over_run(keys: Seq<Option<u8>>)
    ensures
        typed_after_all(seq![Seq::<u8>::empty()], keys).len() == 1 + enters(keys),
        typed_after_all(seq![Seq::<u8>::empty()], keys).len() >= 1,
    decreases keys.len(),
{
    if keys.len() > 0 {
        lemma_typed_lines_over_run(keys.drop_last());
        if let Some(k) = keys.last() {
            lemma_typed_lines_grow(typed_after_all(seq![Seq::<u8>::empty()], keys.drop_last()), k);
        }
    }
}

impl ShellBuffers {
    /// The bytes printed that are kept, oldest first.
    pub closed spec fn printed(self) -> Seq<u8> {
        self.output@
    }

    /// The lines typed, oldest first; the last one is still being typed.
    pub closed spec fn typed(self) -> Seq<Seq<u8>> {
        line_views(self.input@)
    }

    /// Empty history, with one empty line open.
    pub fn new() -> (b: ShellBuffers)
        ensures
            b.printed().len() == 0,
            b.typed() == seq![Seq::<u8>::empty()],
    {
        let mut input: VecDeque<Vec<u8>> = VecDeque::with_capacity(1024);
        input.push_back(Vec::with_capacity(1024));
        let b = ShellBuffers { output: VecDeque::with_capacity(OUTPUT_ROOM), input };
        assert(b.typed() =~= seq![Seq::<u8>::empty()]);
        b
    }

    /// A copy of the bytes printed that are kept.
    pub fn printed_bytes(&self) -> (r: Vec<u8>)
        ensures
            r@ == self.printed(),
    {
        let mut r: Vec<u8> = Vec::new();
        let mut i: usize = 0;
        while i < self.output.len()
            invariant
                i <= self.output@.len(),
                r@ == self.output@.take(i as int),
            decreases self.output@.len() - i,
        {
            r.push(self.output[i]);
            i = i + 1;
            assert(r@ =~= self.output@.take(i as int));
        }
        assert(self.output@.take(i as int) =~= self.output@);
        r
    }

    /// Keeps `chunk` when the buffer's capacity is `cap`: when the kept
    /// bytes and the chunk would not fit below it, as many of the oldest
    /// bytes as the chunk has are dropped first. `false`, with nothing kept,
    /// where fewer bytes are kept than would have to be dropped, or the sum
    /// passes the largest `usize`.
    pub fn record_output_within(&mut self, chunk: &[u8], cap: usize) -> (r: bool)
        requires
            cap >= old(self).printed().len(),
        ensures
            final(self).typed() == old(self).typed(),
            ({
                let old_out = old(self).printed();
                let n = chunk@.len();
                if old_out.len() + n > usize::MAX {
                    !r && final(self).printed() == old_out
                } else if old_out.len() + n >= cap {
                    if old_out.len() < n {
                        !r && final(self).printed() == old_out
                    } else {
                        r && final(self).printed() == old_out.skip(n as int) + chunk@
                    }
                } else {
                    r && final(self).printed() == old_out + chunk@
                }
            }),
    {
        let len = self.output.len();
        let n = chunk.len();
        if len > usize::MAX - n {
            return false;
        }
        let ghost start = self.output@;
        if len + n >= cap {
            if len < n {
                return false;
            }
            let mut k: usize = 0;
            while k < n
                invariant
                    k <= n <= start.len(),
                    self.output@ == start.skip(k as int),
                    self.input == old(self).input,
                decreases n - k,
            {
                let _ = self.output.pop_front();
                k = k + 1;
                assert(start.skip(k - 1).subrange(1, start.skip(k - 1).len() as int) =~= start.skip(k as int));
            }
        }
        let ghost mid = self.output@;
        let mut i: usize = 0;
        while i < n
            invariant
                i <= n == chunk@.len(),
                self.output@ == mid + chunk@.take(i as int),
                self.input == old(self).input,
            decreases n - i,
        {
            self.output.push_back(chunk[i]);
            i = i + 1;
            assert(self.output@ =~= mid + chunk@.take(i as int));
        }
        assert(chunk@.take(n as int) =~= chunk@);
        assert(start.skip(0) =~= start);
        true
    }

    /// Keeps `chunk`, dropping old bytes as `record_output_within` does at
    /// whatever capacity the buffer has now; `false` where that drop is not
    /// possible.
    pub fn record_output(&mut self, chunk: &[u8]) -> (r: bool)
        ensures
            final(self).typed() == old(self).typed(),
            r ==> final(self).printed() == old(self).printed() + chunk@
                || (old(self).printed().len() >= chunk@.len()
                    && final(self).printed() == old(self).printed().skip(chunk@.len() as int) + chunk@),
            !r ==> final(self).printed() == old(self).printed(),
            !r ==> old(self).printed().len() < chunk@.len() || old(self).printed().len() + chunk@.len() > usize::MAX,
            old(self).printed().len() + chunk@.len() < OUTPUT_ROOM ==> r && final(self).printed() == old(self).printed() + chunk@,
    {
        let cap = deque_capacity(&self.output);
        // The buffer was made with room for `OUTPUT_ROOM` bytes and is never
        // shrunk, so its capacity is at least that; the floor states it.
        let cap = if cap < OUTPUT_ROOM { OUTPUT_ROOM } else { cap };
        self.record_output_within(chunk, cap)
    }

    /// What the shell makes of one wait on its channels: the chunk read
    /// from the pseudo-terminal, if any, is kept first, then the key read
    /// from the keyboard, if any, is added to the lines. `None`, with the
    /// lines unchanged, where the chunk cannot be kept; otherwise the key's
    /// report, or `None` inside when no key came. Only Enter adds a line.
    pub fn handle_read(&mut self, rx_in: Option<u8>, rx_out: Option<&[u8]>) -> (r: Option<Option<ShellEvent>>)
        ensures
            r is None ==> final(self).typed() == old(self).typed() && final(self).printed() == old(self).printed(),
            r is None ==> rx_out is Some,
            rx_out is None ==> r is Some,
            rx_out matches Some(c) ==> (old(self).printed().len() + c@.len() < OUTPUT_ROOM
                ==> r is Some && final(self).printed() == old(self).printed() + c@),
            rx_in is None && r is Some ==> r == Some(None::<ShellEvent>),
            r is Some ==> final(self).typed() == typed_after_all(old(self).typed(), seq![rx_in]),
            rx_out matches Some(c) && old(self).printed().len() >= c@.len()
                && old(self).printed().len() + c@.len() <= usize::MAX ==> r is Some,
            r matches Some(ev) ==> match rx_in {
                None => ev is None && final(self).typed() == old(self).typed(),
                Some(k) => final(self).typed() == typed_after(old(self).typed(), k) && ev is Some
                    && (k != 10 && k != 13 ==> ev == Some(ShellEvent::KeyDown(k)))
                    && (k == 10 || k == 13 ==> (ev matches Some(ShellEvent::KeyDownEnterCommand(l))
                        && l@ == entered_line(old(self).typed(), k))),
            },
            r matches Some(ev) ==> match rx_out {
                None => final(self).printed() == old(self).printed(),
                Some(chunk) => final(self).printed() == old(self).printed() + chunk@
                    || (old(self).printed().len() >= chunk@.len()
                        && final(self).printed() == old(self).printed().skip(chunk@.len() as int) + chunk@),
            },
            final(self).typed().len() == old(self).typed().len()
                + (if r matches Some(Some(ShellEvent::KeyDownEnterCommand(_))) { 1int } else { 0int }),
    {
        match rx_out {
            Some(chunk) => {
                if !self.record_output(chunk) {
                    return None;
                }
            },
            None => {},
        }
        let ghost lines = self.typed();
        assert(seq![rx_in].drop_last() =~= Seq::<Option<u8>>::empty());
        assert(typed_after_all(lines, Seq::<Option<u8>>::empty()) == lines);
        match rx_in {
            None => Some(None),
            Some(k) => Some(Some(self.record_input(k))),
        }
    }

    /// Adds the key `key` to the line being typed: a key other than `\n`
    /// and `\r` is reported as such; those two close the line, which is
    /// reported whole, and open a new empty one.
    pub fn record_input(&mut self, key: u8) -> (r: ShellEvent)
        ensures
            final(self).printed() == old(self).printed(),
            final(self).typed() == typed_after(old(self).typed(), key),
            key != 10 && key != 13 ==> r == ShellEvent::KeyDown(key),
            key == 10 || key == 13 ==> (r matches ShellEvent::KeyDownEnterCommand(l)
                && l@ == entered_line(old(self).typed(), key)),
    {
        let ghost lines = old(self).input@;
        let line = match self.input.pop_back() {
            Some(mut last) => {
                last.push(key);
                let line = copy_range(last.as_slice(), 0, last.len());
                assert(last@.subrange(0, last@.len() as int) =~= last@);
                self.input.push_back(last);
                proof {
                    let updated = line_views(lines).drop_last().push(line_views(lines).last().push(key));
                    assert(line_views(self.input@) =~= updated);
                }
                line
            },
            None => {
                assert(line_views(self.input@) =~= line_views(lines));
                Vec::new()
            },
        };
        if key != 10 && key != 13 {
            ShellEvent::KeyDown(key)
        } else {
            let ghost before = self.input@;
            self.input.push_back(Vec::with_capacity(1024));
            proof {
                assert(line_views(self.input@) =~= line_views(before).push(Seq::<u8>::empty()));
            }
            ShellEvent::KeyDownEnterCommand(line)
        }
    }
}

} // verus!

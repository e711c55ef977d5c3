use vstd::prelude::*;

verus! {

/// `k` is the first position of `s` that holds `a` or `b`.
pub open spec fn is_first_of(s: Seq<u8>, a: u8, b: u8, k: int) -> bool {
    &&& 0 <= k < s.len()
    &&& (s[k] == a || s[k] == b)
    &&& forall|j: int| 0 <= j < k ==> s[j] != a && s[j] != b
}

/// The first position of `s` that holds `a` or `b`, if any does.
pub open spec fn first_of(s: Seq<u8>, a: u8, b: u8) -> Option<int> {
    if exists|k: int| is_first_of(s, a, b, k) {
        Some(choose|k: int| is_first_of(s, a, b, k))
    } else {
        None
    }
}

/// The first position is unique.
pub proof fn lemma_first_of_unique(s: Seq<u8>, a: u8, b: u8, k: int)
    requires
        is_first_of(s, a, b, k),
    ensures
        first_of(s, a, b) == Some(k),
{
    let c = choose|k: int| is_first_of(s, a, b, k);
    assert(is_first_of(s, a, b, c));
    if c < k {
        assert(s[c] != a && s[c] != b);
    } else if k < c {
        assert(s[k] != a && s[k] != b);
    }
}

/// No position holds `a` or `b`.
pub proof fn lemma_first_of_none(s: Seq<u8>, a: u8, b: u8)
    requires
        forall|j: int| 0 <= j < s.len() ==> s[j] != a && s[j] != b,
    ensures
        first_of(s, a, b) is None,
{
    if exists|k: int| is_first_of(s, a, b, k) {
        let k = choose|k: int| is_first_of(s, a, b, k);
        assert(s[k] != a && s[k] != b);
    }
}

/// The first position stays first when what follows it is replaced.
pub proof fn lemma_first_of_prefix(s: Seq<u8>, a: u8, b: u8, k: int, t: Seq<u8>)
    requires
        first_of(s, a, b) == Some(k),
    ensures
        0 <= k < s.len(),
        first_of(s.take(k + 1) + t, a, b) == Some(k),
{
    let c = choose|k: int| is_first_of(s, a, b, k);
    assert(is_first_of(s, a, b, c));
    let s2 = s.take(k + 1) + t;
    assert forall|j: int| 0 <= j <= k implies s2[j] == s[j] by {}
    assert(is_first_of(s2, a, b, k));
    lemma_first_of_unique(s2, a, b, k);
}

/// What `str::split(';')` yields first: the text before the first `;`, and,
/// when there is a `;`, the text after it.
pub open spec fn split_field(s: Seq<u8>) -> (Seq<u8>, Option<Seq<u8>>) {
    match first_of(s, 0x3b, 0x3b) {
        Some(k) => (s.take(k), Some(s.skip(k + 1))),
        None => (s, None),
    }
}

/// The first three `;`-separated fields of `s`, when it has at least three.
pub open spec fn three_fields(s: Seq<u8>) -> Option<(Seq<u8>, Seq<u8>, Seq<u8>)> {
    let (f0, r0) = split_field(s);
    match r0 {
        None => None,
        Some(r0) => {
            let (f1, r1) = split_field(r0);
            match r1 {
                None => None,
                Some(r1) => Some((f0, f1, split_field(r1).0)),
            }
        },
    }
}

/// Every byte of `s` is an ASCII decimal digit.
pub open spec fn all_digits(s: Seq<u8>) -> bool {
    forall|i: int| 0 <= i < s.len() ==> 0x30 <= #[trigger] s[i] <= 0x39
}

/// The number that the decimal digits `s` spell.
pub open spec fn digits_value(s: Seq<u8>) -> int
    decreases s.len(),
{
    if s.len() == 0 {
        0
    } else {
        digits_value(s.drop_last()) * 10 + (s.last() - 0x30)
    }
}

/// What `FromStr` gives for an unsigned integer type whose largest value is
/// `max`: an optional `+`, then one or more decimal digits whose value is at
/// most `max`; anything else is refused.
pub open spec fn decimal(s: Seq<u8>, max: int) -> Option<int> {
    let d = if s.len() > 0 && s[0] == 0x2b { s.drop_first() } else { s };
    if d.len() > 0 && all_digits(d) && digits_value(d) <= max {
        Some(digits_value(d))
    } else {
        None
    }
}

proof fn lemma_digits_value_nonneg(s: Seq<u8>)
    requires
        all_digits(s),
    ensures
        digits_value(s) >= 0,
    decreases s.len(),
{
    if s.len() > 0 {
        assert(all_digits(s.drop_last()));
        lemma_digits_value_nonneg(s.drop_last());
        assert(0x30 <= s[s.len() - 1]);
    }
}

/// A longer run of digits never spells a smaller number.
proof fn lemma_digits_value_prefix(s: Seq<u8>, i: int)
    requires
        all_digits(s),
        0 <= i <= s.len(),
    ensures
        digits_value(s.take(i)) <= digits_value(s),
    decreases s.len() - i,
{
    if i < s.len() {
        lemma_digits_value_prefix(s, i + 1);
        let t = s.take(i + 1);
        assert(t.drop_last() =~= s.take(i));
        assert(all_digits(s.take(i)));
        lemma_digits_value_nonneg(s.take(i));
        assert(0x30 <= s[i]);
    } else {
        assert(s.take(i) =~= s);
    }
}

/// Copies `s[lo..hi]`.
pub fn copy_range(s: &[u8], lo: usize, hi: usize) -> (r: Vec<u8>)
    requires
        lo <= hi <= s@.len(),
    ensures
        r@ == s@.subrange(lo as int, hi as int),
{
    let mut r: Vec<u8> = Vec::new();
    let mut i = lo;
    while i < hi
        invariant
            lo <= i <= hi <= s@.len(),
            r@ == s@.subrange(lo as int, i as int),
        decreases hi - i,
    {
        r.push(s[i]);
        i = i + 1;
        assert(r@ =~= s@.subrange(lo as int, i as int));
    }
    r
}

/// Splits `s` at its first `;`, as the first step of `str::split(';')`.
pub fn split_field_exec(s: &[u8]) -> (r: (Vec<u8>, Option<Vec<u8>>))
    ensures
        r.0@ == split_field(s@).0,
        match (r.1, split_field(s@).1) {
            (Some(a), Some(b)) => a@ == b,
            (None, None) => true,
            _ => false,
        },
{
    let mut i: usize = 0;
    while i < s.len()
        invariant
            0 <= i <= s@.len(),
            forall|j: int| 0 <= j < i ==> s@[j] != 0x3b,
        decreases s.len() - i,
    {
        if s[i] == 0x3b {
            proof { lemma_first_of_unique(s@, 0x3b, 0x3b, i as int); }
            let head = copy_range(s, 0, i);
            let tail = copy_range(s, i + 1, s.len());
            assert(head@ =~= s@.take(i as int));
            assert(tail@ =~= s@.skip(i + 1));
            return (head, Some(tail));
        }
        i = i + 1;
    }
    proof { lemma_first_of_none(s@, 0x3b, 0x3b); }
    let all = copy_range(s, 0, s.len());
    assert(all@ =~= s@);
    (all, None)
}

/// The first three `;`-separated fields of `s`.
pub fn three_fields_exec(s: &[u8]) -> (r: Option<(Vec<u8>, Vec<u8>, Vec<u8>)>)
    ensures
        match (r, three_fields(s@)) {
            (Some((a, b, c)), Some((x, y, z))) => a@ == x && b@ == y && c@ == z,
            (None, None) => true,
            _ => false,
        },
{
    let (f0, r0) = split_field_exec(s);
    match r0 {
        None => None,
        Some(r0) => {
            let (f1, r1) = split_field_exec(r0.as_slice());
            match r1 {
                None => None,
                Some(r1) => {
                    let (f2, _) = split_field_exec(r1.as_slice());
                    Some((f0, f1, f2))
                },
            }
        },
    }
}

/// Parses `s` as `FromStr` does an unsigned integer type whose largest value
/// is `max`.
pub fn parse_decimal(s: &[u8], max: u32) -> (r: Option<u32>)
    requires
        max <= 65535,
    ensures
        match (r, decimal(s@, max as int)) {
            (Some(v), Some(w)) => v == w,
            (None, None) => true,
            _ => false,
        },
{
    let start: usize = if s.len() > 0 && s[0] == 0x2b { 1 } else { 0 };
    let ghost d = if s@.len() > 0 && s@[0] == 0x2b { s@.drop_first() } else { s@ };
    assert(d =~= s@.skip(start as int));
    if start == s.len() {
        return None;
    }
    let mut acc: u32 = 0;
    let mut i: usize = start;
    while i < s.len()
        invariant
            start <= i <= s@.len(),
            d == s@.skip(start as int),
            d == (if s@.len() > 0 && s@[0] == 0x2b { s@.drop_first() } else { s@ }),
            d.len() > 0,
            max <= 65535,
            acc <= max,
            all_digits(d.take(i - start)),
            acc == digits_value(d.take(i - start)),
        decreases s.len() - i,
    {
        let c = s[i];
        if c < 0x30 || c > 0x39 {
            assert(d[i - start] == c);
            assert(!all_digits(d));
            return None;
        }
        let next = acc * 10 + (c - 0x30) as u32;
        let ghost t = d.take(i + 1 - start);
        assert(t.drop_last() =~= d.take(i - start));
        assert(t.last() == c);
        assert(all_digits(t));
        i = i + 1;
        if next > max {
            proof {
                assert(t == d.take(i - start));
                assert(digits_value(t) == next);
                if all_digits(d) {
                    lemma_digits_value_prefix(d, i - start);
                }
            }
            return None;
        }
        acc = next;
    }
    assert(d.take(i - start) =~= d);
    Some(acc)
}

} // verus!

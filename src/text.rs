//! Byte-level text handling shared by the solvers: splitting, trimming and
//! reading decimal integers, each tied to a spec function that defines it.
use vstd::prelude::*;

verus! {

/// The pieces of `s` between occurrences of `sep1` or `sep2`; always at
/// least one piece.
pub open spec fn split_on(s: Seq<u8>, sep1: u8, sep2: u8) -> Seq<Seq<u8>>
    decreases s.len(),
{
    if s.len() == 0 {
        seq![Seq::<u8>::empty()]
    } else {
        let prev = split_on(s.drop_last(), sep1, sep2);
        if s.last() == sep1 || s.last() == sep2 {
            prev.push(Seq::<u8>::empty())
        } else {
            prev.update(prev.len() - 1, prev.last().push(s.last()))
        }
    }
}

/// The pieces of `s` between occurrences of `sep`; always at least one piece.
pub open spec fn split(s: Seq<u8>, sep: u8) -> Seq<Seq<u8>> {
    split_on(s, sep, sep)
}

/// The lines of `s`: its pieces between newlines, where a final newline
/// does not open an empty last line and an empty text has no lines.
pub open spec fn lines(s: Seq<u8>) -> Seq<Seq<u8>> {
    if s.len() == 0 {
        seq![]
    } else if s.last() == 10u8 {
        split(s.drop_last(), 10u8)
    } else {
        split(s, 10u8)
    }
}

/// ASCII white space as `char::is_whitespace` sees it.
pub open spec fn is_ws(b: u8) -> bool {
    b == 32u8 || (9u8 <= b && b <= 13u8)
}

pub open spec fn trim_start(s: Seq<u8>) -> Seq<u8>
    decreases s.len(),
{
    if s.len() > 0 && is_ws(s[0]) {
        trim_start(s.drop_first())
    } else {
        s
    }
}

pub open spec fn trim_end(s: Seq<u8>) -> Seq<u8>
    decreases s.len(),
{
    if s.len() > 0 && is_ws(s.last()) {
        trim_end(s.drop_last())
    } else {
        s
    }
}

/// `s` without leading and trailing white space.
pub open spec fn trim(s: Seq<u8>) -> Seq<u8> {
    trim_end(trim_start(s))
}

pub open spec fn is_digit(b: u8) -> bool {
    48u8 <= b && b <= 57u8
}

/// A non-empty run of decimal digits.
pub open spec fn all_digits(s: Seq<u8>) -> bool {
    s.len() > 0 && forall|i: int| 0 <= i < s.len() ==> is_digit(#[trigger] s[i])
}

/// The value of a run of decimal digits.
pub open spec fn digits_value(s: Seq<u8>) -> nat
    decreases s.len(),
{
    if s.len() == 0 {
        0
    } else {
        digits_value(s.drop_last()) * 10 + (s.last() - 48u8) as nat
    }
}

/// Text that `str::parse` reads as an integer: digits with an optional sign.
pub open spec fn is_int_text(s: Seq<u8>) -> bool {
    all_digits(s) || (s.len() > 1 && (s[0] == 45u8 || s[0] == 43u8) && all_digits(s.drop_first()))
}

/// The value of integer text.
pub open spec fn int_value(s: Seq<u8>) -> int {
    if all_digits(s) {
        digits_value(s) as int
    } else if s[0] == 45u8 {
        -(digits_value(s.drop_first()) as int)
    } else {
        digits_value(s.drop_first()) as int
    }
}

/// Text that `str::parse::<u64>` accepts: digits with an optional plus sign.
pub open spec fn is_nat_text(s: Seq<u8>) -> bool {
    all_digits(s) || (s.len() > 1 && s[0] == 43u8 && all_digits(s.drop_first()))
}

/// `s[lo..hi]` of a byte sequence.
pub open spec fn span(s: Seq<u8>, lo: usize, hi: usize) -> Seq<u8> {
    s.subrange(lo as int, hi as int)
}

/// `r` lists, in order, the spans of `s` that hold the pieces `p`.
pub open spec fn spans_of(s: Seq<u8>, r: Seq<(usize, usize)>, p: Seq<Seq<u8>>) -> bool {
    &&& r.len() == p.len()
    &&& forall|k: int|
        0 <= k < r.len() ==> {
            &&& (#[trigger] r[k]).0 <= r[k].1
            &&& r[k].1 <= s.len()
            &&& span(s, r[k].0, r[k].1) == p[k]
        }
}

pub proof fn lemma_split_nonempty(s: Seq<u8>, sep1: u8, sep2: u8)
    ensures
        split_on(s, sep1, sep2).len() >= 1,
    decreases s.len(),
{
    if s.len() > 0 {
        lemma_split_nonempty(s.drop_last(), sep1, sep2);
    }
}

pub proof fn lemma_digits_prefix_le(s: Seq<u8>, i: int)
    requires
        0 <= i <= s.len(),
    ensures
        digits_value(s.subrange(0, i)) <= digits_value(s),
    decreases s.len() - i,
{
    if i < s.len() {
        lemma_digits_prefix_le(s, i + 1);
        assert(s.subrange(0, i + 1).drop_last() =~= s.subrange(0, i));
    } else {
        assert(s.subrange(0, i) =~= s);
    }
}

/// The spans of the pieces of `s[lo..hi]` between occurrences of `sep`.
pub fn split_spans(s: &[u8], lo: usize, hi: usize, sep: u8) -> (r: Vec<(usize, usize)>)
    requires
        lo <= hi <= s@.len(),
    ensures
        spans_of(s@, r@, split(span(s@, lo, hi), sep)),
        forall|k: int| 0 <= k < r@.len() ==> lo <= (#[trigger] r@[k]).0,
{
    split_spans_on(s, lo, hi, sep, sep)
}

/// The spans of the pieces of `s[lo..hi]` between occurrences of `sep1` or `sep2`.
pub fn split_spans_on(s: &[u8], lo: usize, hi: usize, sep1: u8, sep2: u8) -> (r: Vec<(usize, usize)>)
    requires
        lo <= hi <= s@.len(),
    ensures
        spans_of(s@, r@, split_on(span(s@, lo, hi), sep1, sep2)),
        forall|k: int| 0 <= k < r@.len() ==> lo <= (#[trigger] r@[k]).0,
{
    let mut r: Vec<(usize, usize)> = Vec::new();
    let mut start: usize = lo;
    let mut i: usize = lo;
    proof {
        assert(span(s@, lo, lo) =~= Seq::<u8>::empty());
    }
    while i < hi
        invariant
            lo <= start <= i <= hi <= s@.len(),
            split_on(span(s@, lo, i), sep1, sep2).len() == r@.len() + 1,
            split_on(span(s@, lo, i), sep1, sep2).last() == span(s@, start, i),
            forall|k: int|
                0 <= k < r@.len() ==> {
                    &&& lo <= (#[trigger] r@[k]).0 <= r@[k].1
                    &&& r@[k].1 <= s@.len()
                    &&& span(s@, r@[k].0, r@[k].1) == split_on(span(s@, lo, i), sep1, sep2)[k]
                },
        decreases hi - i,
    {
        let ghost prev = split_on(span(s@, lo, i as usize), sep1, sep2);
        proof {
            assert(span(s@, lo, (i + 1) as usize).drop_last() =~= span(s@, lo, i));
            assert(span(s@, lo, (i + 1) as usize).last() == s@[i as int]);
            lemma_split_nonempty(span(s@, lo, i), sep1, sep2);
        }
        if s[i] == sep1 || s[i] == sep2 {
            r.push((start, i));
            start = i + 1;
            proof {
                assert(span(s@, start, (i + 1) as usize) =~= Seq::<u8>::empty());
            }
        } else {
            proof {
                assert(span(s@, start, i).push(s@[i as int]) =~= span(s@, start, (i + 1) as usize));
            }
        }
        i = i + 1;
    }
    r.push((start, hi));
    proof {
        let p = split_on(span(s@, lo, hi), sep1, sep2);
        assert forall|k: int| 0 <= k < r@.len() implies {
            &&& (#[trigger] r@[k]).0 <= r@[k].1
            &&& r@[k].1 <= s@.len()
            &&& span(s@, r@[k].0, r@[k].1) == p[k]
        } by {}
    }
    r
}

/// Whether `s[lo..hi]` is the word `w`.
pub fn span_is(s: &[u8], lo: usize, hi: usize, w: &Vec<u8>) -> (r: bool)
    requires
        lo <= hi <= s@.len(),
    ensures
        r == (span(s@, lo, hi) == w@),
{
    if hi - lo != w.len() {
        return false;
    }
    let mut i: usize = 0;
    while i < w.len()
        invariant
            lo <= hi <= s@.len(),
            hi - lo == w@.len(),
            0 <= i <= w@.len(),
            forall|j: int| 0 <= j < i ==> s@[lo + j] == w@[j],
        decreases w@.len() - i,
    {
        if s[lo + i] != w[i] {
            assert(span(s@, lo, hi)[i as int] != w@[i as int]);
            return false;
        }
        i = i + 1;
    }
    assert(span(s@, lo, hi) =~= w@);
    true
}

/// The first place of `b` in `s` from `i` on, or the length.
pub open spec fn find_from(s: Seq<u8>, b: u8, i: int) -> int
    decreases s.len() - i,
{
    if i >= s.len() || i < 0 {
        s.len() as int
    } else if s[i] == b {
        i
    } else {
        find_from(s, b, i + 1)
    }
}

/// Where `b` first occurs in `s[lo..hi]` (as a place in `s`), or `hi`.
pub fn find_byte(s: &[u8], lo: usize, hi: usize, b: u8) -> (r: usize)
    requires
        lo <= hi <= s@.len(),
    ensures
        lo <= r <= hi,
        lo + find_from(span(s@, lo, hi), b, 0) == r,
{
    let ghost t = span(s@, lo, hi);
    let mut i: usize = lo;
    while i < hi && s[i] != b
        invariant
            lo <= i <= hi <= s@.len(),
            t == span(s@, lo, hi),
            find_from(t, b, 0) == find_from(t, b, i - lo),
        decreases hi - i,
    {
        i = i + 1;
    }
    i
}

/// The spans of the lines of `s`.
pub fn line_spans(s: &[u8]) -> (r: Vec<(usize, usize)>)
    ensures
        spans_of(s@, r@, lines(s@)),
{
    let n = s.len();
    if n == 0 {
        return Vec::new();
    }
    if s[n - 1] == 10u8 {
        proof {
            assert(span(s@, 0, (n - 1) as usize) =~= s@.drop_last());
        }
        split_spans(s, 0, n - 1, 10u8)
    } else {
        proof {
            assert(span(s@, 0, n) =~= s@);
        }
        split_spans(s, 0, n, 10u8)
    }
}

/// The span of `s[lo..hi]` without its leading and trailing white space.
pub fn trim_span(s: &[u8], lo: usize, hi: usize) -> (r: (usize, usize))
    requires
        lo <= hi <= s@.len(),
    ensures
        lo <= r.0 <= r.1 <= hi,
        span(s@, r.0, r.1) == trim(span(s@, lo, hi)),
{
    let mut a: usize = lo;
    while a < hi && (s[a] == 32u8 || (9u8 <= s[a] && s[a] <= 13u8))
        invariant
            lo <= a <= hi <= s@.len(),
            trim_start(span(s@, lo, hi)) == trim_start(span(s@, a, hi)),
        decreases hi - a,
    {
        proof {
            assert(span(s@, a, hi).drop_first() =~= span(s@, (a + 1) as usize, hi));
        }
        a = a + 1;
    }
    let mut b: usize = hi;
    while b > a && (s[b - 1] == 32u8 || (9u8 <= s[b - 1] && s[b - 1] <= 13u8))
        invariant
            lo <= a <= b <= hi <= s@.len(),
            trim_start(span(s@, a, hi)) == span(s@, a, hi),
            trim(span(s@, lo, hi)) == trim_end(span(s@, a, b)),
        decreases b - a,
    {
        proof {
            assert(span(s@, a, b).drop_last() =~= span(s@, a, (b - 1) as usize));
        }
        b = b - 1;
    }
    (a, b)
}

/// The value of the digits `s[lo..hi]`, or `None` where it exceeds `u64`.
pub fn parse_digits(s: &[u8], lo: usize, hi: usize) -> (r: Option<u64>)
    requires
        lo <= hi <= s@.len(),
        all_digits(span(s@, lo, hi)),
    ensures
        r == (if digits_value(span(s@, lo, hi)) <= u64::MAX {
            Some(digits_value(span(s@, lo, hi)) as u64)
        } else {
            None::<u64>
        }),
{
    let ghost t = span(s@, lo, hi);
    let mut v: u64 = 0;
    let mut i: usize = lo;
    proof {
        assert(span(s@, lo, lo) =~= Seq::<u8>::empty());
    }
    while i < hi
        invariant
            lo <= i <= hi <= s@.len(),
            t == span(s@, lo, hi),
            all_digits(t),
            v == digits_value(span(s@, lo, i)),
        decreases hi - i,
    {
        proof {
            assert(span(s@, lo, (i + 1) as usize).drop_last() =~= span(s@, lo, i));
            assert(span(s@, lo, (i + 1) as usize) =~= t.subrange(0, i + 1 - lo));
            lemma_digits_prefix_le(t, i + 1 - lo);
            assert(is_digit(t[i - lo]));
        }
        let d = (s[i] - 48u8) as u64;
        if v > (u64::MAX - d) / 10 {
            return None;
        }
        v = v * 10 + d;
        i = i + 1;
    }
    proof {
        assert(span(s@, lo, i) =~= t);
    }
    Some(v)
}

/// Whether `s[lo..hi]` is a non-empty run of decimal digits.
pub fn check_digits(s: &[u8], lo: usize, hi: usize) -> (r: bool)
    requires
        lo <= hi <= s@.len(),
    ensures
        r == all_digits(span(s@, lo, hi)),
{
    if lo == hi {
        return false;
    }
    let mut i: usize = lo;
    while i < hi
        invariant
            lo <= i <= hi <= s@.len(),
            forall|j: int| lo <= j < i ==> is_digit(#[trigger] s@[j]),
        decreases hi - i,
    {
        if !(48u8 <= s[i] && s[i] <= 57u8) {
            assert(!is_digit(span(s@, lo, hi)[i - lo]));
            return false;
        }
        i = i + 1;
    }
    assert forall|j: int| 0 <= j < span(s@, lo, hi).len() implies is_digit(#[trigger] span(s@, lo, hi)[j]) by {
        assert(span(s@, lo, hi)[j] == s@[lo + j]);
    }
    true
}

/// `s[lo..hi]` read as an `i64` the way `str::parse` reads it: `None` where
/// it is no integer text or its value is out of range.
pub fn parse_int(s: &[u8], lo: usize, hi: usize) -> (r: Option<i64>)
    requires
        lo <= hi <= s@.len(),
    ensures
        r == (if is_int_text(span(s@, lo, hi)) && i64::MIN <= int_value(span(s@, lo, hi))
            <= i64::MAX {
            Some(int_value(span(s@, lo, hi)) as i64)
        } else {
            None::<i64>
        }),
{
    let ghost t = span(s@, lo, hi);
    if check_digits(s, lo, hi) {
        match parse_digits(s, lo, hi) {
            Some(v) => {
                if v <= i64::MAX as u64 {
                    Some(v as i64)
                } else {
                    None
                }
            },
            None => None,
        }
    } else if hi - lo > 1 && (s[lo] == 45u8 || s[lo] == 43u8) && check_digits(s, lo + 1, hi) {
        proof {
            assert(t.drop_first() =~= span(s@, (lo + 1) as usize, hi));
        }
        match parse_digits(s, lo + 1, hi) {
            Some(v) => {
                if s[lo] == 45u8 {
                    if v <= 0x8000_0000_0000_0000u64 {
                        if v == 0x8000_0000_0000_0000u64 {
                            Some(i64::MIN)
                        } else {
                            Some(-(v as i64))
                        }
                    } else {
                        None
                    }
                } else if v <= i64::MAX as u64 {
                    Some(v as i64)
                } else {
                    None
                }
            },
            None => None,
        }
    } else {
        proof {
            if hi - lo > 1 && (s@[lo as int] == 45u8 || s@[lo as int] == 43u8) {
                assert(t.drop_first() =~= span(s@, (lo + 1) as usize, hi));
            }
        }
        None
    }
}

/// `s[lo..hi]` read as a `u64` the way `str::parse` reads it: `None` where
/// it is no unsigned integer text or its value is out of range.
pub fn parse_nat(s: &[u8], lo: usize, hi: usize) -> (r: Option<u64>)
    requires
        lo <= hi <= s@.len(),
    ensures
        r == (if is_nat_text(span(s@, lo, hi)) && int_value(span(s@, lo, hi)) <= u64::MAX {
            Some(int_value(span(s@, lo, hi)) as u64)
        } else {
            None::<u64>
        }),
{
    let ghost t = span(s@, lo, hi);
    if check_digits(s, lo, hi) {
        parse_digits(s, lo, hi)
    } else if hi - lo > 1 && s[lo] == 43u8 && check_digits(s, lo + 1, hi) {
        proof {
            assert(t.drop_first() =~= span(s@, (lo + 1) as usize, hi));
        }
        parse_digits(s, lo + 1, hi)
    } else {
        proof {
            if hi - lo > 1 && s@[lo as int] == 43u8 {
                assert(t.drop_first() =~= span(s@, (lo + 1) as usize, hi));
            }
        }
        None
    }
}

} // verus!

//! Rucksacks: items common to both compartments, and badges common to three.
use vstd::prelude::*;
use vstd::string::StringSliceAdditionalSpecFns;
use crate::AOCSolutions;
use crate::text::{lines, trim, span, spans_of, line_spans, trim_span};

verus! {

/// Whether `priority` gives a value for `v` (it fails on other bytes).
pub open spec fn has_priority(v: int) -> bool {
    0 <= v < 128 && ((65 <= v <= 90) || v >= 97)
}

/// 1 to 26 for `a` to `z`, 27 to 52 for `A` to `Z`.
pub open spec fn priority_of(v: int) -> int {
    if 65 <= v <= 90 {
        v - 38
    } else {
        v - 96
    }
}

/// The first half of a trimmed line.
pub open spec fn first_half(t: Seq<u8>) -> Seq<u8> {
    t.subrange(0, t.len() as int / 2)
}

/// The second half of a trimmed line (the odd byte, if any, included).
pub open spec fn second_half(t: Seq<u8>) -> Seq<u8> {
    t.subrange(t.len() as int / 2, t.len() as int)
}

/// Whether the ASCII byte `v` is in both halves.
pub open spec fn shared(t: Seq<u8>, v: int) -> bool {
    v < 128 && first_half(t).contains(v as u8) && second_half(t).contains(v as u8)
}

/// The sum of the priorities of the distinct ASCII bytes below `n` in both halves.
pub open spec fn shared_sum(t: Seq<u8>, n: int) -> int
    decreases n,
{
    if n <= 0 {
        0
    } else {
        shared_sum(t, n - 1) + if shared(t, n - 1) {
            priority_of(n - 1)
        } else {
            0
        }
    }
}

/// The sum over the lines up to the first one whose trimmed text is shorter than two.
pub open spec fn rucksacks_total(ls: Seq<Seq<u8>>) -> int
    decreases ls.len(),
{
    if ls.len() == 0 || trim(ls[0]).len() < 2 {
        0
    } else {
        shared_sum(trim(ls[0]), 128) + rucksacks_total(ls.drop_first())
    }
}

/// Every byte shared by the halves of a line that is read has a priority.
pub open spec fn rucksacks_ok(ls: Seq<Seq<u8>>) -> bool
    decreases ls.len(),
{
    ls.len() == 0 || trim(ls[0]).len() < 2 || ((forall|v: int|
        #![trigger shared(trim(ls[0]), v)]
        0 <= v < 128 && shared(trim(ls[0]), v) ==> has_priority(v)) && rucksacks_ok(ls.drop_first()))
}

/// Whether byte `v` is in all three texts.
pub open spec fn in_all(a: Seq<u8>, b: Seq<u8>, c: Seq<u8>, v: int) -> bool {
    0 <= v < 256 && a.contains(v as u8) && b.contains(v as u8) && c.contains(v as u8)
}

/// The number of byte values below `n` in all three texts.
pub open spec fn common_count(a: Seq<u8>, b: Seq<u8>, c: Seq<u8>, n: int) -> int
    decreases n,
{
    if n <= 0 {
        0
    } else {
        common_count(a, b, c, n - 1) + if in_all(a, b, c, n - 1) {
            1int
        } else {
            0
        }
    }
}

/// The sum of the priorities of the byte values below `n` in all three texts.
pub open spec fn common_sum(a: Seq<u8>, b: Seq<u8>, c: Seq<u8>, n: int) -> int
    decreases n,
{
    if n <= 0 {
        0
    } else {
        common_sum(a, b, c, n - 1) + if in_all(a, b, c, n - 1) {
            priority_of(n - 1)
        } else {
            0
        }
    }
}

/// The badges of the complete groups of three lines, summed; an error at the
/// first group whose lines share no byte or more than one.
pub open spec fn badges_total(ls: Seq<Seq<u8>>) -> Result<int, ()>
    decreases ls.len(),
{
    if ls.len() < 3 {
        Ok(0)
    } else if common_count(trim(ls[0]), trim(ls[1]), trim(ls[2]), 256) != 1 {
        Err(())
    } else {
        match badges_total(ls.subrange(3, ls.len() as int)) {
            Ok(x) => Ok(common_sum(trim(ls[0]), trim(ls[1]), trim(ls[2]), 256) + x),
            Err(_) => Err(()),
        }
    }
}

/// The badge of every complete group of three lines has a priority.
pub open spec fn badges_ok(ls: Seq<Seq<u8>>) -> bool
    decreases ls.len(),
{
    ls.len() < 3 || ((forall|v: int|
        #![trigger in_all(trim(ls[0]), trim(ls[1]), trim(ls[2]), v)]
        in_all(trim(ls[0]), trim(ls[1]), trim(ls[2]), v) ==> has_priority(v)) && badges_ok(
        ls.subrange(3, ls.len() as int),
    ))
}

/// Whether `s[lo..hi]` holds the byte `v`.
fn contains_byte(s: &[u8], lo: usize, hi: usize, v: u8) -> (r: bool)
    requires
        lo <= hi <= s@.len(),
    ensures
        r == span(s@, lo, hi).contains(v),
{
    let mut i: usize = lo;
    while i < hi
        invariant
            lo <= i <= hi <= s@.len(),
            forall|j: int| lo <= j < i ==> s@[j] != v,
        decreases hi - i,
    {
        if s[i] == v {
            assert(span(s@, lo, hi)[i - lo] == v);
            return true;
        }
        i = i + 1;
    }
    proof {
        if span(s@, lo, hi).contains(v) {
            let j = choose|j: int| 0 <= j < span(s@, lo, hi).len() && span(s@, lo, hi)[j] == v;
            assert(s@[lo + j] == v);
        }
    }
    false
}

pub struct Day3;

impl Day3 {
    /// The priority of an item; an error for a byte that is not ASCII.
    pub fn priority(ascii_u8: &u8) -> (r: Result<i64, ()>)
        requires
            *ascii_u8 >= 128 || has_priority(*ascii_u8 as int),
        ensures
            *ascii_u8 >= 128 <==> r is Err,
            r matches Ok(p) ==> p == priority_of(*ascii_u8 as int),
    {
        let v = *ascii_u8;
        if v < 128 {
            if 65u8 <= v && v <= 90u8 {
                return Ok((v - 65u8 + 27u8) as i64);
            } else {
                return Ok((v - 97u8 + 1u8) as i64);
            }
        }
        Err(())
    }

    /// The sum of the priorities of the bytes shared by both halves of `s[lo..hi]`.
    fn shared_priorities(s: &[u8], lo: usize, hi: usize) -> (r: i64)
        requires
            lo <= hi <= s@.len(),
            forall|v: int|
                #![trigger shared(span(s@, lo, hi), v)]
                0 <= v < 128 && shared(span(s@, lo, hi), v) ==> has_priority(v),
        ensures
            r == shared_sum(span(s@, lo, hi), 128),
    {
        let ghost t = span(s@, lo, hi);
        let mid = lo + (hi - lo) / 2;
        proof {
            assert(first_half(t) =~= span(s@, lo, mid));
            assert(second_half(t) =~= span(s@, mid, hi));
        }
        let mut sum: i64 = 0;
        let mut v: u8 = 0;
        while v < 128u8
            invariant
                t == span(s@, lo, hi),
                lo <= mid <= hi <= s@.len(),
                first_half(t) == span(s@, lo, mid),
                second_half(t) == span(s@, mid, hi),
                forall|w: int| #![trigger shared(t, w)] 0 <= w < 128 && shared(t, w) ==> has_priority(w),
                v <= 128,
                sum == shared_sum(t, v as int),
                0 <= sum <= 52 * v,
            decreases 128 - v,
        {
            if contains_byte(s, lo, mid, v) && contains_byte(s, mid, hi, v) {
                assert(shared(t, v as int));
                let p = Day3::priority(&v).unwrap();
                sum = sum + p;
            }
            v = v + 1;
        }
        sum
    }

    /// Whether the three texts share exactly one byte, and its priority.
    fn badge(s: &[u8], a: (usize, usize), b: (usize, usize), c: (usize, usize)) -> (r: Option<i64>)
        requires
            a.0 <= a.1 <= s@.len(),
            b.0 <= b.1 <= s@.len(),
            c.0 <= c.1 <= s@.len(),
            forall|v: int|
                #![trigger in_all(span(s@, a.0, a.1), span(s@, b.0, b.1), span(s@, c.0, c.1), v)]
                in_all(span(s@, a.0, a.1), span(s@, b.0, b.1), span(s@, c.0, c.1), v)
                    ==> has_priority(v),
        ensures
            r is Some <==> common_count(span(s@, a.0, a.1), span(s@, b.0, b.1), span(s@, c.0, c.1), 256)
                == 1,
            r matches Some(p) ==> p == common_sum(
                span(s@, a.0, a.1),
                span(s@, b.0, b.1),
                span(s@, c.0, c.1),
                256,
            ),
            r matches Some(p) ==> 0 <= p <= 52,
    {
        let ghost (ta, tb, tc) = (span(s@, a.0, a.1), span(s@, b.0, b.1), span(s@, c.0, c.1));
        let mut count: u64 = 0;
        let mut sum: i64 = 0;
        let mut v: u64 = 0;
        while v < 256
            invariant
                a.0 <= a.1 <= s@.len(),
                b.0 <= b.1 <= s@.len(),
                c.0 <= c.1 <= s@.len(),
                ta == span(s@, a.0, a.1),
                tb == span(s@, b.0, b.1),
                tc == span(s@, c.0, c.1),
                forall|w: int| #![trigger in_all(ta, tb, tc, w)] in_all(ta, tb, tc, w) ==> has_priority(w),
                v <= 256,
                count == common_count(ta, tb, tc, v as int),
                sum == common_sum(ta, tb, tc, v as int),
                0 <= sum <= 52 * count,
                count <= v,
            decreases 256 - v,
        {
            let w = v as u8;
            if contains_byte(s, a.0, a.1, w) && contains_byte(s, b.0, b.1, w) && contains_byte(
                s,
                c.0,
                c.1,
                w,
            ) {
                assert(in_all(ta, tb, tc, v as int));
                let p = Day3::priority(&w).unwrap();
                count = count + 1;
                sum = sum + p;
            }
            v = v + 1;
        }
        if count == 1 {
            Some(sum)
        } else {
            None
        }
    }
}

impl AOCSolutions for Day3 {
    open spec fn accepts_1(input: Seq<u8>) -> bool {
        rucksacks_ok(lines(input)) && lines(input).len() <= 1_000_000_000_000
    }

    open spec fn accepts_2(input: Seq<u8>) -> bool {
        badges_ok(lines(input)) && lines(input).len() <= 1_000_000_000_000
    }

    open spec fn star_1(input: Seq<u8>, r: Result<i64, ()>) -> bool {
        r == Ok::<i64, ()>(rucksacks_total(lines(input)) as i64)
    }

    open spec fn star_2(input: Seq<u8>, r: Result<i64, ()>) -> bool {
        match badges_total(lines(input)) {
            Ok(x) => r == Ok::<i64, ()>(x as i64),
            Err(_) => r is Err,
        }
    }

    /// The priorities of the items in both compartments of each rucksack, summed.
    fn get_star_1(input: &str) -> (r: Result<i64, ()>) {
        let s = input.as_bytes();
        let ghost ls = lines(s@);
        let spans = line_spans(s);
        let mut sum: i64 = 0;
        let mut i: usize = 0;
        proof {
            assert(ls.subrange(0, ls.len() as int) =~= ls);
        }
        while i < spans.len()
            invariant
                ls == lines(s@),
                s@ == input.spec_bytes(),
                spans_of(s@, spans@, ls),
                ls.len() <= 1_000_000_000_000,
                0 <= i <= spans@.len(),
                rucksacks_ok(ls.subrange(i as int, ls.len() as int)),
                rucksacks_total(ls) == sum + rucksacks_total(ls.subrange(i as int, ls.len() as int)),
                0 <= sum <= 6656 * i,
            decreases spans@.len() - i,
        {
            let ghost rest = ls.subrange(i as int, ls.len() as int);
            proof {
                assert(rest[0] == ls[i as int]);
                assert(rest.drop_first() =~= ls.subrange(i + 1, ls.len() as int));
            }
            let (lo, hi) = spans[i];
            let (a, b) = trim_span(s, lo, hi);
            proof {
                assert(span(s@, lo, hi) == ls[i as int]);
            }
            if (b - a) / 2 == 0 {
                proof {
                    assert(trim(rest[0]).len() < 2);
                    assert(rucksacks_total(rest) == 0);
                }
                return Ok(sum);
            }
            let v = Day3::shared_priorities(s, a, b);
            proof {
                lemma_shared_sum_bounds(span(s@, a, b), 128);
            }
            sum = sum + v;
            i = i + 1;
        }
        proof {
            assert(ls.subrange(i as int, ls.len() as int).len() == 0);
        }
        Ok(sum)
    }

    /// The priorities of the one item common to each group of three rucksacks,
    /// summed; an error where a group shares none or several.
    fn get_star_2(input: &str) -> (r: Result<i64, ()>) {
        let s = input.as_bytes();
        let ghost ls = lines(s@);
        let spans = line_spans(s);
        let mut sum: i64 = 0;
        let mut i: usize = 0;
        proof {
            assert(ls.subrange(0, ls.len() as int) =~= ls);
        }
        while spans.len() - i >= 3
            invariant
                ls == lines(s@),
                s@ == input.spec_bytes(),
                spans_of(s@, spans@, ls),
                ls.len() <= 1_000_000_000_000,
                0 <= i <= spans@.len(),
                badges_ok(ls.subrange(i as int, ls.len() as int)),
                badges_total(ls) == match badges_total(ls.subrange(i as int, ls.len() as int)) {
                    Ok(x) => Ok(sum + x),
                    Err(_) => Err(()),
                },
                0 <= sum <= 52 * i,
            decreases spans@.len() - i,
        {
            let ghost rest = ls.subrange(i as int, ls.len() as int);
            proof {
                assert(rest[0] == ls[i as int]);
                assert(rest[1] == ls[i + 1]);
                assert(rest[2] == ls[i + 2]);
                assert(rest.subrange(3, rest.len() as int) =~= ls.subrange(i + 3, ls.len() as int));
            }
            let (l0, h0) = spans[i];
            let (l1, h1) = spans[i + 1];
            let (l2, h2) = spans[i + 2];
            let a = trim_span(s, l0, h0);
            let b = trim_span(s, l1, h1);
            let c = trim_span(s, l2, h2);
            proof {
                assert(span(s@, l0, h0) == ls[i as int]);
                assert(span(s@, l1, h1) == ls[i + 1]);
                assert(span(s@, l2, h2) == ls[i + 2]);
            }
            match Day3::badge(s, a, b, c) {
                Some(p) => {
                    sum = sum + p;
                },
                None => {
                    proof {
                        assert(common_count(trim(rest[0]), trim(rest[1]), trim(rest[2]), 256) != 1);
                        assert(badges_total(rest) is Err);
                    }
                    return Err(());
                },
            }
            i = i + 3;
        }
        proof {
            assert(ls.subrange(i as int, ls.len() as int).len() < 3);
        }
        Ok(sum)
    }
}

pub proof fn lemma_shared_sum_bounds(t: Seq<u8>, n: int)
    requires
        0 <= n <= 128,
        forall|v: int| #![trigger shared(t, v)] 0 <= v < 128 && shared(t, v) ==> has_priority(v),
    ensures
        0 <= shared_sum(t, n) <= 52 * n,
    decreases n,
{
    if n > 0 {
        lemma_shared_sum_bounds(t, n - 1);
        if shared(t, n - 1) {
            assert(has_priority(n - 1));
        }
    }
}

} // verus!

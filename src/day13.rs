//! Distress signal: ordering packets of nested lists of numbers.
use vstd::prelude::*;
use vstd::string::StringSliceAdditionalSpecFns;
use std::cmp::Ordering;
use crate::AOCSolutions;
use crate::text::{lines, trim, span, spans_of, all_digits, digits_value, line_spans, trim_span,
    parse_digits};

verus! {

pub const LIST_BGN: u8 = 91;
pub const LIST_END: u8 = 93;
pub const ATOMIC_SEP: u8 = 44;

/// A packet's bytes, where a cursor stands, and how deep it is.
pub type ByteCursor<'a> = (&'a [u8], usize, usize);

pub open spec fn digit(b: u8) -> bool {
    48u8 <= b <= 57u8
}

pub fn is_digit(u: u8) -> (r: bool)
    ensures
        r == digit(u),
{
    48u8 <= u && u <= 57u8
}

/// Whether the cursor stands on the last byte.
pub fn cursor_at_end(bc: &ByteCursor) -> (r: bool)
    requires
        bc.0@.len() > 0,
    ensures
        r == (bc.1 == bc.0@.len() - 1),
{
    bc.1 == bc.0.len() - 1
}

/// Moves the cursor one byte on, but not past the last byte.
pub fn increment_cursor(bc: &mut ByteCursor)
    requires
        old(bc).0@.len() > 0,
    ensures
        final(bc).0 == old(bc).0,
        final(bc).2 == old(bc).2,
        final(bc).1 == if old(bc).1 < old(bc).0@.len() - 1 {
            old(bc).1 + 1
        } else {
            old(bc).1 as int
        },
{
    if bc.1 < bc.0.len() - 1 {
        bc.1 = bc.1 + 1;
    }
}

pub fn increment_depth(bc: &mut ByteCursor)
    requires
        old(bc).2 < usize::MAX,
    ensures
        *final(bc) == (old(bc).0, old(bc).1, (old(bc).2 + 1) as usize),
{
    bc.2 = bc.2 + 1;
}

/// One level up, but not above the top.
pub fn decrement_depth(bc: &mut ByteCursor)
    ensures
        *final(bc) == (old(bc).0, old(bc).1, if old(bc).2 > 0 {
            (old(bc).2 - 1) as usize
        } else {
            0usize
        }),
{
    if bc.2 > 0 {
        bc.2 = bc.2 - 1;
    }
}

/// Puts the cursor at `idx`, or on the last byte where `idx` is past it.
pub fn modify_cursor_to(bc: &mut ByteCursor, idx: usize)
    requires
        old(bc).0@.len() > 0,
    ensures
        final(bc).0 == old(bc).0,
        final(bc).2 == old(bc).2,
        final(bc).1 == if idx >= old(bc).0@.len() {
            (old(bc).0@.len() - 1) as usize
        } else {
            idx
        },
{
    if idx >= bc.0.len() {
        bc.1 = bc.0.len() - 1;
    } else {
        bc.1 = idx;
    }
}

/// Cursor places and depths on both sides: `(left place, left depth, right place, right depth)`.
pub type St = (usize, usize, usize, usize);

/// One byte on, but not past the last.
pub open spec fn inc(i: int, n: int) -> int {
    if i < n - 1 {
        i + 1
    } else {
        i
    }
}

/// One level up, but not above the top.
pub open spec fn dec(d: int) -> int {
    if d > 0 {
        d - 1
    } else {
        0
    }
}

/// The first place from `i` on that holds `]` or `,`, or the length.
pub open spec fn border(s: Seq<u8>, i: int) -> int
    decreases s.len() - i,
{
    if i < 0 || i >= s.len() {
        s.len() as int
    } else if s[i] == LIST_END || s[i] == ATOMIC_SEP {
        i
    } else {
        border(s, i + 1)
    }
}

pub open spec fn cmp_nat(a: nat, b: nat) -> Ordering {
    if a < b {
        Ordering::Less
    } else if a > b {
        Ordering::Greater
    } else {
        Ordering::Equal
    }
}

/// Whether `s[i..e]` is a number that `compare_expr` can read.
pub open spec fn number_at(s: Seq<u8>, i: int, e: int) -> bool {
    0 <= i < e < s.len() && all_digits(s.subrange(i, e))
}

/// The fuel left for the rest of a comparison: less than before.
pub open spec fn less_fuel(rem: nat, fuel: nat) -> nat {
    if rem < fuel {
        rem
    } else {
        (fuel - 1) as nat
    }
}

/// The comparison of two packets, each read with a cursor and a depth, as
/// `compare_expr` does it: with the order found, the cursors where it
/// stopped, and the fuel left (one unit per step). Lists are compared item
/// by item; a number against a list is compared with the list's first item,
/// at the depth of the list; a list that closes first, at a depth no lower
/// than the other side's, is the smaller. Where no rule applies, or the
/// fuel runs out, the outcome is `Equal`.
pub open spec fn cursor_walk(l: Seq<u8>, r: Seq<u8>, st: St, fuel: nat) -> (Ordering, St, nat)
    decreases fuel,
{
    let (li, ld, ri, rd) = st;
    let (nl, nr) = (l.len() as int, r.len() as int);
    if fuel == 0 || li >= nl || ri >= nr || nl == 0 || nr == 0 || ld >= usize::MAX - 1 || rd >= usize::MAX - 1 {
        (Ordering::Equal, st, 0)
    } else {
        let f = (fuel - 1) as nat;
        let (a, b) = (l[li as int], r[ri as int]);
        if a == LIST_BGN && b == LIST_BGN {
            cursor_walk(l, r, (inc(li as int, nl) as usize, (ld + 1) as usize, inc(ri as int, nr) as usize, (rd + 1) as usize), f)
        } else if a == LIST_BGN && digit(b) {
            let (o, s2, rem) = cursor_walk(l, r, (inc(li as int, nl) as usize, (ld + 1) as usize, ri, rd), f);
            if o != Ordering::Equal {
                (o, s2, rem)
            } else {
                cursor_walk(l, r, (inc(s2.0 as int, nl) as usize, dec(s2.1 as int) as usize, inc(s2.2 as int, nr) as usize, s2.3), less_fuel(rem, fuel))
            }
        } else if digit(a) && b == LIST_BGN {
            let (o, s2, rem) = cursor_walk(l, r, (li, ld, inc(ri as int, nr) as usize, (rd + 1) as usize), f);
            if o != Ordering::Equal {
                (o, s2, rem)
            } else {
                cursor_walk(l, r, (inc(s2.0 as int, nl) as usize, s2.1, inc(s2.2 as int, nr) as usize, dec(s2.3 as int) as usize), less_fuel(rem, fuel))
            }
        } else if a == LIST_END && b == LIST_END {
            if li == nl - 1 && ri == nr - 1 {
                (Ordering::Equal, st, f)
            } else {
                cursor_walk(l, r, (inc(li as int, nl) as usize, dec(ld as int) as usize, inc(ri as int, nr) as usize, dec(rd as int) as usize), f)
            }
        } else if a == LIST_END && (digit(b) || b == ATOMIC_SEP || b == LIST_BGN) {
            if ld >= rd {
                (Ordering::Less, st, f)
            } else {
                cursor_walk(l, r, (inc(li as int, nl) as usize, dec(ld as int) as usize, ri, rd), f)
            }
        } else if b == LIST_END && (digit(a) || a == ATOMIC_SEP || a == LIST_BGN) {
            if rd >= ld {
                (Ordering::Greater, st, f)
            } else {
                cursor_walk(l, r, (li, ld, inc(ri as int, nr) as usize, dec(rd as int) as usize), f)
            }
        } else if a == ATOMIC_SEP && b == ATOMIC_SEP {
            cursor_walk(l, r, (inc(li as int, nl) as usize, ld, inc(ri as int, nr) as usize, rd), f)
        } else if digit(a) && digit(b) {
            let (lb, rb) = (border(l, li as int), border(r, ri as int));
            if !number_at(l, li as int, lb) || !number_at(r, ri as int, rb) {
                (Ordering::Equal, st, f)
            } else {
                let (x, y) = (digits_value(l.subrange(li as int, lb)), digits_value(r.subrange(ri as int, rb)));
                if x != y {
                    (cmp_nat(x, y), st, f)
                } else if ld == rd {
                    cursor_walk(l, r, (lb as usize, ld, rb as usize, rd), f)
                } else if ld < rd {
                    cursor_walk(l, r, (li, ld, rb as usize, rd), f)
                } else {
                    cursor_walk(l, r, (lb as usize, ld, ri, rd), f)
                }
            }
        } else if digit(a) && b == ATOMIC_SEP && ld <= rd {
            (Ordering::Less, st, f)
        } else if a == ATOMIC_SEP && digit(b) && rd <= ld {
            (Ordering::Greater, st, f)
        } else {
            (Ordering::Equal, st, f)
        }
    }
}

/// The order of the packets `l[i..]` and `r[j..]`, compared from depth 0.
pub open spec fn packet_order(l: Seq<u8>, r: Seq<u8>, i: int, j: int) -> Ordering {
    cursor_walk(l, r, (i as usize, 0, j as usize, 0), (4 * (l.len() + r.len()) + 8) as nat).0
}

/// Every run of digits has a value that fits `u64`.
pub open spec fn numbers_fit(s: Seq<u8>) -> bool {
    forall|a: int, b: int| 0 <= a <= b <= s.len() && all_digits(#[trigger] s.subrange(a, b)) ==> digits_value(s.subrange(a, b)) <= u64::MAX
}

/// The first place from `i` on that holds `]` or `,`, or the length.
fn find_border(s: &[u8], i: usize) -> (r: usize)
    requires
        i <= s@.len(),
    ensures
        r == border(s@, i as int),
        i <= r <= s@.len(),
{
    let mut k: usize = i;
    while k < s.len() && s[k] != LIST_END && s[k] != ATOMIC_SEP
        invariant
            i <= k <= s@.len(),
            border(s@, i as int) == border(s@, k as int),
        decreases s@.len() - k,
    {
        k = k + 1;
    }
    k
}

fn step_in(i: usize, n: usize) -> (r: usize)
    ensures
        r == inc(i as int, n as int),
{
    if n > 0 && i < n - 1 {
        i + 1
    } else {
        i
    }
}

fn step_out(d: usize) -> (r: usize)
    ensures
        r == dec(d as int),
{
    if d > 0 {
        d - 1
    } else {
        0
    }
}

/// `cursor_walk`, run.
fn walk(l: &[u8], r: &[u8], st: St, fuel: u64) -> (res: (Ordering, St, u64))
    requires
        numbers_fit(l@),
        numbers_fit(r@),
    ensures
        res.0 == cursor_walk(l@, r@, st, fuel as nat).0,
        res.1 == cursor_walk(l@, r@, st, fuel as nat).1,
        res.2 == cursor_walk(l@, r@, st, fuel as nat).2,
        res.2 < fuel || fuel == 0,
    decreases fuel,
{
    let (li, ld, ri, rd) = st;
    let nl = l.len();
    let nr = r.len();
    if fuel == 0 || li >= nl || ri >= nr || nl == 0 || nr == 0 || ld >= usize::MAX - 1 || rd >= usize::MAX - 1 {
        return (Ordering::Equal, st, 0);
    }
    let f = fuel - 1;
    let a = l[li];
    let b = r[ri];
    if a == LIST_BGN && b == LIST_BGN {
        walk(l, r, (step_in(li, nl), ld + 1, step_in(ri, nr), rd + 1), f)
    } else if a == LIST_BGN && is_digit(b) {
        let (o, s2, rem) = walk(l, r, (step_in(li, nl), ld + 1, ri, rd), f);
        if !matches!(o, Ordering::Equal) {
            (o, s2, rem)
        } else {
            walk(l, r, (step_in(s2.0, nl), step_out(s2.1), step_in(s2.2, nr), s2.3), if rem < fuel { rem } else { f })
        }
    } else if is_digit(a) && b == LIST_BGN {
        let (o, s2, rem) = walk(l, r, (li, ld, step_in(ri, nr), rd + 1), f);
        if !matches!(o, Ordering::Equal) {
            (o, s2, rem)
        } else {
            walk(l, r, (step_in(s2.0, nl), s2.1, step_in(s2.2, nr), step_out(s2.3)), if rem < fuel { rem } else { f })
        }
    } else if a == LIST_END && b == LIST_END {
        if li == nl - 1 && ri == nr - 1 {
            (Ordering::Equal, st, f)
        } else {
            walk(l, r, (step_in(li, nl), step_out(ld), step_in(ri, nr), step_out(rd)), f)
        }
    } else if a == LIST_END && (is_digit(b) || b == ATOMIC_SEP || b == LIST_BGN) {
        if ld >= rd {
            (Ordering::Less, st, f)
        } else {
            walk(l, r, (step_in(li, nl), step_out(ld), ri, rd), f)
        }
    } else if b == LIST_END && (is_digit(a) || a == ATOMIC_SEP || a == LIST_BGN) {
        if rd >= ld {
            (Ordering::Greater, st, f)
        } else {
            walk(l, r, (li, ld, step_in(ri, nr), step_out(rd)), f)
        }
    } else if a == ATOMIC_SEP && b == ATOMIC_SEP {
        walk(l, r, (step_in(li, nl), ld, step_in(ri, nr), rd), f)
    } else if is_digit(a) && is_digit(b) {
        let lb = find_border(l, li);
        let rb = find_border(r, ri);
        if lb >= nl || rb >= nr || !crate::text::check_digits(l, li, lb) || !crate::text::check_digits(r, ri, rb) {
            return (Ordering::Equal, st, f);
        }
        proof {
            assert(all_digits(l@.subrange(li as int, lb as int)));
            assert(digits_value(l@.subrange(li as int, lb as int)) <= u64::MAX);
            assert(digits_value(r@.subrange(ri as int, rb as int)) <= u64::MAX);
        }
        let x = parse_digits(l, li, lb).unwrap();
        let y = parse_digits(r, ri, rb).unwrap();
        if x < y {
            (Ordering::Less, st, f)
        } else if x > y {
            (Ordering::Greater, st, f)
        } else if ld == rd {
            walk(l, r, (lb, ld, rb, rd), f)
        } else if ld < rd {
            walk(l, r, (li, ld, rb, rd), f)
        } else {
            walk(l, r, (lb, ld, ri, rd), f)
        }
    } else if is_digit(a) && b == ATOMIC_SEP && ld <= rd {
        (Ordering::Less, st, f)
    } else if a == ATOMIC_SEP && is_digit(b) && rd <= ld {
        (Ordering::Greater, st, f)
    } else {
        (Ordering::Equal, st, f)
    }
}

/// The order of the two packets from where their cursors stand, by
/// `cursor_walk`. The cursors are left as they are.
pub fn compare_expr(left: &mut ByteCursor, right: &mut ByteCursor) -> (r: Ordering)
    requires
        numbers_fit(old(left).0@),
        numbers_fit(old(right).0@),
        old(left).0@.len() + old(right).0@.len() < 0x1000_0000_0000,
    ensures
        *final(left) == *old(left),
        *final(right) == *old(right),
        r == packet_order(old(left).0@, old(right).0@, old(left).1 as int, old(right).1 as int),
{
    let fuel: u64 = 4 * (left.0.len() as u64 + right.0.len() as u64) + 8;
    let (o, _, _) = walk(left.0, right.0, (left.1, 0, right.1, 0), fuel);
    o
}

/// A divider packet `[[d]]` has one number, of one digit.
pub proof fn lemma_divider_fits(x: Seq<u8>, d: u8)
    requires
        x == seq![91u8, 91u8, d, 93u8, 93u8],
        48u8 <= d <= 57u8,
    ensures
        numbers_fit(x),
{
    assert forall|a: int, b: int| 0 <= a <= b <= x.len() && all_digits(#[trigger] x.subrange(a, b)) implies digits_value(x.subrange(a, b)) <= u64::MAX by {
        let t = x.subrange(a, b);
        assert(t[0] == x[a]);
        assert(crate::text::is_digit(t[0]));
        assert(a == 2);
        if t.len() >= 2 {
            assert(t[1] == x[a + 1]);
            assert(crate::text::is_digit(t[1]));
        }
        assert(t.len() == 1);
        assert(t.drop_last().len() == 0);
        assert(digits_value(t.drop_last()) == 0);
        assert(digits_value(t) == digits_value(t.drop_last()) * 10 + (t.last() - 48u8) as nat);
    }
}

/// A packet compares `Equal` with itself, from any place and depth.
pub proof fn lemma_walk_reflexive(l: Seq<u8>, i: usize, d: usize, fuel: nat)
    ensures
        cursor_walk(l, l, (i, d, i, d), fuel).0 == Ordering::Equal,
    decreases fuel,
{
    if fuel > 0 && i < l.len() && l.len() > 0 && d < usize::MAX - 1 {
        let f = (fuel - 1) as nat;
        let n = l.len() as int;
        let a = l[i as int];
        if a == LIST_BGN {
            lemma_walk_reflexive(l, inc(i as int, n) as usize, (d + 1) as usize, f);
        } else if a == LIST_END {
            if i != n - 1 {
                lemma_walk_reflexive(l, inc(i as int, n) as usize, dec(d as int) as usize, f);
            }
        } else if a == ATOMIC_SEP {
            lemma_walk_reflexive(l, inc(i as int, n) as usize, d, f);
        } else if digit(a) {
            let b = border(l, i as int);
            if number_at(l, i as int, b) {
                lemma_walk_reflexive(l, b as usize, d, f);
            }
        }
    }
}

/// A packet is ordered `Equal` to itself.
pub proof fn lemma_packet_order_reflexive(l: Seq<u8>, i: int)
    requires
        0 <= i <= usize::MAX,
    ensures
        packet_order(l, l, i, i) == Ordering::Equal,
{
    lemma_walk_reflexive(l, i as usize, 0, (4 * (l.len() + l.len()) + 8) as nat);
}

pub proof fn lemma_numbers_fit_sub(s: Seq<u8>, lo: int, hi: int)
    requires
        numbers_fit(s),
        0 <= lo <= hi <= s.len(),
    ensures
        numbers_fit(s.subrange(lo, hi)),
{
    let t = s.subrange(lo, hi);
    assert forall|a: int, b: int| 0 <= a <= b <= t.len() && all_digits(#[trigger] t.subrange(a, b)) implies digits_value(t.subrange(a, b)) <= u64::MAX by {
        assert(t.subrange(a, b) =~= s.subrange(lo + a, lo + b));
    }
}

/// The groups of lines between empty lines; the end of the text closes the last.
pub open spec fn blocks(ls: Seq<Seq<u8>>) -> Seq<Seq<Seq<u8>>>
    decreases ls.len(),
{
    if ls.len() == 0 {
        seq![seq![]]
    } else {
        let p = blocks(ls.drop_last());
        if ls.last().len() == 0 {
            p.push(seq![])
        } else {
            p.update(p.len() - 1, p.last().push(ls.last()))
        }
    }
}

/// The number of groups that hold a pair (two lines or more).
pub open spec fn pair_count(bs: Seq<Seq<Seq<u8>>>) -> int
    decreases bs.len(),
{
    if bs.len() == 0 {
        0
    } else {
        pair_count(bs.drop_last()) + if bs.last().len() >= 2 {
            1int
        } else {
            0
        }
    }
}

/// The sum of the indices (from 1, over the groups that hold a pair) of the
/// pairs whose first packet is not ordered after the second.
pub open spec fn ordered_sum(bs: Seq<Seq<Seq<u8>>>) -> int
    decreases bs.len(),
{
    if bs.len() == 0 {
        0
    } else {
        ordered_sum(bs.drop_last()) + if bs.last().len() >= 2 && packet_order(
            bs.last()[0],
            bs.last()[1],
            0,
            0,
        ) != Ordering::Greater {
            pair_count(bs.drop_last()) + 1
        } else {
            0
        }
    }
}

/// The packets: the non-empty lines, trimmed.
pub open spec fn packets(ls: Seq<Seq<u8>>) -> Seq<Seq<u8>>
    decreases ls.len(),
{
    if ls.len() == 0 {
        seq![]
    } else if trim(ls.last()).len() == 0 {
        packets(ls.drop_last())
    } else {
        packets(ls.drop_last()).push(trim(ls.last()))
    }
}

/// How many packets of `ps` are not ordered after `d`.
pub open spec fn count_not_after(ps: Seq<Seq<u8>>, d: Seq<u8>) -> int
    decreases ps.len(),
{
    if ps.len() == 0 {
        0
    } else {
        count_not_after(ps.drop_last(), d) + if packet_order(ps.last(), d, 0, 0) != Ordering::Greater {
            1int
        } else {
            0
        }
    }
}

pub open spec fn divider_1() -> Seq<u8> {
    seq![91u8, 91u8, 50u8, 93u8, 93u8]
}

pub open spec fn divider_2() -> Seq<u8> {
    seq![91u8, 91u8, 54u8, 93u8, 93u8]
}

/// The decoder key: the product of the places (from 1) that the two divider
/// packets take once the packets and the dividers, appended in that order,
/// are sorted stably: each comes after the packets not ordered after it.
pub open spec fn decoder_key(s: Seq<u8>) -> int {
    let ps = packets(lines(s));
    let p1 = 1 + count_not_after(ps, divider_1()) + if packet_order(divider_2(), divider_1(), 0, 0)
        == Ordering::Less {
        1int
    } else {
        0
    };
    let p2 = 1 + count_not_after(ps, divider_2()) + if packet_order(divider_1(), divider_2(), 0, 0)
        != Ordering::Greater {
        1int
    } else {
        0
    };
    p1 * p2
}

/// A text of at most a million lines whose numbers fit `u64`.
pub open spec fn signal_ok(s: Seq<u8>) -> bool {
    lines(s).len() <= 1_000_000 && s.len() < 0x800_0000_0000 && numbers_fit(s)
}

/// The order of the packets `a[a_lo..a_hi]` and `b[b_lo..b_hi]`.
fn order_of(a: &[u8], a_lo: usize, a_hi: usize, b: &[u8], b_lo: usize, b_hi: usize) -> (r: Ordering)
    requires
        a_lo <= a_hi <= a@.len(),
        b_lo <= b_hi <= b@.len(),
        numbers_fit(a@),
        numbers_fit(b@),
        a@.len() < 0x800_0000_0000,
        b@.len() < 0x800_0000_0000,
    ensures
        r == packet_order(span(a@, a_lo, a_hi), span(b@, b_lo, b_hi), 0, 0),
{
    let x = vstd::slice::slice_subrange(a, a_lo, a_hi);
    let y = vstd::slice::slice_subrange(b, b_lo, b_hi);
    proof {
        lemma_numbers_fit_sub(a@, a_lo as int, a_hi as int);
        lemma_numbers_fit_sub(b@, b_lo as int, b_hi as int);
    }
    let mut left: ByteCursor = (x, 0, 0);
    let mut right: ByteCursor = (y, 0, 0);
    compare_expr(&mut left, &mut right)
}

pub struct Day13;

impl AOCSolutions for Day13 {
    open spec fn accepts_1(input: Seq<u8>) -> bool {
        signal_ok(input)
    }

    open spec fn accepts_2(input: Seq<u8>) -> bool {
        signal_ok(input)
    }

    open spec fn star_1(input: Seq<u8>, r: Result<i64, ()>) -> bool {
        r == Ok::<i64, ()>(ordered_sum(blocks(lines(input))) as i64)
    }

    open spec fn star_2(input: Seq<u8>, r: Result<i64, ()>) -> bool {
        r == Ok::<i64, ()>(decoder_key(input) as i64)
    }

    /// The sum of the indices of the pairs in the right order.
    fn get_star_1(input: &str) -> (r: Result<i64, ()>) {
        let s = input.as_bytes();
        let ghost ls = lines(s@);
        let spans = line_spans(s);
        let ghost mut closed: Seq<Seq<Seq<u8>>> = seq![];
        let ghost mut cur: Seq<Seq<u8>> = seq![];
        let mut cnt: usize = 0;
        let mut first: (usize, usize) = (0, 0);
        let mut second: (usize, usize) = (0, 0);
        let mut count: i64 = 0;
        let mut idx: i64 = 1;
        let mut i: usize = 0;
        proof {
            assert(ls.subrange(0, 0) =~= Seq::<Seq<u8>>::empty());
            assert(blocks(ls.subrange(0, 0)) =~= closed.push(cur));
        }
        while i < spans.len()
            invariant
                ls == lines(s@),
                s@ == input.spec_bytes(),
                signal_ok(s@),
                spans_of(s@, spans@, ls),
                0 <= i <= spans@.len(),
                blocks(ls.subrange(0, i as int)) == closed.push(cur),
                cur.len() == cnt,
                cnt >= 1 ==> first.0 <= first.1 <= s@.len() && span(s@, first.0, first.1) == cur[0],
                cnt >= 2 ==> second.0 <= second.1 <= s@.len() && span(s@, second.0, second.1) == cur[1],
                count == ordered_sum(closed),
                idx == pair_count(closed) + 1,
                0 <= pair_count(closed) <= closed.len() <= i,
                0 <= count <= 1_000_001 * i,
                cnt <= i,
            decreases spans@.len() - i,
        {
            let (lo, hi) = spans[i];
            proof {
                assert(span(s@, lo, hi) == ls[i as int]);
                assert(ls.subrange(0, i + 1).drop_last() =~= ls.subrange(0, i as int));
                assert(ls.subrange(0, i + 1).last() == ls[i as int]);
            }
            if lo == hi {
                if cnt >= 2 {
                    let o = order_of(s, first.0, first.1, s, second.0, second.1);
                    if !matches!(o, Ordering::Greater) {
                        count = count + idx;
                    }
                    idx = idx + 1;
                }
                proof {
                    let nc = closed.push(cur);
                    assert(nc.drop_last() =~= closed);
                    closed = nc;
                    cur = seq![];
                }
                cnt = 0;
            } else {
                if cnt == 0 {
                    first = (lo, hi);
                } else if cnt == 1 {
                    second = (lo, hi);
                }
                proof {
                    cur = cur.push(ls[i as int]);
                }
                cnt = cnt + 1;
            }
            proof {
                assert(blocks(ls.subrange(0, i + 1)) =~= closed.push(cur));
            }
            i = i + 1;
        }
        if cnt >= 2 {
            let o = order_of(s, first.0, first.1, s, second.0, second.1);
            if !matches!(o, Ordering::Greater) {
                count = count + idx;
            }
        }
        proof {
            assert(ls.subrange(0, i as int) =~= ls);
            let nc = closed.push(cur);
            assert(nc.drop_last() =~= closed);
        }
        Ok(count)
    }

    /// The decoder key of the sorted packets.
    fn get_star_2(input: &str) -> (r: Result<i64, ()>) {
        let s = input.as_bytes();
        let ghost ls = lines(s@);
        let spans = line_spans(s);
        let d1: Vec<u8> = vec![91u8, 91u8, 50u8, 93u8, 93u8];
        let d2: Vec<u8> = vec![91u8, 91u8, 54u8, 93u8, 93u8];
        let x1 = d1.as_slice();
        let x2 = d2.as_slice();
        proof {
            assert(x1@ =~= divider_1());
            assert(x2@ =~= divider_2());
            assert(span(x1@, 0, 5) =~= divider_1());
            assert(span(x2@, 0, 5) =~= divider_2());
            lemma_divider_fits(x1@, 50u8);
            lemma_divider_fits(x2@, 54u8);
        }
        let mut c1: i64 = 0;
        let mut c2: i64 = 0;
        let mut i: usize = 0;
        while i < spans.len()
            invariant
                ls == lines(s@),
                s@ == input.spec_bytes(),
                signal_ok(s@),
                spans_of(s@, spans@, ls),
                0 <= i <= spans@.len(),
                x1@ == divider_1(),
                x2@ == divider_2(),
                span(x1@, 0, 5) == divider_1(),
                span(x2@, 0, 5) == divider_2(),
                numbers_fit(x1@),
                numbers_fit(x2@),
                c1 == count_not_after(packets(ls.subrange(0, i as int)), divider_1()),
                c2 == count_not_after(packets(ls.subrange(0, i as int)), divider_2()),
                0 <= c1 <= i,
                0 <= c2 <= i,
            decreases spans@.len() - i,
        {
            let (lo, hi) = spans[i];
            let (a, b) = trim_span(s, lo, hi);
            let ghost pre = ls.subrange(0, i as int);
            let ghost next = ls.subrange(0, i + 1);
            proof {
                assert(span(s@, lo, hi) == ls[i as int]);
                assert(next.drop_last() =~= pre);
                assert(next.last() == ls[i as int]);
            }
            if a < b {
                let o1 = order_of(s, a, b, x1, 0, 5);
                let o2 = order_of(s, a, b, x2, 0, 5);
                proof {
                    let pn = packets(next);
                    assert(pn == packets(pre).push(trim(ls[i as int])));
                    assert(pn.drop_last() =~= packets(pre));
                }
                proof {
                    assert(span(s@, a, b) == trim(ls[i as int]));
                }
                if !matches!(o1, Ordering::Greater) {
                    c1 = c1 + 1;
                }
                if !matches!(o2, Ordering::Greater) {
                    c2 = c2 + 1;
                }
            } else {
                proof {
                    assert(trim(ls[i as int]).len() == 0);
                    assert(packets(next) == packets(pre));
                }
            }
            i = i + 1;
        }
        let o21 = order_of(x2, 0, 5, x1, 0, 5);
        let o12 = order_of(x1, 0, 5, x2, 0, 5);
        let p1: i64 = 1 + c1 + if matches!(o21, Ordering::Less) {
            1
        } else {
            0
        };
        let p2: i64 = 1 + c2 + if !matches!(o12, Ordering::Greater) {
            1
        } else {
            0
        };
        proof {
            assert(ls.subrange(0, i as int) =~= ls);
            assert(p1 * p2 <= 1_000_002 * 1_000_002) by (nonlinear_arith)
                requires
                    0 < p1 <= 1_000_002,
                    0 < p2 <= 1_000_002,
            ;
        }
        Ok(p1 * p2)
    }
}

} // verus!

//! Supply stacks: crates moved between stacks by a crane.
use vstd::prelude::*;
use vstd::string::StringSliceAdditionalSpecFns;
use crate::AOCSolutions;
use crate::text::{lines, trim, split, span, spans_of, is_nat_text, int_value, line_spans, split_spans,
    parse_nat, trim_span, find_from, find_byte};

verus! {

/// The stacks, each bottom first.
pub type CargoLoad = Vec<Vec<u8>>;

pub open spec fn alpha(b: u8) -> bool {
    (65u8 <= b <= 90u8) || (97u8 <= b <= 122u8)
}

pub open spec fn digit(b: u8) -> bool {
    48u8 <= b <= 57u8
}

/// The first letter of `s[lo..hi]`, if any.
pub open spec fn first_alpha(s: Seq<u8>, lo: int, hi: int) -> Option<u8>
    decreases hi - lo,
{
    if lo >= hi || lo >= s.len() || lo < 0 {
        None
    } else if alpha(s[lo]) {
        Some(s[lo])
    } else {
        first_alpha(s, lo + 1, hi)
    }
}

/// The crate that a drawing line shows on stack `idx`: a letter among its
/// four bytes from `4 * idx` on.
pub open spec fn crate_at(l: Seq<u8>, idx: int) -> Option<u8> {
    first_alpha(l, 4 * idx, 4 * idx + 4)
}

/// The stacks drawn by the lines `ls` (top row first), each bottom first.
pub open spec fn drawn(ls: Seq<Seq<u8>>, n: int) -> Seq<Seq<u8>>
    decreases ls.len(),
{
    if ls.len() == 0 {
        Seq::new(n as nat, |i: int| Seq::<u8>::empty())
    } else {
        let below = drawn(ls.drop_first(), n);
        Seq::new(n as nat, |i: int| match crate_at(ls[0], i) {
            Some(c) => below[i].push(c),
            None => below[i],
        })
    }
}

/// The number of stacks: the length of the first line, its newline
/// included, over four.
pub open spec fn row_count(s: Seq<u8>) -> int {
    let e = find_from(s, 10u8, 0);
    (if e < s.len() { e + 1 } else { e }) / 4
}

/// A drawing line: as long as the first line; the line of stack numbers has digits.
pub open spec fn drawing_line(l: Seq<u8>, n: int) -> bool {
    l.len() + 1 == 4 * n
}

pub open spec fn has_digit(l: Seq<u8>) -> bool {
    exists|i: int| 0 <= i < l.len() && digit(l[i])
}

/// The index of the line that ends the drawing: the first from `k` on
/// that is not a drawing line.
pub open spec fn drawing_end(ls: Seq<Seq<u8>>, n: int, k: int) -> int
    decreases ls.len() - k,
{
    if k >= ls.len() || k < 0 {
        ls.len() as int
    } else if !drawing_line(ls[k], n) {
        k
    } else {
        drawing_end(ls, n, k + 1)
    }
}

/// The crate lines of the drawing (the line of numbers left out).
pub open spec fn crate_lines(ls: Seq<Seq<u8>>, n: int, k: int) -> Seq<Seq<u8>>
    decreases ls.len() - k,
{
    if k >= ls.len() || k < 0 || !drawing_line(ls[k], n) {
        seq![]
    } else if has_digit(ls[k]) {
        crate_lines(ls, n, k + 1)
    } else {
        seq![ls[k]] + crate_lines(ls, n, k + 1)
    }
}

pub open spec fn words(l: Seq<u8>) -> Seq<Seq<u8>> {
    split(trim(l), 32u8)
}

/// `move a from b to c`, with `b` and `c` at least 1.
pub open spec fn instruction_ok(l: Seq<u8>) -> bool {
    let w = words(l);
    &&& w.len() == 6
    &&& forall|k: int| 0 <= k < 3 ==> is_nat_text(#[trigger] w[2 * k + 1]) && int_value(w[2 * k + 1]) <= usize::MAX
    &&& int_value(w[3]) >= 1
    &&& int_value(w[5]) >= 1
}

/// The three numbers of an instruction.
pub open spec fn numbers(l: Seq<u8>) -> Seq<int> {
    let w = words(l);
    seq![int_value(w[1]), int_value(w[3]), int_value(w[5])]
}

/// Moves `count` crates from `from` to `to`: one at a time (9000), so that
/// their order turns over, or all at once (9001).
pub open spec fn moved(st: Seq<Seq<u8>>, count: int, from: int, to: int, model: int) -> Seq<Seq<u8>> {
    let f = st[from];
    let taken = f.subrange(f.len() - count, f.len() as int);
    let put = if model == 9000 {
        taken.reverse()
    } else {
        taken
    };
    st.update(from, f.subrange(0, f.len() - count)).update(to, st[to] + put)
}

/// The stacks after the instructions `ls`, or `None` where one names a
/// stack that is not there or takes more crates than a stack holds.
pub open spec fn run(st: Seq<Seq<u8>>, ls: Seq<Seq<u8>>, model: int) -> Option<Seq<Seq<u8>>>
    decreases ls.len(),
{
    if ls.len() == 0 {
        Some(st)
    } else {
        let c = numbers(ls[0]);
        let (count, from, to) = (c[0], c[1] - 1, c[2] - 1);
        if from == to {
            run(st, ls.drop_first(), model)
        } else if to >= st.len() || from >= st.len() || st[from].len() < count {
            None
        } else {
            run(moved(st, count, from, to, model), ls.drop_first(), model)
        }
    }
}

/// The top crates, from the first stack on, up to the first empty one.
pub open spec fn tops(st: Seq<Seq<u8>>) -> Seq<u8>
    decreases st.len(),
{
    if st.len() == 0 || st[0].len() == 0 {
        seq![]
    } else {
        seq![st[0].last()] + tops(st.drop_first())
    }
}

/// The stacks after taking the top crate of each, from the first on, up to
/// the first empty one.
pub open spec fn after_tops(st: Seq<Seq<u8>>) -> Seq<Seq<u8>>
    decreases st.len(),
{
    if st.len() == 0 || st[0].len() == 0 {
        st
    } else {
        seq![st[0].drop_last()] + after_tops(st.drop_first())
    }
}

pub struct Day5;

impl Day5 {
    /// The number of stacks; `None` for an empty text.
    pub fn get_row_count(input: &[u8]) -> (r: Option<usize>)
        ensures
            input@.len() == 0 <==> r is None,
            r matches Some(n) ==> n == row_count(input@),
    {
        if input.len() == 0 {
            return None;
        }
        let n = input.len();
        proof {
            assert(span(input@, 0, n) =~= input@);
        }
        let e = find_byte(input, 0, n, 10u8);
        if e < n {
            Some((e + 1) / 4)
        } else {
            Some(e / 4)
        }
    }
}

pub open spec fn stacks_view(c: Seq<Vec<u8>>) -> Seq<Seq<u8>> {
    c.map_values(|v: Vec<u8>| v@)
}

/// The first letter of `l[lo..hi]`, where `l` is the line `s[a..b]`.
fn find_alpha(s: &[u8], a: usize, b: usize, lo: usize, hi: usize) -> (r: Option<u8>)
    requires
        a <= b <= s@.len(),
        lo <= hi,
    ensures
        r == first_alpha(span(s@, a, b), lo as int, hi as int),
{
    let ghost l = span(s@, a, b);
    let mut k = lo;
    while k < hi && k < b - a
        invariant
            a <= b <= s@.len(),
            l == span(s@, a, b),
            lo <= k <= hi,
            first_alpha(l, lo as int, hi as int) == first_alpha(l, k as int, hi as int),
        decreases hi - k,
    {
        let c = s[a + k];
        proof {
            assert(l[k as int] == c);
        }
        if (65u8 <= c && c <= 90u8) || (97u8 <= c && c <= 122u8) {
            return Some(c);
        }
        k = k + 1;
    }
    None
}

/// Whether the line `s[a..b]` has a digit.
fn line_has_digit(s: &[u8], a: usize, b: usize) -> (r: bool)
    requires
        a <= b <= s@.len(),
    ensures
        r == has_digit(span(s@, a, b)),
{
    let ghost l = span(s@, a, b);
    let mut k = a;
    while k < b
        invariant
            a <= k <= b <= s@.len(),
            l == span(s@, a, b),
            forall|i: int| 0 <= i < k - a ==> !digit(l[i]),
        decreases b - k,
    {
        if 48u8 <= s[k] && s[k] <= 57u8 {
            assert(digit(l[k - a]));
            return true;
        }
        k = k + 1;
    }
    false
}

impl Day5 {
    /// The stacks drawn at the top of `input` (each bottom first), and the
    /// index of the line after the one that ends the drawing; `None` where
    /// the text ends first.
    pub fn construct_init_cargo_load(input: &[u8], expected_row_count: usize) -> (r: Option<(CargoLoad, usize)>)
        requires
            expected_row_count <= 0x100_0000,
        ensures
            drawing_end(lines(input@), expected_row_count as int, 0) >= lines(input@).len() <==> r is None,
            r matches Some((st, k)) ==> stacks_view(st@) == drawn(crate_lines(lines(input@), expected_row_count as int, 0), expected_row_count as int)
                && k == drawing_end(lines(input@), expected_row_count as int, 0) + 1,
    {
        let n = expected_row_count;
        let ghost ls = lines(input@);
        let spans = line_spans(input);
        let mut cl: Vec<(usize, usize)> = Vec::new();
        let mut k: usize = 0;
        let mut done = false;
        while k < spans.len() && !done
            invariant
                ls == lines(input@),
                spans_of(input@, spans@, ls),
                n <= 0x100_0000,
                0 <= k <= spans@.len(),
                forall|j: int| 0 <= j < cl@.len() ==> (#[trigger] cl@[j]).0 <= cl@[j].1 <= input@.len(),
                cl@.map_values(|p: (usize, usize)| span(input@, p.0, p.1)) + (if done { seq![] } else { crate_lines(ls, n as int, k as int) }) == crate_lines(ls, n as int, 0),
                done ==> drawing_end(ls, n as int, 0) == k - 1 && k >= 1,
                !done ==> drawing_end(ls, n as int, 0) == drawing_end(ls, n as int, k as int),
            decreases spans@.len() - k,
        {
            let (a, b) = spans[k];
            proof {
                assert(span(input@, a, b) == ls[k as int]);
            }
            let ghost before = cl@;
            if 4 * n > 0 && b - a == 4 * n - 1 {
                if !line_has_digit(input, a, b) {
                    cl.push((a, b));
                    proof {
                        assert(cl@.map_values(|p: (usize, usize)| span(input@, p.0, p.1)) =~= before.map_values(|p: (usize, usize)| span(input@, p.0, p.1)).push(ls[k as int]));
                    }
                }
                k = k + 1;
            } else {
                done = true;
                k = k + 1;
            }
        }
        if !done {
            return None;
        }
        let ghost clv = cl@.map_values(|p: (usize, usize)| span(input@, p.0, p.1));
        proof {
            assert(clv =~= crate_lines(ls, n as int, 0));
        }
        let mut stacks: CargoLoad = Vec::new();
        while stacks.len() < n
            invariant
                stacks@.len() <= n,
                forall|i: int| 0 <= i < stacks@.len() ==> (#[trigger] stacks@[i])@.len() == 0,
            decreases n - stacks@.len(),
        {
            stacks.push(Vec::new());
        }
        proof {
            assert(clv.subrange(clv.len() as int, clv.len() as int).len() == 0);
            assert forall|i: int| 0 <= i < n implies stacks_view(stacks@)[i] =~= Seq::<u8>::empty() by {
                assert(stacks@[i]@.len() == 0);
            }
            assert(stacks_view(stacks@) =~= drawn(clv.subrange(clv.len() as int, clv.len() as int), n as int));
        }
        let mut j = cl.len();
        while j > 0
            invariant
                0 <= j <= cl@.len(),
                clv == cl@.map_values(|p: (usize, usize)| span(input@, p.0, p.1)),
                forall|q: int| 0 <= q < cl@.len() ==> (#[trigger] cl@[q]).0 <= cl@[q].1 <= input@.len(),
                n <= 0x100_0000,
                stacks@.len() == n,
                stacks_view(stacks@) == drawn(clv.subrange(j as int, clv.len() as int), n as int),
            decreases j,
        {
            let (a, b) = cl[j - 1];
            let ghost below = stacks_view(stacks@);
            let ghost line = clv[j - 1];
            proof {
                assert(line == span(input@, a, b));
            }
            let mut idx: usize = 0;
            while idx < n
                invariant
                    0 <= idx <= n <= 0x100_0000,
                    a <= b <= input@.len(),
                    line == span(input@, a, b),
                    stacks@.len() == n,
                    below.len() == n,
                    forall|i: int| 0 <= i < idx ==> (#[trigger] stacks_view(stacks@)[i]) == match crate_at(line, i) {
                        Some(c) => below[i].push(c),
                        None => below[i],
                    },
                    forall|i: int| idx <= i < n ==> #[trigger] stacks_view(stacks@)[i] == below[i],
                decreases n - idx,
            {
                let c = find_alpha(input, a, b, 4 * idx, 4 * idx + 4);
                let ghost pre = stacks@;
                proof {
                    assert(c == crate_at(line, idx as int));
                    assert(stacks_view(pre)[idx as int] == below[idx as int]);
                }
                if let Some(ch) = c {
                    let mut st: Vec<u8> = Vec::new();
                    stacks.set_and_swap(idx, &mut st);
                    st.push(ch);
                    stacks.set_and_swap(idx, &mut st);
                    proof {
                        assert forall|i: int| 0 <= i < n && i != idx implies stacks@[i] == pre[i] by {}
                        assert(stacks_view(stacks@)[idx as int] == below[idx as int].push(ch));
                        assert forall|i: int| 0 <= i < n && i != idx implies #[trigger] stacks_view(stacks@)[i] == stacks_view(pre)[i] by {}
                    }
                }
                idx = idx + 1;
            }
            proof {
                let rest = clv.subrange(j - 1, clv.len() as int);
                assert(rest.drop_first() =~= clv.subrange(j as int, clv.len() as int));
                assert(rest[0] == line);
                assert(stacks_view(stacks@) =~= drawn(rest, n as int));
            }
            j = j - 1;
        }
        proof {
            assert(clv.subrange(0, clv.len() as int) =~= clv);
        }
        Some((stacks, k))
    }
}

/// Every line from `k` on is an instruction.
pub open spec fn instructions_ok(ls: Seq<Seq<u8>>, k: int) -> bool {
    forall|j: int| k <= j < ls.len() ==> instruction_ok(#[trigger] ls[j])
}

/// `v` in the opposite order.
fn reversed(v: &Vec<u8>) -> (r: Vec<u8>)
    ensures
        r@ == v@.reverse(),
{
    let mut r: Vec<u8> = Vec::new();
    let mut i = v.len();
    while i > 0
        invariant
            0 <= i <= v@.len(),
            r@ == v@.subrange(i as int, v@.len() as int).reverse(),
        decreases i,
    {
        r.push(v[i - 1]);
        proof {
            assert(r@ =~= v@.subrange(i - 1, v@.len() as int).reverse());
        }
        i = i - 1;
    }
    proof {
        assert(v@.subrange(0, v@.len() as int) =~= v@);
    }
    r
}

/// The three numbers of the instruction on the line `s[a..b]`.
fn parse_instruction(s: &[u8], a: usize, b: usize) -> (r: (usize, usize, usize))
    requires
        a <= b <= s@.len(),
        instruction_ok(span(s@, a, b)),
    ensures
        r.0 == numbers(span(s@, a, b))[0],
        r.1 == numbers(span(s@, a, b))[1],
        r.2 == numbers(span(s@, a, b))[2],
{
    let ghost l = span(s@, a, b);
    let (x, y) = trim_span(s, a, b);
    let w = split_spans(s, x, y, 32u8);
    proof {
        assert(spans_of(s@, w@, words(l)));
        assert(is_nat_text(words(l)[2 * 0int + 1]));
        assert(is_nat_text(words(l)[2 * 1int + 1]));
        assert(is_nat_text(words(l)[2 * 2int + 1]));
    }
    let c = parse_nat(s, w[1].0, w[1].1).unwrap() as usize;
    let f = parse_nat(s, w[3].0, w[3].1).unwrap() as usize;
    let t = parse_nat(s, w[5].0, w[5].1).unwrap() as usize;
    (c, f, t)
}

impl Day5 {
    /// Follows the instructions on the lines from `start` on, then takes the
    /// top crate of each stack, from the first on, up to the first empty
    /// one; `None` where an instruction cannot be followed.
    pub fn follow_instructions(input: &[u8], start: usize, cargo_load: &mut CargoLoad, model: usize) -> (r: Option<Vec<u8>>)
        requires
            model == 9000 || model == 9001,
            instructions_ok(lines(input@), start as int),
            start <= lines(input@).len(),
        ensures
            match run(stacks_view(old(cargo_load)@), lines(input@).subrange(start as int, lines(input@).len() as int), model as int) {
                Some(st) => r matches Some(t) && t@ == tops(st) && stacks_view(final(cargo_load)@) == after_tops(st),
                None => r is None,
            },
    {
        let ghost ls = lines(input@);
        let ghost st0 = stacks_view(cargo_load@);
        let spans = line_spans(input);
        let mut k = start;
        while k < spans.len()
            invariant
                ls == lines(input@),
                spans_of(input@, spans@, ls),
                model == 9000 || model == 9001,
                instructions_ok(ls, start as int),
                start <= k <= ls.len(),
                run(st0, ls.subrange(start as int, ls.len() as int), model as int) == run(stacks_view(cargo_load@), ls.subrange(k as int, ls.len() as int), model as int),
                st0 == stacks_view(old(cargo_load)@),
            decreases spans@.len() - k,
        {
            let (a, b) = spans[k];
            let ghost rest = ls.subrange(k as int, ls.len() as int);
            let ghost cur = stacks_view(cargo_load@);
            proof {
                assert(span(input@, a, b) == ls[k as int]);
                assert(rest[0] == ls[k as int]);
                assert(rest.drop_first() =~= ls.subrange(k + 1, ls.len() as int));
                assert(instruction_ok(ls[k as int]));
            }
            let (crate_count, f1, t1) = parse_instruction(input, a, b);
            let from = f1 - 1;
            let to = t1 - 1;
            if from != to {
                let n = cargo_load.len();
                if to >= n || from >= n {
                    return None;
                }
                if cargo_load[from].len() < crate_count {
                    return None;
                }
                let mut f: Vec<u8> = Vec::new();
                cargo_load.set_and_swap(from, &mut f);
                let at = f.len() - crate_count;
                let taken = f.split_off(at);
                cargo_load.set_and_swap(from, &mut f);
                let mut put = if model == 9000 {
                    reversed(&taken)
                } else {
                    taken
                };
                let mut t: Vec<u8> = Vec::new();
                cargo_load.set_and_swap(to, &mut t);
                let ghost t_old = t@;
                t.append(&mut put);
                cargo_load.set_and_swap(to, &mut t);
                proof {
                    assert(stacks_view(cargo_load@) =~= moved(cur, crate_count as int, from as int, to as int, model as int));
                }
            }
            k = k + 1;
        }
        proof {
            assert(ls.subrange(k as int, ls.len() as int).len() == 0);
        }
        // the top crate of each stack, up to the first empty one
        let mut top: Vec<u8> = Vec::new();
        let mut i: usize = 0;
        let ghost st = stacks_view(cargo_load@);
        let mut stop = false;
        proof {
            assert(st.subrange(0, st.len() as int) =~= st);
            assert(top@ + tops(st) =~= tops(st));
            assert(stacks_view(cargo_load@).subrange(0, 0) + after_tops(st) =~= after_tops(st));
        }
        while i < cargo_load.len() && !stop
            invariant
                st.len() == cargo_load@.len(),
                0 <= i <= st.len(),
                !stop ==> tops(st) == top@ + tops(st.subrange(i as int, st.len() as int)),
                !stop ==> after_tops(st) == stacks_view(cargo_load@).subrange(0, i as int) + after_tops(st.subrange(i as int, st.len() as int)),
                !stop ==> stacks_view(cargo_load@).subrange(i as int, st.len() as int) == st.subrange(i as int, st.len() as int),
                stop ==> tops(st) == top@ && after_tops(st) == stacks_view(cargo_load@),
            decreases st.len() - i + (if stop { 0int } else { 1int }),
        {
            let ghost rest = st.subrange(i as int, st.len() as int);
            let ghost cur = cargo_load@;
            let mut v: Vec<u8> = Vec::new();
            cargo_load.set_and_swap(i, &mut v);
            proof {
                assert(rest[0] == st[i as int]);
                assert(stacks_view(cur)[i as int] == st[i as int]) by {
                    assert(stacks_view(cur).subrange(i as int, st.len() as int)[0] == rest[0]);
                }
            }
            match v.pop() {
                Some(c) => {
                    top.push(c);
                    cargo_load.set_and_swap(i, &mut v);
                    proof {
                        assert(rest.drop_first() =~= st.subrange(i + 1, st.len() as int));
                        assert(top@ =~= top@.drop_last().push(c));
                        assert(tops(st) =~= top@ + tops(st.subrange(i + 1, st.len() as int)));
                        assert(stacks_view(cargo_load@).subrange(0, i + 1) =~= stacks_view(cur).subrange(0, i as int).push(st[i as int].drop_last()));
                        assert(after_tops(st) =~= stacks_view(cargo_load@).subrange(0, i + 1) + after_tops(st.subrange(i + 1, st.len() as int)));
                        assert(stacks_view(cargo_load@).subrange(i + 1, st.len() as int) =~= st.subrange(i + 1, st.len() as int));
                    }
                    i = i + 1;
                },
                None => {
                    cargo_load.set_and_swap(i, &mut v);
                    proof {
                        assert(stacks_view(cargo_load@) =~= stacks_view(cur));
                        assert(tops(rest) == Seq::<u8>::empty());
                        assert(top@ + tops(rest) =~= top@);
                        assert(after_tops(rest) == rest);
                        assert(stacks_view(cargo_load@) =~= stacks_view(cargo_load@).subrange(0, i as int) + rest);
                    }
                    stop = true;
                },
            }
        }
        proof {
            if !stop {
                assert(st.subrange(i as int, st.len() as int).len() == 0);
                assert(top@ + Seq::<u8>::empty() =~= top@);
                assert(stacks_view(cargo_load@).subrange(0, i as int) =~= stacks_view(cargo_load@));
            }
        }
        Some(top)
    }

    /// The top crates after the drawing's stacks follow the instructions
    /// with the crane `model`; `None` where the text is empty, ends before
    /// the drawing does, or an instruction cannot be followed.
    pub fn top_crates(input: &str, model: usize) -> (r: Option<Vec<u8>>)
        requires
            model == 9000 || model == 9001,
            crates_ok(input.spec_bytes()),
        ensures
            match crates_answer(input.spec_bytes(), model as int) {
                Some(t) => r matches Some(v) && v@ == t,
                None => r is None,
            },
    {
        let s = input.as_bytes();
        let rows = match Day5::get_row_count(s) {
            Some(n) => n,
            None => return None,
        };
        if rows > 0x100_0000 {
            return None;
        }
        let (mut load, start) = match Day5::construct_init_cargo_load(s, rows) {
            Some(p) => p,
            None => return None,
        };
        Day5::follow_instructions(s, start, &mut load, model)
    }
}

/// The drawing is followed by instructions only, and has at most 2^24 stacks.
pub open spec fn crates_ok(s: Seq<u8>) -> bool {
    s.len() > 0 ==> row_count(s) <= 0x100_0000 && instructions_ok(lines(s), drawing_end(lines(s), row_count(s), 0) + 1)
}

/// The top crates after the instructions, or `None`.
pub open spec fn crates_answer(s: Seq<u8>, model: int) -> Option<Seq<u8>> {
    let ls = lines(s);
    let n = row_count(s);
    let e = drawing_end(ls, n, 0);
    if s.len() == 0 || e >= ls.len() {
        None
    } else {
        match run(drawn(crate_lines(ls, n, 0), n), ls.subrange(e + 1, ls.len() as int), model) {
            Some(st) => Some(tops(st)),
            None => None,
        }
    }
}

impl AOCSolutions for Day5 {
    open spec fn accepts_1(input: Seq<u8>) -> bool {
        crates_ok(input)
    }

    open spec fn accepts_2(input: Seq<u8>) -> bool {
        crates_ok(input)
    }

    open spec fn star_1(input: Seq<u8>, r: Result<i64, ()>) -> bool {
        r == if crates_answer(input, 9000) is Some { Ok::<i64, ()>(1) } else { Err(()) }
    }

    open spec fn star_2(input: Seq<u8>, r: Result<i64, ()>) -> bool {
        r == if crates_answer(input, 9001) is Some { Ok::<i64, ()>(1) } else { Err(()) }
    }

    /// 1 once the crates moved one at a time give their top crates (see
    /// `top_crates`), an error where they do not.
    fn get_star_1(input: &str) -> (r: Result<i64, ()>) {
        match Day5::top_crates(input, 9000) {
            Some(_) => Ok(1),
            None => Err(()),
        }
    }

    /// 1 once the crates moved all at once give their top crates, an error
    /// where they do not.
    fn get_star_2(input: &str) -> (r: Result<i64, ()>) {
        match Day5::top_crates(input, 9001) {
            Some(_) => Ok(1),
            None => Err(()),
        }
    }
}

} // verus!

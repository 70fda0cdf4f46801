//! Treetop tree house: visibility and scenic scores in a grid of heights.
use vstd::prelude::*;
use vstd::string::StringSliceAdditionalSpecFns;
use vstd::slice::slice_subrange;
use crate::AOCSolutions;
use crate::text::{lines, span, spans_of, line_spans};

verus! {

/// The tree at `idx` is taller than all before it, or than all after it.
pub open spec fn visible(a: Seq<u8>, idx: int) -> bool {
    (forall|j: int| 0 <= j < idx ==> a[j] < a[idx]) || (forall|j: int| idx < j < a.len() ==> a[j] < a[idx])
}

/// The number of trees seen from a tree of height `h` looking along `s`:
/// up to and including the first as tall or taller.
pub open spec fn view_distance(h: u8, s: Seq<u8>) -> nat
    decreases s.len(),
{
    if s.len() == 0 {
        0
    } else if s[0] >= h {
        1
    } else {
        1 + view_distance(h, s.drop_first())
    }
}

pub open spec fn scenic(a: Seq<u8>, idx: int) -> nat {
    view_distance(a[idx], a.subrange(0, idx).reverse()) * view_distance(a[idx], a.subrange(idx + 1, a.len() as int))
}

/// The trees of `s` kept by walking along it: the first, then each one
/// taller than the last kept, or as tall as it while that is lower than `h`.
pub open spec fn eq_increasing(h: u8, s: Seq<u8>) -> Seq<u8>
    decreases s.len(),
{
    if s.len() == 0 {
        seq![]
    } else {
        let r = eq_increasing(h, s.drop_last());
        let x = s.last();
        if r.len() == 0 || x > r.last() || (x == r.last() && r.last() < h) {
            r.push(x)
        } else {
            r
        }
    }
}

/// The bytes at column `c` of those lines long enough to have one.
pub open spec fn column_of(ls: Seq<Seq<u8>>, c: int) -> Seq<u8>
    decreases ls.len(),
{
    if ls.len() == 0 {
        seq![]
    } else if ls.last().len() > c {
        column_of(ls.drop_last(), c).push(ls.last()[c])
    } else {
        column_of(ls.drop_last(), c)
    }
}

/// Every line has the width of the first; the grid is not too large for the scores.
pub open spec fn grid_ok(s: Seq<u8>) -> bool {
    let ls = lines(s);
    &&& ls.len() <= 10_000
    &&& forall|k: int| 0 <= k < ls.len() ==> (#[trigger] ls[k]).len() == ls[0].len()
    &&& ls.len() > 0 ==> ls[0].len() <= 10_000
}

pub open spec fn width(ls: Seq<Seq<u8>>) -> int {
    if ls.len() == 0 {
        0
    } else {
        ls[0].len() as int
    }
}

pub open spec fn col(ls: Seq<Seq<u8>>, c: int) -> Seq<u8> {
    Seq::new(ls.len(), |k: int| ls[k][c])
}

pub open spec fn cell_visible(ls: Seq<Seq<u8>>, r: int, c: int) -> bool {
    visible(ls[r], c) || visible(col(ls, c), r)
}

/// The visible trees among the first `c` of row `r`.
pub open spec fn visible_in_row(ls: Seq<Seq<u8>>, r: int, c: int) -> int
    decreases c,
{
    if c <= 0 {
        0
    } else {
        visible_in_row(ls, r, c - 1) + if cell_visible(ls, r, c - 1) {
            1int
        } else {
            0
        }
    }
}

/// The visible trees in the first `r` rows.
pub open spec fn visible_count(ls: Seq<Seq<u8>>, r: int) -> int
    decreases r,
{
    if r <= 0 {
        0
    } else {
        visible_count(ls, r - 1) + visible_in_row(ls, r - 1, width(ls))
    }
}

pub open spec fn cell_score(ls: Seq<Seq<u8>>, r: int, c: int) -> int {
    (scenic(ls[r], c) * scenic(col(ls, c), r)) as int
}

pub open spec fn best_in_row(ls: Seq<Seq<u8>>, r: int, c: int) -> int
    decreases c,
{
    if c <= 0 {
        0
    } else {
        let b = best_in_row(ls, r, c - 1);
        let x = cell_score(ls, r, c - 1);
        if x > b {
            x
        } else {
            b
        }
    }
}

pub open spec fn best_score(ls: Seq<Seq<u8>>, r: int) -> int
    decreases r,
{
    if r <= 0 {
        0
    } else {
        let b = best_score(ls, r - 1);
        let x = best_in_row(ls, r - 1, width(ls));
        if x > b {
            x
        } else {
            b
        }
    }
}

pub proof fn lemma_column_rect(ls: Seq<Seq<u8>>, c: int, w: int)
    requires
        0 <= c < w,
        forall|k: int| 0 <= k < ls.len() ==> (#[trigger] ls[k]).len() == w,
    ensures
        column_of(ls, c) == col(ls, c),
    decreases ls.len(),
{
    if ls.len() > 0 {
        lemma_column_rect(ls.drop_last(), c, w);
        assert(column_of(ls, c) =~= col(ls, c));
    } else {
        assert(column_of(ls, c) =~= col(ls, c));
    }
}

/// Columns of a text, one at a time: each holds, in order, the byte at that
/// place of every line long enough to have one.
pub struct ColumnIterator {
    pub text: Vec<u8>,
    pub line_spans: Vec<(usize, usize)>,
    pub col: usize,
    pub is_consumed: bool,
}

impl ColumnIterator {
    pub open spec fn wf(&self) -> bool {
        spans_of(self.text@, self.line_spans@, lines(self.text@))
    }

    pub fn from(lines_text: &str) -> (r: ColumnIterator)
        ensures
            r.wf(),
            r.text@ == lines_text.spec_bytes(),
            r.col == 0,
            !r.is_consumed,
    {
        let bytes = lines_text.as_bytes();
        let text = vstd::slice::slice_to_vec(bytes);
        let line_spans = line_spans(text.as_slice());
        ColumnIterator { text, line_spans, col: 0, is_consumed: false }
    }

    /// The next column; `None` once no line reaches it, and from then on.
    pub fn next(&mut self) -> (r: Option<Vec<u8>>)
        requires
            old(self).wf(),
            old(self).col < usize::MAX,
        ensures
            final(self).wf(),
            final(self).text == old(self).text,
            old(self).is_consumed ==> r is None && final(self).is_consumed,
            !old(self).is_consumed ==> {
                let c = column_of(lines(old(self).text@), old(self).col as int);
                &&& (c.len() == 0 <==> r is None)
                &&& (c.len() == 0 ==> final(self).is_consumed)
                &&& (r matches Some(v) ==> v@ == c && final(self).col == old(self).col + 1
                    && !final(self).is_consumed)
            },
    {
        if self.is_consumed {
            return None;
        }
        let ghost ls = lines(self.text@);
        let mut buf: Vec<u8> = Vec::new();
        let mut k: usize = 0;
        while k < self.line_spans.len()
            invariant
                self.wf(),
                ls == lines(self.text@),
                0 <= k <= self.line_spans@.len(),
                buf@ == column_of(ls.subrange(0, k as int), self.col as int),
            decreases self.line_spans@.len() - k,
        {
            let (lo, hi) = self.line_spans[k];
            proof {
                assert(span(self.text@, lo, hi) == ls[k as int]);
                assert(ls.subrange(0, k + 1).drop_last() =~= ls.subrange(0, k as int));
                assert(ls.subrange(0, k + 1).last() == ls[k as int]);
            }
            if hi - lo > self.col {
                proof {
                    assert(ls[k as int][self.col as int] == self.text@[lo + self.col]);
                }
                buf.push(self.text[lo + self.col]);
            }
            k = k + 1;
        }
        proof {
            assert(ls.subrange(0, k as int) =~= ls);
        }
        if buf.len() == 0 {
            self.is_consumed = true;
            return None;
        }
        self.col = self.col + 1;
        Some(buf)
    }
}

pub struct Day8;

impl Day8 {
    /// Whether the tree at `idx` is taller than all before it or all after it.
    pub fn is_visible_in_view(idx: usize, axis: &[u8]) -> (r: bool)
        requires
            idx < axis@.len(),
        ensures
            r == visible(axis@, idx as int),
    {
        let v = axis[idx];
        let mut j: usize = 0;
        let mut before = true;
        while j < idx
            invariant
                idx < axis@.len(),
                v == axis@[idx as int],
                0 <= j <= idx,
                before == forall|k: int| 0 <= k < j ==> axis@[k] < v,
            decreases idx - j,
        {
            if axis[j] >= v {
                before = false;
            }
            j = j + 1;
        }
        if before {
            return true;
        }
        let mut k: usize = idx + 1;
        while k < axis.len()
            invariant
                idx < axis@.len(),
                v == axis@[idx as int],
                idx + 1 <= k <= axis@.len(),
                forall|m: int| idx < m < k ==> axis@[m] < v,
                !(forall|m: int| 0 <= m < idx ==> axis@[m] < v),
            decreases axis@.len() - k,
        {
            if axis[k] >= v {
                return false;
            }
            k = k + 1;
        }
        true
    }

    /// The scenic score of the tree at `idx` along one axis: how far it sees
    /// toward the start times how far toward the end.
    pub fn scenic_score_of_idx_along_axis(idx: usize, axis: &[u8]) -> (r: usize)
        requires
            idx < axis@.len(),
            axis@.len() <= 10_000,
        ensures
            r == scenic(axis@, idx as int),
            r <= 100_000_000,
    {
        let h = axis[idx];
        let mut prev_result: usize = 0;
        let mut j: usize = idx;
        let mut stopped = false;
        proof {
            assert(axis@.subrange(0, idx as int).reverse().subrange(0, 0) =~= Seq::<u8>::empty());
        }
        while j > 0 && !stopped
            invariant
                idx < axis@.len() <= 10_000,
                h == axis@[idx as int],
                0 <= j <= idx,
                prev_result == idx - j,
                stopped ==> view_distance(h, axis@.subrange(0, idx as int).reverse()) == prev_result,
                !stopped ==> view_distance(h, axis@.subrange(0, idx as int).reverse()) == prev_result
                    + view_distance(h, axis@.subrange(0, j as int).reverse()),
            decreases j,
        {
            let ghost rest = axis@.subrange(0, j as int).reverse();
            proof {
                assert(rest[0] == axis@[j - 1]);
                assert(rest.drop_first() =~= axis@.subrange(0, j - 1).reverse());
            }
            prev_result = prev_result + 1;
            if axis[j - 1] >= h {
                stopped = true;
            }
            j = j - 1;
        }
        proof {
            if !stopped {
                assert(axis@.subrange(0, 0).reverse().len() == 0);
            }
        }
        let mut next_result: usize = 0;
        let mut k: usize = idx + 1;
        let mut stopped2 = false;
        while k < axis.len() && !stopped2
            invariant
                idx < axis@.len() <= 10_000,
                h == axis@[idx as int],
                idx + 1 <= k <= axis@.len(),
                next_result == k - idx - 1,
                stopped2 ==> view_distance(h, axis@.subrange(idx + 1, axis@.len() as int)) == next_result,
                !stopped2 ==> view_distance(h, axis@.subrange(idx + 1, axis@.len() as int)) == next_result
                    + view_distance(h, axis@.subrange(k as int, axis@.len() as int)),
            decreases axis@.len() - k,
        {
            let ghost rest = axis@.subrange(k as int, axis@.len() as int);
            proof {
                assert(rest[0] == axis@[k as int]);
                assert(rest.drop_first() =~= axis@.subrange(k + 1, axis@.len() as int));
            }
            next_result = next_result + 1;
            if axis[k] >= h {
                stopped2 = true;
            }
            k = k + 1;
        }
        proof {
            if !stopped2 {
                assert(axis@.subrange(k as int, axis@.len() as int).len() == 0);
            }
            assert(prev_result * next_result <= 10_000 * 10_000) by (nonlinear_arith)
                requires
                    prev_result <= 10_000,
                    next_result <= 10_000,
            ;
        }
        prev_result * next_result
    }

    /// The trees kept by walking along `itr` from a tree of height `ref_v`.
    pub fn find_eqincreasing_subsequence(ref_v: u8, itr: &[u8]) -> (r: Vec<u8>)
        ensures
            r@ == eq_increasing(ref_v, itr@),
    {
        let mut result: Vec<u8> = Vec::new();
        let mut i: usize = 0;
        while i < itr.len()
            invariant
                0 <= i <= itr@.len(),
                result@ == eq_increasing(ref_v, itr@.subrange(0, i as int)),
            decreases itr@.len() - i,
        {
            let next = itr[i];
            proof {
                assert(itr@.subrange(0, i + 1).drop_last() =~= itr@.subrange(0, i as int));
                assert(itr@.subrange(0, i + 1).last() == next);
            }
            let n = result.len();
            if n == 0 {
                result.push(next);
            } else {
                let last = result[n - 1];
                if next > last || (next == last && last < ref_v) {
                    result.push(next);
                }
            }
            i = i + 1;
        }
        proof {
            assert(itr@.subrange(0, i as int) =~= itr@);
        }
        result
    }

    /// How many trees a tree of height `ref_v` sees along `itr`.
    pub fn find_view_distance(ref_v: u8, itr: &[u8]) -> (r: usize)
        ensures
            r == view_distance(ref_v, itr@),
    {
        let mut result: usize = 0;
        let mut i: usize = 0;
        proof {
            assert(itr@.subrange(0, itr@.len() as int) =~= itr@);
        }
        while i < itr.len()
            invariant
                0 <= i <= itr@.len(),
                result == i,
                view_distance(ref_v, itr@) == i + view_distance(ref_v, itr@.subrange(i as int, itr@.len() as int)),
            decreases itr@.len() - i,
        {
            let ghost rest = itr@.subrange(i as int, itr@.len() as int);
            proof {
                assert(rest[0] == itr@[i as int]);
                assert(rest.drop_first() =~= itr@.subrange(i + 1, itr@.len() as int));
            }
            result = result + 1;
            if itr[i] >= ref_v {
                return result;
            }
            i = i + 1;
        }
        result
    }
}

/// The columns of a rectangular grid, left to right.
fn grid_columns(input: &str, w: usize) -> (r: Vec<Vec<u8>>)
    requires
        grid_ok(input.spec_bytes()),
        w == width(lines(input.spec_bytes())),
        lines(input.spec_bytes()).len() > 0,
    ensures
        r@.len() == w,
        forall|c: int| 0 <= c < w ==> (#[trigger] r@[c])@ == col(lines(input.spec_bytes()), c),
{
    let ghost ls = lines(input.spec_bytes());
    let mut ci = ColumnIterator::from(input);
    let mut cols: Vec<Vec<u8>> = Vec::new();
    let mut c: usize = 0;
    while c < w
        invariant
            ci.wf(),
            ci.text@ == input.spec_bytes(),
            ls == lines(input.spec_bytes()),
            grid_ok(input.spec_bytes()),
            ls.len() > 0,
            w == width(ls),
            w <= 10_000,
            !ci.is_consumed,
            ci.col == c,
            0 <= c <= w,
            cols@.len() == c,
            forall|k: int| 0 <= k < c ==> (#[trigger] cols@[k])@ == col(ls, k),
        decreases w - c,
    {
        proof {
            lemma_column_rect(ls, c as int, w as int);
            assert(col(ls, c as int).len() > 0);
        }
        let column = ci.next().unwrap();
        cols.push(column);
        proof {
            assert forall|k: int| 0 <= k < c + 1 implies (#[trigger] cols@[k])@ == col(ls, k) by {}
        }
        c = c + 1;
    }
    cols
}

impl Day8 {
    /// The number of trees visible from outside the grid.
    pub fn parse(input: &str) -> (r: i64)
        requires
            grid_ok(input.spec_bytes()),
        ensures
            r == visible_count(lines(input.spec_bytes()), lines(input.spec_bytes()).len() as int),
    {
        let s = input.as_bytes();
        let ghost ls = lines(s@);
        let spans = line_spans(s);
        let h = spans.len();
        if h == 0 {
            return 0;
        }
        let w = spans[0].1 - spans[0].0;
        proof {
            assert(span(s@, spans@[0].0, spans@[0].1) == ls[0]);
        }
        let cols = grid_columns(input, w);
        let mut count: i64 = 0;
        let mut r: usize = 0;
        while r < h
            invariant
                ls == lines(s@),
                s@ == input.spec_bytes(),
                grid_ok(s@),
                spans_of(s@, spans@, ls),
                h == ls.len(),
                h > 0,
                w == width(ls),
                w <= 10_000,
                h <= 10_000,
                cols@.len() == w,
                forall|c: int| 0 <= c < w ==> (#[trigger] cols@[c])@ == col(ls, c),
                0 <= r <= h,
                count == visible_count(ls, r as int),
                0 <= count <= r * 10_000,
            decreases h - r,
        {
            let (lo, hi) = spans[r];
            let row = slice_subrange(s, lo, hi);
            proof {
                assert(span(s@, lo, hi) == ls[r as int]);
                assert(ls[r as int].len() == w);
            }
            let mut c: usize = 0;
            let mut in_row: i64 = 0;
            while c < w
                invariant
                    ls == lines(s@),
                    h == ls.len(),
                    0 <= r < h,
                    w == width(ls),
                    w <= 10_000,
                    row@ == ls[r as int],
                    row@.len() == w,
                    cols@.len() == w,
                    forall|k: int| 0 <= k < w ==> (#[trigger] cols@[k])@ == col(ls, k),
                    0 <= c <= w,
                    in_row == visible_in_row(ls, r as int, c as int),
                    0 <= in_row <= c,
                decreases w - c,
            {
                let v = Day8::is_visible_in_view(c, row) || Day8::is_visible_in_view(r, cols[c].as_slice());
                if v {
                    in_row = in_row + 1;
                }
                c = c + 1;
            }
            count = count + in_row;
            r = r + 1;
        }
        count
    }

    /// The highest scenic score in the grid: for each tree, the product of
    /// its scores along its row and its column.
    pub fn parse2(input: &str) -> (r: u64)
        requires
            grid_ok(input.spec_bytes()),
        ensures
            r == best_score(lines(input.spec_bytes()), lines(input.spec_bytes()).len() as int),
            r <= 10_000_000_000_000_000,
    {
        let s = input.as_bytes();
        let ghost ls = lines(s@);
        let spans = line_spans(s);
        let h = spans.len();
        if h == 0 {
            return 0;
        }
        let w = spans[0].1 - spans[0].0;
        proof {
            assert(span(s@, spans@[0].0, spans@[0].1) == ls[0]);
        }
        let cols = grid_columns(input, w);
        let mut max_scenic_score: u64 = 0;
        let mut r: usize = 0;
        while r < h
            invariant
                ls == lines(s@),
                s@ == input.spec_bytes(),
                grid_ok(s@),
                spans_of(s@, spans@, ls),
                h == ls.len(),
                h > 0,
                w == width(ls),
                w <= 10_000,
                h <= 10_000,
                cols@.len() == w,
                forall|c: int| 0 <= c < w ==> (#[trigger] cols@[c])@ == col(ls, c),
                0 <= r <= h,
                max_scenic_score == best_score(ls, r as int),
                max_scenic_score <= 10_000_000_000_000_000,
            decreases h - r,
        {
            let (lo, hi) = spans[r];
            let row = slice_subrange(s, lo, hi);
            proof {
                assert(span(s@, lo, hi) == ls[r as int]);
                assert(ls[r as int].len() == w);
            }
            let mut c: usize = 0;
            let mut best: u64 = 0;
            while c < w
                invariant
                    ls == lines(s@),
                    h == ls.len(),
                    0 <= r < h,
                    h <= 10_000,
                    w == width(ls),
                    w <= 10_000,
                    row@ == ls[r as int],
                    row@.len() == w,
                    cols@.len() == w,
                    forall|k: int| 0 <= k < w ==> (#[trigger] cols@[k])@ == col(ls, k),
                    0 <= c <= w,
                    best == best_in_row(ls, r as int, c as int),
                    best <= 10_000_000_000_000_000,
                    max_scenic_score <= 10_000_000_000_000_000,
                decreases w - c,
            {
                let a = Day8::scenic_score_of_idx_along_axis(c, row);
                let b = Day8::scenic_score_of_idx_along_axis(r, cols[c].as_slice());
                proof {
                    assert(a * b <= 100_000_000 * 100_000_000) by (nonlinear_arith)
                        requires
                            a <= 100_000_000,
                            b <= 100_000_000,
                    ;
                }
                let x = (a as u64) * (b as u64);
                if x > best {
                    best = x;
                }
                c = c + 1;
            }
            if best > max_scenic_score {
                max_scenic_score = best;
            }
            r = r + 1;
        }
        max_scenic_score
    }
}

impl AOCSolutions for Day8 {
    open spec fn accepts_1(input: Seq<u8>) -> bool {
        grid_ok(input)
    }

    open spec fn accepts_2(input: Seq<u8>) -> bool {
        grid_ok(input)
    }

    open spec fn star_1(input: Seq<u8>, r: Result<i64, ()>) -> bool {
        r == Ok::<i64, ()>(visible_count(lines(input), lines(input).len() as int) as i64)
    }

    open spec fn star_2(input: Seq<u8>, r: Result<i64, ()>) -> bool {
        r == Ok::<i64, ()>(best_score(lines(input), lines(input).len() as int) as i64)
    }

    /// The number of trees visible from outside the grid.
    fn get_star_1(input: &str) -> (r: Result<i64, ()>) {
        Ok(Day8::parse(input))
    }

    /// The highest scenic score in the grid.
    fn get_star_2(input: &str) -> (r: Result<i64, ()>) {
        let v = Day8::parse2(input);
        Ok(v as i64)
    }
}

} // verus!

//! Calorie counting: groups of numbers separated by empty lines.
use vstd::prelude::*;
use vstd::string::StringSliceAdditionalSpecFns;
use crate::text::{lines, trim, is_int_text, int_value, span, line_spans, trim_span, parse_int};

verus! {

/// The number on a non-empty line.
pub open spec fn line_value(l: Seq<u8>) -> int {
    int_value(trim(l))
}

/// Every non-empty line holds one integer of `i64`, white space around it aside.
pub open spec fn well_formed(ls: Seq<Seq<u8>>) -> bool {
    forall|k: int| 0 <= k < ls.len() && (#[trigger] ls[k]).len() > 0 ==> is_int_text(trim(ls[k]))
        && i64::MIN <= int_value(trim(ls[k])) <= i64::MAX
}

/// Every running sum of a group, line by line, fits `i64`.
pub open spec fn sums_fit(ls: Seq<Seq<u8>>) -> bool {
    forall|i: int, k: int|
        0 <= i <= ls.len() && 0 <= k < group_totals(ls.subrange(0, i)).len() ==> i64::MIN
            <= #[trigger] group_totals(ls.subrange(0, i))[k] <= i64::MAX
}

/// Every sum of three group totals at distinct places fits `i64`.
#[verifier::opaque]
pub open spec fn triples_fit(v: Seq<int>) -> bool {
    forall|a: int, b: int, c: int|
        0 <= a < v.len() && 0 <= b < v.len() && 0 <= c < v.len() && a != b && b != c && a != c
            ==> i64::MIN <= #[trigger] v[a] + #[trigger] v[b] + #[trigger] v[c] <= i64::MAX
}

/// The total of each group of lines, groups being separated by empty lines;
/// the end of the text closes the last group, which may be empty.
pub open spec fn group_totals(ls: Seq<Seq<u8>>) -> Seq<int>
    decreases ls.len(),
{
    if ls.len() == 0 {
        seq![0]
    } else {
        let prev = group_totals(ls.drop_last());
        if ls.last().len() == 0 {
            prev.push(0)
        } else {
            prev.update(prev.len() - 1, prev.last() + line_value(ls.last()))
        }
    }
}

/// `r` is the largest of `v`, or 0 where all are smaller.
pub open spec fn is_max_or_zero(v: Seq<int>, r: int) -> bool {
    &&& (r == 0 || exists|i: int| 0 <= i < v.len() && v[i] == r)
    &&& r >= 0
    &&& forall|i: int| 0 <= i < v.len() ==> v[i] <= r
}

/// `r` is the largest sum of three entries of `v` at distinct places.
pub open spec fn is_top3_sum(v: Seq<int>, r: int) -> bool {
    &&& exists|a: int, b: int, c: int|
        0 <= a < v.len() && 0 <= b < v.len() && 0 <= c < v.len() && a != b && b != c && a != c
            && v[a] + v[b] + v[c] == r
    &&& forall|a: int, b: int, c: int|
        0 <= a < v.len() && 0 <= b < v.len() && 0 <= c < v.len() && a != b && b != c && a != c
            ==> #[trigger] v[a] + #[trigger] v[b] + #[trigger] v[c] <= r
}

pub proof fn lemma_totals_len(ls: Seq<Seq<u8>>)
    ensures
        group_totals(ls).len() >= 1,
    decreases ls.len(),
{
    if ls.len() > 0 {
        lemma_totals_len(ls.drop_last());
    }
}

/// The total of each group of numbers in `input`, in order of appearance.
pub fn elf_totals(input: &[u8]) -> (r: Vec<i64>)
    requires
        well_formed(lines(input@)),
        sums_fit(lines(input@)),
    ensures
        r@.len() == group_totals(lines(input@)).len(),
        forall|k: int| 0 <= k < r@.len() ==> r@[k] as int == group_totals(lines(input@))[k],
{
    let ghost ls = lines(input@);
    let spans = line_spans(input);
    let mut totals: Vec<i64> = Vec::new();
    let mut cur: i64 = 0;
    let mut i: usize = 0;
    proof {
        assert(ls.subrange(0, 0) =~= Seq::<Seq<u8>>::empty());
    }
    while i < spans.len()
        invariant
            ls == lines(input@),
            well_formed(ls),
            sums_fit(ls),
            crate::text::spans_of(input@, spans@, ls),
            0 <= i <= spans@.len(),
            group_totals(ls.subrange(0, i as int)).len() == totals@.len() + 1,
            forall|k: int|
                0 <= k < totals@.len() ==> totals@[k] as int == #[trigger] group_totals(
                    ls.subrange(0, i as int),
                )[k],
            group_totals(ls.subrange(0, i as int)).last() == cur as int,
        decreases spans@.len() - i,
    {
        let ghost pre = ls.subrange(0, i as int);
        let ghost next = ls.subrange(0, i as int + 1);
        proof {
            assert(next.drop_last() =~= pre);
            assert(next.last() == ls[i as int]);
            lemma_totals_len(pre);
            lemma_totals_len(next);
        }
        let (lo, hi) = spans[i];
        if lo == hi {
            totals.push(cur);
            cur = 0;
        } else {
            let (a, b) = trim_span(input, lo, hi);
            let v = parse_int(input, a, b);
            proof {
                assert(span(input@, lo, hi) == ls[i as int]);
                assert(is_int_text(trim(ls[i as int])));
            }
            let v = v.unwrap();
            proof {
                let g = group_totals(next);
                assert(g.last() == cur + v);
                assert(i64::MIN <= g[g.len() - 1] <= i64::MAX);
            }
            cur = cur + v;
        }
        i = i + 1;
    }
    totals.push(cur);
    proof {
        assert(ls.subrange(0, i as int) =~= ls);
    }
    totals
}

/// The largest group total, or 0 where all are smaller.
pub fn get_star_1(input: &str) -> (r: i64)
    requires
        well_formed(lines(input.spec_bytes())),
        sums_fit(lines(input.spec_bytes())),
    ensures
        is_max_or_zero(group_totals(lines(input.spec_bytes())), r as int),
{
    let totals = elf_totals(input.as_bytes());
    let ghost g = group_totals(lines(input.spec_bytes()));
    let mut best: i64 = 0;
    let mut i: usize = 0;
    while i < totals.len()
        invariant
            0 <= i <= totals@.len(),
            totals@.len() == g.len(),
            forall|k: int| 0 <= k < totals@.len() ==> totals@[k] as int == g[k],
            best >= 0,
            best == 0 || exists|j: int| 0 <= j < g.len() && g[j] == best,
            forall|k: int| 0 <= k < i ==> g[k] <= best,
        decreases totals@.len() - i,
    {
        if totals[i] >= best {
            best = totals[i];
            assert(g[i as int] == best);
        }
        i = i + 1;
    }
    best
}

/// The largest sum of three group totals; an error where there are fewer
/// than three groups.
pub fn get_star_2(input: &str) -> (r: Result<i64, ()>)
    requires
        well_formed(lines(input.spec_bytes())),
        sums_fit(lines(input.spec_bytes())),
        triples_fit(group_totals(lines(input.spec_bytes()))),
    ensures
        group_totals(lines(input.spec_bytes())).len() < 3 <==> r is Err,
        r matches Ok(v) ==> is_top3_sum(group_totals(lines(input.spec_bytes())), v as int),
{
    let totals = elf_totals(input.as_bytes());
    let ghost g = group_totals(lines(input.spec_bytes()));
    proof {
        assert(totals@.map_values(|x: i64| x as int) =~= g);
    }
    top3_sum(&totals)
}

/// `p1`, `p2`, `p3` are distinct places below `i` whose entries, in that
/// order, are the largest, the largest pair and the largest triple of `w[..i]`.
#[verifier::opaque]
pub open spec fn top3_inv(w: Seq<int>, i: int, p1: int, p2: int, p3: int) -> bool {
    &&& 0 <= p1 < i && 0 <= p2 < i && 0 <= p3 < i && p1 != p2 && p2 != p3 && p1 != p3
    &&& i <= w.len()
    &&& w[p1] >= w[p2] >= w[p3]
    &&& forall|a: int| 0 <= a < i ==> #[trigger] w[a] <= w[p1]
    &&& forall|a: int, b: int|
        0 <= a < i && 0 <= b < i && a != b ==> #[trigger] w[a] + #[trigger] w[b] <= w[p1] + w[p2]
    &&& forall|a: int, b: int, c: int|
        0 <= a < i && 0 <= b < i && 0 <= c < i && a != b && b != c && a != c ==> #[trigger] w[a]
            + #[trigger] w[b] + #[trigger] w[c] <= w[p1] + w[p2] + w[p3]
}

proof fn lemma_top3_start(w: Seq<int>, p1: int, p2: int, p3: int)
    requires
        3 <= w.len(),
        0 <= p1 < 3 && 0 <= p2 < 3 && 0 <= p3 < 3 && p1 != p2 && p2 != p3 && p1 != p3,
        w[p1] >= w[p2] >= w[p3],
    ensures
        top3_inv(w, 3, p1, p2, p3),
{
    reveal(top3_inv);
}

proof fn lemma_top3_step(w: Seq<int>, i: int, p1: int, p2: int, p3: int, q1: int, q2: int, q3: int)
    requires
        top3_inv(w, i, p1, p2, p3),
        i < w.len(),
        0 <= q1 <= i && 0 <= q2 <= i && 0 <= q3 <= i && q1 != q2 && q2 != q3 && q1 != q3,
        w[q1] >= w[q2] >= w[q3],
        w[q1] >= w[p1] && w[q1] >= w[i],
        w[q1] + w[q2] >= w[p1] + w[p2] && w[q1] + w[q2] >= w[p1] + w[i],
        w[q1] + w[q2] + w[q3] >= w[p1] + w[p2] + w[p3],
        w[q1] + w[q2] + w[q3] >= w[p1] + w[p2] + w[i],
    ensures
        top3_inv(w, i + 1, q1, q2, q3),
{
    reveal(top3_inv);
    assert forall|a: int, b: int|
        0 <= a <= i && 0 <= b <= i && a != b implies #[trigger] w[a] + #[trigger] w[b] <= w[q1] + w[q2] by {
        if a == i {
            assert(w[b] <= w[p1]);
        } else if b == i {
            assert(w[a] <= w[p1]);
        } else {
            assert(w[a] + w[b] <= w[p1] + w[p2]);
        }
    }
    assert forall|a: int, b: int, c: int|
        0 <= a <= i && 0 <= b <= i && 0 <= c <= i && a != b && b != c && a != c implies #[trigger] w[a]
        + #[trigger] w[b] + #[trigger] w[c] <= w[q1] + w[q2] + w[q3] by {
        if a == i {
            assert(w[b] + w[c] <= w[p1] + w[p2]);
        } else if b == i {
            assert(w[a] + w[c] <= w[p1] + w[p2]);
        } else if c == i {
            assert(w[a] + w[b] <= w[p1] + w[p2]);
        } else {
            assert(w[a] + w[b] + w[c] <= w[p1] + w[p2] + w[p3]);
        }
    }
}

proof fn lemma_top3_result(w: Seq<int>, p1: int, p2: int, p3: int)
    requires
        top3_inv(w, w.len() as int, p1, p2, p3),
    ensures
        is_top3_sum(w, w[p1] + w[p2] + w[p3]),
        0 <= p1 < w.len() && 0 <= p2 < w.len() && 0 <= p3 < w.len() && p1 != p2 && p2 != p3 && p1 != p3,
{
    reveal(top3_inv);
    assert forall|a: int, b: int, c: int|
        0 <= a < w.len() && 0 <= b < w.len() && 0 <= c < w.len() && a != b && b != c && a != c
            implies #[trigger] w[a] + #[trigger] w[b] + #[trigger] w[c] <= w[p1] + w[p2] + w[p3] by {}
}

/// The largest sum of three entries at distinct places; an error where
/// there are fewer than three.
pub fn top3_sum(v: &Vec<i64>) -> (r: Result<i64, ()>)
    requires
        triples_fit(v@.map_values(|x: i64| x as int)),
    ensures
        v@.len() < 3 <==> r is Err,
        r matches Ok(s) ==> is_top3_sum(v@.map_values(|x: i64| x as int), s as int),
{
    let ghost w = v@.map_values(|x: i64| x as int);
    if v.len() < 3 {
        return Err(());
    }
    // places of the largest, second and third largest entries seen so far
    let mut p1: usize = 0;
    let mut p2: usize = 1;
    if v[1] > v[0] {
        p1 = 1;
        p2 = 0;
    }
    let mut p3: usize = 2;
    if v[2] > v[p1] {
        p3 = p2;
        p2 = p1;
        p1 = 2;
    } else if v[2] > v[p2] {
        p3 = p2;
        p2 = 2;
    }
    proof {
        lemma_top3_start(w, p1 as int, p2 as int, p3 as int);
    }
    let mut i: usize = 3;
    while i < v.len()
        invariant
            3 <= i <= v@.len(),
            w == v@.map_values(|x: i64| x as int),
            p1 < i && p2 < i && p3 < i,
            top3_inv(w, i as int, p1 as int, p2 as int, p3 as int),
        decreases v@.len() - i,
    {
        let ghost (o1, o2, o3) = (p1 as int, p2 as int, p3 as int);
        if v[i] > v[p1] {
            p3 = p2;
            p2 = p1;
            p1 = i;
        } else if v[i] > v[p2] {
            p3 = p2;
            p2 = i;
        } else if v[i] > v[p3] {
            p3 = i;
        }
        proof {
            reveal(top3_inv);
            lemma_top3_step(w, i as int, o1, o2, o3, p1 as int, p2 as int, p3 as int);
        }
        i = i + 1;
    }
    proof {
        lemma_top3_result(w, p1 as int, p2 as int, p3 as int);
        reveal(triples_fit);
        assert(i64::MIN <= w[p1 as int] + w[p2 as int] + w[p3 as int] <= i64::MAX);
    }
    Ok((v[p1] as i128 + v[p2] as i128 + v[p3] as i128) as i64)
}

} // verus!

//! Regolith reservoir: sand falls from a source until it comes to rest.
use vstd::prelude::*;
use vstd::string::StringSliceAdditionalSpecFns;
use crate::AOCSolutions;
use crate::text::{lines, split, span, spans_of, is_nat_text, int_value, line_spans, split_spans,
    parse_nat};

verus! {

/// The largest coordinate that the solvers take.
pub const COORD_MAX: usize = 10_000;

#[derive(PartialEq, Eq, Structural, Clone, Copy, Debug)]
pub struct Position {
    pub x: usize,
    pub depth: usize,
}

/// The column of the sand source, at depth 0.
pub const SOURCE_X: usize = 500;

/// `x,depth`, two numbers of at most `COORD_MAX`.
pub open spec fn pos_text_ok(t: Seq<u8>) -> bool {
    let p = split(t, 44u8);
    &&& p.len() >= 2
    &&& is_nat_text(p[0]) && int_value(p[0]) <= COORD_MAX
    &&& is_nat_text(p[1]) && int_value(p[1]) <= COORD_MAX
}

pub open spec fn pos_of(t: Seq<u8>) -> Position {
    let p = split(t, 44u8);
    Position { x: int_value(p[0]) as usize, depth: int_value(p[1]) as usize }
}

/// `p` lies on the straight segment from `a` to `b`.
pub open spec fn on_segment(p: Position, a: Position, b: Position) -> bool {
    if a.x == b.x {
        p.x == a.x && ((a.depth <= p.depth <= b.depth) || (b.depth <= p.depth <= a.depth))
    } else {
        p.depth == a.depth && ((a.x <= p.x <= b.x) || (b.x <= p.x <= a.x))
    }
}

pub open spec fn abs_diff(a: int, b: int) -> int {
    if a >= b {
        a - b
    } else {
        b - a
    }
}

/// `p` comes before `q` in (x, depth) order.
pub open spec fn before(p: Position, q: Position) -> bool {
    p.x < q.x || (p.x == q.x && p.depth < q.depth)
}

/// The positions of the segment between `a` and `b`, smallest first.
pub open spec fn segment_points(a: Position, b: Position) -> Seq<Position> {
    if a.x == b.x {
        let lo = if a.depth <= b.depth { a.depth } else { b.depth };
        Seq::new((abs_diff(a.depth as int, b.depth as int) + 1) as nat, |k: int| Position { x: a.x, depth: (lo + k) as usize })
    } else {
        let lo = if a.x <= b.x { a.x } else { b.x };
        Seq::new((abs_diff(a.x as int, b.x as int) + 1) as nat, |k: int| Position { x: (lo + k) as usize, depth: a.depth })
    }
}

/// A segment is the same whichever end comes first.
pub proof fn lemma_segment_symmetric(a: Position, b: Position)
    requires
        straight(a, b),
    ensures
        segment_points(a, b) == segment_points(b, a),
{
    assert(segment_points(a, b) =~= segment_points(b, a));
}

pub open spec fn straight(a: Position, b: Position) -> bool {
    a.x == b.x || a.depth == b.depth
}

impl Position {
    /// The position written `x,depth`.
    pub fn from(str_rep: &str) -> (r: Position)
        requires
            pos_text_ok(str_rep.spec_bytes()),
        ensures
            r == pos_of(str_rep.spec_bytes()),
    {
        let s = str_rep.as_bytes();
        let n = s.len();
        proof {
            assert(span(s@, 0, n) =~= s@);
        }
        Position::from_span(s, 0, n)
    }

    /// The position written `x,depth` in `s[lo..hi]`.
    pub fn from_span(s: &[u8], lo: usize, hi: usize) -> (r: Position)
        requires
            lo <= hi <= s@.len(),
            pos_text_ok(span(s@, lo, hi)),
        ensures
            r == pos_of(span(s@, lo, hi)),
    {
        let p = split_spans(s, lo, hi, 44u8);
        let x = parse_nat(s, p[0].0, p[0].1).unwrap() as usize;
        let depth = parse_nat(s, p[1].0, p[1].1).unwrap() as usize;
        Position { x, depth }
    }

    /// The positions of the straight segment between two positions, from the
    /// smaller to the larger: the same for the two orders of the ends.
    pub fn generate_in_range_inclusive(from: &Position, to: &Position) -> (r: Vec<Position>)
        requires
            straight(*from, *to),
            from.x < usize::MAX && from.depth < usize::MAX,
            to.x < usize::MAX && to.depth < usize::MAX,
        ensures
            r@ == segment_points(*from, *to),
            r@.len() == abs_diff(from.x as int, to.x as int) + abs_diff(from.depth as int, to.depth as int) + 1,
            forall|k: int| 0 <= k < r@.len() ==> on_segment(#[trigger] r@[k], *from, *to),
            forall|p: Position| on_segment(p, *from, *to) ==> r@.contains(p),
            forall|i: int, j: int| 0 <= i < j < r@.len() ==> before(#[trigger] r@[i], #[trigger] r@[j]),
    {
        let vertical = from.x == to.x;
        let (lo, hi) = if vertical {
            if from.depth <= to.depth { (from.depth, to.depth) } else { (to.depth, from.depth) }
        } else {
            if from.x <= to.x { (from.x, to.x) } else { (to.x, from.x) }
        };
        let ghost target = segment_points(*from, *to);
        let mut v: Vec<Position> = Vec::new();
        let mut d = lo;
        while d <= hi
            invariant
                lo <= d <= hi + 1,
                hi < usize::MAX,
                target == segment_points(*from, *to),
                target.len() == hi - lo + 1,
                vertical == (from.x == to.x),
                vertical ==> lo == (if from.depth <= to.depth { from.depth } else { to.depth }),
                !vertical ==> lo == (if from.x <= to.x { from.x } else { to.x }),
                v@ == target.subrange(0, d - lo),
            decreases hi + 1 - d,
        {
            if vertical {
                v.push(Position { x: from.x, depth: d });
            } else {
                v.push(Position { x: d, depth: from.depth });
            }
            proof {
                assert(v@ =~= target.subrange(0, d + 1 - lo));
            }
            d = d + 1;
        }
        proof {
            assert(v@ =~= target);
            assert forall|p: Position| on_segment(p, *from, *to) implies v@.contains(p) by {
                let k = if vertical { p.depth - lo } else { p.x - lo };
                assert(v@[k] == p);
            }
        }
        v
    }
}

/// The width of the area that sand and rock can take: sand moves at most
/// one column per row, so it stays within the source's column plus the depth.
pub const AREA_WIDTH: usize = 20_003;

/// A set of blocked positions, held as one row of cells per depth down to
/// its bound.
pub struct Blocked {
    pub rows: Vec<Vec<bool>>,
}

impl Blocked {
    pub open spec fn wf(&self) -> bool {
        forall|d: int| 0 <= d < self.rows@.len() ==> (#[trigger] self.rows@[d])@.len() == AREA_WIDTH
    }

    /// The blocked positions.
    pub open spec fn set(&self) -> Set<Position> {
        Set::new(|p: Position| p.depth < self.rows@.len() && p.x < AREA_WIDTH && self.rows@[p.depth as int]@[p.x as int])
    }

    /// An empty set with rows for the depths `0..=bound`.
    pub fn new(bound: usize) -> (r: Blocked)
        requires
            bound <= COORD_MAX + 1,
        ensures
            r.wf(),
            r.rows@.len() == bound + 1,
            r.set() == Set::<Position>::empty(),
    {
        let mut rows: Vec<Vec<bool>> = Vec::new();
        while rows.len() <= bound
            invariant
                rows@.len() <= bound + 1,
                forall|d: int| 0 <= d < rows@.len() ==> (#[trigger] rows@[d])@.len() == AREA_WIDTH,
                forall|d: int, x: int| 0 <= d < rows@.len() && 0 <= x < AREA_WIDTH ==> !#[trigger] rows@[d]@[x],
            decreases bound + 1 - rows@.len(),
        {
            let mut row: Vec<bool> = Vec::new();
            while row.len() < AREA_WIDTH
                invariant
                    row@.len() <= AREA_WIDTH,
                    forall|x: int| 0 <= x < row@.len() ==> !row@[x],
                decreases AREA_WIDTH - row@.len(),
            {
                row.push(false);
            }
            rows.push(row);
        }
        let r = Blocked { rows };
        proof {
            assert(r.set() =~= Set::<Position>::empty());
        }
        r
    }

    pub fn contains(&self, p: &Position) -> (r: bool)
        requires
            self.wf(),
        ensures
            r == self.set().contains(*p),
    {
        if p.depth < self.rows.len() && p.x < AREA_WIDTH {
            self.rows[p.depth][p.x]
        } else {
            false
        }
    }

    /// Blocks `p`, which lies within the rows and the width.
    pub fn insert(&mut self, p: Position)
        requires
            old(self).wf(),
            p.depth < old(self).rows@.len(),
            p.x < AREA_WIDTH,
        ensures
            final(self).wf(),
            final(self).rows@.len() == old(self).rows@.len(),
            final(self).set() == old(self).set().insert(p),
    {
        let mut row: Vec<bool> = Vec::new();
        self.rows.set_and_swap(p.depth, &mut row);
        row.set(p.x, true);
        self.rows.set_and_swap(p.depth, &mut row);
        proof {
            assert forall|q: Position| #[trigger] self.set().contains(q) == old(self).set().insert(p).contains(q) by {
                if q.depth < self.rows@.len() && q.x < AREA_WIDTH && q.depth != p.depth {
                    assert(self.rows@[q.depth as int] == old(self).rows@[q.depth as int]);
                }
            }
            assert(self.set() =~= old(self).set().insert(p));
        }
    }
}

/// Where a unit of sand at `(x, d)` comes to rest: it falls straight down,
/// else down to the left (not left of column 0), else down to the right;
/// `true` where it reaches the depth `bound` first.
pub open spec fn fall(b: Set<Position>, x: int, d: int, bound: int) -> (Position, bool)
    decreases bound - d,
{
    if d >= bound {
        (Position { x: x as usize, depth: d as usize }, true)
    } else {
        let left = if x > 0 { x - 1 } else { 0 };
        if !b.contains(Position { x: x as usize, depth: (d + 1) as usize }) {
            fall(b, x, d + 1, bound)
        } else if !b.contains(Position { x: left as usize, depth: (d + 1) as usize }) {
            fall(b, left, d + 1, bound)
        } else if !b.contains(Position { x: (x + 1) as usize, depth: (d + 1) as usize }) {
            fall(b, x + 1, d + 1, bound)
        } else {
            (Position { x: x as usize, depth: d as usize }, false)
        }
    }
}

pub proof fn lemma_fall_in_area(b: Set<Position>, x: int, d: int, bound: int)
    requires
        0 <= d <= bound <= COORD_MAX + 1,
        0 <= x <= SOURCE_X + d,
    ensures
        fall(b, x, d, bound).0.depth <= bound,
        fall(b, x, d, bound).0.x <= SOURCE_X + fall(b, x, d, bound).0.depth,
        fall(b, x, d, bound).0.depth >= d,
        !fall(b, x, d, bound).1 ==> fall(b, x, d, bound).0.depth < bound,
    decreases bound - d,
{
    if d < bound {
        let left = if x > 0 { x - 1 } else { 0 };
        if !b.contains(Position { x: x as usize, depth: (d + 1) as usize }) {
            lemma_fall_in_area(b, x, d + 1, bound);
        } else if !b.contains(Position { x: left as usize, depth: (d + 1) as usize }) {
            lemma_fall_in_area(b, left, d + 1, bound);
        } else if !b.contains(Position { x: (x + 1) as usize, depth: (d + 1) as usize }) {
            lemma_fall_in_area(b, x + 1, d + 1, bound);
        }
    }
}

/// Where a unit of sand at `curr_pos` comes to rest, and whether it reached
/// `depth_bound` first.
pub fn find_bounded_sand_pos(curr_pos: &Position, obstacle_set: &Blocked, depth_bound: usize) -> (r: (Position, bool))
    requires
        obstacle_set.wf(),
        curr_pos.depth <= depth_bound <= COORD_MAX + 1,
        curr_pos.x <= SOURCE_X + curr_pos.depth,
    ensures
        r == fall(obstacle_set.set(), curr_pos.x as int, curr_pos.depth as int, depth_bound as int),
{
    let ghost b = obstacle_set.set();
    let mut x = curr_pos.x;
    let mut d = curr_pos.depth;
    while d < depth_bound
        invariant
            obstacle_set.wf(),
            b == obstacle_set.set(),
            d <= depth_bound <= COORD_MAX + 1,
            x <= SOURCE_X + d,
            fall(b, x as int, d as int, depth_bound as int) == fall(b, curr_pos.x as int, curr_pos.depth as int, depth_bound as int),
        decreases depth_bound - d,
    {
        let left = if x > 0 { x - 1 } else { 0 };
        if !obstacle_set.contains(&Position { x, depth: d + 1 }) {
        } else if !obstacle_set.contains(&Position { x: left, depth: d + 1 }) {
            x = left;
        } else if !obstacle_set.contains(&Position { x: x + 1, depth: d + 1 }) {
            x = x + 1;
        } else {
            return (Position { x, depth: d }, false);
        }
        d = d + 1;
    }
    (Position { x, depth: d }, true)
}

pub open spec fn arrow() -> Seq<u8> {
    seq![45u8, 62u8]
}

/// The positions of a path: every other space-separated word.
pub open spec fn node_count(l: Seq<u8>) -> int {
    (split(l, 32u8).len() as int + 1) / 2
}

pub open spec fn node(l: Seq<u8>, i: int) -> Position {
    pos_of(split(l, 32u8)[2 * i])
}

/// `x,depth -> x,depth -> ...`, every segment straight.
pub open spec fn path_ok(l: Seq<u8>) -> bool {
    let t = split(l, 32u8);
    &&& t.len() % 2 == 1
    &&& forall|k: int| 0 <= k < t.len() ==> if k % 2 == 0 {
        pos_text_ok(#[trigger] t[k])
    } else {
        t[k] == arrow()
    }
    &&& forall|i: int| 0 <= i < node_count(l) - 1 ==> straight(#[trigger] node(l, i), node(l, i + 1))
}

/// `p` lies on the `i`-th segment of the path `l`.
pub open spec fn on_path_segment(l: Seq<u8>, i: int, p: Position) -> bool {
    on_segment(p, node(l, i), node(l, i + 1))
}

/// `p` lies on a segment of one of the paths.
pub open spec fn is_rock(ls: Seq<Seq<u8>>, p: Position) -> bool {
    exists|k: int, i: int| 0 <= k < ls.len() && 0 <= i < node_count(ls[k]) - 1 && #[trigger] on_path_segment(ls[k], i, p)
}

pub open spec fn rock_set(ls: Seq<Seq<u8>>) -> Set<Position> {
    Set::new(|p: Position| is_rock(ls, p))
}

/// One row below the deepest rock (1 where there is none).
pub open spec fn is_abyss_bound(ls: Seq<Seq<u8>>, bound: int) -> bool {
    &&& forall|p: Position| is_rock(ls, p) ==> p.depth < bound
    &&& (bound == 1 || exists|p: Position| is_rock(ls, p) && p.depth == bound - 1)
}

pub open spec fn scan_ok(s: Seq<u8>) -> bool {
    forall|k: int| 0 <= k < lines(s).len() ==> path_ok(#[trigger] lines(s)[k])
}

/// Appends `seg` to `out`; the deepest depth among `max_d` and `seg`.
fn push_all(out: &mut Vec<Position>, seg: &Vec<Position>, max_d: usize) -> (r: usize)
    requires
        max_d <= COORD_MAX,
        forall|q: int| 0 <= q < seg@.len() ==> (#[trigger] seg@[q]).x <= COORD_MAX && seg@[q].depth <= COORD_MAX,
    ensures
        final(out)@ == old(out)@ + seg@,
        max_d <= r <= COORD_MAX,
        forall|q: int| 0 <= q < seg@.len() ==> (#[trigger] seg@[q]).depth <= r,
        r == max_d || exists|q: int| 0 <= q < seg@.len() && (#[trigger] seg@[q]).depth == r,
{
    let mut m = max_d;
    let mut k: usize = 0;
    while k < seg.len()
        invariant
            forall|q: int| 0 <= q < seg@.len() ==> (#[trigger] seg@[q]).x <= COORD_MAX && seg@[q].depth <= COORD_MAX,
            0 <= k <= seg@.len(),
            out@ == old(out)@ + seg@.subrange(0, k as int),
            max_d <= m <= COORD_MAX,
            forall|q: int| 0 <= q < k ==> (#[trigger] seg@[q]).depth <= m,
            m == max_d || exists|q: int| 0 <= q < k && (#[trigger] seg@[q]).depth == m,
        decreases seg@.len() - k,
    {
        let q = seg[k];
        if q.depth > m {
            m = q.depth;
        }
        out.push(q);
        proof {
            assert(out@ =~= old(out)@ + seg@.subrange(0, k + 1));
        }
        k = k + 1;
    }
    proof {
        assert(seg@.subrange(0, k as int) =~= seg@);
    }
    m
}

/// The rocks of the scan, and one row below the deepest.
pub fn parse_input(input: &str) -> (r: (Vec<Position>, usize))
    requires
        scan_ok(input.spec_bytes()),
    ensures
        forall|p: Position| r.0@.contains(p) <==> is_rock(lines(input.spec_bytes()), p),
        forall|k: int| 0 <= k < r.0@.len() ==> (#[trigger] r.0@[k]).x <= COORD_MAX && r.0@[k].depth <= COORD_MAX,
        is_abyss_bound(lines(input.spec_bytes()), r.1 as int),
        1 <= r.1 <= COORD_MAX + 1,
{
    let s = input.as_bytes();
    let ghost ls = lines(s@);
    let spans = line_spans(s);
    let mut out: Vec<Position> = Vec::new();
    let mut max_d: usize = 0;
    let mut i: usize = 0;
    let arrow_word: Vec<u8> = vec![45u8, 62u8];
    while i < spans.len()
        invariant
            ls == lines(s@),
            s@ == input.spec_bytes(),
            scan_ok(s@),
            spans_of(s@, spans@, ls),
            0 <= i <= spans@.len(),
            max_d <= COORD_MAX,
            forall|p: Position| out@.contains(p) <==> exists|k: int, j: int| 0 <= k < i && 0 <= j < node_count(ls[k]) - 1 && #[trigger] on_path_segment(ls[k], j, p),
            forall|k: int| 0 <= k < out@.len() ==> (#[trigger] out@[k]).x <= COORD_MAX && out@[k].depth <= max_d,
            max_d == 0 || exists|k: int| 0 <= k < out@.len() && (#[trigger] out@[k]).depth == max_d,
        decreases spans@.len() - i,
    {
        let (lo, hi) = spans[i];
        let t = split_spans(s, lo, hi, 32u8);
        let ghost l = ls[i as int];
        proof {
            assert(span(s@, lo, hi) == l);
            assert(path_ok(l));
            crate::text::lemma_split_nonempty(l, 32u8, 32u8);
        }
        let tl = t.len();
        let nodes = tl / 2 + 1;
        let mut j: usize = 0;
        while j + 1 < nodes
            invariant
                ls == lines(s@),
                l == ls[i as int],
                0 <= i < ls.len(),
                path_ok(l),
                spans_of(s@, t@, split(l, 32u8)),
                nodes == node_count(l),
                nodes == t@.len() / 2 + 1,
                tl == t@.len(),
                t@.len() % 2 == 1,
                0 <= j,
                j < nodes || nodes == 0 || j == 0,
                max_d <= COORD_MAX,
                forall|p: Position| out@.contains(p) <==> (exists|k: int, m: int| 0 <= k < i && 0 <= m < node_count(ls[k]) - 1 && #[trigger] on_path_segment(ls[k], m, p)) || (exists|m: int| 0 <= m < j && #[trigger] on_path_segment(l, m, p)),
                forall|k: int| 0 <= k < out@.len() ==> (#[trigger] out@[k]).x <= COORD_MAX && out@[k].depth <= max_d,
                max_d == 0 || exists|k: int| 0 <= k < out@.len() && (#[trigger] out@[k]).depth == max_d,
            decreases nodes - j,
        {
            proof {
                assert(j < t@.len() / 2);
                assert(2 * j + 2 <= t@.len()) by (nonlinear_arith)
                    requires
                        j < t@.len() / 2,
                ;
                assert(2 * j % 2 == 0);
                assert((2 * j + 2) % 2 == 0);
                assert(pos_text_ok(split(l, 32u8)[2 * j]));
                assert(pos_text_ok(split(l, 32u8)[2 * j + 2]));
            }
            let a = Position::from_span(s, t[2 * j].0, t[2 * j].1);
            let b = Position::from_span(s, t[2 * j + 2].0, t[2 * j + 2].1);
            proof {
                assert(a == node(l, j as int));
                assert(b == node(l, j + 1));
                assert(straight(node(l, j as int), node(l, j + 1)));
            }
            let seg = Position::generate_in_range_inclusive(&a, &b);
            let ghost before = out@;
            let ghost old_max = max_d;
            max_d = push_all(&mut out, &seg, max_d);
            proof {
                if max_d != old_max {
                    let q = choose|q: int| 0 <= q < seg@.len() && (#[trigger] seg@[q]).depth == max_d;
                    assert(out@[before.len() + q] == seg@[q]);
                } else if max_d != 0 {
                    let q = choose|q: int| 0 <= q < before.len() && (#[trigger] before[q]).depth == max_d;
                    assert(out@[q] == before[q]);
                }
            }
            proof {
                assert forall|p: Position| out@.contains(p) <==> (exists|k2: int, m: int| 0 <= k2 < i && 0 <= m < node_count(ls[k2]) - 1 && #[trigger] on_path_segment(ls[k2], m, p)) || (exists|m: int| 0 <= m < j + 1 && #[trigger] on_path_segment(l, m, p)) by {
                    let old_rhs = (exists|k2: int, m: int| 0 <= k2 < i && 0 <= m < node_count(ls[k2]) - 1 && #[trigger] on_path_segment(ls[k2], m, p)) || (exists|m: int| 0 <= m < j && #[trigger] on_path_segment(l, m, p));
                    assert(before.contains(p) <==> old_rhs);
                    if out@.contains(p) {
                        let q = choose|q: int| 0 <= q < out@.len() && out@[q] == p;
                        if q >= before.len() {
                            assert(seg@[q - before.len()] == p);
                            assert(on_path_segment(l, j as int, p));
                        } else {
                            assert(before[q] == p);
                            assert(before.contains(p));
                        }
                    }
                    if on_path_segment(l, j as int, p) {
                        assert(on_segment(p, a, b));
                        assert(seg@.contains(p));
                        let q = choose|q: int| 0 <= q < seg@.len() && seg@[q] == p;
                        assert(out@[before.len() + q] == p);
                    }
                    if exists|m: int| 0 <= m < j + 1 && #[trigger] on_path_segment(l, m, p) {
                        let m = choose|m: int| 0 <= m < j + 1 && #[trigger] on_path_segment(l, m, p);
                        if m < j {
                            assert(old_rhs);
                        }
                    }
                    if before.contains(p) {
                        let q = choose|q: int| 0 <= q < before.len() && before[q] == p;
                        assert(out@[q] == p);
                    }
                }
            }
            j = j + 1;
        }
        proof {
            assert forall|p: Position| out@.contains(p) <==> exists|k: int, m: int| 0 <= k < i + 1 && 0 <= m < node_count(ls[k]) - 1 && #[trigger] on_path_segment(ls[k], m, p) by {
                if exists|m: int| 0 <= m < j && #[trigger] on_path_segment(l, m, p) {
                    let m = choose|m: int| 0 <= m < j && #[trigger] on_path_segment(l, m, p);
                    assert(0 <= i < i + 1 && 0 <= m < node_count(ls[i as int]) - 1);
                }
                if exists|k: int, m: int| 0 <= k < i + 1 && 0 <= m < node_count(ls[k]) - 1 && #[trigger] on_path_segment(ls[k], m, p) {
                    let (k, m) = choose|k: int, m: int| 0 <= k < i + 1 && 0 <= m < node_count(ls[k]) - 1 && #[trigger] on_path_segment(ls[k], m, p);
                    if k == i {
                        assert(0 <= m < j);
                    }
                }
            }
        }
        i = i + 1;
    }
    proof {
        assert(ls.len() == i);
        assert forall|p: Position| is_rock(ls, p) implies p.depth < max_d + 1 by {
            assert(out@.contains(p));
            let q = choose|q: int| 0 <= q < out@.len() && out@[q] == p;
        }
        if max_d != 0 {
            let q = choose|q: int| 0 <= q < out@.len() && (#[trigger] out@[q]).depth == max_d;
            assert(out@.contains(out@[q]));
            assert(is_rock(ls, out@[q]));
        }
    }
    (out, max_d + 1)
}

pub open spec fn sand_source() -> Position {
    Position { x: SOURCE_X, depth: 0 }
}

/// More steps than the area has cells.
pub open spec fn fuel_for(bound: int) -> nat {
    (AREA_WIDTH * (bound + 1) + 1) as nat
}

pub open spec fn plus(c: int, r: Result<int, ()>) -> Result<int, ()> {
    match r {
        Ok(n) => Ok(n + c),
        Err(_) => Err(()),
    }
}

/// The units of sand that come to rest before one falls past `bound`; an
/// error where one comes to rest at the source.
pub open spec fn pour_until_abyss(b: Set<Position>, bound: int, fuel: nat) -> Result<int, ()>
    decreases fuel,
{
    if fuel == 0 {
        Err(())
    } else {
        let (p, abyss) = fall(b, SOURCE_X as int, 0, bound);
        if abyss {
            Ok(0)
        } else if p == sand_source() {
            Err(())
        } else {
            plus(1, pour_until_abyss(b.insert(p), bound, (fuel - 1) as nat))
        }
    }
}

/// The units of sand that come to rest, on the floor below `bound` where
/// nothing else stops them, until one rests at the source (that one counted).
pub open spec fn pour_until_full(b: Set<Position>, bound: int, fuel: nat) -> Result<int, ()>
    decreases fuel,
{
    if fuel == 0 {
        Err(())
    } else {
        let (p, _) = fall(b, SOURCE_X as int, 0, bound);
        if p == sand_source() {
            Ok(1)
        } else {
            plus(1, pour_until_full(b.insert(p), bound, (fuel - 1) as nat))
        }
    }
}

pub open spec fn abyss_bound_of(ls: Seq<Seq<u8>>) -> int {
    choose|b: int| is_abyss_bound(ls, b)
}

pub proof fn lemma_abyss_bound_unique(ls: Seq<Seq<u8>>, b: int)
    requires
        is_abyss_bound(ls, b),
    ensures
        abyss_bound_of(ls) == b,
{
    let c = abyss_bound_of(ls);
    assert(is_abyss_bound(ls, c));
    if c < b {
        if b != 1 {
            let p = choose|p: Position| is_rock(ls, p) && p.depth == b - 1;
            assert(p.depth < c);
        }
    } else if c > b {
        if c != 1 {
            let p = choose|p: Position| is_rock(ls, p) && p.depth == c - 1;
            assert(p.depth < b);
        }
    }
}

/// The blocked set of the rocks, with rows down to `bound`.
fn rock_grid(rocks: &Vec<Position>, bound: usize) -> (r: Blocked)
    requires
        1 <= bound <= COORD_MAX + 1,
        forall|k: int| 0 <= k < rocks@.len() ==> (#[trigger] rocks@[k]).x <= COORD_MAX && rocks@[k].depth < bound,
    ensures
        r.wf(),
        r.rows@.len() == bound + 1,
        forall|p: Position| r.set().contains(p) <==> rocks@.contains(p),
{
    let mut b = Blocked::new(bound);
    let mut k: usize = 0;
    while k < rocks.len()
        invariant
            b.wf(),
            b.rows@.len() == bound + 1,
            forall|j: int| 0 <= j < rocks@.len() ==> (#[trigger] rocks@[j]).x <= COORD_MAX && rocks@[j].depth < bound,
            0 <= k <= rocks@.len(),
            forall|p: Position| b.set().contains(p) <==> rocks@.subrange(0, k as int).contains(p),
        decreases rocks@.len() - k,
    {
        let p = rocks[k];
        b.insert(p);
        proof {
            assert forall|q: Position| b.set().contains(q) <==> rocks@.subrange(0, k + 1).contains(q) by {
                let s1 = rocks@.subrange(0, k + 1);
                let s0 = rocks@.subrange(0, k as int);
                if s1.contains(q) {
                    let j = choose|j: int| 0 <= j < s1.len() && #[trigger] s1[j] == q;
                    if j < k {
                        assert(s0[j] == q);
                    }
                }
                if s0.contains(q) {
                    let j = choose|j: int| 0 <= j < s0.len() && #[trigger] s0[j] == q;
                    assert(s1[j] == q);
                }
                if q == p {
                    assert(rocks@.subrange(0, k + 1)[k as int] == q);
                }
            }
        }
        k = k + 1;
    }
    proof {
        assert(rocks@.subrange(0, k as int) =~= rocks@);
    }
    b
}

/// The rocks as a blocked set, and the bound below the deepest.
fn scan(input: &str) -> (r: (Blocked, usize))
    requires
        scan_ok(input.spec_bytes()),
    ensures
        r.0.wf(),
        r.0.rows@.len() == r.1 + 1,
        r.0.set() == rock_set(lines(input.spec_bytes())),
        r.1 == abyss_bound_of(lines(input.spec_bytes())),
        1 <= r.1 <= COORD_MAX + 1,
{
    let (rocks, bound) = parse_input(input);
    proof {
        lemma_abyss_bound_unique(lines(input.spec_bytes()), bound as int);
        assert forall|k: int| 0 <= k < rocks@.len() implies (#[trigger] rocks@[k]).x <= COORD_MAX && rocks@[k].depth < bound by {
            assert(rocks@.contains(rocks@[k]));
        }
    }
    let b = rock_grid(&rocks, bound);
    proof {
        assert(b.set() =~= rock_set(lines(input.spec_bytes())));
    }
    (b, bound)
}

pub struct Day14;

impl AOCSolutions for Day14 {
    open spec fn accepts_1(input: Seq<u8>) -> bool {
        scan_ok(input)
    }

    open spec fn accepts_2(input: Seq<u8>) -> bool {
        scan_ok(input)
    }

    open spec fn star_1(input: Seq<u8>, r: Result<i64, ()>) -> bool {
        let ls = lines(input);
        if rock_set(ls).contains(sand_source()) {
            r is Err
        } else {
            match pour_until_abyss(rock_set(ls), abyss_bound_of(ls), fuel_for(abyss_bound_of(ls))) {
                Ok(n) => r == Ok::<i64, ()>(n as i64),
                Err(_) => r is Err,
            }
        }
    }

    open spec fn star_2(input: Seq<u8>, r: Result<i64, ()>) -> bool {
        let ls = lines(input);
        if rock_set(ls).contains(sand_source()) {
            r == Ok::<i64, ()>(0)
        } else {
            match pour_until_full(rock_set(ls), abyss_bound_of(ls), fuel_for(abyss_bound_of(ls))) {
                Ok(n) => r == Ok::<i64, ()>(n as i64),
                Err(_) => r is Err,
            }
        }
    }

    /// The units of sand at rest before sand starts to fall into the abyss.
    fn get_star_1(input: &str) -> (r: Result<i64, ()>) {
        let (mut blocked_set, abyss_bound) = scan(input);
        let source = Position { x: SOURCE_X, depth: 0 };
        if blocked_set.contains(&source) {
            return Err(());
        }
        let ghost b0 = blocked_set.set();
        let mut fuel: u64 = (AREA_WIDTH as u64) * (abyss_bound as u64 + 1) + 1;
        let mut sand_unit_count: i64 = 0;
        while fuel > 0
            invariant
                source == sand_source(),
                b0 == rock_set(lines(input.spec_bytes())),
                abyss_bound == abyss_bound_of(lines(input.spec_bytes())),
                !b0.contains(sand_source()),
                blocked_set.wf(),
                blocked_set.rows@.len() == abyss_bound + 1,
                1 <= abyss_bound <= COORD_MAX + 1,
                fuel <= fuel_for(abyss_bound as int),
                0 <= sand_unit_count <= fuel_for(abyss_bound as int) - fuel,
                pour_until_abyss(b0, abyss_bound as int, fuel_for(abyss_bound as int)) == plus(
                    sand_unit_count as int,
                    pour_until_abyss(blocked_set.set(), abyss_bound as int, fuel as nat),
                ),
            decreases fuel,
        {
            let (sp, abyss) = find_bounded_sand_pos(&source, &blocked_set, abyss_bound);
            proof {
                lemma_fall_in_area(blocked_set.set(), SOURCE_X as int, 0, abyss_bound as int);
            }
            if abyss {
                return Ok(sand_unit_count);
            }
            if sp.x == SOURCE_X && sp.depth == 0 {
                return Err(());
            }
            sand_unit_count = sand_unit_count + 1;
            blocked_set.insert(sp);
            fuel = fuel - 1;
        }
        Err(())
    }

    /// The units of sand at rest once the source is covered, with a floor
    /// two rows below the deepest rock.
    fn get_star_2(input: &str) -> (r: Result<i64, ()>) {
        let (mut blocked_set, floor_bound) = scan(input);
        let source = Position { x: SOURCE_X, depth: 0 };
        if blocked_set.contains(&source) {
            return Ok(0);
        }
        let ghost b0 = blocked_set.set();
        let mut fuel: u64 = (AREA_WIDTH as u64) * (floor_bound as u64 + 1) + 1;
        let mut sand_unit_count: i64 = 0;
        while fuel > 0
            invariant
                source == sand_source(),
                b0 == rock_set(lines(input.spec_bytes())),
                floor_bound == abyss_bound_of(lines(input.spec_bytes())),
                !b0.contains(sand_source()),
                blocked_set.wf(),
                blocked_set.rows@.len() == floor_bound + 1,
                1 <= floor_bound <= COORD_MAX + 1,
                fuel <= fuel_for(floor_bound as int),
                0 <= sand_unit_count <= fuel_for(floor_bound as int) - fuel,
                pour_until_full(b0, floor_bound as int, fuel_for(floor_bound as int)) == plus(
                    sand_unit_count as int,
                    pour_until_full(blocked_set.set(), floor_bound as int, fuel as nat),
                ),
            decreases fuel,
        {
            let (sp, _) = find_bounded_sand_pos(&source, &blocked_set, floor_bound);
            proof {
                lemma_fall_in_area(blocked_set.set(), SOURCE_X as int, 0, floor_bound as int);
            }
            sand_unit_count = sand_unit_count + 1;
            if sp.x == SOURCE_X && sp.depth == 0 {
                return Ok(sand_unit_count);
            }
            blocked_set.insert(sp);
            fuel = fuel - 1;
        }
        Err(())
    }
}

} // verus!

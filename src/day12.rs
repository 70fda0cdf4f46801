//! Hill climbing: fewest steps up a height map, one level up at most per step.
use vstd::prelude::*;
use vstd::string::StringSliceAdditionalSpecFns;
use crate::AOCSolutions;
use crate::text::{lines, span, spans_of, line_spans};

verus! {

/// Row and column.
pub type Position = (usize, usize);

pub type Graph = Vec<Vec<u8>>;

pub open spec fn height_from(b: u8) -> u8 {
    if b == 83u8 {
        97u8
    } else {
        b
    }
}

pub open spec fn height_to(b: u8) -> u8 {
    if b == 69u8 {
        122u8
    } else {
        b
    }
}

/// A step from `here` to `there` climbs at most one level (`S` counts as
/// `a` to step from, `E` as `z` to step onto).
pub open spec fn valid_step(here: u8, there: u8) -> bool {
    let (h, t) = (height_from(here), height_to(there));
    t <= h || t - h == 1
}

pub open spec fn in_grid(g: Seq<Seq<u8>>, p: Position) -> bool {
    p.0 < g.len() && p.1 < g[p.0 as int].len()
}

pub open spec fn cell(g: Seq<Seq<u8>>, p: Position) -> u8 {
    g[p.0 as int][p.1 as int]
}

/// Up, left, down or right by one.
pub open spec fn adjacent(p: Position, q: Position) -> bool {
    (q.0 + 1 == p.0 && q.1 == p.1) || (q.0 == p.0 && q.1 + 1 == p.1) || (q.0 == p.0 + 1 && q.1 == p.1) || (q.0 == p.0 && q.1 == p.1 + 1)
}

pub open spec fn edge(g: Seq<Seq<u8>>, p: Position, q: Position) -> bool {
    in_grid(g, p) && in_grid(g, q) && adjacent(p, q) && valid_step(cell(g, p), cell(g, q))
}

/// The places reachable from `s` in at most `k` steps.
pub open spec fn reach(g: Seq<Seq<u8>>, s: Position, k: nat) -> Set<Position>
    decreases k,
{
    if k == 0 {
        set![s]
    } else {
        let prev = reach(g, s, (k - 1) as nat);
        prev.union(Set::new(|q: Position| exists|p: Position| prev.contains(p) && #[trigger] edge(g, p, q)))
    }
}

/// The fewest steps from `s` to `t`, looking at step counts `k..=limit`.
pub open spec fn first_reach(g: Seq<Seq<u8>>, s: Position, t: Position, k: nat, limit: nat) -> Option<nat>
    decreases limit + 1 - k,
{
    if k > limit {
        None
    } else if reach(g, s, k).contains(t) {
        Some(k)
    } else {
        first_reach(g, s, t, k + 1, limit)
    }
}

/// The number of places of the grid, which bounds any shortest path.
pub open spec fn cells(g: Seq<Seq<u8>>) -> nat
    decreases g.len(),
{
    if g.len() == 0 {
        0
    } else {
        cells(g.drop_last()) + g.last().len()
    }
}

/// The fewest steps from `s` to `t`.
pub open spec fn distance(g: Seq<Seq<u8>>, s: Position, t: Position) -> Option<nat> {
    first_reach(g, s, t, 0, cells(g))
}

pub open spec fn grid_view(g: Seq<Vec<u8>>) -> Seq<Seq<u8>> {
    g.map_values(|r: Vec<u8>| r@)
}

pub fn is_valid_move(here: &u8, there: &u8) -> (r: bool)
    ensures
        r == valid_step(*here, *there),
{
    let mut h = *here;
    let mut t = *there;
    if h == 83u8 {
        h = 97u8;
    }
    if t == 69u8 {
        t = 122u8;
    }
    if t > h {
        t - h == 1
    } else {
        true
    }
}

/// The places one step from `curr_pos` can reach.
pub fn get_next_possible_moves(curr_pos: &Position, graph: &Graph) -> (r: Vec<Position>)
    requires
        in_grid(grid_view(graph@), *curr_pos),
    ensures
        forall|q: Position| r@.contains(q) <==> edge(grid_view(graph@), *curr_pos, q),
{
    let ghost g = grid_view(graph@);
    let (row, col) = *curr_pos;
    let here: u8 = graph[row][col];
    proof {
        assert(g[row as int] == graph@[row as int]@);
    }
    let n = graph.len();
    let w = graph[row].len();
    proof {
        assert(g[row as int].len() == w);
    }
    let d_up = row > 0 && col < graph[row - 1].len() && is_valid_move(&here, &graph[row - 1][col]);
    let d_left = col > 0 && is_valid_move(&here, &graph[row][col - 1]);
    let d_down = row + 1 < n && col < graph[row + 1].len() && is_valid_move(&here, &graph[row + 1][col]);
    let d_right = col + 1 < w && is_valid_move(&here, &graph[row][col + 1]);
    proof {
        if row > 0 {
            assert(g[row - 1] == graph@[row - 1]@);
        }
        if row + 1 < n {
            assert(g[row + 1] == graph@[row + 1]@);
        }
        assert(d_up == edge(g, *curr_pos, ((row - 1) as usize, col)) || row == 0);
        assert(row > 0 ==> d_up == edge(g, *curr_pos, ((row - 1) as usize, col)));
        assert(col > 0 ==> d_left == edge(g, *curr_pos, (row, (col - 1) as usize)));
        assert(d_down == edge(g, *curr_pos, ((row + 1) as usize, col)));
        assert(d_right == edge(g, *curr_pos, (row, (col + 1) as usize)));
    }
    let mut positions: Vec<Position> = Vec::new();
    let ghost up = ((row - 1) as usize, col);
    let ghost left = (row, (col - 1) as usize);
    let ghost down = ((row + 1) as usize, col);
    let ghost right = (row, (col + 1) as usize);
    if d_up {
        positions.push((row - 1, col));
    }
    let ghost p1 = positions@;
    if d_left {
        positions.push((row, col - 1));
    }
    let ghost p2 = positions@;
    if d_down {
        positions.push((row + 1, col));
    }
    let ghost p3 = positions@;
    if d_right {
        positions.push((row, col + 1));
    }
    proof {
        assert(p1 == (if d_up { seq![up] } else { seq![] }));
        assert(p2 == (if d_left { p1.push(left) } else { p1 }));
        assert(p3 == (if d_down { p2.push(down) } else { p2 }));
        assert(positions@ == (if d_right { p3.push(right) } else { p3 }));
        assert forall|q: Position| positions@.contains(q) <==> ((d_up && q == up) || (d_left && q == left) || (d_down && q == down) || (d_right && q == right)) by {
            if positions@.contains(q) {
                let k = choose|k: int| 0 <= k < positions@.len() && positions@[k] == q;
                if d_right && k == p3.len() {
                } else if d_down && k == p2.len() {
                    assert(p3[k] == q);
                } else if d_left && k == p1.len() {
                    assert(p3[k] == q);
                    assert(p2[k] == q);
                } else {
                    assert(p3[k] == q);
                    assert(p2[k] == q);
                    assert(p1[k] == q);
                }
            }
            if d_up && q == up {
                assert(p1[0] == q);
                assert(p2[0] == q);
                assert(p3[0] == q);
                assert(positions@[0] == q);
            }
            if d_left && q == left {
                assert(p2[p1.len() as int] == q);
                assert(p3[p1.len() as int] == q);
                assert(positions@[p1.len() as int] == q);
            }
            if d_down && q == down {
                assert(p3[p2.len() as int] == q);
                assert(positions@[p2.len() as int] == q);
            }
            if d_right && q == right {
                assert(positions@[p3.len() as int] == q);
            }
        }
        assert forall|q: Position| positions@.contains(q) <==> edge(g, *curr_pos, q) by {
            if edge(g, *curr_pos, q) {
                assert(adjacent(*curr_pos, q));
            }
        }
    }
    positions
}

/// The places one step from any place of `f`.
pub open spec fn neighbours(g: Seq<Seq<u8>>, f: Set<Position>) -> Set<Position> {
    Set::new(|q: Position| exists|p: Position| f.contains(p) && #[trigger] edge(g, p, q))
}

/// The places first reached in exactly `k` steps.
pub open spec fn layer(g: Seq<Seq<u8>>, s: Position, k: nat) -> Set<Position> {
    if k == 0 {
        set![s]
    } else {
        reach(g, s, k).difference(reach(g, s, (k - 1) as nat))
    }
}

pub open spec fn marked(g: Seq<Seq<u8>>, v: Seq<Vec<bool>>) -> Set<Position> {
    Set::new(|p: Position| in_grid(g, p) && v[p.0 as int]@[p.1 as int])
}

pub open spec fn same_shape(g: Seq<Seq<u8>>, v: Seq<Vec<bool>>) -> bool {
    v.len() == g.len() && forall|r: int| 0 <= r < g.len() ==> (#[trigger] v[r])@.len() == g[r].len()
}

pub proof fn lemma_reach_grows(g: Seq<Seq<u8>>, s: Position, k: nat)
    ensures
        reach(g, s, k).subset_of(reach(g, s, k + 1)),
        reach(g, s, k + 1) == reach(g, s, k).union(neighbours(g, reach(g, s, k))),
{
    assert(reach(g, s, k + 1) =~= reach(g, s, k).union(neighbours(g, reach(g, s, k))));
}

pub proof fn lemma_reach_in_grid(g: Seq<Seq<u8>>, s: Position, k: nat)
    requires
        in_grid(g, s),
    ensures
        forall|p: Position| #[trigger] reach(g, s, k).contains(p) ==> in_grid(g, p),
    decreases k,
{
    if k > 0 {
        lemma_reach_in_grid(g, s, (k - 1) as nat);
        lemma_reach_grows(g, s, (k - 1) as nat);
        assert forall|p: Position| #[trigger] reach(g, s, k).contains(p) implies in_grid(g, p) by {
            if !reach(g, s, (k - 1) as nat).contains(p) {
                assert(neighbours(g, reach(g, s, (k - 1) as nat)).contains(p));
                let p0 = choose|p0: Position| reach(g, s, (k - 1) as nat).contains(p0) && #[trigger] edge(g, p0, p);
            }
        }
    }
}

/// Once a step reaches nothing new, nothing new is ever reached.
pub proof fn lemma_reach_stable(g: Seq<Seq<u8>>, s: Position, k: nat, j: nat)
    requires
        reach(g, s, k + 1) == reach(g, s, k),
        k <= j,
    ensures
        reach(g, s, j) == reach(g, s, k),
    decreases j - k,
{
    if j > k {
        lemma_reach_stable(g, s, k, (j - 1) as nat);
        lemma_reach_grows(g, s, (j - 1) as nat);
        lemma_reach_grows(g, s, k);
    }
}

pub proof fn lemma_never_reached(g: Seq<Seq<u8>>, s: Position, t: Position, k: nat, limit: nat)
    requires
        reach(g, s, k + 1) == reach(g, s, k),
        !reach(g, s, k).contains(t),
    ensures
        first_reach(g, s, t, k, limit) is None,
    decreases limit + 1 - k,
{
    if k <= limit {
        lemma_reach_grows(g, s, k);
        lemma_reach_stable(g, s, k, k + 2);
        lemma_never_reached(g, s, t, k + 1, limit);
    }
}

/// The fewest steps from `source` to `goal`, or `None` where the goal
/// cannot be reached.
pub fn graph_search(graph: &Graph, source: Position, goal: Position) -> (r: Option<usize>)
    requires
        in_grid(grid_view(graph@), source),
        in_grid(grid_view(graph@), goal),
        cells(grid_view(graph@)) < 0x8000_0000,
    ensures
        match distance(grid_view(graph@), source, goal) {
            Some(d) => r == Some(d as usize),
            None => r is None,
        },
{
    let ghost g = grid_view(graph@);
    let ghost limit = cells(g);
    let limit_exec = count_cells(graph);
    assert(limit < usize::MAX);
    let mut visited: Vec<Vec<bool>> = Vec::new();
    let mut rr: usize = 0;
    while rr < graph.len()
        invariant
            g == grid_view(graph@),
            0 <= rr <= graph@.len(),
            visited@.len() == rr,
            forall|r: int| 0 <= r < rr ==> (#[trigger] visited@[r])@.len() == g[r].len(),
            forall|r: int, c: int| 0 <= r < rr && 0 <= c < g[r].len() ==> !(#[trigger] visited@[r]@[c]),
        decreases graph@.len() - rr,
    {
        let w = graph[rr].len();
        let mut row: Vec<bool> = Vec::new();
        while row.len() < w
            invariant
                row@.len() <= w,
                forall|c: int| 0 <= c < row@.len() ==> !row@[c],
            decreases w - row@.len(),
        {
            row.push(false);
        }
        visited.push(row);
        proof {
            assert(g[rr as int] == graph@[rr as int]@);
        }
        rr = rr + 1;
    }
    set_cell(&mut visited, source);
    proof {
        assert(marked(g, visited@) =~= set![source]);
        lemma_reach_in_grid(g, source, 0);
    }
    let mut frontier: Vec<Position> = vec![source];
    let mut k: usize = 0;
    proof {
        assert(frontier@[0] == source);
    }
    while k <= limit_exec
        invariant
            g == grid_view(graph@),
            limit == cells(g),
            limit_exec == limit,
            limit < usize::MAX,
            in_grid(g, source),
            in_grid(g, goal),
            same_shape(g, visited@),
            marked(g, visited@) == reach(g, source, k as nat),
            forall|q: Position| frontier@.contains(q) <==> layer(g, source, k as nat).contains(q),
            first_reach(g, source, goal, 0, limit) == first_reach(g, source, goal, k as nat, limit),
        decreases limit + 1 - k,
    {
        if get_cell(&visited, goal) {
            return Some(k);
        }
        if frontier.len() == 0 {
            proof {
                lemma_reach_grows(g, source, k as nat);
                assert forall|q: Position| #[trigger] neighbours(g, reach(g, source, k as nat)).contains(q) implies reach(g, source, k as nat).contains(q) by {
                    let p = choose|p: Position| reach(g, source, k as nat).contains(p) && #[trigger] edge(g, p, q);
                    assert(!frontier@.contains(p));
                    if k > 0 {
                        assert(!layer(g, source, k as nat).contains(p));
                        assert(reach(g, source, (k - 1) as nat).contains(p));
                        lemma_reach_grows(g, source, (k - 1) as nat);
                    } else {
                        assert(layer(g, source, 0).contains(source));
                        assert(frontier@.contains(source));
                    }
                }
                assert(reach(g, source, (k + 1) as nat) =~= reach(g, source, k as nat));
                lemma_never_reached(g, source, goal, k as nat, limit);
            }
            return None;
        }
        let ghost before = marked(g, visited@);
        let mut next: Vec<Position> = Vec::new();
        let mut i: usize = 0;
        while i < frontier.len()
            invariant
                g == grid_view(graph@),
                in_grid(g, source),
                same_shape(g, visited@),
                before == reach(g, source, k as nat),
                0 <= i <= frontier@.len(),
                forall|q: Position| frontier@.contains(q) <==> layer(g, source, k as nat).contains(q),
                marked(g, visited@) == before.union(neighbours(g, frontier@.subrange(0, i as int).to_set())),
                forall|q: Position| next@.contains(q) <==> marked(g, visited@).contains(q) && !before.contains(q),
            decreases frontier@.len() - i,
        {
            let p = frontier[i];
            proof {
                assert(frontier@.contains(p));
                lemma_reach_in_grid(g, source, k as nat);
                if k > 0 {
                    lemma_reach_grows(g, source, (k - 1) as nat);
                }
            }
            let moves = get_next_possible_moves(&p, graph);
            let ghost mid = marked(g, visited@);
            let mut j: usize = 0;
            while j < moves.len()
                invariant
                    g == grid_view(graph@),
                    same_shape(g, visited@),
                    before == reach(g, source, k as nat),
                    forall|q: Position| moves@.contains(q) <==> edge(g, p, q),
                    0 <= j <= moves@.len(),
                    marked(g, visited@) == mid.union(moves@.subrange(0, j as int).to_set()),
                    mid.subset_of(marked(g, visited@)),
                    forall|q: Position| next@.contains(q) <==> marked(g, visited@).contains(q) && !before.contains(q),
                    before.subset_of(mid),
                decreases moves@.len() - j,
            {
                let q = moves[j];
                proof {
                    assert(moves@.contains(q));
                }
                let ghost m0 = marked(g, visited@);
                let ghost old_next = next@;
                if !get_cell(&visited, q) {
                    set_cell(&mut visited, q);
                    next.push(q);
                    proof {
                        assert(marked(g, visited@) =~= m0.insert(q));
                        assert(!m0.contains(q));
                        assert(!before.contains(q));
                        assert forall|x: Position| next@.contains(x) <==> marked(g, visited@).contains(x) && !before.contains(x) by {
                            if next@.contains(x) {
                                let t = choose|t: int| 0 <= t < next@.len() && next@[t] == x;
                                if t < old_next.len() {
                                    assert(old_next[t] == x);
                                    assert(old_next.contains(x));
                                }
                            }
                            if old_next.contains(x) {
                                let t = choose|t: int| 0 <= t < old_next.len() && old_next[t] == x;
                                assert(next@[t] == x);
                            }
                            if x == q {
                                assert(next@[next@.len() - 1] == x);
                            }
                        }
                    }
                }
                proof {
                    assert(moves@.subrange(0, j + 1).to_set() =~= moves@.subrange(0, j as int).to_set().insert(q)) by {
                        assert(moves@.subrange(0, j + 1) =~= moves@.subrange(0, j as int).push(q));
                        moves@.subrange(0, j as int).lemma_push_to_set_commute(q);
                    }
                    assert(marked(g, visited@) =~= mid.union(moves@.subrange(0, j + 1).to_set()));
                }
                j = j + 1;
            }
            proof {
                assert(moves@.subrange(0, j as int) =~= moves@);
                let f0 = frontier@.subrange(0, i as int).to_set();
                let f1 = frontier@.subrange(0, i + 1).to_set();
                assert(frontier@.subrange(0, i + 1) =~= frontier@.subrange(0, i as int).push(p));
                frontier@.subrange(0, i as int).lemma_push_to_set_commute(p);
                assert(f1 =~= f0.insert(p));
                assert forall|q: Position| #[trigger] neighbours(g, f1).contains(q) == (neighbours(g, f0).contains(q) || moves@.to_set().contains(q)) by {
                    if neighbours(g, f1).contains(q) {
                        let p2 = choose|p2: Position| f1.contains(p2) && #[trigger] edge(g, p2, q);
                        if p2 != p {
                            assert(f0.contains(p2));
                        } else {
                            assert(moves@.contains(q));
                        }
                    }
                    if moves@.to_set().contains(q) {
                        assert(edge(g, p, q));
                        assert(f1.contains(p));
                    }
                    if neighbours(g, f0).contains(q) {
                        let p2 = choose|p2: Position| f0.contains(p2) && #[trigger] edge(g, p2, q);
                        assert(f1.contains(p2));
                    }
                }
                assert(marked(g, visited@) =~= before.union(neighbours(g, f1)));
            }
            i = i + 1;
        }
        proof {
            assert(frontier@.subrange(0, i as int) =~= frontier@);
            let fs = frontier@.to_set();
            lemma_reach_grows(g, source, k as nat);
            assert forall|q: Position| #[trigger] reach(g, source, (k + 1) as nat).contains(q) == marked(g, visited@).contains(q) by {
                if neighbours(g, reach(g, source, k as nat)).contains(q) && !reach(g, source, k as nat).contains(q) {
                    let p = choose|p: Position| reach(g, source, k as nat).contains(p) && #[trigger] edge(g, p, q);
                    if !layer(g, source, k as nat).contains(p) {
                        assert(k > 0);
                        assert(reach(g, source, (k - 1) as nat).contains(p));
                        lemma_reach_grows(g, source, (k - 1) as nat);
                        assert(reach(g, source, k as nat).contains(q));
                    }
                    assert(frontier@.contains(p));
                    assert(fs.contains(p));
                }
                if neighbours(g, fs).contains(q) {
                    let p = choose|p: Position| fs.contains(p) && #[trigger] edge(g, p, q);
                    assert(frontier@.contains(p));
                    assert(layer(g, source, k as nat).contains(p));
                }
            }
            assert(reach(g, source, (k + 1) as nat) =~= marked(g, visited@));
            assert(!reach(g, source, k as nat).contains(goal));
        }
        frontier = next;
        k = k + 1;
    }
    None
}

/// The number of places of the grid.
fn count_cells(graph: &Graph) -> (r: usize)
    requires
        cells(grid_view(graph@)) < 0x8000_0000,
    ensures
        r == cells(grid_view(graph@)),
{
    let mut total: usize = 0;
    let mut r: usize = 0;
    while r < graph.len()
        invariant
            0 <= r <= graph@.len(),
            cells(grid_view(graph@)) < 0x8000_0000,
            total == cells(grid_view(graph@.subrange(0, r as int))),
            total <= cells(grid_view(graph@)),
        decreases graph@.len() - r,
    {
        proof {
            assert(grid_view(graph@.subrange(0, r + 1)).drop_last() =~= grid_view(graph@.subrange(0, r as int)));
            lemma_cells_prefix(grid_view(graph@), r + 1);
            assert(grid_view(graph@.subrange(0, r + 1)) =~= grid_view(graph@).subrange(0, r + 1));
        }
        total = total + graph[r].len();
        r = r + 1;
    }
    proof {
        assert(graph@.subrange(0, r as int) =~= graph@);
    }
    total
}

pub proof fn lemma_cells_prefix(g: Seq<Seq<u8>>, i: int)
    requires
        0 <= i <= g.len(),
    ensures
        cells(g.subrange(0, i)) <= cells(g),
    decreases g.len() - i,
{
    if i < g.len() {
        lemma_cells_prefix(g, i + 1);
        assert(g.subrange(0, i + 1).drop_last() =~= g.subrange(0, i));
    } else {
        assert(g.subrange(0, i) =~= g);
    }
}

fn get_cell(v: &Vec<Vec<bool>>, p: Position) -> (r: bool)
    requires
        p.0 < v@.len(),
        p.1 < v@[p.0 as int]@.len(),
    ensures
        r == v@[p.0 as int]@[p.1 as int],
{
    v[p.0][p.1]
}

fn set_cell(v: &mut Vec<Vec<bool>>, p: Position)
    requires
        p.0 < old(v)@.len(),
        p.1 < old(v)@[p.0 as int]@.len(),
    ensures
        final(v)@.len() == old(v)@.len(),
        forall|r: int| 0 <= r < final(v)@.len() ==> (#[trigger] final(v)@[r])@.len() == old(v)@[r]@.len(),
        forall|r: int, c: int| 0 <= r < final(v)@.len() && 0 <= c < final(v)@[r]@.len() ==> #[trigger] final(v)@[r]@[c] == (old(v)@[r]@[c] || (r == p.0 && c == p.1)),
{
    let mut row: Vec<bool> = Vec::new();
    v.set_and_swap(p.0, &mut row);
    row.set(p.1, true);
    v.set_and_swap(p.0, &mut row);
}

/// `p` comes before `q` in reading order.
pub open spec fn before_in_reading(p: Position, q: Position) -> bool {
    p.0 < q.0 || (p.0 == q.0 && p.1 < q.1)
}

/// `p` is the first place, in reading order, that holds `b`.
pub open spec fn first_at(g: Seq<Seq<u8>>, b: u8, p: Position) -> bool {
    &&& in_grid(g, p)
    &&& cell(g, p) == b
    &&& forall|q: Position| in_grid(g, q) && cell(g, q) == b ==> !before_in_reading(q, p)
}

pub open spec fn holds(g: Seq<Seq<u8>>, b: u8) -> bool {
    exists|p: Position| in_grid(g, p) && cell(g, p) == b
}

pub open spec fn first_of(g: Seq<Seq<u8>>, b: u8) -> Position {
    choose|p: Position| first_at(g, b, p)
}

/// A place where a climb may start in part two.
pub open spec fn lowest(g: Seq<Seq<u8>>, p: Position) -> bool {
    in_grid(g, p) && (cell(g, p) == 83u8 || cell(g, p) == 97u8)
}

/// `m` is the fewest steps from any lowest place to `t`, or `i64::MAX` where none reaches it.
pub open spec fn is_min_climb(g: Seq<Seq<u8>>, t: Position, m: int) -> bool {
    &&& forall|p: Position| #[trigger] lowest(g, p) && distance(g, p, t) is Some ==> m <= distance(g, p, t).unwrap()
    &&& (m == i64::MAX || exists|p: Position| #[trigger] lowest(g, p) && distance(g, p, t) == Some(m as nat))
}

pub open spec fn map_ok(s: Seq<u8>) -> bool {
    &&& holds(lines(s), 83u8)
    &&& holds(lines(s), 69u8)
    &&& cells(lines(s)) < 0x8000_0000
}

pub proof fn lemma_first_unique(g: Seq<Seq<u8>>, b: u8, p: Position)
    requires
        first_at(g, b, p),
    ensures
        first_of(g, b) == p,
{
    let q = first_of(g, b);
    assert(first_at(g, b, q));
    assert(!before_in_reading(q, p));
    assert(!before_in_reading(p, q));
}

/// The grid of `input`, one row per line.
fn parse_grid(input: &[u8]) -> (r: Graph)
    ensures
        grid_view(r@) == lines(input@),
{
    let ghost ls = lines(input@);
    let spans = line_spans(input);
    let mut graph: Graph = Vec::new();
    let mut i: usize = 0;
    while i < spans.len()
        invariant
            ls == lines(input@),
            spans_of(input@, spans@, ls),
            0 <= i <= spans@.len(),
            grid_view(graph@) == ls.subrange(0, i as int),
        decreases spans@.len() - i,
    {
        let (lo, hi) = spans[i];
        let row = vstd::slice::slice_to_vec(vstd::slice::slice_subrange(input, lo, hi));
        let ghost old_graph = graph@;
        graph.push(row);
        proof {
            assert(row@ == span(input@, lo, hi));
            assert(grid_view(graph@) =~= grid_view(old_graph).push(row@));
            assert(span(input@, lo, hi) == ls[i as int]);
            assert(grid_view(graph@) =~= ls.subrange(0, i + 1));
        }
        i = i + 1;
    }
    proof {
        assert(ls.subrange(0, i as int) =~= ls);
    }
    graph
}

/// The first place, in reading order, that holds `b`.
fn find_first(graph: &Graph, b: u8) -> (r: Position)
    requires
        holds(grid_view(graph@), b),
    ensures
        first_at(grid_view(graph@), b, r),
{
    let ghost g = grid_view(graph@);
    let mut r: usize = 0;
    while r < graph.len()
        invariant
            g == grid_view(graph@),
            holds(g, b),
            0 <= r <= graph@.len(),
            forall|q: Position| in_grid(g, q) && cell(g, q) == b ==> q.0 >= r,
        decreases graph@.len() - r,
    {
        let mut c: usize = 0;
        while c < graph[r].len()
            invariant
                g == grid_view(graph@),
                0 <= r < graph@.len(),
                0 <= c <= graph@[r as int]@.len(),
                forall|q: Position| in_grid(g, q) && cell(g, q) == b ==> q.0 >= r,
                forall|q: Position| in_grid(g, q) && cell(g, q) == b && q.0 == r ==> q.1 >= c,
            decreases graph@[r as int]@.len() - c,
        {
            if graph[r][c] == b {
                proof {
                    assert(g[r as int] == graph@[r as int]@);
                }
                return (r, c);
            }
            proof {
                assert(g[r as int] == graph@[r as int]@);
            }
            c = c + 1;
        }
        proof {
            assert(g[r as int] == graph@[r as int]@);
        }
        r = r + 1;
    }
    proof {
        let q = choose|q: Position| in_grid(g, q) && cell(g, q) == b;
    }
    (0, 0)
}

pub struct Day12;

impl AOCSolutions for Day12 {
    open spec fn accepts_1(input: Seq<u8>) -> bool {
        map_ok(input)
    }

    open spec fn accepts_2(input: Seq<u8>) -> bool {
        map_ok(input)
    }

    open spec fn star_1(input: Seq<u8>, r: Result<i64, ()>) -> bool {
        let g = lines(input);
        match distance(g, first_of(g, 83u8), first_of(g, 69u8)) {
            Some(d) => r == Ok::<i64, ()>(d as i64),
            None => r is Err,
        }
    }

    open spec fn star_2(input: Seq<u8>, r: Result<i64, ()>) -> bool {
        r matches Ok(m) && is_min_climb(lines(input), first_of(lines(input), 69u8), m as int)
    }

    /// The fewest steps from `S` to `E`; an error where `E` cannot be reached.
    fn get_star_1(input: &str) -> (r: Result<i64, ()>) {
        let graph = parse_grid(input.as_bytes());
        let src = find_first(&graph, 83u8);
        let tgt = find_first(&graph, 69u8);
        proof {
            lemma_first_unique(grid_view(graph@), 83u8, src);
            lemma_first_unique(grid_view(graph@), 69u8, tgt);
        }
        match graph_search(&graph, src, tgt) {
            Some(d) => {
                proof {
                    lemma_distance_bound(grid_view(graph@), src, tgt);
                }
                Ok(d as i64)
            },
            None => Err(()),
        }
    }

    /// The fewest steps to `E` from any place at the lowest level (`S` or `a`).
    fn get_star_2(input: &str) -> (r: Result<i64, ()>) {
        let graph = parse_grid(input.as_bytes());
        let ghost g = grid_view(graph@);
        let tgt = find_first(&graph, 69u8);
        proof {
            lemma_first_unique(g, 69u8, tgt);
        }
        let mut min_step: i64 = i64::MAX;
        let mut r: usize = 0;
        while r < graph.len()
            invariant
                g == grid_view(graph@),
                g == lines(input.spec_bytes()),
                tgt == first_of(g, 69u8),
                in_grid(g, tgt),
                cells(g) < 0x8000_0000,
                0 <= r <= graph@.len(),
                forall|p: Position| #[trigger] lowest(g, p) && p.0 < r && distance(g, p, tgt) is Some ==> min_step <= distance(g, p, tgt).unwrap(),
                min_step == i64::MAX || exists|p: Position| #[trigger] lowest(g, p) && distance(g, p, tgt) == Some(min_step as nat),
            decreases graph@.len() - r,
        {
            let mut c: usize = 0;
            proof {
                assert(g[r as int] == graph@[r as int]@);
            }
            while c < graph[r].len()
                invariant
                    g == grid_view(graph@),
                    tgt == first_of(g, 69u8),
                    in_grid(g, tgt),
                    cells(g) < 0x8000_0000,
                    0 <= r < graph@.len(),
                    g[r as int] == graph@[r as int]@,
                    0 <= c <= graph@[r as int]@.len(),
                    forall|p: Position| #[trigger] lowest(g, p) && (p.0 < r || (p.0 == r && p.1 < c)) && distance(g, p, tgt) is Some ==> min_step <= distance(g, p, tgt).unwrap(),
                    min_step == i64::MAX || exists|p: Position| #[trigger] lowest(g, p) && distance(g, p, tgt) == Some(min_step as nat),
                decreases graph@[r as int]@.len() - c,
            {
                let v = graph[r][c];
                if v == 83u8 || v == 97u8 {
                    let res = graph_search(&graph, (r, c), tgt);
                    proof {
                        assert(lowest(g, (r, c)));
                    }
                    if let Some(d) = res {
                        proof {
                            lemma_distance_bound(g, (r, c), tgt);
                        }
                        if (d as i64) < min_step {
                            min_step = d as i64;
                        }
                    }
                }
                c = c + 1;
            }
            r = r + 1;
        }
        Ok(min_step)
    }
}

pub proof fn lemma_first_reach_bound(g: Seq<Seq<u8>>, s: Position, t: Position, k: nat, limit: nat)
    ensures
        first_reach(g, s, t, k, limit) matches Some(d) ==> d <= limit,
    decreases limit + 1 - k,
{
    if k <= limit && !reach(g, s, k).contains(t) {
        lemma_first_reach_bound(g, s, t, k + 1, limit);
    }
}

pub proof fn lemma_distance_bound(g: Seq<Seq<u8>>, s: Position, t: Position)
    ensures
        distance(g, s, t) matches Some(d) ==> d <= cells(g),
{
    lemma_first_reach_bound(g, s, t, 0, cells(g));
}

} // verus!

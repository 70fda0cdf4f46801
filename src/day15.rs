//! Beacon exclusion zone: sensors, the diamonds they rule out, and the one
//! place they all leave open.
use vstd::prelude::*;
use vstd::string::StringSliceAdditionalSpecFns;
use crate::AOCSolutions;
use crate::text::{lines, split, span, spans_of, is_int_text, int_value, line_spans, split_spans,
    parse_int};

verus! {

/// The largest coordinate magnitude that the solvers take.
pub const COORD_LIMIT: i64 = 0x100_0000_0000;

#[derive(PartialEq, Eq, Structural, Clone, Copy, Debug)]
pub struct Position {
    pub x: i64,
    pub y: i64,
}

pub open spec fn abs(v: int) -> int {
    if v < 0 {
        -v
    } else {
        v
    }
}

pub open spec fn dist(a: Position, b: Position) -> int {
    abs(a.x - b.x) + abs(a.y - b.y)
}

/// A position whose coordinates stay within the limit.
pub open spec fn in_limit(p: Position) -> bool {
    bounded(p, 1)
}

/// A position whose coordinates stay within `k` times the limit.
pub open spec fn bounded(p: Position, k: int) -> bool {
    -k * COORD_LIMIT <= p.x <= k * COORD_LIMIT && -k * COORD_LIMIT <= p.y <= k * COORD_LIMIT
}

/// Rust's integer division, which rounds toward zero.
pub open spec fn trunc_div(a: int, b: int) -> int {
    if (a >= 0) == (b > 0) {
        abs(a) / abs(b)
    } else {
        -(abs(a) / abs(b))
    }
}

pub open spec fn fits(v: int) -> bool {
    i64::MIN <= v <= i64::MAX
}

/// `a / b` rounded toward zero.
fn div_toward_zero(a: i64, b: i64) -> (r: i64)
    requires
        b != 0,
        !(a == i64::MIN && b == -1),
    ensures
        r == trunc_div(a as int, b as int),
{
    let ua: i128 = if a < 0 {
        -(a as i128)
    } else {
        a as i128
    };
    let ub: i128 = if b < 0 {
        -(b as i128)
    } else {
        b as i128
    };
    let q = ua / ub;
    proof {
        assert(0 <= q <= ua) by (nonlinear_arith)
            requires
                q == ua / ub,
                ub >= 1,
                ua >= 0,
        ;
        if ub >= 2 {
            assert(q <= ua / 2) by (nonlinear_arith)
                requires
                    q == ua / ub,
                    ub >= 2,
                    ua >= 0,
            ;
        }
    }
    if (a >= 0) == (b > 0) {
        q as i64
    } else {
        (-q) as i64
    }
}

impl Position {
    pub fn increment_x(&mut self)
        requires
            old(self).x < i64::MAX,
        ensures
            *final(self) == (Position { x: (old(self).x + 1) as i64, y: old(self).y }),
    {
        self.x = self.x + 1;
    }

    pub fn decrement_x(&mut self)
        requires
            old(self).x > i64::MIN,
        ensures
            *final(self) == (Position { x: (old(self).x - 1) as i64, y: old(self).y }),
    {
        self.x = self.x - 1;
    }

    pub fn increment_y(&mut self)
        requires
            old(self).y < i64::MAX,
        ensures
            *final(self) == (Position { x: old(self).x, y: (old(self).y + 1) as i64 }),
    {
        self.y = self.y + 1;
    }

    pub fn decrement_y(&mut self)
        requires
            old(self).y > i64::MIN,
        ensures
            *final(self) == (Position { x: old(self).x, y: (old(self).y - 1) as i64 }),
    {
        self.y = self.y - 1;
    }

    /// The taxicab distance between two positions.
    pub fn manhattan_dist(&self, other: &Self) -> (r: u64)
        requires
            dist(*self, *other) <= u64::MAX,
        ensures
            r == dist(*self, *other),
    {
        let dx: u64 = if self.x >= other.x {
            (self.x as i128 - other.x as i128) as u64
        } else {
            (other.x as i128 - self.x as i128) as u64
        };
        let dy: u64 = if self.y >= other.y {
            (self.y as i128 - other.y as i128) as u64
        } else {
            (other.y as i128 - self.y as i128) as u64
        };
        dx + dy
    }
}

/// The line through `pass_through` with the given slope.
#[derive(Clone, Copy)]
pub struct LinearEquation {
    pub slope: i64,
    pub pass_through: Position,
}

/// A line whose numbers keep the arithmetic of every pair of such lines within `i64`.
pub open spec fn line_ok(e: LinearEquation) -> bool {
    bounded(e.pass_through, 8) && -1 <= e.slope <= 1
}

pub open spec fn solve_spec(e: LinearEquation, x: int) -> int {
    (x - e.pass_through.x) * e.slope + e.pass_through.y
}

/// Each step of `solve_at` at `x` stays within `i64`.
pub open spec fn solve_fits(e: LinearEquation, x: int) -> bool {
    &&& fits(x - e.pass_through.x)
    &&& fits((x - e.pass_through.x) * e.slope)
    &&& fits(solve_spec(e, x))
}

/// The numerator of the crossing's `x`.
pub open spec fn cross_numerator(a: LinearEquation, b: LinearEquation) -> int {
    a.slope * a.pass_through.x - b.slope * b.pass_through.x - a.pass_through.y + b.pass_through.y
}

/// Each step of `intersection` stays within `i64`.
pub open spec fn intersection_fits(a: LinearEquation, b: LinearEquation) -> bool {
    a.slope != b.slope ==> {
        &&& fits(a.slope * a.pass_through.x)
        &&& fits(b.slope * b.pass_through.x)
        &&& fits(a.slope * a.pass_through.x - b.slope * b.pass_through.x)
        &&& fits(a.slope * a.pass_through.x - b.slope * b.pass_through.x - a.pass_through.y)
        &&& fits(cross_numerator(a, b))
        &&& fits(a.slope - b.slope)
        &&& !(cross_numerator(a, b) == i64::MIN && a.slope - b.slope == -1)
        &&& solve_fits(a, trunc_div(cross_numerator(a, b), a.slope - b.slope))
    }
}

/// Where two lines of distinct slopes meet, its `x` rounded toward zero.
pub open spec fn intersection_spec(a: LinearEquation, b: LinearEquation) -> Option<Position> {
    if a.slope == b.slope {
        None
    } else {
        let x = trunc_div(
            a.slope * a.pass_through.x - b.slope * b.pass_through.x - a.pass_through.y
                + b.pass_through.y,
            a.slope - b.slope,
        );
        Some(Position { x: x as i64, y: solve_spec(a, x) as i64 })
    }
}

impl LinearEquation {
    /// The line through `p1` and `p2`, whose slope is their rise over run.
    pub fn from(p1: &Position, p2: &Position) -> (r: LinearEquation)
        requires
            p1.x != p2.x,
            fits(p2.y - p1.y),
            fits(p2.x - p1.x),
            !(p2.y - p1.y == i64::MIN && p2.x - p1.x == -1),
        ensures
            r.pass_through == *p1,
            r.slope == trunc_div(p2.y - p1.y, p2.x - p1.x),
    {
        let pass_through = *p1;
        let slope = div_toward_zero(p2.y - p1.y, p2.x - p1.x);
        LinearEquation { slope, pass_through }
    }

    pub fn solve_at(&self, x: i64) -> (r: i64)
        requires
            solve_fits(*self, x as int),
        ensures
            r == solve_spec(*self, x as int),
    {
        (x - self.pass_through.x) * self.slope + self.pass_through.y
    }

    pub fn intersection(&self, other: &Self) -> (r: Option<Position>)
        requires
            intersection_fits(*self, *other),
        ensures
            r == intersection_spec(*self, *other),
            r matches Some(p) ==> (p.x * (self.slope - other.slope) == cross_numerator(*self, *other)
                ==> solve_spec(*other, p.x as int) == p.y),
    {
        if self.slope == other.slope {
            return None;
        }
        let x = div_toward_zero(
            self.slope * self.pass_through.x - other.slope * other.pass_through.x
                - self.pass_through.y + other.pass_through.y,
            self.slope - other.slope,
        );
        let y = self.solve_at(x);
        proof {
            let (s1, s2) = (self.slope as int, other.slope as int);
            let (x1, y1, x2, y2) = (self.pass_through.x as int, self.pass_through.y as int, other.pass_through.x as int, other.pass_through.y as int);
            let xi = x as int;
            if xi * (s1 - s2) == cross_numerator(*self, *other) {
                assert((xi - x2) * s2 + y2 == (xi - x1) * s1 + y1) by (nonlinear_arith)
                    requires
                        xi * (s1 - s2) == s1 * x1 - s2 * x2 - y1 + y2,
                ;
            }
        }
        Some(Position { x, y })
    }
}

#[derive(Clone, Copy)]
pub struct Sensor {
    pub sensor_pos: Position,
    pub beacon_pos: Position,
    pub beacon_dist: u64,
}

impl Sensor {
    /// The sensor's distance is that of its beacon.
    pub open spec fn sound(&self) -> bool {
        self.beacon_dist == dist(self.sensor_pos, self.beacon_pos)
    }

    /// A sound sensor whose positions stay within the limit.
    pub open spec fn wf(&self) -> bool {
        in_limit(self.sensor_pos) && in_limit(self.beacon_pos) && self.sound()
    }

    /// Every position within the sensor's distance has coordinates of `i64`.
    pub open spec fn diamond_fits(&self) -> bool {
        &&& i64::MIN <= self.sensor_pos.x - self.beacon_dist
        &&& self.sensor_pos.x + self.beacon_dist <= i64::MAX
        &&& i64::MIN <= self.sensor_pos.y - self.beacon_dist
        &&& self.sensor_pos.y + self.beacon_dist <= i64::MAX
    }

    /// Whether the sensor rules out a beacon at `p` (its own beacon included).
    pub open spec fn covers(&self, p: Position) -> bool {
        dist(self.sensor_pos, p) <= self.beacon_dist
    }
}

/// A coordinate token: `x=` or `y=`, an integer, and maybe a `,` or `:`.
pub open spec fn coord_token_ok(t: Seq<u8>, axis: u8) -> bool {
    &&& t.len() >= 3
    &&& t[0] == axis
    &&& t[1] == 61u8
    &&& is_int_text(t.subrange(2, t.len() - coord_tail(t)))
    &&& i64::MIN <= coord_value(t) <= i64::MAX
}

pub open spec fn coord_tail(t: Seq<u8>) -> int {
    if t.last() == 44u8 || t.last() == 58u8 {
        1
    } else {
        0
    }
}

pub open spec fn coord_value(t: Seq<u8>) -> int {
    int_value(t.subrange(2, t.len() - coord_tail(t)))
}

/// `Sensor at x=.., y=..: closest beacon is at x=.., y=..`
pub open spec fn sensor_line_ok(l: Seq<u8>) -> bool {
    let t = split(l, 32u8);
    &&& t.len() == 10
    &&& coord_token_ok(t[2], 120u8)
    &&& coord_token_ok(t[3], 121u8)
    &&& coord_token_ok(t[8], 120u8)
    &&& coord_token_ok(t[9], 121u8)
    &&& dist(sensor_of(l).sensor_pos, sensor_of(l).beacon_pos) <= u64::MAX
}

pub open spec fn sensor_of(l: Seq<u8>) -> Sensor {
    let t = split(l, 32u8);
    let s = Position { x: coord_value(t[2]) as i64, y: coord_value(t[3]) as i64 };
    let b = Position { x: coord_value(t[8]) as i64, y: coord_value(t[9]) as i64 };
    Sensor { sensor_pos: s, beacon_pos: b, beacon_dist: dist(s, b) as u64 }
}

/// The value of the coordinate token `s[lo..hi]`.
fn parse_coord(s: &[u8], lo: usize, hi: usize, axis: u8) -> (r: i64)
    requires
        lo <= hi <= s@.len(),
        coord_token_ok(span(s@, lo, hi), axis),
    ensures
        r == coord_value(span(s@, lo, hi)),
{
    let ghost t = span(s@, lo, hi);
    let end = if s[hi - 1] == 44u8 || s[hi - 1] == 58u8 {
        hi - 1
    } else {
        hi
    };
    proof {
        assert(t.last() == s@[hi - 1]);
        assert(t.subrange(2, t.len() - coord_tail(t)) =~= span(s@, (lo + 2) as usize, end));
    }
    parse_int(s, lo + 2, end).unwrap()
}

/// The value of the coordinate token `s[lo..hi]`, or `None` where it is none.
fn try_coord(s: &[u8], lo: usize, hi: usize, axis: u8) -> (r: Option<i64>)
    requires
        lo <= hi <= s@.len(),
    ensures
        r is Some <==> coord_token_ok(span(s@, lo, hi), axis),
        r matches Some(v) ==> v == coord_value(span(s@, lo, hi)),
{
    let ghost t = span(s@, lo, hi);
    if hi - lo < 3 || s[lo] != axis || s[lo + 1] != 61u8 {
        proof {
            if hi - lo >= 3 {
                assert(t[0] == s@[lo as int] && t[1] == s@[lo + 1]);
            }
        }
        return None;
    }
    proof {
        assert(t[0] == s@[lo as int] && t[1] == s@[lo + 1]);
    }
    let end = if s[hi - 1] == 44u8 || s[hi - 1] == 58u8 {
        hi - 1
    } else {
        hi
    };
    proof {
        assert(t.last() == s@[hi - 1]);
        assert(t.subrange(2, t.len() - coord_tail(t)) =~= span(s@, (lo + 2) as usize, end));
    }
    parse_int(s, lo + 2, end)
}

/// Whether the line `s[lo..hi]` describes a sensor within the limit.
fn check_line(s: &[u8], lo: usize, hi: usize) -> (r: bool)
    requires
        lo <= hi <= s@.len(),
    ensures
        r == (sensor_line_ok(span(s@, lo, hi)) && in_limit(sensor_of(span(s@, lo, hi)).sensor_pos) && in_limit(sensor_of(span(s@, lo, hi)).beacon_pos)),
{
    let ghost l = span(s@, lo, hi);
    let t = split_spans(s, lo, hi, 32u8);
    proof {
        assert(spans_of(s@, t@, split(l, 32u8)));
    }
    if t.len() != 10 {
        return false;
    }
    let sx = try_coord(s, t[2].0, t[2].1, 120u8);
    let sy = try_coord(s, t[3].0, t[3].1, 121u8);
    let bx = try_coord(s, t[8].0, t[8].1, 120u8);
    let by = try_coord(s, t[9].0, t[9].1, 121u8);
    match (sx, sy, bx, by) {
        (Some(sx), Some(sy), Some(bx), Some(by)) => {
            let dx: i128 = if sx >= bx { sx as i128 - bx as i128 } else { bx as i128 - sx as i128 };
            let dy: i128 = if sy >= by { sy as i128 - by as i128 } else { by as i128 - sy as i128 };
            let lim = COORD_LIMIT;
            dx + dy <= u64::MAX as i128 && -lim <= sx && sx <= lim && -lim <= sy && sy <= lim && -lim <= bx && bx <= lim && -lim <= by && by <= lim
        },
        _ => false,
    }
}

impl Sensor {
    /// The sensor described on a line.
    pub fn from_line(line: &str) -> (r: Sensor)
        requires
            sensor_line_ok(line.spec_bytes()),
        ensures
            r == sensor_of(line.spec_bytes()),
            r.sound(),
    {
        let s = line.as_bytes();
        let n = s.len();
        proof {
            assert(span(s@, 0, n) =~= s@);
        }
        Sensor::from_span(s, 0, n)
    }

    /// The sensor described on the line `s[lo..hi]`.
    pub fn from_span(s: &[u8], lo: usize, hi: usize) -> (r: Sensor)
        requires
            lo <= hi <= s@.len(),
            sensor_line_ok(span(s@, lo, hi)),
        ensures
            r == sensor_of(span(s@, lo, hi)),
            r.sound(),
    {
        let ghost l = span(s@, lo, hi);
        let t = split_spans(s, lo, hi, 32u8);
        proof {
            assert(spans_of(s@, t@, split(l, 32u8)));
        }
        let sx = parse_coord(s, t[2].0, t[2].1, 120u8);
        let sy = parse_coord(s, t[3].0, t[3].1, 121u8);
        let bx = parse_coord(s, t[8].0, t[8].1, 120u8);
        let by = parse_coord(s, t[9].0, t[9].1, 121u8);
        let sensor_pos = Position { x: sx, y: sy };
        let beacon_pos = Position { x: bx, y: by };
        let d = sensor_pos.manhattan_dist(&beacon_pos);
        Sensor { sensor_pos, beacon_pos, beacon_dist: d }
    }

    /// The positions on the column `x` (or the row `y`, or the one position
    /// `(x, y)`) that the sensor rules out: all within its distance, but its
    /// own beacon where that is not the nearest to the sensor.
    pub fn find_impossible_beacon_coords_along_axis(&self, x_axis: Option<i64>, y_axis: Option<i64>) -> (r: Vec<Position>)
        requires
            self.sound(),
            self.diamond_fits(),
            x_axis is Some || y_axis is Some,
        ensures
            r@.no_duplicates(),
            r@.len() > 0 <==> self.covers(centre(*self, x_axis, y_axis)),
            r@.len() > 0 ==> r@[0] == centre(*self, x_axis, y_axis),
            forall|k: int| 0 <= k < r@.len() ==> self.covers(#[trigger] r@[k]) && on_axes(r@[k], x_axis, y_axis),
            forall|p: Position|
                #![trigger self.covers(p)]
                self.covers(p) && on_axes(p, x_axis, y_axis) && (p != self.beacon_pos || nearest(
                    *self,
                    p,
                    x_axis,
                    y_axis,
                )) ==> r@.contains(p),
            forall|k: int|
                0 <= k < r@.len() && r@[k] == self.beacon_pos ==> nearest(*self, r@[k], x_axis, y_axis),
    {
        match (x_axis, y_axis) {
            (Some(x), Some(y)) => {
                let fixed_pos = Position { x, y };
                if self.covers_exec(&fixed_pos) {
                    let v = vec![fixed_pos];
                    assert(v@[0] == fixed_pos);
                    v
                } else {
                    Vec::new()
                }
            },
            (Some(x), None) => {
                let start = Position { x, y: self.sensor_pos.y };
                self.walk_out(start, false)
            },
            (None, Some(y)) => {
                let start = Position { x: self.sensor_pos.x, y };
                self.walk_out(start, true)
            },
            (None, None) => {
                proof {
                    assert(false);
                }
                Vec::new()
            },
        }
    }

    /// Whether the sensor rules out a beacon at `p`.
    pub fn covers_exec(&self, p: &Position) -> (r: bool)
        ensures
            r == self.covers(*p),
    {
        let dx: i128 = if p.x >= self.sensor_pos.x {
            p.x as i128 - self.sensor_pos.x as i128
        } else {
            self.sensor_pos.x as i128 - p.x as i128
        };
        let dy: i128 = if p.y >= self.sensor_pos.y {
            p.y as i128 - self.sensor_pos.y as i128
        } else {
            self.sensor_pos.y as i128 - p.y as i128
        };
        dx + dy <= self.beacon_dist as i128
    }

    /// From `start`, the position on the line through it nearest to the
    /// sensor, walks both ways along the row (or the column) while in range:
    /// `start` first, then the two positions one further, and so on, the
    /// beacon left out but where it is `start`.
    fn walk_out(&self, start: Position, along_x: bool) -> (r: Vec<Position>)
        requires
            self.sound(),
            self.diamond_fits(),
            along_x ==> start.x == self.sensor_pos.x,
            !along_x ==> start.y == self.sensor_pos.y,
        ensures
            r@.no_duplicates(),
            r@.len() > 0 <==> self.covers(start),
            r@.len() > 0 ==> r@[0] == start,
            forall|k: int|
                0 <= k < r@.len() ==> self.covers(#[trigger] r@[k]) && on_line(r@[k], start, along_x),
            forall|p: Position|
                #![trigger self.covers(p)]
                self.covers(p) && on_line(p, start, along_x) && (p != self.beacon_pos || p == start)
                    ==> r@.contains(p),
            forall|k: int| 0 <= k < r@.len() && r@[k] == self.beacon_pos ==> r@[k] == start,
    {
        if !self.covers_exec(&start) {
            proof {
                assert forall|p: Position| self.covers(p) && on_line(p, start, along_x) implies false by {
                    assert(dist(self.sensor_pos, p) >= dist(self.sensor_pos, start));
                }
            }
            return Vec::new();
        }
        let d0: u64 = if along_x {
            if start.y >= self.sensor_pos.y {
                (start.y as i128 - self.sensor_pos.y as i128) as u64
            } else {
                (self.sensor_pos.y as i128 - start.y as i128) as u64
            }
        } else {
            if start.x >= self.sensor_pos.x {
                (start.x as i128 - self.sensor_pos.x as i128) as u64
            } else {
                (self.sensor_pos.x as i128 - start.x as i128) as u64
            }
        };
        let mut out: Vec<Position> = vec![start];
        let mut step: i64 = 0;
        let mut d: u64 = d0;
        proof {
            assert(out@[0] == start);
            assert(self.beacon_dist <= i64::MAX);
        }
        while d < self.beacon_dist
            invariant
                self.sound(),
                self.diamond_fits(),
                self.beacon_dist <= i64::MAX,
                along_x ==> start.x == self.sensor_pos.x,
                !along_x ==> start.y == self.sensor_pos.y,
                d == dist(start, self.sensor_pos) + step,
                d <= self.beacon_dist,
                0 <= step,
                out@.len() >= 1,
                out@[0] == start,
                out@.no_duplicates(),
                forall|k: int| 0 <= k < out@.len() ==> offset(#[trigger] out@[k], start) <= step,
                forall|k: int|
                    0 <= k < out@.len() ==> self.covers(#[trigger] out@[k]) && on_line(out@[k], start, along_x),
                forall|k: int| 0 <= k < out@.len() && out@[k] == self.beacon_pos ==> out@[k] == start,
                forall|p: Position|
                    #![trigger self.covers(p)]
                    self.covers(p) && on_line(p, start, along_x) && offset(p, start) <= step && (p
                        != self.beacon_pos || p == start) ==> out@.contains(p),
            decreases self.beacon_dist - d,
        {
            step = step + 1;
            d = d + 1;
            let (plus, minus) = if along_x {
                (Position { x: start.x + step, y: start.y }, Position { x: start.x - step, y: start.y })
            } else {
                (Position { x: start.x, y: start.y + step }, Position { x: start.x, y: start.y - step })
            };
            let ghost before = out@;
            if plus != self.beacon_pos {
                out.push(plus);
            }
            let ghost mid = out@;
            if minus != self.beacon_pos {
                out.push(minus);
            }
            proof {
                assert(mid.len() == before.len() || (mid.len() == before.len() + 1 && mid[before.len() as int] == plus));
                assert(out@.len() == mid.len() || (out@.len() == mid.len() + 1 && out@[mid.len() as int] == minus));
                assert forall|k: int| 0 <= k < before.len() implies out@[k] == before[k] by {
                    assert(mid[k] == before[k]);
                }
                assert forall|k: int| 0 <= k < mid.len() implies out@[k] == mid[k] by {}
                assert(offset(plus, start) == step && offset(minus, start) == step && plus != minus);
                assert forall|a: int, b: int| 0 <= a < out@.len() && 0 <= b < out@.len() && a != b implies out@[a] != out@[b] by {
                    if a < before.len() && b < before.len() {
                        assert(before[a] != before[b]);
                    } else if a < before.len() {
                        assert(offset(out@[a], start) < step);
                        assert(offset(out@[b], start) == step);
                    } else if b < before.len() {
                        assert(offset(out@[b], start) < step);
                        assert(offset(out@[a], start) == step);
                    }
                }
                assert forall|k: int| 0 <= k < out@.len() implies offset(#[trigger] out@[k], start) <= step by {
                    if k < before.len() {
                        assert(out@[k] == before[k]);
                    }
                }
                assert forall|p: Position|
                    #![trigger self.covers(p)]
                    self.covers(p) && on_line(p, start, along_x) && offset(p, start) <= step && (p
                        != self.beacon_pos || p == start) implies out@.contains(p) by {
                    if offset(p, start) < step {
                        let k = choose|k: int| 0 <= k < before.len() && before[k] == p;
                        assert(out@[k] == p);
                    } else {
                        if along_x {
                            assert(p.x == start.x + step || p.x == start.x - step);
                        } else {
                            assert(p.y == start.y + step || p.y == start.y - step);
                        }
                        if p == plus {
                            assert(out@[before.len() as int] == p);
                        } else {
                            assert(p == minus);
                            assert(out@[mid.len() as int] == p);
                        }
                    }
                }
            }
        }
        proof {
            assert forall|p: Position|
                #![trigger self.covers(p)]
                self.covers(p) && on_line(p, start, along_x) && (p != self.beacon_pos || p == start)
                    implies out@.contains(p) by {
                assert(dist(self.sensor_pos, p) == dist(start, self.sensor_pos) + offset(p, start));
            }
        }
        out
    }

    /// The four lines just outside the sensor's diamond.
    pub fn find_peripheries(&self) -> (r: Vec<LinearEquation>)
        requires
            self.wf(),
        ensures
            r@.len() == 4,
            forall|k: int| 0 <= k < 4 ==> line_ok(#[trigger] r@[k]),
            forall|k: int| 0 <= k < 4 ==> #[trigger] r@[k] == periphery(*self, k),
            r@[0].slope == -1 && r@[1].slope == 1 && r@[2].slope == -1 && r@[3].slope == 1,
            forall|k: int| 0 <= k < 4 ==> bounded((#[trigger] r@[k]).pass_through, 8),
            r@[0].pass_through == (Position { x: self.sensor_pos.x, y: (self.sensor_pos.y + self.beacon_dist + 1) as i64 }),
            r@[1].pass_through == (Position { x: (self.sensor_pos.x + self.beacon_dist + 1) as i64, y: self.sensor_pos.y }),
            r@[2].pass_through == (Position { x: self.sensor_pos.x, y: (self.sensor_pos.y - self.beacon_dist - 1) as i64 }),
            r@[3].pass_through == (Position { x: (self.sensor_pos.x - self.beacon_dist - 1) as i64, y: self.sensor_pos.y }),
    {
        let dist: i64 = (self.beacon_dist + 1) as i64;
        let top = Position { x: self.sensor_pos.x, y: self.sensor_pos.y + dist };
        let bottom = Position { x: self.sensor_pos.x, y: self.sensor_pos.y - dist };
        let left = Position { x: self.sensor_pos.x - dist, y: self.sensor_pos.y };
        let right = Position { x: self.sensor_pos.x + dist, y: self.sensor_pos.y };
        proof {
            lemma_div_self(dist as int);
            assert(self.beacon_dist <= 4 * COORD_LIMIT);
        }
        let v = vec![
            LinearEquation::from(&top, &right),
            LinearEquation::from(&right, &bottom),
            LinearEquation::from(&bottom, &left),
            LinearEquation::from(&left, &top),
        ];
        v
    }
}

pub proof fn lemma_trunc_div_bound(a: int, b: int)
    requires
        -COORD_LIMIT * 32 <= a <= COORD_LIMIT * 32,
        b != 0,
    ensures
        -COORD_LIMIT * 32 <= trunc_div(a, b) <= COORD_LIMIT * 32,
{
    assert(abs(a) / abs(b) <= abs(a)) by (nonlinear_arith)
        requires
            abs(b) >= 1,
            abs(a) >= 0,
    ;
    assert(abs(a) / abs(b) >= 0) by (nonlinear_arith)
        requires
            abs(b) >= 1,
            abs(a) >= 0,
    ;
}

/// Lines of unit slopes through bounded points meet without leaving `i64`.
pub proof fn lemma_fits_from_line_ok(a: LinearEquation, b: LinearEquation)
    requires
        line_ok(a),
        line_ok(b),
    ensures
        intersection_fits(a, b),
{
    if a.slope != b.slope {
        lemma_mul_unit(a.slope as int, a.pass_through.x as int);
        lemma_mul_unit(b.slope as int, b.pass_through.x as int);
        lemma_trunc_div_bound(cross_numerator(a, b), a.slope - b.slope);
        let x = trunc_div(cross_numerator(a, b), a.slope - b.slope);
        lemma_mul_unit(a.slope as int, x - a.pass_through.x);
    }
}

pub proof fn lemma_mul_unit(s: int, v: int)
    requires
        -1 <= s <= 1,
    ensures
        s * v == (if s == 1 {
            v
        } else if s == -1 {
            -v
        } else {
            0
        }),
        v * s == s * v,
{
    if s == 1 {
    } else if s == -1 {
    } else {
        assert(s == 0);
    }
}

pub proof fn lemma_div_self(d: int)
    requires
        d > 0,
    ensures
        trunc_div(d, d) == 1,
        trunc_div(-d, d) == -1,
        trunc_div(d, -d) == -1,
        trunc_div(-d, -d) == 1,
{
    assert(d / d == 1) by (nonlinear_arith)
        requires
            d > 0,
    ;
}

/// The position of the line (or the point) nearest to the sensor.
pub open spec fn centre(s: Sensor, x_axis: Option<i64>, y_axis: Option<i64>) -> Position {
    match (x_axis, y_axis) {
        (Some(x), Some(y)) => Position { x, y },
        (Some(x), None) => Position { x, y: s.sensor_pos.y },
        (None, Some(y)) => Position { x: s.sensor_pos.x, y },
        (None, None) => s.sensor_pos,
    }
}

pub open spec fn on_axes(p: Position, x_axis: Option<i64>, y_axis: Option<i64>) -> bool {
    (x_axis matches Some(x) ==> p.x == x) && (y_axis matches Some(y) ==> p.y == y)
}

/// Whether `p` is the position of the line (or the point) nearest to the sensor.
pub open spec fn nearest(s: Sensor, p: Position, x_axis: Option<i64>, y_axis: Option<i64>) -> bool {
    match (x_axis, y_axis) {
        (Some(_), None) => p.y == s.sensor_pos.y,
        (None, Some(_)) => p.x == s.sensor_pos.x,
        _ => true,
    }
}

pub open spec fn on_line(p: Position, start: Position, along_x: bool) -> bool {
    if along_x {
        p.y == start.y
    } else {
        p.x == start.x
    }
}

pub open spec fn offset(p: Position, start: Position) -> int {
    abs(p.x - start.x) + abs(p.y - start.y)
}

/// Some sensor rules out a beacon at `p`.
pub open spec fn covered(ss: Seq<Sensor>, p: Position) -> bool {
    exists|k: int| 0 <= k < ss.len() && (#[trigger] ss[k]).covers(p)
}

/// Some sensor's closest beacon is at `p`.
pub open spec fn is_beacon(ss: Seq<Sensor>, p: Position) -> bool {
    exists|k: int| 0 <= k < ss.len() && (#[trigger] ss[k]).beacon_pos == p
}

/// A position where no beacon can be: ruled out, and no known beacon there.
pub open spec fn excluded(ss: Seq<Sensor>, p: Position) -> bool {
    covered(ss, p) && !is_beacon(ss, p)
}

/// The number of `x` in `a..b` with `(x, y)` excluded.
pub open spec fn count_row(ss: Seq<Sensor>, y: int, a: int, b: int) -> int
    decreases b - a,
{
    if b <= a {
        0
    } else {
        count_row(ss, y, a, b - 1) + if excluded(ss, Position { x: (b - 1) as i64, y: y as i64 }) {
            1int
        } else {
            0
        }
    }
}

/// Every line describes a sensor.
pub open spec fn report_ok(s: Seq<u8>) -> bool {
    &&& lines(s).len() <= 1_000_000
    &&& forall|k: int| 0 <= k < lines(s).len() ==> sensor_line_ok(#[trigger] lines(s)[k])
    &&& forall|k: int| 0 <= k < lines(s).len() ==> in_limit(#[trigger] sensor_of(lines(s)[k]).sensor_pos) && in_limit(sensor_of(lines(s)[k]).beacon_pos)
}

pub open spec fn sensors_of(s: Seq<u8>) -> Seq<Sensor> {
    lines(s).map_values(|l: Seq<u8>| sensor_of(l))
}

/// The four lines just outside the diamond of `s`: through its top, right,
/// bottom and left corners, pushed out by one.
pub open spec fn periphery(s: Sensor, k: int) -> LinearEquation {
    let d = s.beacon_dist + 1;
    if k == 0 {
        LinearEquation { slope: -1i64, pass_through: Position { x: s.sensor_pos.x, y: (s.sensor_pos.y + d) as i64 } }
    } else if k == 1 {
        LinearEquation { slope: 1i64, pass_through: Position { x: (s.sensor_pos.x + d) as i64, y: s.sensor_pos.y } }
    } else if k == 2 {
        LinearEquation { slope: -1i64, pass_through: Position { x: s.sensor_pos.x, y: (s.sensor_pos.y - d) as i64 } }
    } else {
        LinearEquation { slope: 1i64, pass_through: Position { x: (s.sensor_pos.x - d) as i64, y: s.sensor_pos.y } }
    }
}

pub open spec fn in_square(p: Position, bound: int) -> bool {
    0 <= p.x < bound && 0 <= p.y < bound
}

/// The crossing of two lines, if any, is outside the square or ruled out.
pub open spec fn cleared(ss: Seq<Sensor>, a: LinearEquation, b: LinearEquation, bound: int) -> bool {
    match intersection_spec(a, b) {
        Some(p) => !in_square(p, bound) || covered(ss, p),
        None => true,
    }
}

/// The sensors described in `input`, one per line.
pub fn parse_sensors(input: &[u8]) -> (r: Vec<Sensor>)
    requires
        report_ok(input@),
    ensures
        r@ == sensors_of(input@),
        forall|k: int| 0 <= k < r@.len() ==> (#[trigger] r@[k]).wf(),
{
    let ghost ls = lines(input@);
    let spans = line_spans(input);
    let mut out: Vec<Sensor> = Vec::new();
    let mut i: usize = 0;
    while i < spans.len()
        invariant
            ls == lines(input@),
            report_ok(input@),
            spans_of(input@, spans@, ls),
            0 <= i <= spans@.len(),
            out@ == ls.subrange(0, i as int).map_values(|l: Seq<u8>| sensor_of(l)),
            forall|k: int| 0 <= k < out@.len() ==> (#[trigger] out@[k]).wf(),
        decreases spans@.len() - i,
    {
        let (lo, hi) = spans[i];
        proof {
            assert(span(input@, lo, hi) == ls[i as int]);
        }
        let sensor = Sensor::from_span(input, lo, hi);
        proof {
            assert(in_limit(sensor_of(ls[i as int]).sensor_pos) && in_limit(sensor_of(ls[i as int]).beacon_pos));
        }
        out.push(sensor);
        proof {
            assert(ls.subrange(0, i + 1) =~= ls.subrange(0, i as int).push(ls[i as int]));
            assert(out@ =~= ls.subrange(0, i + 1).map_values(|l: Seq<u8>| sensor_of(l)));
        }
        i = i + 1;
    }
    proof {
        assert(ls.subrange(0, i as int) =~= ls);
    }
    out
}

/// Whether some sensor rules out a beacon at `p`, and whether a known beacon is there.
fn examine(sensors: &Vec<Sensor>, p: Position) -> (r: (bool, bool))
    requires
        bounded(p, 16),
        forall|k: int| 0 <= k < sensors@.len() ==> (#[trigger] sensors@[k]).wf(),
    ensures
        r.0 == covered(sensors@, p),
        r.1 == is_beacon(sensors@, p),
{
    let mut cov = false;
    let mut bea = false;
    let mut k: usize = 0;
    while k < sensors.len()
        invariant
            bounded(p, 16),
            forall|j: int| 0 <= j < sensors@.len() ==> (#[trigger] sensors@[j]).wf(),
            0 <= k <= sensors@.len(),
            cov == exists|j: int| 0 <= j < k && (#[trigger] sensors@[j]).covers(p),
            bea == exists|j: int| 0 <= j < k && (#[trigger] sensors@[j]).beacon_pos == p,
        decreases sensors@.len() - k,
    {
        let s = sensors[k];
        if s.sensor_pos.manhattan_dist(&p) <= s.beacon_dist {
            cov = true;
        }
        if s.beacon_pos == p {
            bea = true;
        }
        k = k + 1;
    }
    (cov, bea)
}

pub struct Day15;

impl Day15 {
    /// Whether every line of `input` describes a sensor, as the answers need.
    pub fn check_report(input: &str) -> (r: bool)
        ensures
            r == report_ok(input.spec_bytes()),
    {
        let s = input.as_bytes();
        let ghost ls = lines(s@);
        let spans = line_spans(s);
        if spans.len() > 1_000_000 {
            return false;
        }
        let mut i: usize = 0;
        while i < spans.len()
            invariant
                ls == lines(s@),
                s@ == input.spec_bytes(),
                spans_of(s@, spans@, ls),
                ls.len() <= 1_000_000,
                0 <= i <= ls.len(),
                forall|k: int| 0 <= k < i ==> sensor_line_ok(#[trigger] ls[k]) && in_limit(sensor_of(ls[k]).sensor_pos) && in_limit(sensor_of(ls[k]).beacon_pos),
            decreases ls.len() - i,
        {
            let (lo, hi) = spans[i];
            proof {
                assert(span(s@, lo, hi) == ls[i as int]);
            }
            if !check_line(s, lo, hi) {
                return false;
            }
            i = i + 1;
        }
        true
    }

    /// The number of positions on row `row` where no beacon can be.
    pub fn excluded_on_row(input: &str, row: i64) -> (r: Result<i64, ()>)
        requires
            report_ok(input.spec_bytes()),
        ensures
            r matches Ok(n) && exists|lo: int, hi: int|
                (forall|x: i64| #![trigger excluded(sensors_of(input.spec_bytes()), Position { x, y: row })]
                    excluded(sensors_of(input.spec_bytes()), Position { x, y: row }) ==> lo <= x < hi)
                    && n == count_row(sensors_of(input.spec_bytes()), row as int, lo, hi),
    {
        let sensors = parse_sensors(input.as_bytes());
        let ghost ss = sensors@;
        if row < -8 * COORD_LIMIT || row > 8 * COORD_LIMIT {
            // no sensor reaches a row this far out
            proof {
                assert forall|x: i64| #![trigger excluded(ss, Position { x, y: row })]
                    excluded(ss, Position { x, y: row }) implies 0 <= x < 0 by {
                    let j = choose|j: int| 0 <= j < ss.len() && (#[trigger] ss[j]).covers(Position { x, y: row });
                    assert(ss[j].wf());
                }
                assert(count_row(ss, row as int, 0, 0) == 0);
            }
            return Ok(0);
        }
        // the columns that some sensor reaches on the row
        let mut lo: i64 = 0;
        let mut hi: i64 = 0;
        let mut k: usize = 0;
        while k < sensors.len()
            invariant
                ss == sensors@,
                forall|j: int| 0 <= j < ss.len() ==> (#[trigger] ss[j]).wf(),
                0 <= k <= ss.len(),
                -6 * COORD_LIMIT <= lo <= 0 <= hi <= 6 * COORD_LIMIT,
                forall|j: int, x: int|
                    0 <= j < k && #[trigger] ss[j].covers(Position { x: x as i64, y: row }) && -16
                        * COORD_LIMIT <= x <= 16 * COORD_LIMIT ==> lo <= x < hi,
            decreases ss.len() - k,
        {
            let s = sensors[k];
            let r = s.beacon_dist as i64;
            if s.sensor_pos.x - r < lo {
                lo = s.sensor_pos.x - r;
            }
            if s.sensor_pos.x + r + 1 > hi {
                hi = s.sensor_pos.x + r + 1;
            }
            k = k + 1;
        }
        let mut count: i64 = 0;
        let mut x: i64 = lo;
        proof {
            assert(count_row(ss, row as int, lo as int, lo as int) == 0);
        }
        while x < hi
            invariant
                ss == sensors@,
                forall|j: int| 0 <= j < ss.len() ==> (#[trigger] ss[j]).wf(),
                -6 * COORD_LIMIT <= lo <= x <= hi <= 6 * COORD_LIMIT,
                -8 * COORD_LIMIT <= row <= 8 * COORD_LIMIT,
                count == count_row(ss, row as int, lo as int, x as int),
                0 <= count <= x - lo,
            decreases hi - x,
        {
            let (cov, bea) = examine(&sensors, Position { x, y: row });
            if cov && !bea {
                count = count + 1;
            }
            x = x + 1;
        }
        proof {
            assert forall|x: i64| #![trigger excluded(ss, Position { x, y: row })]
                excluded(ss, Position { x, y: row }) implies lo <= x < hi by {
                let j = choose|j: int| 0 <= j < ss.len() && (#[trigger] ss[j]).covers(Position { x, y: row });
                assert(ss[j].wf());
                assert(ss[j].covers(Position { x: x as int as i64, y: row }));
            }
        }
        Ok(count)
    }

    /// The tuning frequency `x * 4000000 + y` of a position in the square
    /// `0..bound` that no sensor reaches, found among the crossings of the
    /// lines just outside the sensors' diamonds; an error where none is.
    pub fn distress_frequency(input: &str, bound: i64) -> (r: Result<i64, ()>)
        requires
            report_ok(input.spec_bytes()),
            0 < bound <= 4_000_000,
        ensures
            r matches Ok(v) ==> exists|p: Position|
                in_square(p, bound as int) && !covered(sensors_of(input.spec_bytes()), p) && v == p.x
                    * 4_000_000 + p.y,
            r is Err ==> forall|i: int, a: int, j: int, b: int|
                0 <= i < sensors_of(input.spec_bytes()).len() && 0 <= j < sensors_of(
                    input.spec_bytes(),
                ).len() && 0 <= a < 4 && 0 <= b < 4 ==> #[trigger] cleared(
                    sensors_of(input.spec_bytes()),
                    periphery(sensors_of(input.spec_bytes())[i], a),
                    periphery(sensors_of(input.spec_bytes())[j], b),
                    bound as int,
                ),
    {
        let sensors = parse_sensors(input.as_bytes());
        let ghost ss = sensors@;
        let mut i: usize = 0;
        while i < sensors.len()
            invariant
                ss == sensors@,
                ss == sensors_of(input.spec_bytes()),
                forall|k: int| 0 <= k < ss.len() ==> (#[trigger] ss[k]).wf(),
                0 < bound <= 4_000_000,
                0 <= i <= ss.len(),
                forall|i2: int, a: int, j: int, b: int|
                    0 <= i2 < i && 0 <= j < ss.len() && 0 <= a < 4 && 0 <= b < 4 ==> #[trigger] cleared(ss, periphery(ss[i2], a), periphery(ss[j], b), bound as int),
            decreases ss.len() - i,
        {
            let e1 = sensors[i].find_peripheries();
            let mut j: usize = 0;
            while j < sensors.len()
                invariant
                    ss == sensors@,
                    ss == sensors_of(input.spec_bytes()),
                    forall|k: int| 0 <= k < ss.len() ==> (#[trigger] ss[k]).wf(),
                    0 < bound <= 4_000_000,
                    0 <= i < ss.len(),
                    0 <= j <= ss.len(),
                    e1@.len() == 4,
                    forall|a: int| 0 <= a < 4 ==> #[trigger] e1@[a] == periphery(ss[i as int], a),
                    forall|a: int| 0 <= a < 4 ==> line_ok(#[trigger] e1@[a]),
                    forall|i2: int, a: int, j2: int, b: int|
                        (0 <= i2 < i && 0 <= j2 < ss.len() || i2 == i && 0 <= j2 < j) && 0 <= a < 4 && 0
                            <= b < 4 ==> #[trigger] cleared(ss, periphery(ss[i2], a), periphery(ss[j2], b), bound as int),
                decreases ss.len() - j,
            {
                let e2 = sensors[j].find_peripheries();
                let mut a: usize = 0;
                while a < 4
                    invariant
                        ss == sensors@,
                        ss == sensors_of(input.spec_bytes()),
                        forall|k: int| 0 <= k < ss.len() ==> (#[trigger] ss[k]).wf(),
                        0 < bound <= 4_000_000,
                        0 <= i < ss.len(),
                        0 <= j < ss.len(),
                        0 <= a <= 4,
                        e1@.len() == 4,
                        e2@.len() == 4,
                        forall|c: int| 0 <= c < 4 ==> #[trigger] e1@[c] == periphery(ss[i as int], c),
                        forall|c: int| 0 <= c < 4 ==> #[trigger] e2@[c] == periphery(ss[j as int], c),
                        forall|c: int| 0 <= c < 4 ==> line_ok(#[trigger] e1@[c]),
                        forall|c: int| 0 <= c < 4 ==> line_ok(#[trigger] e2@[c]),
                        forall|c: int, b: int|
                            0 <= c < a && 0 <= b < 4 ==> #[trigger] cleared(ss, periphery(ss[i as int], c), periphery(ss[j as int], b), bound as int),
                    decreases 4 - a,
                {
                    let mut b: usize = 0;
                    while b < 4
                        invariant
                            ss == sensors@,
                            ss == sensors_of(input.spec_bytes()),
                            forall|k: int| 0 <= k < ss.len() ==> (#[trigger] ss[k]).wf(),
                            0 < bound <= 4_000_000,
                            0 <= i < ss.len(),
                            0 <= j < ss.len(),
                            0 <= a < 4,
                            0 <= b <= 4,
                            e1@.len() == 4,
                            e2@.len() == 4,
                            forall|c: int| 0 <= c < 4 ==> #[trigger] e1@[c] == periphery(ss[i as int], c),
                            forall|c: int| 0 <= c < 4 ==> #[trigger] e2@[c] == periphery(ss[j as int], c),
                            forall|c: int| 0 <= c < 4 ==> line_ok(#[trigger] e1@[c]),
                            forall|c: int| 0 <= c < 4 ==> line_ok(#[trigger] e2@[c]),
                            forall|c: int, d: int|
                                (0 <= c < a && 0 <= d < 4 || c == a && 0 <= d < b) ==> #[trigger] cleared(ss, periphery(ss[i as int], c), periphery(ss[j as int], d), bound as int),
                        decreases 4 - b,
                    {
                        proof {
                            lemma_fits_from_line_ok(e1@[a as int], e2@[b as int]);
                        }
                        if let Some(p) = e1[a].intersection(&e2[b]) {
                            if 0 <= p.x && p.x < bound && 0 <= p.y && p.y < bound {
                                let (cov, _) = examine(&sensors, p);
                                if !cov {
                                    assert(in_square(p, bound as int) && !covered(ss, p));
                                    return Ok(p.x * 4_000_000 + p.y);
                                }
                            }
                        }
                        b = b + 1;
                    }
                    a = a + 1;
                }
                j = j + 1;
            }
            i = i + 1;
        }
        Err(())
    }
}

impl AOCSolutions for Day15 {
    open spec fn accepts_1(input: Seq<u8>) -> bool {
        report_ok(input)
    }

    open spec fn accepts_2(input: Seq<u8>) -> bool {
        report_ok(input)
    }

    open spec fn star_1(input: Seq<u8>, r: Result<i64, ()>) -> bool {
        r matches Ok(n) && exists|lo: int, hi: int|
            (forall|x: i64| #![trigger excluded(sensors_of(input), Position { x, y: 2_000_000 })]
                excluded(sensors_of(input), Position { x, y: 2_000_000 }) ==> lo <= x < hi) && n
                == count_row(sensors_of(input), 2_000_000, lo, hi)
    }

    open spec fn star_2(input: Seq<u8>, r: Result<i64, ()>) -> bool {
        &&& r matches Ok(v) ==> exists|p: Position|
            in_square(p, 4_000_000) && !covered(sensors_of(input), p) && v == p.x * 4_000_000 + p.y
        &&& r is Err ==> forall|i: int, a: int, j: int, b: int|
            0 <= i < sensors_of(input).len() && 0 <= j < sensors_of(input).len() && 0 <= a < 4 && 0 <= b < 4
                ==> #[trigger] cleared(sensors_of(input), periphery(sensors_of(input)[i], a), periphery(sensors_of(input)[j], b), 4_000_000)
    }

    /// The number of positions on row 2000000 where no beacon can be.
    fn get_star_1(input: &str) -> (r: Result<i64, ()>) {
        Day15::excluded_on_row(input, 2_000_000)
    }

    /// The tuning frequency of the distress beacon in the square `0..4000000`.
    fn get_star_2(input: &str) -> (r: Result<i64, ()>) {
        Day15::distress_frequency(input, 4_000_000)
    }
}

} // verus!

//! Rope bridge: a rope's knots follow its head; count where the tail has been.
use vstd::prelude::*;
use vstd::string::StringSliceAdditionalSpecFns;
use crate::AOCSolutions;
use crate::text::{lines, trim, split, span, spans_of, is_nat_text, int_value, line_spans, split_spans,
    parse_nat};

verus! {

pub type Position = (i64, i64);

/// The limit on the number of steps that a list of moves may take in all.
pub const STEP_LIMIT: u64 = 0x2000_0000_0000_0000;

#[derive(PartialEq, Eq, Structural, Clone, Copy)]
pub enum MoveVariant {
    XAdd,
    XSub,
    YAdd,
    YSub,
}

pub open spec fn moved(p: Position, v: MoveVariant) -> Position {
    match v {
        MoveVariant::XAdd => ((p.0 + 1) as i64, p.1),
        MoveVariant::XSub => ((p.0 - 1) as i64, p.1),
        MoveVariant::YAdd => (p.0, (p.1 + 1) as i64),
        MoveVariant::YSub => (p.0, (p.1 - 1) as i64),
    }
}

/// Two knots touch: they overlap or are adjacent, diagonals included.
pub open spec fn touching(a: Position, b: Position) -> bool {
    -1 <= a.0 - b.0 <= 1 && -1 <= a.1 - b.1 <= 1
}

pub open spec fn sign(v: int) -> int {
    if v > 0 {
        1
    } else if v < 0 {
        -1
    } else {
        0
    }
}

/// Where `tail` goes after its leader moved to `head`: nowhere while they
/// touch, else one step toward it along each axis where they differ.
pub open spec fn follow(head: Position, tail: Position) -> Position {
    if touching(head, tail) {
        tail
    } else {
        ((tail.0 + sign(head.0 - tail.0)) as i64, (tail.1 + sign(head.1 - tail.1)) as i64)
    }
}

/// The first `i` knots after the head moved by `v` and each knot followed the one before.
pub open spec fn chain(old: Seq<Position>, v: MoveVariant, i: int) -> Seq<Position>
    decreases i,
{
    if i <= 0 {
        seq![]
    } else if i == 1 {
        seq![moved(old[0], v)]
    } else {
        let prev = chain(old, v, i - 1);
        prev.push(follow(prev.last(), old[i - 1]))
    }
}

pub open spec fn in_box(p: Position, t: int) -> bool {
    -t <= p.0 <= t && -t <= p.1 <= t
}

/// A rope configuration that moves its head one step at a time.
pub trait RopeConfig {
    /// The knots, head first.
    spec fn knots(&self) -> Seq<Position>;

    /// Every knot touches the next one.
    spec fn valid(&self) -> bool;

    /// Every knot within `t` of the origin along each axis.
    spec fn within(&self, t: int) -> bool;

    /// The knots after one step of the head along `v`.
    spec fn stepped(&self, v: MoveVariant) -> Seq<Position>;

    fn is_valid_configuration(&self) -> (r: bool)
        requires
            self.within(STEP_LIMIT as int),
        ensures
            r == self.valid(),
    ;

    /// The last knot.
    fn tail_pos(&self) -> (r: Position)
        requires
            self.valid(),
        ensures
            r == self.knots().last(),
    ;

    /// Moves the head one step along `incr_variant` and lets the knots follow.
    fn increment_in_dir(&mut self, incr_variant: MoveVariant)
        requires
            old(self).valid(),
            exists|t: int| 0 <= t < STEP_LIMIT && #[trigger] old(self).within(t),
        ensures
            final(self).knots() == old(self).stepped(incr_variant),
            final(self).valid(),
            forall|t: int| 0 <= t < STEP_LIMIT && #[trigger] old(self).within(t) ==> final(self).within(t + 1),
    ;
}

/// A rope of two knots.
#[derive(Clone, Copy)]
pub struct BasicRopeConfig {
    pub head_pos: Position,
    pub tail_pos: Position,
}

impl BasicRopeConfig {
    pub fn new(head_pos: Position, tail_pos: Position) -> (r: BasicRopeConfig)
        ensures
            r.head_pos == head_pos,
            r.tail_pos == tail_pos,
    {
        BasicRopeConfig { head_pos, tail_pos }
    }
}

fn touching_exec(a: Position, b: Position) -> (r: bool)
    requires
        in_box(a, STEP_LIMIT as int + 1),
        in_box(b, STEP_LIMIT as int + 1),
    ensures
        r == touching(a, b),
{
    -1 <= a.0 - b.0 && a.0 - b.0 <= 1 && -1 <= a.1 - b.1 && a.1 - b.1 <= 1
}

fn move_exec(p: Position, v: MoveVariant) -> (r: Position)
    requires
        in_box(p, STEP_LIMIT as int),
    ensures
        r == moved(p, v),
{
    match v {
        MoveVariant::XAdd => (p.0 + 1, p.1),
        MoveVariant::XSub => (p.0 - 1, p.1),
        MoveVariant::YAdd => (p.0, p.1 + 1),
        MoveVariant::YSub => (p.0, p.1 - 1),
    }
}

impl RopeConfig for BasicRopeConfig {
    open spec fn knots(&self) -> Seq<Position> {
        seq![self.head_pos, self.tail_pos]
    }

    open spec fn valid(&self) -> bool {
        touching(self.head_pos, self.tail_pos)
    }

    open spec fn within(&self, t: int) -> bool {
        in_box(self.head_pos, t) && in_box(self.tail_pos, t)
    }

    /// The tail takes the head's old place once they no longer touch.
    open spec fn stepped(&self, v: MoveVariant) -> Seq<Position> {
        basic_step(self.knots(), v)
    }

    fn is_valid_configuration(&self) -> (r: bool) {
        touching_exec(self.head_pos, self.tail_pos)
    }

    fn tail_pos(&self) -> (r: Position) {
        self.tail_pos
    }

    fn increment_in_dir(&mut self, incr_variant: MoveVariant) {
        let old_head_pos = self.head_pos;
        let ghost t = choose|t: int| 0 <= t < STEP_LIMIT && #[trigger] old(self).within(t);
        self.head_pos = move_exec(self.head_pos, incr_variant);
        if !touching_exec(self.head_pos, self.tail_pos) {
            self.tail_pos = old_head_pos;
        }
        assert(self.knots() =~= basic_step(old(self).knots(), incr_variant));
    }
}

/// A rope of any number of knots, head first.
pub struct AdvancedRopeConfig {
    pub ctrl_nodes: Vec<Position>,
}

pub open spec fn all_touching(k: Seq<Position>) -> bool {
    forall|i: int| 1 <= i < k.len() ==> touching(#[trigger] k[i - 1], k[i])
}

pub open spec fn all_in_box(k: Seq<Position>, t: int) -> bool {
    forall|i: int| 0 <= i < k.len() ==> in_box(#[trigger] k[i], t)
}

impl AdvancedRopeConfig {
    /// A rope of `resolution` knots, all at `init_position`.
    pub fn new(resolution: usize, init_position: Position) -> (r: AdvancedRopeConfig)
        ensures
            r.ctrl_nodes@ == Seq::new(resolution as nat, |i: int| init_position),
    {
        let mut ctrl_nodes: Vec<Position> = Vec::with_capacity(resolution);
        let mut i: usize = 0;
        while i < resolution
            invariant
                0 <= i <= resolution,
                ctrl_nodes@ == Seq::new(i as nat, |j: int| init_position),
            decreases resolution - i,
        {
            ctrl_nodes.push(init_position);
            proof {
                assert(ctrl_nodes@ =~= Seq::new((i + 1) as nat, |j: int| init_position));
            }
            i = i + 1;
        }
        AdvancedRopeConfig { ctrl_nodes }
    }

    /// Whether two knots touch.
    pub fn is_valid_segment(head: &Position, tail: &Position) -> (r: bool)
        requires
            in_box(*head, STEP_LIMIT as int + 1),
            in_box(*tail, STEP_LIMIT as int + 1),
        ensures
            r == touching(*head, *tail),
    {
        touching_exec(*head, *tail)
    }
}

/// After a break at `i` (knot `i` did not move), the rest of the chain is the old rope.
pub proof fn lemma_chain_rest(old: Seq<Position>, v: MoveVariant, i: int, k: int)
    requires
        1 <= i <= k <= old.len(),
        all_touching(old),
        chain(old, v, i).last() == old[i - 1],
    ensures
        chain(old, v, k) == chain(old, v, i) + old.subrange(i, k),
    decreases k - i,
{
    if k == i {
        assert(old.subrange(i, k) =~= Seq::<Position>::empty());
        assert(chain(old, v, i) + old.subrange(i, k) =~= chain(old, v, i));
    } else {
        lemma_chain_rest(old, v, i, k - 1);
        lemma_chain_len(old, v, k - 1);
        let prev = chain(old, v, k - 1);
        assert(prev.last() == old[k - 2]) by {
            if k - 1 == i {
            } else {
                assert(prev[prev.len() - 1] == old.subrange(i, k - 1)[k - 2 - i]);
            }
        }
        assert(touching(old[k - 2], old[k - 1]));
        assert(chain(old, v, k) =~= chain(old, v, i) + old.subrange(i, k));
    }
}

pub proof fn lemma_chain_len(old: Seq<Position>, v: MoveVariant, i: int)
    requires
        0 <= i,
    ensures
        chain(old, v, i).len() == i,
    decreases i,
{
    if i > 1 {
        lemma_chain_len(old, v, i - 1);
    }
}

impl RopeConfig for AdvancedRopeConfig {
    open spec fn knots(&self) -> Seq<Position> {
        self.ctrl_nodes@
    }

    open spec fn valid(&self) -> bool {
        self.ctrl_nodes@.len() >= 1 && all_touching(self.ctrl_nodes@)
    }

    open spec fn within(&self, t: int) -> bool {
        all_in_box(self.ctrl_nodes@, t)
    }

    /// Each knot follows the one before it, from the head down.
    open spec fn stepped(&self, v: MoveVariant) -> Seq<Position> {
        chain(self.ctrl_nodes@, v, self.ctrl_nodes@.len() as int)
    }

    fn is_valid_configuration(&self) -> (r: bool) {
        if self.ctrl_nodes.len() == 0 {
            return false;
        }
        let mut i: usize = 1;
        while i < self.ctrl_nodes.len()
            invariant
                1 <= i <= self.ctrl_nodes@.len(),
                all_in_box(self.ctrl_nodes@, STEP_LIMIT as int),
                forall|j: int| 1 <= j < i ==> touching(#[trigger] self.ctrl_nodes@[j - 1], self.ctrl_nodes@[j]),
            decreases self.ctrl_nodes@.len() - i,
        {
            if !AdvancedRopeConfig::is_valid_segment(&self.ctrl_nodes[i - 1], &self.ctrl_nodes[i]) {
                return false;
            }
            i = i + 1;
        }
        true
    }

    fn tail_pos(&self) -> (r: Position) {
        self.ctrl_nodes[self.ctrl_nodes.len() - 1]
    }

    fn increment_in_dir(&mut self, incr_variant: MoveVariant) {
        let ghost old_k = self.ctrl_nodes@;
        let ghost t = choose|t: int| 0 <= t < STEP_LIMIT && #[trigger] old(self).within(t);
        let n = self.ctrl_nodes.len();
        let h = move_exec(self.ctrl_nodes[0], incr_variant);
        self.ctrl_nodes.set(0, h);
        proof {
            assert(self.ctrl_nodes@.subrange(0, 1) =~= chain(old_k, incr_variant, 1));
            assert(self.ctrl_nodes@.subrange(1, n as int) =~= old_k.subrange(1, n as int));
        }
        let mut settled = false;
        let mut i: usize = 1;
        while i < n && !settled
            invariant
                n == old_k.len() == self.ctrl_nodes@.len(),
                n >= 1,
                all_touching(old_k),
                all_in_box(old_k, t),
                0 <= t < STEP_LIMIT,
                1 <= i <= n,
                settled ==> self.ctrl_nodes@ == chain(old_k, incr_variant, n as int) && i == n,
                !settled ==> self.ctrl_nodes@.subrange(0, i as int) == chain(old_k, incr_variant, i as int),
                !settled ==> self.ctrl_nodes@.subrange(i as int, n as int) == old_k.subrange(i as int, n as int),
                all_in_box(chain(old_k, incr_variant, i as int), t + 1),
                forall|j: int| 0 <= j < i ==> king_step(#[trigger] chain(old_k, incr_variant, i as int)[j], old_k[j]),
                all_touching(chain(old_k, incr_variant, i as int)),
            decreases n - i,
        {
            let ghost c = chain(old_k, incr_variant, i as int);
            proof {
                lemma_chain_len(old_k, incr_variant, i as int);
                lemma_chain_len(old_k, incr_variant, i + 1);
                assert(self.ctrl_nodes@[i - 1] == c[i - 1]);
                assert(self.ctrl_nodes@.subrange(i as int, n as int)[0] == old_k.subrange(i as int, n as int)[0]);
                assert(self.ctrl_nodes@.subrange(0, i as int)[i - 1] == c[i - 1]);
                assert(self.ctrl_nodes@[i as int] == old_k[i as int]);
                assert(touching(old_k[i - 1], old_k[i as int]));
            }
            let lead = self.ctrl_nodes[i - 1];
            let cur = self.ctrl_nodes[i];
            if AdvancedRopeConfig::is_valid_segment(&lead, &cur) {
                proof {
                    let c1 = chain(old_k, incr_variant, i + 1);
                    assert(c1 == c.push(old_k[i as int]));
                    lemma_chain_rest(old_k, incr_variant, i + 1, n as int);
                    let cn = chain(old_k, incr_variant, n as int);
                    lemma_chain_len(old_k, incr_variant, n as int);
                    assert forall|j: int| 0 <= j < n implies self.ctrl_nodes@[j] == cn[j] by {
                        if j < i {
                            assert(self.ctrl_nodes@.subrange(0, i as int)[j] == c[j]);
                            assert(cn[j] == c[j]);
                        } else {
                            assert(self.ctrl_nodes@.subrange(i as int, n as int)[j - i] == old_k.subrange(i as int, n as int)[j - i]);
                            if j > i {
                                assert(cn[j] == old_k.subrange(i + 1, n as int)[j - i - 1]);
                            }
                        }
                    }
                    assert(self.ctrl_nodes@ =~= cn);
                    assert(cn == c1 + old_k.subrange(i + 1, n as int));
                    assert forall|j: int| 0 <= j < n implies in_box(#[trigger] cn[j], t + 1) && king_step(cn[j], old_k[j]) by {
                        if j < i {
                            assert(cn[j] == c[j]);
                        } else {
                            assert(cn[j] == old_k[j]);
                        }
                    }
                    assert forall|j: int| 1 <= j < n implies touching(#[trigger] cn[j - 1], cn[j]) by {
                        if j < i {
                            assert(cn[j] == c[j] && cn[j - 1] == c[j - 1]);
                        } else if j == i {
                            assert(cn[j] == old_k[j] && cn[j - 1] == c[j - 1]);
                        } else {
                            assert(cn[j] == old_k[j] && cn[j - 1] == old_k[j - 1]);
                        }
                    }
                }
                settled = true;
                i = n;
            } else {
                let nx = cur.0 + if lead.0 > cur.0 {
                    1
                } else if lead.0 < cur.0 {
                    -1
                } else {
                    0
                };
                let ny = cur.1 + if lead.1 > cur.1 {
                    1
                } else if lead.1 < cur.1 {
                    -1
                } else {
                    0
                };
                let ghost before = self.ctrl_nodes@;
                self.ctrl_nodes.set(i, (nx, ny));
                proof {
                    assert forall|j: int| i < j < n implies before[j] == old_k[j] by {
                        assert(before.subrange(i as int, n as int)[j - i] == old_k.subrange(i as int, n as int)[j - i]);
                    }
                    assert forall|j: int| 0 <= j < i implies before[j] == c[j] by {
                        assert(before.subrange(0, i as int)[j] == c[j]);
                    }
                    let c1 = chain(old_k, incr_variant, i + 1);
                    assert(c1 == c.push((nx, ny)));
                    assert(self.ctrl_nodes@.subrange(0, i + 1) =~= c1);
                    assert(self.ctrl_nodes@.subrange(i + 1, n as int) =~= old_k.subrange(i + 1, n as int));
                    assert forall|j: int| 1 <= j < c1.len() implies touching(#[trigger] c1[j - 1], c1[j]) by {
                        if j < i {
                            assert(c1[j - 1] == c[j - 1] && c1[j] == c[j]);
                        }
                    }
                    assert forall|j: int| 0 <= j < c1.len() implies in_box(#[trigger] c1[j], t + 1) by {
                        if j < i {
                            assert(c1[j] == c[j]);
                        }
                    }
                    assert forall|j: int| 0 <= j < i + 1 implies king_step(#[trigger] c1[j], old_k[j]) by {
                        if j < i {
                            assert(c1[j] == c[j]);
                        }
                    }
                }
                i = i + 1;
            }
        }
        proof {
            if !settled {
                assert(self.ctrl_nodes@ =~= self.ctrl_nodes@.subrange(0, n as int));
            }
            assert(i == n);
            let cn = chain(old_k, incr_variant, i as int);
            assert(self.ctrl_nodes@ == cn);
            assert(all_touching(cn));
            assert forall|t2: int| 0 <= t2 < STEP_LIMIT && #[trigger] old(self).within(t2) implies self.within(t2 + 1) by {
                assert forall|j: int| 0 <= j < n implies in_box(#[trigger] self.ctrl_nodes@[j], t2 + 1) by {
                    assert(king_step(cn[j], old_k[j]));
                    assert(in_box(old_k[j], t2));
                }
            }
        }
    }
}

/// A knot moved by at most one along each axis.
pub open spec fn king_step(a: Position, b: Position) -> bool {
    -1 <= a.0 - b.0 <= 1 && -1 <= a.1 - b.1 <= 1
}

/// The knots of a two-knot rope after a step of its head.
pub open spec fn basic_step(k: Seq<Position>, v: MoveVariant) -> Seq<Position> {
    let h = moved(k[0], v);
    seq![h, if touching(h, k[1]) { k[1] } else { k[0] }]
}

/// A move of the head: a direction and a number of steps.
#[derive(Clone, Copy)]
pub struct Move {
    pub move_amnt: u64,
    pub variant: MoveVariant,
}

pub open spec fn letter_variant(b: u8) -> Option<MoveVariant> {
    if b == 82u8 {
        Some(MoveVariant::XAdd)
    } else if b == 76u8 {
        Some(MoveVariant::XSub)
    } else if b == 85u8 {
        Some(MoveVariant::YAdd)
    } else if b == 68u8 {
        Some(MoveVariant::YSub)
    } else {
        None
    }
}

/// `R`, `L`, `U` or `D`, then a number of steps.
pub open spec fn move_line_ok(l: Seq<u8>) -> bool {
    let t = split(trim(l), 32u8);
    &&& t.len() >= 2
    &&& t[0].len() == 1
    &&& letter_variant(t[0][0]) is Some
    &&& is_nat_text(t[1])
    &&& int_value(t[1]) <= u64::MAX
}

pub open spec fn move_of(l: Seq<u8>) -> Move {
    let t = split(trim(l), 32u8);
    Move { move_amnt: int_value(t[1]) as u64, variant: letter_variant(t[0][0]).unwrap() }
}

/// Each move as that many single steps, in order.
pub open spec fn steps_of(ms: Seq<Move>) -> Seq<MoveVariant>
    decreases ms.len(),
{
    if ms.len() == 0 {
        seq![]
    } else {
        steps_of(ms.drop_last()) + Seq::new(ms.last().move_amnt as nat, |i: int| ms.last().variant)
    }
}

/// The knots after one step along `v`, by the rule of a two-knot rope or of a longer one.
pub open spec fn step_knots(k: Seq<Position>, v: MoveVariant, advanced: bool) -> Seq<Position> {
    if advanced {
        chain(k, v, k.len() as int)
    } else {
        basic_step(k, v)
    }
}

pub open spec fn knots_after(init: Seq<Position>, steps: Seq<MoveVariant>, advanced: bool) -> Seq<Position>
    decreases steps.len(),
{
    if steps.len() == 0 {
        init
    } else {
        step_knots(knots_after(init, steps.drop_last(), advanced), steps.last(), advanced)
    }
}

/// Every place that the tail takes, the start included.
pub open spec fn tails_seen(init: Seq<Position>, steps: Seq<MoveVariant>, advanced: bool) -> Set<Position> {
    Set::new(
        |p: Position|
            exists|k: int| 0 <= k <= steps.len() && #[trigger] knots_after(init, steps.subrange(0, k), advanced).last() == p,
    )
}

pub proof fn lemma_tails_push(init: Seq<Position>, s: Seq<MoveVariant>, v: MoveVariant, advanced: bool)
    ensures
        tails_seen(init, s.push(v), advanced) == tails_seen(init, s, advanced).insert(
            knots_after(init, s.push(v), advanced).last(),
        ),
{
    let t = s.push(v);
    assert forall|k: int| 0 <= k <= s.len() implies #[trigger] t.subrange(0, k) == s.subrange(0, k) by {
        assert(t.subrange(0, k) =~= s.subrange(0, k));
    }
    assert(t.subrange(0, t.len() as int) =~= t);
    assert forall|p: Position| #[trigger] tails_seen(init, t, advanced).contains(p) == tails_seen(init, s, advanced).insert(
        knots_after(init, t, advanced).last()).contains(p) by {
        if tails_seen(init, t, advanced).contains(p) {
            let k = choose|k: int| 0 <= k <= t.len() && #[trigger] knots_after(init, t.subrange(0, k), advanced).last() == p;
            if k <= s.len() {
                assert(t.subrange(0, k) == s.subrange(0, k));
            }
        }
        if tails_seen(init, s, advanced).contains(p) {
            let k = choose|k: int| 0 <= k <= s.len() && #[trigger] knots_after(init, s.subrange(0, k), advanced).last() == p;
            assert(t.subrange(0, k) == s.subrange(0, k));
            assert(knots_after(init, t.subrange(0, k), advanced).last() == p);
        }
        if p == knots_after(init, t, advanced).last() {
            assert(knots_after(init, t.subrange(0, t.len() as int), advanced).last() == p);
        }
    }
    assert(tails_seen(init, t, advanced) =~= tails_seen(init, s, advanced).insert(knots_after(init, t, advanced).last()));
}

impl Move {
    /// The move on a line.
    pub fn from_line(line: &str) -> (r: Move)
        requires
            move_line_ok(line.spec_bytes()),
        ensures
            r == move_of(line.spec_bytes()),
    {
        let s = line.as_bytes();
        let n = s.len();
        proof {
            assert(span(s@, 0, n) =~= s@);
        }
        Move::from_span(s, 0, n)
    }

    /// The move on the line `s[lo..hi]`.
    pub fn from_span(s: &[u8], lo: usize, hi: usize) -> (r: Move)
        requires
            lo <= hi <= s@.len(),
            move_line_ok(span(s@, lo, hi)),
        ensures
            r == move_of(span(s@, lo, hi)),
    {
        let ghost l = span(s@, lo, hi);
        let (a, b) = crate::text::trim_span(s, lo, hi);
        let t = split_spans(s, a, b, 32u8);
        proof {
            assert(spans_of(s@, t@, split(trim(l), 32u8)));
            assert(span(s@, t@[0].0, t@[0].1)[0] == s@[t@[0].0 as int]);
        }
        let d = s[t[0].0];
        let move_amnt = parse_nat(s, t[1].0, t[1].1).unwrap();
        let variant = if d == 82u8 {
            MoveVariant::XAdd
        } else if d == 76u8 {
            MoveVariant::XSub
        } else if d == 85u8 {
            MoveVariant::YAdd
        } else {
            MoveVariant::YSub
        };
        Move { move_amnt, variant }
    }

    /// Takes one step of the move, if any is left.
    pub fn perform_once<R: RopeConfig>(&mut self, rope_config: &mut R)
        requires
            old(rope_config).valid(),
            exists|t: int| 0 <= t < STEP_LIMIT && #[trigger] old(rope_config).within(t),
        ensures
            old(self).move_amnt == 0 ==> *final(self) == *old(self) && *final(rope_config) == *old(rope_config),
            old(self).move_amnt > 0 ==> {
                &&& final(self).move_amnt == old(self).move_amnt - 1
                &&& final(self).variant == old(self).variant
                &&& final(rope_config).knots() == old(rope_config).stepped(old(self).variant)
                &&& final(rope_config).valid()
                &&& forall|t: int| 0 <= t < STEP_LIMIT && #[trigger] old(rope_config).within(t) ==> final(rope_config).within(t + 1)
            },
    {
        if !self.is_noop() {
            rope_config.increment_in_dir(self.variant);
            self.move_amnt = self.move_amnt - 1;
        }
    }

    pub fn is_noop(&self) -> (r: bool)
        ensures
            r == (self.move_amnt == 0),
    {
        self.move_amnt == 0
    }
}

/// Every line is a move, and the moves take fewer steps than the limit in all.
pub open spec fn moves_ok(s: Seq<u8>) -> bool {
    &&& forall|k: int| 0 <= k < lines(s).len() ==> move_line_ok(#[trigger] lines(s)[k])
    &&& steps_of(lines(s).map_values(|l: Seq<u8>| move_of(l))).len() < STEP_LIMIT
}

pub open spec fn moves_of(s: Seq<u8>) -> Seq<Move> {
    lines(s).map_values(|l: Seq<u8>| move_of(l))
}

/// The moves on the lines of `input`.
pub fn parse_moves(input: &[u8]) -> (r: Vec<Move>)
    requires
        forall|k: int| 0 <= k < lines(input@).len() ==> move_line_ok(#[trigger] lines(input@)[k]),
    ensures
        r@ == moves_of(input@),
{
    let ghost ls = lines(input@);
    let spans = line_spans(input);
    let mut out: Vec<Move> = Vec::new();
    let mut i: usize = 0;
    while i < spans.len()
        invariant
            ls == lines(input@),
            forall|k: int| 0 <= k < ls.len() ==> move_line_ok(#[trigger] ls[k]),
            spans_of(input@, spans@, ls),
            0 <= i <= spans@.len(),
            out@ == ls.subrange(0, i as int).map_values(|l: Seq<u8>| move_of(l)),
        decreases spans@.len() - i,
    {
        let (lo, hi) = spans[i];
        proof {
            assert(span(input@, lo, hi) == ls[i as int]);
        }
        out.push(Move::from_span(input, lo, hi));
        proof {
            assert(ls.subrange(0, i + 1) =~= ls.subrange(0, i as int).push(ls[i as int]));
            assert(out@ =~= ls.subrange(0, i + 1).map_values(|l: Seq<u8>| move_of(l)));
        }
        i = i + 1;
    }
    proof {
        assert(ls.subrange(0, i as int) =~= ls);
    }
    out
}

pub proof fn lemma_steps_prefix(ms: Seq<Move>, i: int)
    requires
        0 <= i <= ms.len(),
    ensures
        steps_of(ms.subrange(0, i)).len() <= steps_of(ms).len(),
    decreases ms.len() - i,
{
    if i < ms.len() {
        lemma_steps_prefix(ms, i + 1);
        assert(ms.subrange(0, i + 1).drop_last() =~= ms.subrange(0, i));
    } else {
        assert(ms.subrange(0, i) =~= ms);
    }
}

/// The number of places that the tail of `rope` takes while it follows the moves.
fn count_tail_positions<R: RopeConfig>(rope: &mut R, moves: &Vec<Move>, advanced: bool) -> (r: usize)
    requires
        old(rope).valid(),
        old(rope).within(0),
        forall|c: R, v: MoveVariant| #[trigger] c.stepped(v) == step_knots(c.knots(), v, advanced),
        steps_of(moves@).len() < STEP_LIMIT,
    ensures
        r == tails_seen(old(rope).knots(), steps_of(moves@), advanced).len(),
{
    let ghost init = rope.knots();
    let mut visited: Vec<Position> = Vec::new();
    visited.push(rope.tail_pos());
    let ghost mut done: Seq<MoveVariant> = seq![];
    proof {
        assert(steps_of(moves@.subrange(0, 0)) =~= done);
        assert(done.subrange(0, 0) =~= done);
        assert(knots_after(init, done.subrange(0, 0), advanced) == init);
        assert forall|p: Position| #[trigger] tails_seen(init, done, advanced).contains(p) == visited@.to_set().contains(p) by {
            if tails_seen(init, done, advanced).contains(p) {
                let k = choose|k: int| 0 <= k <= done.len() && #[trigger] knots_after(init, done.subrange(0, k), advanced).last() == p;
                assert(k == 0);
                assert(visited@[0] == p);
                assert(visited@.contains(p));
            }
            if visited@.to_set().contains(p) {
                assert(visited@.contains(p));
                assert(visited@[0] == p);
                assert(knots_after(init, done.subrange(0, 0), advanced).last() == p);
            }
        }
        assert(tails_seen(init, done, advanced) =~= visited@.to_set());
    }
    let mut i: usize = 0;
    while i < moves.len()
        invariant
            forall|c: R, v: MoveVariant| #[trigger] c.stepped(v) == step_knots(c.knots(), v, advanced),
            steps_of(moves@).len() < STEP_LIMIT,
            0 <= i <= moves@.len(),
            done == steps_of(moves@.subrange(0, i as int)),
            rope.knots() == knots_after(init, done, advanced),
            rope.valid(),
            rope.within(done.len() as int),
            visited@.no_duplicates(),
            visited@.to_set() == tails_seen(init, done, advanced),
        decreases moves@.len() - i,
    {
        let mut mv = moves[i];
        let ghost base = done;
        proof {
            lemma_steps_prefix(moves@, i + 1);
            assert(moves@.subrange(0, i + 1).drop_last() =~= moves@.subrange(0, i as int));
        }
        while !mv.is_noop()
            invariant
                forall|c: R, v: MoveVariant| #[trigger] c.stepped(v) == step_knots(c.knots(), v, advanced),
                0 <= i < moves@.len(),
                mv.variant == moves@[i as int].variant,
                mv.move_amnt <= moves@[i as int].move_amnt,
                base == steps_of(moves@.subrange(0, i as int)),
                done == base + Seq::new((moves@[i as int].move_amnt - mv.move_amnt) as nat, |j: int| moves@[i as int].variant),
                steps_of(moves@.subrange(0, i + 1)) == base + Seq::new(moves@[i as int].move_amnt as nat, |j: int| moves@[i as int].variant),
                steps_of(moves@.subrange(0, i + 1)).len() < STEP_LIMIT,
                rope.knots() == knots_after(init, done, advanced),
                rope.valid(),
                rope.within(done.len() as int),
                visited@.no_duplicates(),
                visited@.to_set() == tails_seen(init, done, advanced),
            decreases mv.move_amnt,
        {
            let ghost prev = done;
            mv.perform_once(rope);
            proof {
                done = done.push(mv.variant);
                assert(done =~= base + Seq::new((moves@[i as int].move_amnt - mv.move_amnt) as nat, |j: int| moves@[i as int].variant));
                assert(done.drop_last() == prev);
                lemma_tails_push(init, prev, mv.variant, advanced);
            }
            let tail = rope.tail_pos();
            let mut k: usize = 0;
            let mut seen = false;
            while k < visited.len()
                invariant
                    0 <= k <= visited@.len(),
                    seen == exists|j: int| 0 <= j < k && (#[trigger] visited@[j]) == tail,
                decreases visited@.len() - k,
            {
                if visited[k].0 == tail.0 && visited[k].1 == tail.1 {
                    seen = true;
                }
                k = k + 1;
            }
            if !seen {
                let ghost old_v = visited@;
                visited.push(tail);
                proof {
                    old_v.lemma_push_to_set_commute(tail);
                    assert(visited@ == old_v.push(tail));
                    assert(!old_v.contains(tail));
                    assert forall|a: int, b: int| 0 <= a < b < visited@.len() implies visited@[a] != visited@[b] by {
                        if b == old_v.len() {
                            assert(visited@[a] == old_v[a]);
                        }
                    }
                }
            } else {
                proof {
                    assert(visited@.to_set().contains(tail));
                    assert(visited@.to_set().insert(tail) =~= visited@.to_set());
                }
            }
        }
        proof {
            assert(done =~= steps_of(moves@.subrange(0, i + 1)));
        }
        i = i + 1;
    }
    proof {
        assert(moves@.subrange(0, i as int) =~= moves@);
        visited@.unique_seq_to_set();
    }
    visited.len()
}

pub struct Day9;

impl AOCSolutions for Day9 {
    open spec fn accepts_1(input: Seq<u8>) -> bool {
        moves_ok(input)
    }

    open spec fn accepts_2(input: Seq<u8>) -> bool {
        moves_ok(input)
    }

    open spec fn star_1(input: Seq<u8>, r: Result<i64, ()>) -> bool {
        r == Ok::<i64, ()>(tails_seen(seq![(0i64, 0i64), (0i64, 0i64)], steps_of(moves_of(input)), false).len() as i64)
    }

    open spec fn star_2(input: Seq<u8>, r: Result<i64, ()>) -> bool {
        r == Ok::<i64, ()>(tails_seen(Seq::new(10, |i: int| (0i64, 0i64)), steps_of(moves_of(input)), true).len() as i64)
    }

    /// The number of places that the tail of a two-knot rope visits.
    fn get_star_1(input: &str) -> (r: Result<i64, ()>) {
        let moves = parse_moves(input.as_bytes());
        let mut rope_config = BasicRopeConfig::new((0, 0), (0, 0));
        proof {
            assert(rope_config.knots() =~= seq![(0i64, 0i64), (0i64, 0i64)]);
        }
        let n = count_tail_positions(&mut rope_config, &moves, false);
        Ok(n as i64)
    }

    /// The number of places that the tail of a ten-knot rope visits.
    fn get_star_2(input: &str) -> (r: Result<i64, ()>) {
        let moves = parse_moves(input.as_bytes());
        let mut rope_config = AdvancedRopeConfig::new(10, (0, 0));
        proof {
            assert forall|j: int| 1 <= j < rope_config.ctrl_nodes@.len() implies touching(
                #[trigger] rope_config.ctrl_nodes@[j - 1], rope_config.ctrl_nodes@[j]) by {}
        }
        let n = count_tail_positions(&mut rope_config, &moves, true);
        Ok(n as i64)
    }
}

} // verus!

//! Monkey in the middle: monkeys inspect and throw items by their rules.
use vstd::prelude::*;
use vstd::string::StringSliceAdditionalSpecFns;
use crate::AOCSolutions;
use crate::text::{lines, trim, split, span, spans_of, is_nat_text, int_value, line_spans, trim_span,
    split_spans, parse_nat, find_from, find_byte};

verus! {

pub type Item = u64;

/// What an inspection does to an item's worry level.
#[derive(PartialEq, Eq, Structural, Clone, Copy)]
pub enum Operation {
    Add(u64),
    Mul(u64),
    /// `old * old`
    Square,
    /// `old + old`
    Double,
    /// Leaves the level as it is.
    Keep,
}

pub open spec fn apply_op(op: Operation, x: int) -> int {
    match op {
        Operation::Add(n) => x + n,
        Operation::Mul(n) => x * n,
        Operation::Square => x * x,
        Operation::Double => x + x,
        Operation::Keep => x,
    }
}

/// Where an item goes: to `if_true` when `divisor` divides it, else to `if_false`.
#[derive(PartialEq, Eq, Structural, Clone, Copy)]
pub struct Test {
    pub divisor: u64,
    pub if_true: usize,
    pub if_false: usize,
}

pub open spec fn target_of(t: Test, x: int) -> int {
    if x % (t.divisor as int) == 0 {
        t.if_true as int
    } else {
        t.if_false as int
    }
}

/// What happens to a worry level after an inspection.
#[derive(PartialEq, Eq, Structural, Clone, Copy)]
pub enum Relief {
    /// Divided, rounding down.
    Divide(u64),
    /// Taken modulo.
    Reduce(u64),
}

pub open spec fn relieve(r: Relief, x: int) -> int {
    match r {
        Relief::Divide(d) => x / (d as int),
        Relief::Reduce(m) => x % (m as int),
    }
}

pub struct Monkey {
    pub items: Vec<Item>,
    pub inspection_count: usize,
    pub op: Operation,
    pub test: Test,
}

impl Monkey {
    /// Takes the last item, counts the inspection, and returns the item's new level.
    pub fn inspect_item(&mut self) -> (r: Option<Item>)
        requires
            old(self).items@.len() > 0 ==> apply_op(old(self).op, old(self).items@.last() as int) <= u64::MAX,
            old(self).inspection_count < usize::MAX,
        ensures
            final(self).op == old(self).op,
            final(self).test == old(self).test,
            old(self).items@.len() == 0 ==> r is None && final(self).items@ == old(self).items@
                && final(self).inspection_count == old(self).inspection_count,
            old(self).items@.len() > 0 ==> r == Some(apply_op(old(self).op, old(self).items@.last() as int) as u64)
                && final(self).items@ == old(self).items@.drop_last()
                && final(self).inspection_count == old(self).inspection_count + 1,
    {
        match self.items.pop() {
            Some(item) => {
                self.inspection_count = self.inspection_count + 1;
                let v = match self.op {
                    Operation::Add(n) => item + n,
                    Operation::Mul(n) => item * n,
                    Operation::Square => item * item,
                    Operation::Double => item + item,
                    Operation::Keep => item,
                };
                Some(v)
            },
            None => None,
        }
    }

    /// The monkey that the item goes to.
    pub fn find_item_target(&self, item: Item) -> (r: usize)
        requires
            self.test.divisor > 0,
        ensures
            r == target_of(self.test, item as int),
    {
        if item % self.test.divisor == 0 {
            self.test.if_true
        } else {
            self.test.if_false
        }
    }

    pub fn receive_item(&mut self, item: Item)
        ensures
            final(self).items@ == old(self).items@.push(item),
            final(self).inspection_count == old(self).inspection_count,
            final(self).op == old(self).op,
            final(self).test == old(self).test,
    {
        self.items.push(item);
    }

    /// From now on inspections leave the worry level as it is.
    pub fn minimize_inspection_op(&mut self)
        ensures
            final(self).items@ == old(self).items@,
            final(self).inspection_count == old(self).inspection_count,
            final(self).op == Operation::Keep,
            final(self).test == old(self).test,
    {
        self.op = Operation::Keep;
    }
}

/// What a monkey is, as far as a round goes.
pub struct MonkeyView {
    pub items: Seq<Item>,
    pub count: int,
    pub op: Operation,
    pub test: Test,
}

impl Monkey {
    pub open spec fn model(&self) -> MonkeyView {
        MonkeyView { items: self.items@, count: self.inspection_count as int, op: self.op, test: self.test }
    }
}

pub open spec fn models(ms: Seq<Monkey>) -> Seq<MonkeyView> {
    ms.map_values(|m: Monkey| m.model())
}

/// The level of an item once inspected and relieved.
pub open spec fn new_level(op: Operation, relief: Relief, x: int) -> int {
    relieve(relief, apply_op(op, x))
}

/// The items `l` thrown, last first, onto the piles `buf`.
pub open spec fn throw_items(l: Seq<Item>, op: Operation, test: Test, relief: Relief, buf: Seq<Seq<Item>>) -> Seq<Seq<Item>>
    decreases l.len(),
{
    if l.len() == 0 {
        buf
    } else {
        let y = new_level(op, relief, l.last() as int);
        let t = target_of(test, y);
        throw_items(l.drop_last(), op, test, relief, buf.update(t, buf[t].push(y as Item)))
    }
}

/// Every item of `l` can be inspected within `u64` and goes to one of `n` monkeys.
pub open spec fn throws_ok(l: Seq<Item>, op: Operation, test: Test, relief: Relief, n: int) -> bool
    decreases l.len(),
{
    l.len() == 0 || (apply_op(op, l.last() as int) <= u64::MAX && 0 <= target_of(
        test,
        new_level(op, relief, l.last() as int),
    ) < n && throws_ok(l.drop_last(), op, test, relief, n))
}

/// The rest of a round from monkey `i` on, with the piles thrown so far;
/// `None` where an inspection leaves `u64`, an item goes to no monkey or a
/// count leaves `usize`. At its end each monkey receives its pile.
pub open spec fn round_from(ms: Seq<MonkeyView>, buf: Seq<Seq<Item>>, i: int, relief: Relief) -> Option<Seq<MonkeyView>>
    decreases ms.len() - i,
{
    if i >= ms.len() || i < 0 {
        Some(Seq::new(ms.len(), |k: int| MonkeyView { items: ms[k].items + buf[k], ..ms[k] }))
    } else {
        let m = ms[i];
        let l = m.items + buf[i];
        if !throws_ok(l, m.op, m.test, relief, ms.len() as int) || m.count + l.len() > usize::MAX {
            None
        } else {
            round_from(
                ms.update(i, MonkeyView { items: seq![], count: m.count + l.len(), ..m }),
                throw_items(l, m.op, m.test, relief, buf.update(i, seq![])),
                i + 1,
                relief,
            )
        }
    }
}

/// One round: each monkey in turn takes the items thrown to it so far,
/// then inspects and throws all its items, last first.
pub open spec fn round(ms: Seq<MonkeyView>, relief: Relief) -> Option<Seq<MonkeyView>> {
    round_from(ms, Seq::new(ms.len(), |k: int| Seq::<Item>::empty()), 0, relief)
}

pub open spec fn relief_ok(r: Relief) -> bool {
    match r {
        Relief::Divide(d) => d > 0,
        Relief::Reduce(m) => m > 0,
    }
}

pub open spec fn tests_ok(ms: Seq<MonkeyView>) -> bool {
    forall|k: int| 0 <= k < ms.len() ==> (#[trigger] ms[k]).test.divisor > 0
}

proof fn lemma_models_update(ms: Seq<Monkey>, i: int, m: Monkey)
    requires
        0 <= i < ms.len(),
    ensures
        models(ms.update(i, m)) == models(ms).update(i, m.model()),
{
    assert(models(ms.update(i, m)) =~= models(ms).update(i, m.model()));
}

/// One round of throwing, or `None` where `round` has none.
pub fn try_play_round(monkeys: Vec<Monkey>, relief: Relief) -> (r: Option<Vec<Monkey>>)
    requires
        relief_ok(relief),
        tests_ok(models(monkeys@)),
    ensures
        round(models(monkeys@), relief) is None <==> r is None,
        r matches Some(v) ==> models(v@) == round(models(monkeys@), relief).unwrap(),
        r matches Some(v) ==> tests_ok(models(v@)),
        r matches Some(v) ==> v@.len() == monkeys@.len(),
{
    let ghost start = models(monkeys@);
    run_round(monkeys, relief, Ghost(start))
}

fn run_round(mut monkeys: Vec<Monkey>, relief: Relief, Ghost(start): Ghost<Seq<MonkeyView>>) -> (r: Option<Vec<Monkey>>)
    requires
        relief_ok(relief),
        tests_ok(models(monkeys@)),
        start == models(monkeys@),
    ensures
        round(start, relief) is None <==> r is None,
        r matches Some(v) ==> models(v@) == round(start, relief).unwrap(),
        r matches Some(v) ==> tests_ok(models(v@)),
        r matches Some(v) ==> v@.len() == monkeys@.len(),
{
    let n = monkeys.len();
    let mut buf: Vec<Vec<Item>> = Vec::new();
    while buf.len() < n
        invariant
            buf@.len() <= n,
            forall|k: int| 0 <= k < buf@.len() ==> (#[trigger] buf@[k])@.len() == 0,
        decreases n - buf@.len(),
    {
        buf.push(Vec::new());
    }
    proof {
        assert forall|k: int| 0 <= k < n implies (#[trigger] buf@[k])@ =~= Seq::<Item>::empty() by {}
        assert(buf@.map_values(|b: Vec<Item>| b@) =~= Seq::new(n as nat, |k: int| Seq::<Item>::empty()));
    }
    let mut i: usize = 0;
    proof {
        assert(buf@.map_values(|b: Vec<Item>| b@) =~= Seq::new(n as nat, |k: int| Seq::<Item>::empty()));
    }
    while i < n
        invariant
            n == monkeys@.len(),
            buf@.len() == n,
            relief_ok(relief),
            0 <= i <= n,
            tests_ok(models(monkeys@)),
            round_from(models(monkeys@), buf@.map_values(|b: Vec<Item>| b@), i as int, relief) == round(start, relief),
        decreases n - i,
    {
        let ghost pre_swap = monkeys@;
        let ghost ms0 = models(monkeys@);
        let ghost bv0 = buf@.map_values(|b: Vec<Item>| b@);
        let mut m = Monkey { items: Vec::new(), inspection_count: 0, op: Operation::Keep, test: Test { divisor: 1, if_true: 0, if_false: 0 } };
        monkeys.set_and_swap(i, &mut m);
        let mut received: Vec<Item> = Vec::new();
        buf.set_and_swap(i, &mut received);
        m.items.append(&mut received);
        let ghost l = m.items@;
        proof {
            assert(l == ms0[i as int].items + bv0[i as int]);
            assert(buf@.map_values(|b: Vec<Item>| b@) =~= bv0.update(i as int, seq![]));
        }
        let ghost count0 = m.inspection_count as int;
        let ghost buf_start = buf@.map_values(|b: Vec<Item>| b@);
        while m.items.len() > 0
            invariant
                n == buf@.len(),
                n == ms0.len(),
                n == monkeys@.len(),
                monkeys@ == pre_swap.update(i as int, monkeys@[i as int]),
                ms0 == models(pre_swap),
                round_from(ms0, bv0, i as int, relief) == round(start, relief),
                l == ms0[i as int].items + bv0[i as int],
                count0 == ms0[i as int].count,
                buf_start == bv0.update(i as int, seq![]),
                tests_ok(ms0),
                relief_ok(relief),
                m.op == ms0[i as int].op,
                m.test == ms0[i as int].test,
                m.test.divisor > 0,
                0 <= i < n,
                l.len() >= m.items@.len(),
                m.items@ == l.subrange(0, m.items@.len() as int),
                m.inspection_count == count0 + (l.len() - m.items@.len()),
                throws_ok(l, m.op, m.test, relief, n as int) == throws_ok(m.items@, m.op, m.test, relief, n as int),
                throw_items(l, m.op, m.test, relief, buf_start) == throw_items(m.items@, m.op, m.test, relief, buf@.map_values(|b: Vec<Item>| b@)),
            decreases m.items@.len(),
        {
            let ghost cur = m.items@;
            let x = m.items[m.items.len() - 1];
            let y0: Option<u64> = match m.op {
                Operation::Add(k) => x.checked_add(k),
                Operation::Mul(k) => x.checked_mul(k),
                Operation::Square => x.checked_mul(x),
                Operation::Double => x.checked_add(x),
                Operation::Keep => Some(x),
            };
            if y0.is_none() {
                proof {
                    assert(!throws_ok(cur, m.op, m.test, relief, n as int));
                    assert(!throws_ok(l, ms0[i as int].op, ms0[i as int].test, relief, ms0.len() as int));
                    assert(round_from(ms0, bv0, i as int, relief) is None);
                }
                return None;
            }
            let y1 = y0.unwrap();
            let y = match relief {
                Relief::Divide(d) => y1 / d,
                Relief::Reduce(md) => y1 % md,
            };
            let t = m.find_item_target(y);
            if t >= n {
                proof {
                    assert(!throws_ok(cur, m.op, m.test, relief, n as int));
                    assert(!throws_ok(l, ms0[i as int].op, ms0[i as int].test, relief, ms0.len() as int));
                    assert(round_from(ms0, bv0, i as int, relief) is None);
                }
                return None;
            }
            if m.inspection_count == usize::MAX {
                proof {
                    assert(count0 + l.len() > usize::MAX);
                    assert(round_from(ms0, bv0, i as int, relief) is None);
                }
                return None;
            }
            m.items.pop();
            m.inspection_count = m.inspection_count + 1;
            let ghost bv = buf@.map_values(|b: Vec<Item>| b@);
            let mut pile: Vec<Item> = Vec::new();
            buf.set_and_swap(t, &mut pile);
            pile.push(y);
            buf.set_and_swap(t, &mut pile);
            proof {
                assert(m.items@ == cur.drop_last());
                assert(m.items@ =~= l.subrange(0, m.items@.len() as int));
                assert(buf@.map_values(|b: Vec<Item>| b@) =~= bv.update(t as int, bv[t as int].push(y)));
            }
        }
        monkeys.set_and_swap(i, &mut m);
        proof {
            let mi = monkeys@[i as int];
            assert(mi.items@ =~= Seq::<Item>::empty());
            assert(monkeys@ =~= pre_swap.update(i as int, mi));
            lemma_models_update(pre_swap, i as int, mi);
            assert(mi.model() == MonkeyView { items: seq![], count: ms0[i as int].count + l.len(), ..ms0[i as int] });
            assert(throws_ok(l, ms0[i as int].op, ms0[i as int].test, relief, n as int));
            assert forall|k: int| 0 <= k < n implies (#[trigger] models(monkeys@)[k]).test.divisor > 0 by {
                assert(ms0[k].test.divisor > 0);
            }
        }
        i = i + 1;
    }
    // each monkey receives the items thrown to it after its turn
    let mut k: usize = 0;
    let ghost ms_end = models(monkeys@);
    let ghost bv_end = buf@.map_values(|b: Vec<Item>| b@);
    while k < n
        invariant
            n == monkeys@.len() == buf@.len(),
            0 <= k <= n,
            ms_end.len() == n,
            bv_end.len() == n,
            forall|j: int| 0 <= j < k ==> (#[trigger] models(monkeys@)[j]) == (MonkeyView { items: ms_end[j].items + bv_end[j], ..ms_end[j] }),
            forall|j: int| k <= j < n ==> (#[trigger] models(monkeys@)[j]) == ms_end[j],
            forall|j: int| k <= j < n ==> (#[trigger] buf@[j])@ == bv_end[j],
            models(monkeys@).len() == n,
            tests_ok(ms_end),
        decreases n - k,
    {
        let ghost pre = monkeys@;
        let mut m = Monkey { items: Vec::new(), inspection_count: 0, op: Operation::Keep, test: Test { divisor: 1, if_true: 0, if_false: 0 } };
        monkeys.set_and_swap(k, &mut m);
        let mut pile: Vec<Item> = Vec::new();
        buf.set_and_swap(k, &mut pile);
        m.items.append(&mut pile);
        monkeys.set_and_swap(k, &mut m);
        proof {
            assert(monkeys@ =~= pre.update(k as int, monkeys@[k as int]));
            lemma_models_update(pre, k as int, monkeys@[k as int]);
            assert(models(pre)[k as int] == ms_end[k as int]);
        }
        k = k + 1;
    }
    proof {
        assert(models(monkeys@) =~= Seq::new(n as nat, |j: int| MonkeyView { items: ms_end[j].items + bv_end[j], ..ms_end[j] }));
        assert forall|j: int| 0 <= j < n implies (#[trigger] models(monkeys@)[j]).test.divisor > 0 by {
            assert(ms_end[j].test.divisor > 0);
        }
    }
    Some(monkeys)
}

/// One round of throwing; see `round`.
pub fn play_round(monkeys: Vec<Monkey>, reaction_to_inspection: Relief) -> (r: Vec<Monkey>)
    requires
        relief_ok(reaction_to_inspection),
        tests_ok(models(monkeys@)),
        round(models(monkeys@), reaction_to_inspection) is Some,
    ensures
        models(r@) == round(models(monkeys@), reaction_to_inspection).unwrap(),
{
    try_play_round(monkeys, reaction_to_inspection).unwrap()
}

/// The text after the first `:` of a line, trimmed.
pub open spec fn after_colon(l: Seq<u8>) -> Seq<u8> {
    trim(l.subrange(find_from(l, 58u8, 0) + 1, l.len() as int))
}

pub open spec fn has_colon(l: Seq<u8>) -> bool {
    find_from(l, 58u8, 0) < l.len()
}

/// `79, 98`: numbers separated by commas.
pub open spec fn items_ok(t: Seq<u8>) -> bool {
    let p = split(t, 44u8);
    forall|k: int| 0 <= k < p.len() ==> is_nat_text(trim(#[trigger] p[k])) && int_value(trim(p[k])) <= u64::MAX
}

pub open spec fn items_of(t: Seq<u8>) -> Seq<Item> {
    split(t, 44u8).map_values(|q: Seq<u8>| int_value(trim(q)) as Item)
}

pub open spec fn last_word(t: Seq<u8>) -> Seq<u8> {
    split(t, 32u8).last()
}

/// `new = old * 19`: `*` or `+`, then `old` or a number.
pub open spec fn op_ok(t: Seq<u8>) -> bool {
    let w = split(t, 32u8);
    &&& w.len() >= 2
    &&& (w[w.len() - 2] == seq![42u8] || w[w.len() - 2] == seq![43u8])
    &&& (w.last() == seq![111u8, 108u8, 100u8] || (is_nat_text(w.last()) && int_value(w.last()) <= u64::MAX))
}

pub open spec fn op_of(t: Seq<u8>) -> Operation {
    let w = split(t, 32u8);
    let times = w[w.len() - 2] == seq![42u8];
    if w.last() == seq![111u8, 108u8, 100u8] {
        if times {
            Operation::Square
        } else {
            Operation::Double
        }
    } else if times {
        Operation::Mul(int_value(w.last()) as u64)
    } else {
        Operation::Add(int_value(w.last()) as u64)
    }
}

/// A line that ends in a number (of `u64`, or of `usize`).
pub open spec fn ends_in_number(t: Seq<u8>, limit: int) -> bool {
    is_nat_text(last_word(t)) && int_value(last_word(t)) <= limit
}

/// Six lines with a colon each: a name, items, an operation and a test in three lines.
pub open spec fn monkey_desc_ok(ls: Seq<Seq<u8>>, b: int) -> bool {
    &&& forall|k: int| b <= k < b + 6 ==> has_colon(#[trigger] ls[k])
    &&& items_ok(after_colon(ls[b + 1]))
    &&& op_ok(after_colon(ls[b + 2]))
    &&& ends_in_number(after_colon(ls[b + 3]), u64::MAX as int)
    &&& int_value(last_word(after_colon(ls[b + 3]))) > 0
    &&& ends_in_number(after_colon(ls[b + 4]), usize::MAX as int)
    &&& ends_in_number(after_colon(ls[b + 5]), usize::MAX as int)
}

pub open spec fn monkey_of(ls: Seq<Seq<u8>>, b: int) -> MonkeyView {
    MonkeyView {
        items: items_of(after_colon(ls[b + 1])),
        count: 0,
        op: op_of(after_colon(ls[b + 2])),
        test: Test {
            divisor: int_value(last_word(after_colon(ls[b + 3]))) as u64,
            if_true: int_value(last_word(after_colon(ls[b + 4]))) as usize,
            if_false: int_value(last_word(after_colon(ls[b + 5]))) as usize,
        },
    }
}

/// Descriptions of six lines each, an empty line between two.
pub open spec fn notes_ok(ls: Seq<Seq<u8>>) -> bool {
    &&& ls.len() >= 6
    &&& (ls.len() + 1) % 7 == 0
    &&& ls.len() <= 7_000_000
    &&& forall|k: int| 0 <= k < (ls.len() + 1) / 7 ==> #[trigger] monkey_desc_ok(ls, 7 * k)
    &&& forall|k: int| 0 <= k < (ls.len() + 1) / 7 - 1 ==> (#[trigger] ls[7 * k + 6]).len() == 0
}

pub open spec fn monkeys_of(ls: Seq<Seq<u8>>) -> Seq<MonkeyView> {
    Seq::new(((ls.len() + 1) / 7) as nat, |k: int| monkey_of(ls, 7 * k))
}

pub open spec fn divisor_product(ms: Seq<MonkeyView>) -> int
    decreases ms.len(),
{
    if ms.len() == 0 {
        1
    } else {
        divisor_product(ms.drop_last()) * ms.last().test.divisor
    }
}

/// The trimmed text after the colon of the line `s[lo..hi]`.
fn after_colon_span(s: &[u8], lo: usize, hi: usize) -> (r: (usize, usize))
    requires
        lo <= hi <= s@.len(),
        has_colon(span(s@, lo, hi)),
    ensures
        r.0 <= r.1 <= s@.len(),
        span(s@, r.0, r.1) == after_colon(span(s@, lo, hi)),
{
    let c = find_byte(s, lo, hi, 58u8);
    proof {
        assert(span(s@, lo, hi).subrange(c - lo + 1, hi - lo) =~= span(s@, (c + 1) as usize, hi));
    }
    trim_span(s, c + 1, hi)
}

/// The number that ends the text `s[lo..hi]`.
fn last_number(s: &[u8], lo: usize, hi: usize) -> (r: u64)
    requires
        lo <= hi <= s@.len(),
        ends_in_number(span(s@, lo, hi), u64::MAX as int),
    ensures
        r == int_value(last_word(span(s@, lo, hi))),
{
    let w = split_spans(s, lo, hi, 32u8);
    proof {
        crate::text::lemma_split_nonempty(span(s@, lo, hi), 32u8, 32u8);
    }
    let (a, b) = w[w.len() - 1];
    parse_nat(s, a, b).unwrap()
}

/// The monkey described by the six lines from `spans[b]` on.
fn parse_monkey(s: &[u8], spans: &Vec<(usize, usize)>, b: usize) -> (r: Monkey)
    requires
        spans_of(s@, spans@, lines(s@)),
        b + 6 <= spans@.len(),
        monkey_desc_ok(lines(s@), b as int),
    ensures
        r.model() == monkey_of(lines(s@), b as int),
{
    let ghost ls = lines(s@);
    let len = spans.len();
    proof {
        assert(b + 6 <= len);
        assert forall|k: int| b <= k < b + 6 implies span(s@, spans@[k].0, spans@[k].1) == ls[k] by {}
        assert(has_colon(ls[b + 1]) && has_colon(ls[b + 2]) && has_colon(ls[b + 3]) && has_colon(ls[b + 4]) && has_colon(ls[b + 5]));
    }
    // items
    let (a1, e1) = after_colon_span(s, spans[b + 1].0, spans[b + 1].1);
    let pieces = split_spans(s, a1, e1, 44u8);
    let mut items: Vec<Item> = Vec::new();
    let mut k: usize = 0;
    while k < pieces.len()
        invariant
            spans_of(s@, pieces@, split(span(s@, a1, e1), 44u8)),
            span(s@, a1, e1) == after_colon(ls[b + 1]),
            items_ok(after_colon(ls[b + 1])),
            0 <= k <= pieces@.len(),
            items@ == items_of(after_colon(ls[b + 1])).subrange(0, k as int),
        decreases pieces@.len() - k,
    {
        let (p0, p1) = pieces[k];
        let (q0, q1) = trim_span(s, p0, p1);
        let v = parse_nat(s, q0, q1).unwrap();
        items.push(v);
        proof {
            assert(items@ =~= items_of(after_colon(ls[b + 1])).subrange(0, k + 1));
        }
        k = k + 1;
    }
    proof {
        assert(items@ =~= items_of(after_colon(ls[b + 1])));
    }
    // operation
    let (a2, e2) = after_colon_span(s, spans[b + 2].0, spans[b + 2].1);
    let w = split_spans(s, a2, e2, 32u8);
    let n = w.len();
    let (o0, o1) = w[n - 2];
    let (v0, v1) = w[n - 1];
    let star: Vec<u8> = vec![42u8];
    let old_word: Vec<u8> = vec![111u8, 108u8, 100u8];
    proof {
        assert(star@ =~= seq![42u8]);
        assert(old_word@ =~= seq![111u8, 108u8, 100u8]);
    }
    let times = crate::text::span_is(s, o0, o1, &star);
    let op = if crate::text::span_is(s, v0, v1, &old_word) {
        if times {
            Operation::Square
        } else {
            Operation::Double
        }
    } else {
        let amnt = parse_nat(s, v0, v1).unwrap();
        if times {
            Operation::Mul(amnt)
        } else {
            Operation::Add(amnt)
        }
    };
    // test
    let (a3, e3) = after_colon_span(s, spans[b + 3].0, spans[b + 3].1);
    let (a4, e4) = after_colon_span(s, spans[b + 4].0, spans[b + 4].1);
    let (a5, e5) = after_colon_span(s, spans[b + 5].0, spans[b + 5].1);
    let divisor = last_number(s, a3, e3);
    let if_true = last_number(s, a4, e4) as usize;
    let if_false = last_number(s, a5, e5) as usize;
    Monkey { items, inspection_count: 0, op, test: Test { divisor, if_true, if_false } }
}

/// The monkeys described in `input`, and the product of their divisors.
pub fn parse_monkeys(input: &str) -> (r: (Vec<Monkey>, u64))
    requires
        notes_ok(lines(input.spec_bytes())),
        divisor_product(monkeys_of(lines(input.spec_bytes()))) <= u64::MAX,
    ensures
        models(r.0@) == monkeys_of(lines(input.spec_bytes())),
        r.1 == divisor_product(monkeys_of(lines(input.spec_bytes()))),
{
    let s = input.as_bytes();
    let ghost ls = lines(s@);
    let ghost all = monkeys_of(ls);
    let spans = line_spans(s);
    let count = (spans.len() + 1) / 7;
    let mut monkeys: Vec<Monkey> = Vec::new();
    let mut prod_div: u64 = 1;
    let mut k: usize = 0;
    while k < count
        invariant
            ls == lines(s@),
            s@ == input.spec_bytes(),
            all == monkeys_of(ls),
            notes_ok(ls),
            divisor_product(all) <= u64::MAX,
            spans_of(s@, spans@, ls),
            count == (ls.len() + 1) / 7,
            0 <= k <= count,
            models(monkeys@) == all.subrange(0, k as int),
            prod_div == divisor_product(all.subrange(0, k as int)),
        decreases count - k,
    {
        proof {
            assert(monkey_desc_ok(ls, 7 * k));
            assert forall|j: int| 0 <= j < all.len() implies (#[trigger] all[j]).test.divisor >= 1 by {
                assert(monkey_desc_ok(ls, 7 * j));
            }
            assert forall|j: int| 0 <= j < k implies (#[trigger] all.subrange(0, k as int)[j]).test.divisor >= 1 by {
                assert(all.subrange(0, k as int)[j] == all[j]);
            }
            lemma_product_prefix(all, k + 1);
            assert(all.subrange(0, k + 1).drop_last() =~= all.subrange(0, k as int));
            assert(all.subrange(0, k + 1).last() == all[k as int]);
            assert(all[k as int].test.divisor >= 1);
            lemma_product_pos(all.subrange(0, k as int));
        }
        let m = parse_monkey(s, &spans, 7 * k);
        proof {
            assert(prod_div * m.test.divisor <= u64::MAX);
        }
        prod_div = prod_div * m.test.divisor;
        monkeys.push(m);
        proof {
            assert(models(monkeys@) =~= all.subrange(0, k + 1));
        }
        k = k + 1;
    }
    proof {
        assert(all.subrange(0, k as int) =~= all);
    }
    (monkeys, prod_div)
}

pub proof fn lemma_product_pos(ms: Seq<MonkeyView>)
    requires
        forall|k: int| 0 <= k < ms.len() ==> (#[trigger] ms[k]).test.divisor >= 1,
    ensures
        divisor_product(ms) >= 1,
    decreases ms.len(),
{
    if ms.len() > 0 {
        lemma_product_pos(ms.drop_last());
        assert(divisor_product(ms) >= 1) by (nonlinear_arith)
            requires
                divisor_product(ms) == divisor_product(ms.drop_last()) * ms.last().test.divisor,
                divisor_product(ms.drop_last()) >= 1,
                ms.last().test.divisor >= 1,
        ;
    }
}

pub proof fn lemma_product_prefix(ms: Seq<MonkeyView>, i: int)
    requires
        0 <= i <= ms.len(),
        forall|k: int| 0 <= k < ms.len() ==> (#[trigger] ms[k]).test.divisor >= 1,
    ensures
        divisor_product(ms.subrange(0, i)) <= divisor_product(ms),
    decreases ms.len() - i,
{
    if i < ms.len() {
        lemma_product_prefix(ms, i + 1);
        let p = ms.subrange(0, i + 1);
        assert(p.drop_last() =~= ms.subrange(0, i));
        lemma_product_pos(ms.subrange(0, i));
        assert(divisor_product(ms.subrange(0, i)) <= divisor_product(p)) by (nonlinear_arith)
            requires
                divisor_product(p) == divisor_product(ms.subrange(0, i)) * p.last().test.divisor,
                divisor_product(ms.subrange(0, i)) >= 1,
                p.last().test.divisor >= 1,
        ;
    } else {
        assert(ms.subrange(0, i) =~= ms);
    }
}

/// `k` rounds in a row, or `None` where one of them has none.
pub open spec fn rounds(ms: Seq<MonkeyView>, relief: Relief, k: nat) -> Option<Seq<MonkeyView>>
    decreases k,
{
    if k == 0 {
        Some(ms)
    } else {
        match rounds(ms, relief, (k - 1) as nat) {
            Some(m) => round(m, relief),
            None => None,
        }
    }
}

/// `r` is the product of the inspection counts of the two busiest monkeys
/// (of the only one, where there is one).
pub open spec fn is_business(ms: Seq<MonkeyView>, r: int) -> bool {
    if ms.len() == 1 {
        r == ms[0].count
    } else {
        &&& exists|a: int, b: int| 0 <= a < ms.len() && 0 <= b < ms.len() && a != b && r == ms[a].count * ms[b].count
        &&& forall|a: int, b: int| 0 <= a < ms.len() && 0 <= b < ms.len() && a != b ==> #[trigger] ms[a].count * #[trigger] ms[b].count <= r
    }
}

/// The answer after `k` rounds: an error where a round has no outcome or the
/// product leaves `i64`.
pub open spec fn business_after(s: Seq<u8>, relief: Relief, k: nat, r: Result<i64, ()>) -> bool {
    match rounds(monkeys_of(lines(s)), relief, k) {
        Some(ms) => match r {
            Ok(v) => is_business(ms, v as int),
            Err(_) => forall|v: int| #[trigger] is_business(ms, v) ==> v > i64::MAX,
        },
        None => r is Err,
    }
}

/// The product of the two largest inspection counts.
fn business(ms: &Vec<Monkey>) -> (r: Option<i64>)
    requires
        ms@.len() >= 1,
    ensures
        r matches Some(v) ==> is_business(models(ms@), v as int),
        r is None ==> forall|v: int| #[trigger] is_business(models(ms@), v) ==> v > i64::MAX,
{
    let ghost m = models(ms@);
    if ms.len() < 2 {
        if ms[0].inspection_count as u64 > i64::MAX as u64 {
            return None;
        }
        return Some(ms[0].inspection_count as i64);
    }
    let mut p1: usize = 0;
    let mut p2: usize = 1;
    if ms[1].inspection_count > ms[0].inspection_count {
        p1 = 1;
        p2 = 0;
    }
    let mut i: usize = 2;
    while i < ms.len()
        invariant
            m == models(ms@),
            2 <= i <= ms@.len(),
            p1 < i && p2 < i && p1 != p2,
            m[p1 as int].count >= m[p2 as int].count,
            forall|a: int| 0 <= a < i && a != p1 ==> #[trigger] m[a].count <= m[p2 as int].count,
            forall|a: int| 0 <= a < i ==> #[trigger] m[a].count <= m[p1 as int].count,
        decreases ms@.len() - i,
    {
        if ms[i].inspection_count > ms[p1].inspection_count {
            p2 = p1;
            p1 = i;
        } else if ms[i].inspection_count > ms[p2].inspection_count {
            p2 = i;
        }
        i = i + 1;
    }
    let c1 = ms[p1].inspection_count as u128;
    let c2 = ms[p2].inspection_count as u128;
    proof {
        assert forall|a: int, b: int| 0 <= a < m.len() && 0 <= b < m.len() && a != b implies #[trigger] m[a].count * #[trigger] m[b].count <= m[p1 as int].count * m[p2 as int].count by {
            let (x, y) = (m[a].count, m[b].count);
            let (u, v) = (m[p1 as int].count, m[p2 as int].count);
            if a == p1 as int {
                assert(y <= v);
                assert(x * y <= u * v) by (nonlinear_arith) requires x == u, 0 <= y <= v, u >= 0;
            } else if b == p1 as int {
                assert(x <= v);
                assert(x * y <= u * v) by (nonlinear_arith) requires y == u, 0 <= x <= v, u >= 0;
            } else {
                assert(x <= v && y <= v);
                assert(x * y <= u * v) by (nonlinear_arith) requires 0 <= x <= v, 0 <= y <= v, v <= u;
            }
        }
        assert(c1 * c2 <= 0xFFFF_FFFF_FFFF_FFFF * 0xFFFF_FFFF_FFFF_FFFFu128) by (nonlinear_arith)
            requires c1 <= 0xFFFF_FFFF_FFFF_FFFF, c2 <= 0xFFFF_FFFF_FFFF_FFFF;
    }
    let p = c1 * c2;
    if p > i64::MAX as u128 {
        proof {
            assert forall|v: int| #[trigger] is_business(m, v) implies v > i64::MAX by {
                let (a, b) = choose|a: int, b: int| 0 <= a < m.len() && 0 <= b < m.len() && a != b && v == m[a].count * m[b].count;
                assert(m[p1 as int].count * m[p2 as int].count <= v);
            }
        }
        return None;
    }
    Some(p as i64)
}

/// The answer of a part: `k` rounds under `relief`, then the business.
fn run_rounds(monkeys: Vec<Monkey>, relief: Relief, k: usize) -> (r: Result<i64, ()>)
    requires
        relief_ok(relief),
        tests_ok(models(monkeys@)),
        monkeys@.len() >= 1,
    ensures
        match rounds(models(monkeys@), relief, k as nat) {
            Some(ms) => match r {
                Ok(v) => is_business(ms, v as int),
                Err(_) => forall|v: int| #[trigger] is_business(ms, v) ==> v > i64::MAX,
            },
            None => r is Err,
        },
{
    let ghost start = models(monkeys@);
    let mut ms = monkeys;
    let mut j: usize = 0;
    while j < k
        invariant
            relief_ok(relief),
            0 <= j <= k,
            tests_ok(models(ms@)),
            rounds(start, relief, j as nat) == Some(models(ms@)),
            start == models(monkeys@),
            ms@.len() == start.len(),
            start.len() >= 1,
        decreases k - j,
    {
        match try_play_round(ms, relief) {
            Some(next) => {
                ms = next;
            },
            None => {
                proof {
                    lemma_rounds_none(start, relief, (j + 1) as nat, k as nat);
                }
                return Err(());
            },
        }
        j = j + 1;
    }
    match business(&ms) {
        Some(v) => Ok(v),
        None => Err(()),
    }
}

pub proof fn lemma_rounds_none(ms: Seq<MonkeyView>, relief: Relief, j: nat, k: nat)
    requires
        j <= k,
        rounds(ms, relief, j) is None,
    ensures
        rounds(ms, relief, k) is None,
    decreases k - j,
{
    if j < k {
        lemma_rounds_none(ms, relief, j + 1, k);
    }
}

pub struct Day11;

impl AOCSolutions for Day11 {
    open spec fn accepts_1(input: Seq<u8>) -> bool {
        notes_ok(lines(input)) && divisor_product(monkeys_of(lines(input))) <= u64::MAX
    }

    open spec fn accepts_2(input: Seq<u8>) -> bool {
        notes_ok(lines(input)) && divisor_product(monkeys_of(lines(input))) <= u64::MAX
    }

    open spec fn star_1(input: Seq<u8>, r: Result<i64, ()>) -> bool {
        business_after(input, Relief::Divide(3), 20, r)
    }

    open spec fn star_2(input: Seq<u8>, r: Result<i64, ()>) -> bool {
        business_after(input, Relief::Reduce(divisor_product(monkeys_of(lines(input))) as u64), 10000, r)
    }

    /// Monkey business after 20 rounds, each level divided by three after its inspection.
    fn get_star_1(input: &str) -> (r: Result<i64, ()>) {
        let (monkeys, _) = parse_monkeys(input);
        proof {
            lemma_parsed_tests(lines(input.spec_bytes()));
        }
        run_rounds(monkeys, Relief::Divide(3), 20)
    }

    /// Monkey business after 10000 rounds, each level taken modulo the
    /// product of the divisors, which keeps every test's outcome.
    fn get_star_2(input: &str) -> (r: Result<i64, ()>) {
        let (monkeys, prod_div) = parse_monkeys(input);
        proof {
            lemma_parsed_tests(lines(input.spec_bytes()));
            lemma_product_pos(monkeys_of(lines(input.spec_bytes())));
        }
        run_rounds(monkeys, Relief::Reduce(prod_div), 10000)
    }
}

pub proof fn lemma_parsed_tests(ls: Seq<Seq<u8>>)
    requires
        notes_ok(ls),
    ensures
        tests_ok(monkeys_of(ls)),
        monkeys_of(ls).len() >= 1,
        forall|k: int| 0 <= k < monkeys_of(ls).len() ==> (#[trigger] monkeys_of(ls)[k]).test.divisor >= 1,
{
    assert forall|k: int| 0 <= k < monkeys_of(ls).len() implies (#[trigger] monkeys_of(ls)[k]).test.divisor >= 1 by {
        assert(monkey_desc_ok(ls, 7 * k));
    }
}

} // verus!

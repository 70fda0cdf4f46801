//! Cathode-ray tube: a processor that runs one cycle at a time.
use vstd::prelude::*;
use vstd::string::StringSliceAdditionalSpecFns;
use std::collections::VecDeque;
use crate::AOCSolutions;
use crate::text::{lines, trim, split, span, spans_of, is_int_text, int_value, line_spans, trim_span,
    split_spans, parse_int, span_is};

verus! {

pub enum Instruction {
    NoOp,
    /// The value to add and the cycles it still takes.
    AddX(i64, usize),
}

pub const ADDX_CYCLES: usize = 2;

/// The cycles that an instruction still takes.
pub open spec fn weight(i: Instruction) -> int {
    match i {
        Instruction::NoOp => 1,
        Instruction::AddX(_, c) => c as int,
    }
}

pub open spec fn queue_weight(q: Seq<Instruction>) -> int
    decreases q.len(),
{
    if q.len() == 0 {
        0
    } else {
        queue_weight(q.drop_last()) + weight(q.last())
    }
}

/// An instruction as issued or part-way run: an `addx` has one or two cycles left.
pub open spec fn staged_ok(i: Instruction) -> bool {
    match i {
        Instruction::NoOp => true,
        Instruction::AddX(_, c) => 1 <= c <= 2,
    }
}

/// `noop` (anything after it ignored), or `addx` and an integer.
pub open spec fn instruction_ok(l: Seq<u8>) -> bool {
    let p = split(trim(l), 32u8);
    p[0] == seq![110u8, 111u8, 111u8, 112u8] || (p[0] == seq![97u8, 100u8, 100u8, 120u8] && p.len()
        >= 2 && is_int_text(p[1]) && -65536 <= int_value(p[1]) <= 65536)
}

/// The instruction on a well-formed line, as issued.
pub open spec fn instruction_of(l: Seq<u8>) -> Instruction {
    let p = split(trim(l), 32u8);
    if p[0] == seq![110u8, 111u8, 111u8, 112u8] {
        Instruction::NoOp
    } else {
        Instruction::AddX(int_value(p[1]) as i64, 2)
    }
}

impl Instruction {
    /// The instruction on the line `s[lo..hi]`.
    pub fn from_span(s: &[u8], lo: usize, hi: usize) -> (r: Instruction)
        requires
            lo <= hi <= s@.len(),
            instruction_ok(span(s@, lo, hi)),
        ensures
            r == instruction_of(span(s@, lo, hi)),
    {
        let ghost l = span(s@, lo, hi);
        let (a, b) = trim_span(s, lo, hi);
        let p = split_spans(s, a, b, 32u8);
        proof {
            assert(spans_of(s@, p@, split(trim(l), 32u8)));
            crate::text::lemma_split_nonempty(trim(l), 32u8, 32u8);
        }
        let (t0, u0) = p[0];
        let noop: Vec<u8> = vec![110u8, 111u8, 111u8, 112u8];
        assert(noop@ =~= seq![110u8, 111u8, 111u8, 112u8]);
        if span_is(s, t0, u0, &noop) {
            return Instruction::NoOp;
        }
        let (t1, u1) = p[1];
        let x = parse_int(s, t1, u1).unwrap();
        Instruction::AddX(x, ADDX_CYCLES)
    }

    /// The instruction on a line.
    pub fn from_line(line: &str) -> (r: Instruction)
        requires
            instruction_ok(line.spec_bytes()),
        ensures
            r == instruction_of(line.spec_bytes()),
    {
        let s = line.as_bytes();
        let n = s.len();
        proof {
            assert(span(s@, 0, n) =~= s@);
        }
        Instruction::from_span(s, 0, n)
    }
}

/// A processor's state, as the cycles see it.
pub struct Cpu {
    pub reg_x: int,
    pub cycle: int,
    pub wrb: int,
    pub queue: Seq<Instruction>,
    pub finished: bool,
}

pub open spec fn cpu_of(p: Processor) -> Cpu {
    Cpu { reg_x: p.reg_x as int, cycle: p.cycle as int, wrb: p.reg_wrb as int, queue: p.staged_instructions@, finished: p.finish_code }
}

/// One cycle: the pending write lands, then the oldest staged instruction
/// advances; an `addx` in its last cycle leaves its value to be written.
pub open spec fn run_spec(c: Cpu) -> Cpu {
    let x = c.reg_x + c.wrb;
    if c.queue.len() == 0 {
        Cpu { reg_x: x, cycle: c.cycle + 1, wrb: 0, queue: c.queue, finished: true }
    } else {
        match c.queue[0] {
            Instruction::NoOp => Cpu { reg_x: x, cycle: c.cycle + 1, wrb: 0, queue: c.queue.drop_first(), finished: c.finished },
            Instruction::AddX(v, n) => if n == 1 {
                Cpu { reg_x: x, cycle: c.cycle + 1, wrb: v as int, queue: c.queue.drop_first(), finished: c.finished }
            } else {
                Cpu { reg_x: x, cycle: c.cycle + 1, wrb: 0, queue: c.queue.update(0, Instruction::AddX(v, 1)), finished: c.finished }
            },
        }
    }
}

pub open spec fn issue_spec(c: Cpu, i: Instruction) -> Cpu {
    Cpu { queue: c.queue.push(i), finished: false, ..c }
}

pub struct Processor {
    pub reg_x: i64,
    pub cycle: u64,
    /// Written to `reg_x` at the start of the next cycle.
    pub reg_wrb: i64,
    /// Issued instructions, oldest first.
    pub staged_instructions: VecDeque<Instruction>,
    pub finish_code: bool,
}

impl Processor {
    /// Every staged instruction is one that `run_cycle` can advance.
    pub open spec fn wf(&self) -> bool {
        forall|k: int|
            0 <= k < self.staged_instructions@.len() ==> staged_ok(
                #[trigger] self.staged_instructions@[k],
            )
    }

    pub fn new() -> (r: Processor)
        ensures
            r.reg_x == 1,
            r.cycle == 0,
            r.reg_wrb == 0,
            r.staged_instructions@.len() == 0,
            r.finish_code,
            r.wf(),
    {
        Processor {
            reg_x: 1,
            cycle: 0,
            reg_wrb: 0,
            staged_instructions: VecDeque::with_capacity(3),
            finish_code: true,
        }
    }

    /// The cycle count times the register, and `false`; or `(-1, true)`
    /// where the cycle count does not fit `i64`.
    pub fn get_signal_strength(&self) -> (r: (i64, bool))
        requires
            self.cycle <= i64::MAX ==> i64::MIN <= self.cycle * self.reg_x <= i64::MAX,
        ensures
            self.cycle <= i64::MAX ==> r == (((self.cycle * self.reg_x) as i64, false)),
            self.cycle > i64::MAX ==> r == ((-1i64, true)),
    {
        if self.cycle <= i64::MAX as u64 {
            ((self.cycle as i64) * self.reg_x, false)
        } else {
            (-1, true)
        }
    }

    /// Runs one cycle: applies the pending write, then advances the oldest
    /// staged instruction; an `addx` in its last cycle leaves its value to be
    /// written at the start of the next. With nothing staged the program is
    /// finished.
    pub fn run_cycle(&mut self)
        requires
            old(self).wf(),
            old(self).cycle < u64::MAX,
            i64::MIN <= old(self).reg_x + old(self).reg_wrb <= i64::MAX,
        ensures
            final(self).wf(),
            cpu_of(*final(self)) == run_spec(cpu_of(*old(self))),
            final(self).reg_x == old(self).reg_x + old(self).reg_wrb,
            final(self).cycle == old(self).cycle + 1,
            old(self).staged_instructions@.len() == 0 ==> {
                &&& final(self).finish_code
                &&& final(self).reg_wrb == 0
                &&& final(self).staged_instructions@.len() == 0
            },
            old(self).staged_instructions@.len() > 0 ==> {
                &&& final(self).finish_code == old(self).finish_code
                &&& queue_weight(final(self).staged_instructions@) == queue_weight(
                    old(self).staged_instructions@,
                ) - 1
                &&& match old(self).staged_instructions@[0] {
                    Instruction::NoOp => final(self).reg_wrb == 0
                        && final(self).staged_instructions@ == old(self).staged_instructions@.drop_first(),
                    Instruction::AddX(x, c) => if c == 1 {
                        final(self).reg_wrb == x
                            && final(self).staged_instructions@ == old(self).staged_instructions@.drop_first()
                    } else {
                        final(self).reg_wrb == 0 && final(self).staged_instructions@ == old(
                            self,
                        ).staged_instructions@.update(0, Instruction::AddX(x, 1))
                    },
                }
            },
    {
        self.reg_x = self.reg_x + self.reg_wrb;
        self.reg_wrb = 0;
        let ghost q = self.staged_instructions@;
        match self.staged_instructions.pop_front() {
            Some(Instruction::AddX(x, cycles)) => {
                assert(staged_ok(q[0]));
                proof {
                    lemma_weight_front(q);
                }
                if cycles == 1 {
                    self.reg_wrb = x;
                } else {
                    self.staged_instructions.push_front(Instruction::AddX(x, cycles - 1));
                    proof {
                        assert(self.staged_instructions@ =~= q.update(0, Instruction::AddX(x, 1)));
                        lemma_weight_front(self.staged_instructions@);
                        assert(self.staged_instructions@.drop_first() =~= q.drop_first());
                    }
                }
            },
            Some(Instruction::NoOp) => {
                proof {
                    lemma_weight_front(q);
                }
            },
            None => {
                self.finish_code = true;
            },
        }
        proof {
            assert forall|k: int|
                0 <= k < self.staged_instructions@.len() implies staged_ok(
                #[trigger] self.staged_instructions@[k],
            ) by {
                if q.len() > 0 && self.staged_instructions@.len() == q.len() {
                    if k > 0 {
                        assert(self.staged_instructions@[k] == q[k]);
                    }
                } else if q.len() > 0 {
                    assert(self.staged_instructions@[k] == q[k + 1]);
                }
            }
        }
        self.cycle = self.cycle + 1;
    }

    /// Stages an instruction behind those already staged.
    pub fn issue_instruction(&mut self, instruction: Instruction)
        requires
            old(self).wf(),
            staged_ok(instruction),
        ensures
            final(self).wf(),
            cpu_of(*final(self)) == issue_spec(cpu_of(*old(self)), instruction),
            !final(self).finish_code,
            final(self).staged_instructions@ == old(self).staged_instructions@.push(instruction),
            final(self).reg_x == old(self).reg_x,
            final(self).reg_wrb == old(self).reg_wrb,
            final(self).cycle == old(self).cycle,
    {
        self.finish_code = false;
        self.staged_instructions.push_back(instruction);
        proof {
            assert forall|k: int|
                0 <= k < self.staged_instructions@.len() implies staged_ok(
                #[trigger] self.staged_instructions@[k],
            ) by {
                if k < old(self).staged_instructions@.len() {
                    assert(self.staged_instructions@[k] == old(self).staged_instructions@[k]);
                }
            }
        }
    }

    pub fn finished_running_program(&self) -> (r: bool)
        ensures
            r == self.finish_code,
    {
        self.finish_code
    }

    pub fn get_cycle(&self) -> (r: u64)
        ensures
            r == self.cycle,
    {
        self.cycle
    }

    pub fn get_reg(&self) -> (r: i64)
        ensures
            r == self.reg_x,
    {
        self.reg_x
    }
}

/// The weight of a queue is that of its front plus that of the rest.
pub proof fn lemma_weight_front(q: Seq<Instruction>)
    requires
        q.len() > 0,
    ensures
        queue_weight(q) == weight(q[0]) + queue_weight(q.drop_first()),
    decreases q.len(),
{
    if q.len() > 1 {
        lemma_weight_front(q.drop_last());
        assert(q.drop_last().drop_first() =~= q.drop_first().drop_last());
        assert(q.drop_first().last() == q.last());
        assert(q.drop_last()[0] == q[0]);
    } else {
        assert(q.drop_first().len() == 0);
        assert(q.drop_last().len() == 0);
        assert(q.last() == q[0]);
        assert(queue_weight(q.drop_last()) == 0);
        assert(queue_weight(q.drop_first()) == 0);
    }
}

pub open spec fn init_cpu() -> Cpu {
    Cpu { reg_x: 1, cycle: 0, wrb: 0, queue: seq![], finished: true }
}

/// The state after the cycle that the loop of a program runs next: one
/// instruction issued (while any is left), then one cycle.
pub open spec fn tick(ins: Seq<Instruction>, k: int, c: Cpu) -> Cpu {
    run_spec(if 0 <= k < ins.len() { issue_spec(c, ins[k]) } else { c })
}

pub open spec fn strength_at(c: Cpu) -> int {
    if c.cycle >= 20 && (c.cycle - 20) % 40 == 0 {
        c.cycle * c.reg_x
    } else {
        0
    }
}

/// The signal strengths at cycles 20, 60, 100, ... summed, from the `k`-th
/// instruction on, until the program is done (`fuel` bounds the cycles).
pub open spec fn signal_from(ins: Seq<Instruction>, k: int, c: Cpu, fuel: nat) -> int
    decreases fuel,
{
    if fuel == 0 {
        0
    } else {
        let c2 = tick(ins, k, c);
        if c2.finished {
            strength_at(c2)
        } else {
            strength_at(c2) + signal_from(ins, k + 1, c2, (fuel - 1) as nat)
        }
    }
}

/// The pixels drawn from the `k`-th instruction on: after each cycle, the
/// pixel at the next place of the 40-wide line is lit where the register
/// is within one of that place; drawing stops once the program is done.
pub open spec fn pixels_from(ins: Seq<Instruction>, k: int, c: Cpu, pos: int, fuel: nat) -> Seq<bool>
    decreases fuel,
{
    if fuel == 0 {
        seq![]
    } else {
        let c2 = tick(ins, k, c);
        if c2.finished {
            seq![]
        } else {
            let lit = -1 <= pos - c2.reg_x <= 1;
            seq![lit] + pixels_from(ins, k + 1, c2, if pos == 39 { 0 } else { pos + 1 }, (fuel - 1) as nat)
        }
    }
}

pub open spec fn instructions_of(s: Seq<u8>) -> Seq<Instruction> {
    lines(s).map_values(|l: Seq<u8>| instruction_of(l))
}

/// Every line is an instruction, and there are at most 10000.
pub open spec fn program_ok(s: Seq<u8>) -> bool {
    &&& lines(s).len() <= 10000
    &&& forall|k: int| 0 <= k < lines(s).len() ==> instruction_ok(#[trigger] lines(s)[k])
}

pub open spec fn fuel_of(s: Seq<u8>) -> nat {
    (3 * lines(s).len() + 3) as nat
}

pub open spec fn small_queue(q: Seq<Instruction>) -> bool {
    forall|j: int| 0 <= j < q.len() ==> match #[trigger] q[j] {
        Instruction::AddX(v, _) => -65536 <= v <= 65536,
        Instruction::NoOp => true,
    }
}

/// The processor's state stays within the bounds that keep the arithmetic in `i64`.
pub open spec fn bounded(p: Processor) -> bool {
    &&& p.cycle <= 30003
    &&& -1 - 65536 * (p.cycle as int) <= p.reg_x <= 1 + 65536 * (p.cycle as int)
    &&& -65536 <= p.reg_wrb <= 65536
    &&& small_queue(p.staged_instructions@)
}

pub proof fn lemma_strength_bound(cycle: int, x: int)
    requires
        0 <= cycle <= 30004,
        -1 - 65536 * cycle <= x <= 1 + 65536 * cycle,
    ensures
        -0x4000_0000_0000 <= cycle * x <= 0x4000_0000_0000,
{
    assert(-1 - 65536 * cycle >= -1 - 65536 * 30004) by (nonlinear_arith)
        requires
            0 <= cycle <= 30004,
    ;
    assert(1 + 65536 * cycle <= 1 + 65536 * 30004) by (nonlinear_arith)
        requires
            0 <= cycle <= 30004,
    ;
    assert(-0x4000_0000_0000 <= cycle * x <= 0x4000_0000_0000) by (nonlinear_arith)
        requires
            0 <= cycle <= 30004,
            -1 - 65536 * 30004 <= x <= 1 + 65536 * 30004,
    ;
}

/// One step of a program's loop: issues the `k`-th instruction if any is left, then runs a cycle.
fn tick_exec(processor: &mut Processor, s: &[u8], spans: &Vec<(usize, usize)>, k: usize)
    requires
        old(processor).wf(),
        bounded(*old(processor)),
        old(processor).cycle < 30003,
        spans_of(s@, spans@, lines(s@)),
        program_ok(s@),
    ensures
        final(processor).wf(),
        bounded(*final(processor)),
        final(processor).cycle == old(processor).cycle + 1,
        cpu_of(*final(processor)) == tick(instructions_of(s@), k as int, cpu_of(*old(processor))),
{
    let ghost ls = lines(s@);
    if k < spans.len() {
        let (a, b) = spans[k];
        proof {
            assert(span(s@, a, b) == ls[k as int]);
            assert(instruction_ok(ls[k as int]));
        }
        let ins = Instruction::from_span(s, a, b);
        proof {
            assert(instructions_of(s@)[k as int] == ins);
        }
        let ghost q0 = processor.staged_instructions@;
        processor.issue_instruction(ins);
        proof {
            assert forall|j: int| 0 <= j < processor.staged_instructions@.len() implies match #[trigger] processor.staged_instructions@[j] {
                Instruction::AddX(v, _) => -65536 <= v <= 65536,
                Instruction::NoOp => true,
            } by {
                if j < q0.len() {
                    assert(processor.staged_instructions@[j] == q0[j]);
                }
            }
        }
    }
    let ghost q1 = processor.staged_instructions@;
    processor.run_cycle();
    proof {
        assert forall|j: int| 0 <= j < processor.staged_instructions@.len() implies match #[trigger] processor.staged_instructions@[j] {
            Instruction::AddX(v, _) => -65536 <= v <= 65536,
            Instruction::NoOp => true,
        } by {
            if processor.staged_instructions@.len() == q1.len() {
                if j > 0 {
                    assert(processor.staged_instructions@[j] == q1[j]);
                }
            } else {
                assert(processor.staged_instructions@[j] == q1[j + 1]);
            }
        }
    }
}

pub struct Day10;

impl Day10 {
    pub const LINE_SIZE: usize = 40;

    /// The picture that the program draws, one line of 40 pixels at a
    /// time (`#` lit, `.` dark); the last line holds what was drawn of it
    /// when the program was done, maybe nothing.
    pub fn crt_lines(input: &str) -> (r: Vec<Vec<u8>>)
        requires
            program_ok(input.spec_bytes()),
        ensures
            r@.len() >= 1,
            forall|i: int| 0 <= i < r@.len() - 1 ==> (#[trigger] r@[i])@.len() == 40,
            r@.last()@.len() < 40,
            flatten(r@.map_values(|l: Vec<u8>| l@)) == pixels_from(instructions_of(input.spec_bytes()), 0, init_cpu(), 0, fuel_of(input.spec_bytes())).map_values(|b: bool| if b { 35u8 } else { 46u8 }),
    {
        let s = input.as_bytes();
        let spans = line_spans(s);
        let ghost ins = instructions_of(s@);
        let ghost fuel0 = fuel_of(s@);
        let mut processor = Processor::new();
        let mut out: Vec<Vec<u8>> = Vec::new();
        let mut output_line: Vec<u8> = Vec::new();
        let mut fuel: usize = 3 * spans.len() + 3;
        let mut k: usize = 0;
        let mut done = false;
        let ghost mut drawn: Seq<bool> = seq![];
        proof {
            assert(cpu_of(processor) == init_cpu()) by {
                assert(processor.staged_instructions@ =~= Seq::<Instruction>::empty());
            }
            assert(out@.map_values(|l: Vec<u8>| l@) =~= Seq::<Seq<u8>>::empty());
            assert(flatten(out@.map_values(|l: Vec<u8>| l@)) + output_line@ =~= drawn.map_values(|b: bool| if b { 35u8 } else { 46u8 }));
            assert(drawn + pixels_from(ins, 0, init_cpu(), 0, fuel0) =~= pixels_from(ins, 0, init_cpu(), 0, fuel0));
        }
        while fuel > 0 && !done
            invariant
                s@ == input.spec_bytes(),
                ins == instructions_of(s@),
                program_ok(s@),
                spans_of(s@, spans@, lines(s@)),
                processor.wf(),
                bounded(processor),
                fuel0 == 3 * spans@.len() + 3,
                fuel <= fuel0,
                !done ==> processor.cycle as int + fuel == fuel0 && k == processor.cycle,
                output_line@.len() < 40,
                forall|i: int| 0 <= i < out@.len() ==> (#[trigger] out@[i])@.len() == 40,
                flatten(out@.map_values(|l: Vec<u8>| l@)) + output_line@ == drawn.map_values(|b: bool| if b { 35u8 } else { 46u8 }),
                !done ==> pixels_from(ins, 0, init_cpu(), 0, fuel0) == drawn + pixels_from(ins, k as int, cpu_of(processor), output_line@.len() as int, fuel as nat),
                done ==> pixels_from(ins, 0, init_cpu(), 0, fuel0) == drawn,
            decreases fuel + (if done { 0int } else { 1int }),
        {
            tick_exec(&mut processor, s, &spans, k);
            if processor.finished_running_program() {
                proof {
                    assert(drawn + Seq::<bool>::empty() =~= drawn);
                }
                done = true;
            } else {
                let pos = output_line.len() as i64;
                let x = processor.get_reg();
                let lit = -1 <= pos - x && pos - x <= 1;
                let ghost old_drawn = drawn;
                let ghost before = output_line@;
                let ghost out_before = out@.map_values(|l: Vec<u8>| l@);
                if lit {
                    output_line.push(35u8);
                } else {
                    output_line.push(46u8);
                }
                proof {
                    drawn = drawn.push(lit);
                    assert(drawn.map_values(|b: bool| if b { 35u8 } else { 46u8 }) =~= old_drawn.map_values(|b: bool| if b { 35u8 } else { 46u8 }).push(if lit { 35u8 } else { 46u8 }));
                    assert(drawn.map_values(|b: bool| if b { 35u8 } else { 46u8 }) =~= flatten(out_before) + output_line@);
                    assert(old_drawn + (seq![lit] + pixels_from(ins, k + 1, cpu_of(processor), if before.len() == 39 { 0int } else { before.len() as int + 1 }, (fuel - 1) as nat)) =~= drawn + pixels_from(ins, k + 1, cpu_of(processor), if before.len() == 39 { 0int } else { before.len() as int + 1 }, (fuel - 1) as nat));
                }
                if output_line.len() == Day10::LINE_SIZE {
                    let full = output_line;
                    output_line = Vec::new();
                    out.push(full);
                    proof {
                        assert(out@.map_values(|l: Vec<u8>| l@) =~= out_before.push(full@));
                        lemma_flatten_push(out_before, full@);
                        assert(flatten(out@.map_values(|l: Vec<u8>| l@)) + output_line@ =~= flatten(out_before) + full@);
                    }
                }
                fuel = fuel - 1;
                k = k + 1;
            }
        }
        proof {
            if !done {
                assert(fuel == 0);
                assert(drawn + Seq::<bool>::empty() =~= drawn);
            }
        }
        let ghost ol = output_line@;
        let ghost ob = out@.map_values(|l: Vec<u8>| l@);
        out.push(output_line);
        proof {
            assert(out@.map_values(|l: Vec<u8>| l@) =~= ob.push(ol));
            lemma_flatten_push(ob, ol);
            assert(flatten(out@.map_values(|l: Vec<u8>| l@)) == drawn.map_values(|b: bool| if b { 35u8 } else { 46u8 }));
        }
        out
    }
}

/// All the lines, one after another.
pub open spec fn flatten(ls: Seq<Seq<u8>>) -> Seq<u8>
    decreases ls.len(),
{
    if ls.len() == 0 {
        seq![]
    } else {
        flatten(ls.drop_last()) + ls.last()
    }
}

pub proof fn lemma_flatten_push(ls: Seq<Seq<u8>>, l: Seq<u8>)
    ensures
        flatten(ls.push(l)) == flatten(ls) + l,
{
    assert(ls.push(l).drop_last() =~= ls);
}

impl AOCSolutions for Day10 {
    open spec fn accepts_1(input: Seq<u8>) -> bool {
        program_ok(input)
    }

    open spec fn accepts_2(input: Seq<u8>) -> bool {
        program_ok(input)
    }

    open spec fn star_1(input: Seq<u8>, r: Result<i64, ()>) -> bool {
        r == Ok::<i64, ()>(signal_from(instructions_of(input), 0, init_cpu(), fuel_of(input)) as i64)
    }

    open spec fn star_2(input: Seq<u8>, r: Result<i64, ()>) -> bool {
        r == Ok::<i64, ()>(1)
    }

    /// The sum of the signal strengths at cycles 20, 60, 100, ...
    fn get_star_1(input: &str) -> (r: Result<i64, ()>) {
        let s = input.as_bytes();
        let spans = line_spans(s);
        let ghost ins = instructions_of(s@);
        let ghost fuel0 = fuel_of(s@);
        let mut processor = Processor::new();
        let mut sig_strength_sum: i64 = 0;
        let mut fuel: usize = 3 * spans.len() + 3;
        let mut k: usize = 0;
        let mut done = false;
        proof {
            assert(cpu_of(processor) == init_cpu()) by {
                assert(processor.staged_instructions@ =~= Seq::<Instruction>::empty());
            }
        }
        while fuel > 0 && !done
            invariant
                s@ == input.spec_bytes(),
                ins == instructions_of(s@),
                program_ok(s@),
                spans_of(s@, spans@, lines(s@)),
                processor.wf(),
                bounded(processor),
                fuel0 == 3 * spans@.len() + 3,
                fuel <= fuel0,
                !done ==> processor.cycle as int + fuel == fuel0 && k == processor.cycle,
                -0x4000_0000_0000 * (processor.cycle as int) <= sig_strength_sum <= 0x4000_0000_0000 * (processor.cycle as int),
                !done ==> signal_from(ins, 0, init_cpu(), fuel0) == sig_strength_sum + signal_from(ins, k as int, cpu_of(processor), fuel as nat),
                done ==> signal_from(ins, 0, init_cpu(), fuel0) == sig_strength_sum,
            decreases fuel + (if done { 0int } else { 1int }),
        {
            tick_exec(&mut processor, s, &spans, k);
            let cycle = processor.get_cycle();
            if cycle >= 20 && (cycle - 20) % 40 == 0 {
                proof {
                    lemma_strength_bound(processor.cycle as int, processor.reg_x as int);
                }
                let (incr, _) = processor.get_signal_strength();
                sig_strength_sum = sig_strength_sum + incr;
            }
            if processor.finished_running_program() {
                done = true;
            } else {
                fuel = fuel - 1;
                k = k + 1;
            }
        }
        proof {
            if !done {
                assert(fuel == 0);
            }
        }
        Ok(sig_strength_sum)
    }

    /// Draws the picture (see `crt_lines`); 1 once it is drawn.
    fn get_star_2(input: &str) -> (r: Result<i64, ()>) {
        let _picture = Day10::crt_lines(input);
        Ok(1)
    }
}

} // verus!

//! The virtual machine: a tape of cells, a head on the tape, and a program counter.
//!
//! [`State`] is the mathematical model of the machine and [`State::step`] its transition
//! function. [`Machine`] is the machine that runs: each of its operations is stated over
//! the `State` that it stands for.
//!
//! Cells are masked to the configured width when they are written, so every cell of a
//! well-formed machine is within the width at all times.
//!
//! The input is handed to the machine as the bytes read so far; the machine keeps count of
//! how many it has consumed. An `Input` instruction that asks for more bytes than are left
//! faults and consumes none.

use crate::op::Op;
use crate::program::Ops;
use vstd::arithmetic::div_mod::{
    lemma_add_mod_noop, lemma_mod_add_multiples_vanish, lemma_mod_bound, lemma_sub_mod_noop,
};
use vstd::prelude::*;

verus! {

/// The width of a cell.
#[derive(Clone, Copy, Debug, PartialEq, Eq, Structural)]
pub enum CellSize {
    U8,
    U16,
    U32,
}

impl CellSize {
    /// The number of values that a cell can hold: two to the power of the width.
    pub open spec fn modulus(self) -> int {
        match self {
            CellSize::U8 => 0x100,
            CellSize::U16 => 0x1_0000,
            CellSize::U32 => 0x1_0000_0000,
        }
    }

    /// `value` masked to the width.
    pub open spec fn wrap(self, value: int) -> u32 {
        (value % self.modulus()) as u32
    }

    /// The width in bits.
    pub fn bits(&self) -> (bits: u32)
        ensures
            bits == match *self {
                CellSize::U8 => 8u32,
                CellSize::U16 => 16u32,
                CellSize::U32 => 32u32,
            },
    {
        match self {
            CellSize::U8 => 8,
            CellSize::U16 => 16,
            CellSize::U32 => 32,
        }
    }

    fn span(&self) -> (m: u64)
        ensures
            m == self.modulus(),
    {
        match self {
            CellSize::U8 => 0x100,
            CellSize::U16 => 0x1_0000,
            CellSize::U32 => 0x1_0000_0000,
        }
    }

    /// `cell` and `n` added, masked to the width.
    pub fn plus(&self, cell: u32, n: usize) -> (sum: u32)
        ensures
            sum == self.wrap(cell + n),
    {
        let m: u64 = self.span();
        let a: u64 = (cell as u64) % m;
        let b: u64 = (n as u64) % m;
        proof {
            lemma_add_mod_noop(cell as int, n as int, m as int);
            lemma_mod_bound(cell + n, m as int);
        }
        (((a + b) % m) as u32)
    }

    /// `n` taken from `cell`, masked to the width.
    pub fn minus(&self, cell: u32, n: usize) -> (difference: u32)
        ensures
            difference == self.wrap(cell - n),
    {
        let m: u64 = self.span();
        let a: u64 = (cell as u64) % m;
        let b: u64 = (n as u64) % m;
        proof {
            lemma_sub_mod_noop(cell as int, n as int, m as int);
            lemma_mod_add_multiples_vanish(a - b, m as int);
            lemma_mod_bound(cell - n, m as int);
        }
        (((a + m - b) % m) as u32)
    }
}

/// Why a run was broken off.
#[derive(Clone, Copy, Debug, PartialEq, Eq, Structural)]
pub enum Fault {
    /// The head was to move left of the first cell.
    MemoryUnderflow,
    /// An `Input` instruction asked for more bytes than the input had left.
    InputExhausted,
}

/// Where a machine stands with its program.
#[derive(Clone, Copy, Debug, PartialEq, Eq, Structural)]
pub enum Status {
    /// The program counter is at an instruction, and no fault has occurred.
    Running,
    /// The program counter has left the program. This is the one way to end well.
    Halted,
    /// A fault has occurred. Nothing is executed after it.
    Faulted(Fault),
}

/// The state of a machine.
pub struct State {
    /// The width of the cells.
    pub cell_size: CellSize,
    /// The program counter: the address of the next instruction.
    pub pc: nat,
    /// The head: the index of the current cell.
    pub head: nat,
    /// The cells.
    pub tape: Seq<u32>,
    /// The number of input bytes consumed.
    pub consumed: nat,
    /// The bytes put out, the first one first.
    pub output: Seq<u8>,
    /// The fault that has occurred, if any.
    pub fault: Option<Fault>,
}

/// `tape`, with cells of value zero appended where it is shorter than `len`.
pub open spec fn grown(tape: Seq<u32>, len: nat) -> Seq<u32> {
    if tape.len() >= len {
        tape
    } else {
        tape + Seq::new((len - tape.len()) as nat, |i: int| 0u32)
    }
}

impl State {
    /// The state a machine starts in: one cell of value zero with the head on it, the
    /// program counter at the first instruction, nothing consumed and nothing put out.
    pub open spec fn initial(cell_size: CellSize) -> State {
        State {
            cell_size,
            pc: 0,
            head: 0,
            tape: seq![0u32],
            consumed: 0,
            output: Seq::empty(),
            fault: None,
        }
    }

    /// The head is on the tape, and every cell is within the width.
    pub open spec fn wf(self) -> bool {
        &&& self.head < self.tape.len()
        &&& forall|i: int| 0 <= i < self.tape.len() ==> self.tape[i] < self.cell_size.modulus()
    }

    pub open spec fn status(self, program: Seq<Op>) -> Status {
        match self.fault {
            Some(fault) => Status::Faulted(fault),
            None => if self.pc >= program.len() {
                Status::Halted
            } else {
                Status::Running
            },
        }
    }

    /// The number of input bytes that are left.
    pub open spec fn remaining(self, input: Seq<u8>) -> nat {
        if self.consumed <= input.len() {
            (input.len() - self.consumed) as nat
        } else {
            0
        }
    }

    /// The state after the next instruction of `program`. A machine that has halted or
    /// faulted stays as it is.
    pub open spec fn step(self, program: Seq<Op>, input: Seq<u8>) -> State {
        if self.status(program) != Status::Running {
            self
        } else {
            let cell = self.tape[self.head as int];
            let next = self.pc + 1;
            match program[self.pc as int] {
                Op::Add(n) => State {
                    tape: self.tape.update(self.head as int, self.cell_size.wrap(cell + n)),
                    pc: next,
                    ..self
                },
                Op::Sub(n) => State {
                    tape: self.tape.update(self.head as int, self.cell_size.wrap(cell - n)),
                    pc: next,
                    ..self
                },
                Op::MoveLeft(n) => if self.head < n {
                    State { fault: Some(Fault::MemoryUnderflow), ..self }
                } else {
                    State { head: (self.head - n) as nat, pc: next, ..self }
                },
                Op::MoveRight(n) => State {
                    head: (self.head + n) as nat,
                    tape: grown(self.tape, (self.head + n + 1) as nat),
                    pc: next,
                    ..self
                },
                Op::Input(n) => if n > self.remaining(input) {
                    State { fault: Some(Fault::InputExhausted), ..self }
                } else if n == 0 {
                    State { pc: next, ..self }
                } else {
                    State {
                        tape: self.tape.update(
                            self.head as int,
                            self.cell_size.wrap(input[self.consumed + n - 1] as int),
                        ),
                        consumed: (self.consumed + n) as nat,
                        pc: next,
                        ..self
                    }
                },
                Op::Output(n) => State {
                    output: self.output + Seq::new(n as nat, |i: int| (cell % 0x100) as u8),
                    pc: next,
                    ..self
                },
                Op::JumpIfZero(target) => State {
                    pc: if cell == 0 {
                        target as nat
                    } else {
                        next
                    },
                    ..self
                },
                Op::JumpIfNonZero(target) => State {
                    pc: if cell != 0 {
                        target as nat
                    } else {
                        next
                    },
                    ..self
                },
            }
        }
    }

    /// The state after `n` steps.
    pub open spec fn run(self, program: Seq<Op>, input: Seq<u8>, n: nat) -> State
        decreases n,
    {
        if n == 0 {
            self
        } else {
            self.run(program, input, (n - 1) as nat).step(program, input)
        }
    }

    /// The next step does not take the head beyond what a machine can address.
    pub open spec fn in_reach(self, program: Seq<Op>) -> bool {
        self.status(program) == Status::Running ==> match program[self.pc as int] {
            Op::MoveRight(n) => self.head + n < usize::MAX,
            _ => true,
        }
    }

    /// The machine has a next instruction and can execute it.
    pub open spec fn proceeds(self, program: Seq<Op>) -> bool {
        self.status(program) == Status::Running && self.in_reach(program)
    }

    /// A step keeps a machine well formed: the head stays on the tape, and the cells stay
    /// within the width.
    pub proof fn lemma_step_wf(self, program: Seq<Op>, input: Seq<u8>)
        requires
            self.wf(),
        ensures
            self.step(program, input).wf(),
            self.step(program, input).cell_size == self.cell_size,
    {
    }

    /// A run keeps a machine well formed.
    pub proof fn lemma_run_wf(self, program: Seq<Op>, input: Seq<u8>, n: nat)
        requires
            self.wf(),
        ensures
            self.run(program, input, n).wf(),
            self.run(program, input, n).cell_size == self.cell_size,
        decreases n,
    {
        if n > 0 {
            self.lemma_run_wf(program, input, (n - 1) as nat);
            self.run(program, input, (n - 1) as nat).lemma_step_wf(program, input);
        }
    }

    /// A machine that has halted or faulted is at rest: no number of steps changes it. In
    /// particular nothing is put out after a fault.
    pub proof fn lemma_at_rest(self, program: Seq<Op>, input: Seq<u8>, n: nat)
        requires
            self.status(program) != Status::Running,
        ensures
            self.run(program, input, n) == self,
        decreases n,
    {
        if n > 0 {
            self.lemma_at_rest(program, input, (n - 1) as nat);
        }
    }

    /// Steps add up: running `a` steps and then `b` more is running `a + b` steps.
    pub proof fn lemma_run_add(self, program: Seq<Op>, input: Seq<u8>, a: nat, b: nat)
        ensures
            self.run(program, input, a).run(program, input, b) == self.run(program, input, a + b),
        decreases b,
    {
        if b > 0 {
            self.lemma_run_add(program, input, a, (b - 1) as nat);
        }
    }

    /// A step never takes cells away and never changes what was put out before, and it
    /// leaves every cell but the current one as it is.
    pub proof fn lemma_step_keeps(self, program: Seq<Op>, input: Seq<u8>)
        requires
            self.wf(),
        ensures
            self.step(program, input).tape.len() >= self.tape.len(),
            forall|i: int|
                0 <= i < self.tape.len() && i != self.head ==> self.step(program, input).tape[i]
                    == self.tape[i],
            self.output.is_prefix_of(self.step(program, input).output),
            self.step(program, input).consumed >= self.consumed,
    {
    }

    /// Moving left by more cells than lie to the left of the head faults with
    /// `MemoryUnderflow`. So does every move left, by one cell or more, from the first
    /// cell. The fault ends the run there and then: the machine is where it was, nothing
    /// is put out, and no later step changes anything.
    pub proof fn lemma_underflow(self, program: Seq<Op>, input: Seq<u8>, count: usize, n: nat)
        requires
            self.status(program) == Status::Running,
            program[self.pc as int] == Op::MoveLeft(count),
            self.head < count,
        ensures
            self.step(program, input) == (State { fault: Some(Fault::MemoryUnderflow), ..self }),
            self.step(program, input).status(program) == Status::Faulted(Fault::MemoryUnderflow),
            self.step(program, input).run(program, input, n) == self.step(program, input),
            self.step(program, input).run(program, input, n).output == self.output,
    {
        self.step(program, input).lemma_at_rest(program, input, n);
    }

    /// An `Input` instruction that asks for more bytes than the input has left faults with
    /// `InputExhausted`. The fault ends the run there and then: nothing is consumed,
    /// nothing is put out, and no later step changes anything.
    pub proof fn lemma_input_exhausted(
        self,
        program: Seq<Op>,
        input: Seq<u8>,
        count: usize,
        n: nat,
    )
        requires
            self.status(program) == Status::Running,
            program[self.pc as int] == Op::Input(count),
            count > self.remaining(input),
        ensures
            self.step(program, input) == (State { fault: Some(Fault::InputExhausted), ..self }),
            self.step(program, input).status(program) == Status::Faulted(Fault::InputExhausted),
            self.step(program, input).run(program, input, n) == self.step(program, input),
            self.step(program, input).run(program, input, n).output == self.output,
    {
        self.step(program, input).lemma_at_rest(program, input, n);
    }

    /// Moving right takes the head `count` cells on. The cells that were there stay as
    /// they are. Where the head comes to lie beyond the end of the tape, the tape grows to
    /// reach it, every new cell is zero, and so the cell that the head reaches is zero.
    pub proof fn lemma_move_right(self, program: Seq<Op>, input: Seq<u8>, count: usize)
        requires
            self.wf(),
            self.status(program) == Status::Running,
            program[self.pc as int] == Op::MoveRight(count),
        ensures
            ({
                let after = self.step(program, input);
                &&& after.head == self.head + count
                &&& after.pc == self.pc + 1
                &&& after.fault is None
                &&& after.output == self.output
                &&& after.tape.len() == if self.head + count < self.tape.len() {
                    self.tape.len() as int
                } else {
                    self.head + count + 1
                }
                &&& forall|i: int| 0 <= i < self.tape.len() ==> after.tape[i] == self.tape[i]
                &&& forall|i: int| self.tape.len() <= i < after.tape.len() ==> after.tape[i] == 0
                &&& self.head + count >= self.tape.len() ==> after.tape[after.head as int] == 0
            }),
    {
    }

    /// Adding one to a cell that holds the greatest value of its width gives zero, and
    /// taking one from a cell that holds zero gives the greatest value.
    pub proof fn lemma_wraparound(cell_size: CellSize)
        ensures
            cell_size.wrap(cell_size.modulus() - 1 + 1) == 0,
            cell_size.wrap(0 - 1) == cell_size.modulus() - 1,
    {
    }

    /// The empty program halts at once: a machine in its initial state has halted, and
    /// no step puts anything out.
    pub proof fn lemma_empty_program(cell_size: CellSize, input: Seq<u8>, n: nat)
        ensures
            State::initial(cell_size).status(Seq::<Op>::empty()) == Status::Halted,
            State::initial(cell_size).run(Seq::<Op>::empty(), input, n) == State::initial(
                cell_size,
            ),
    {
        State::initial(cell_size).lemma_at_rest(Seq::<Op>::empty(), input, n);
    }
}

/// Appends `n` times `byte` to `out`.
fn emit(out: &mut Vec<u8>, byte: u8, n: usize)
    ensures
        final(out)@ == old(out)@ + Seq::new(n as nat, |i: int| byte),
{
    let mut i: usize = 0;
    while i < n
        invariant
            i <= n,
            out@ == old(out)@ + Seq::new(i as nat, |j: int| byte),
        decreases n - i,
    {
        out.push(byte);
        i += 1;
    }
}

/// Appends cells of value zero to `mem` until it holds `len` cells.
fn grow(mem: &mut Vec<u32>, len: usize)
    ensures
        final(mem)@ == grown(old(mem)@, len as nat),
{
    while mem.len() < len
        invariant
            mem@.len() <= len || mem@ == old(mem)@,
            mem@ == grown(old(mem)@, mem@.len()),
        decreases len - mem@.len(),
    {
        mem.push(0);
    }
}

/// A machine.
pub struct Machine {
    cell_size: CellSize,
    ip: usize,
    head: usize,
    mem: Vec<u32>,
    consumed: usize,
    output: Vec<u8>,
    fault: Option<Fault>,
}

impl View for Machine {
    type V = State;

    closed spec fn view(&self) -> State {
        State {
            cell_size: self.cell_size,
            pc: self.ip as nat,
            head: self.head as nat,
            tape: self.mem@,
            consumed: self.consumed as nat,
            output: self.output@,
            fault: self.fault,
        }
    }
}

impl Machine {
    /// The machine is well formed: its head is on its tape, and its cells are within its
    /// width. Every machine that this module hands out is.
    pub open spec fn wf(&self) -> bool {
        self@.wf()
    }

    /// A machine in its initial state.
    pub fn new(cell_size: CellSize) -> (machine: Self)
        ensures
            machine@ == State::initial(cell_size),
            machine.wf(),
    {
        let mut mem: Vec<u32> = Vec::new();
        mem.push(0);
        let machine = Machine {
            cell_size,
            ip: 0,
            head: 0,
            mem,
            consumed: 0,
            output: Vec::new(),
            fault: None,
        };
        proof {
            assert(machine@.tape =~= seq![0u32]);
            assert(machine@.output =~= Seq::<u8>::empty());
        }
        machine
    }

    /// Executes the next instruction of `program`, with `input` as the whole input read
    /// so far.
    ///
    /// Returns `false`, and leaves the machine as it is, where the instruction would take
    /// the head beyond what the machine can address. Returns `true` in every other case,
    /// also where the machine has halted or faulted and so stays as it is.
    pub fn step(&mut self, program: &Ops, input: &[u8]) -> (taken: bool)
        requires
            old(self).wf(),
        ensures
            final(self).wf(),
            taken == old(self)@.in_reach(program@),
            final(self)@ == (if taken {
                old(self)@.step(program@, input@)
            } else {
                old(self)@
            }),
    {
        if self.fault.is_some() {
            return true;
        }
        if self.ip >= program.len() {
            return true;
        }
        let op: Op = program.as_slice()[self.ip];
        let cell: u32 = self.mem[self.head];
        match op {
            Op::Add(n) => {
                let sum: u32 = self.cell_size.plus(cell, n);
                self.mem[self.head] = sum;
                self.ip += 1;
            },
            Op::Sub(n) => {
                let difference: u32 = self.cell_size.minus(cell, n);
                self.mem[self.head] = difference;
                self.ip += 1;
            },
            Op::MoveLeft(n) => {
                if self.head < n {
                    self.fault = Some(Fault::MemoryUnderflow);
                } else {
                    self.head -= n;
                    self.ip += 1;
                }
            },
            Op::MoveRight(n) => {
                if n >= usize::MAX - self.head {
                    return false;
                }
                let target: usize = self.head + n;
                grow(&mut self.mem, target + 1);
                self.head = target;
                self.ip += 1;
            },
            Op::Input(n) => {
                let left: usize = if self.consumed <= input.len() {
                    input.len() - self.consumed
                } else {
                    0
                };
                if n > left {
                    self.fault = Some(Fault::InputExhausted);
                } else {
                    if n > 0 {
                        let byte: u8 = input[self.consumed + n - 1];
                        self.mem[self.head] = byte as u32;
                    }
                    self.consumed += n;
                    self.ip += 1;
                }
            },
            Op::Output(n) => {
                let byte: u8 = (cell % 0x100) as u8;
                emit(&mut self.output, byte, n);
                self.ip += 1;
            },
            Op::JumpIfZero(target) => {
                if cell == 0 {
                    self.ip = target;
                } else {
                    self.ip += 1;
                }
            },
            Op::JumpIfNonZero(target) => {
                if cell != 0 {
                    self.ip = target;
                } else {
                    self.ip += 1;
                }
            },
        }
        true
    }

    /// Executes instructions of `program` until the machine halts or faults, or cannot
    /// address the cell it is to move to, or has taken `budget` steps. Returns the number
    /// of steps taken.
    pub fn run(&mut self, program: &Ops, input: &[u8], budget: u64) -> (steps: u64)
        requires
            old(self).wf(),
        ensures
            final(self).wf(),
            steps <= budget,
            final(self)@ == old(self)@.run(program@, input@, steps as nat),
            forall|n: nat|
                n < steps ==> (#[trigger] old(self)@.run(program@, input@, n)).proceeds(program@),
            steps < budget ==> !final(self)@.proceeds(program@),
    {
        let mut steps: u64 = 0;
        while steps < budget
            invariant
                self.wf(),
                steps <= budget,
                self@ == old(self)@.run(program@, input@, steps as nat),
                forall|n: nat|
                    n < steps ==> (#[trigger] old(self)@.run(program@, input@, n)).proceeds(
                        program@,
                    ),
            ensures
                steps < budget ==> !self@.proceeds(program@),
            decreases budget - steps,
        {
            if self.status(program) != Status::Running {
                break ;
            }
            if !self.step(program, input) {
                break ;
            }
            steps += 1;
        }
        steps
    }

    pub fn status(&self, program: &Ops) -> (status: Status)
        ensures
            status == self@.status(program@),
    {
        match self.fault {
            Some(fault) => Status::Faulted(fault),
            None => if self.ip >= program.len() {
                Status::Halted
            } else {
                Status::Running
            },
        }
    }

    pub fn cell_size(&self) -> (cell_size: CellSize)
        ensures
            cell_size == self@.cell_size,
    {
        self.cell_size
    }

    /// The program counter.
    pub fn pc(&self) -> (pc: usize)
        ensures
            pc == self@.pc,
    {
        self.ip
    }

    /// The index of the current cell.
    pub fn head(&self) -> (head: usize)
        ensures
            head == self@.head,
    {
        self.head
    }

    /// The cells.
    pub fn tape(&self) -> (tape: &[u32])
        ensures
            tape@ == self@.tape,
    {
        self.mem.as_slice()
    }

    /// The number of input bytes consumed.
    pub fn consumed(&self) -> (consumed: usize)
        ensures
            consumed == self@.consumed,
    {
        self.consumed
    }

    /// The number of input bytes that the next step consumes if they are there: the count
    /// of the `Input` instruction that the machine is at, and zero anywhere else.
    pub fn demand(&self, program: &Ops) -> (n: usize)
        ensures
            n == (if self@.status(program@) == Status::Running {
                match program@[self@.pc as int] {
                    Op::Input(n) => n,
                    _ => 0usize,
                }
            } else {
                0usize
            }),
    {
        if self.fault.is_some() {
            return 0;
        }
        match program.get(self.ip) {
            Some(Op::Input(n)) => n,
            _ => 0,
        }
    }

    /// The bytes put out and not yet taken.
    pub fn output(&self) -> (output: &[u8])
        ensures
            output@ == self@.output,
    {
        self.output.as_slice()
    }

    /// Hands over the bytes put out, and leaves the machine with none.
    pub fn take_output(&mut self) -> (output: Vec<u8>)
        ensures
            output@ == old(self)@.output,
            final(self)@ == (State { output: Seq::empty(), ..old(self)@ }),
            old(self).wf() ==> final(self).wf(),
    {
        let mut output: Vec<u8> = Vec::new();
        core::mem::swap(&mut output, &mut self.output);
        output
    }
}

impl Ops {
    /// Runs this program on a new machine with cells of width `cell_size`, for `budget`
    /// steps at most. Returns the machine as the run left it, and the number of steps
    /// taken.
    pub fn interpret(&self, cell_size: CellSize, input: &[u8], budget: u64) -> (r: (Machine, u64))
        ensures
            r.0.wf(),
            r.1 <= budget,
            r.0@ == State::initial(cell_size).run(self@, input@, r.1 as nat),
            forall|n: nat|
                n < r.1 ==> (#[trigger] State::initial(cell_size).run(self@, input@, n)).proceeds(
                    self@,
                ),
            r.1 < budget ==> !r.0@.proceeds(self@),
    {
        let mut machine = Machine::new(cell_size);
        let steps: u64 = machine.run(self, input, budget);
        (machine, steps)
    }
}

} // verus!

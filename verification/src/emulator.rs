//! The interpreter: a fetch, publish, apply, advance cycle over a program.

use vstd::prelude::*;
use crate::instruction::{ops, Instruction, Op};
use crate::registry::{read, written, Registry};

verus! {

/// An arithmetic fault, which ends a run for good.
#[derive(Debug, Clone, Copy, PartialEq, Eq)]
pub enum Fault {
    /// A division whose divisor register holds 0.
    DivisionByZero,
    /// A sum or product too large for a register, or a difference below 0.
    Overflow,
}

/// What one cycle, or a whole run, ended in.
#[derive(Debug, Clone, Copy, PartialEq, Eq)]
pub enum Outcome {
    /// An instruction was applied and the program counter advanced.
    Running,
    /// A halt was fetched, or the program counter stands past the program.
    Halted,
    /// The fetched instruction faulted and was not applied.
    Faulted(Fault),
}

/// The machine: program counter, program, registers and the instruction
/// fetched last.
pub struct Emulator {
    pub pc: usize,
    pub instructions: Vec<Instruction>,
    pub registers: Registry,
    pub inst: Instruction,
}

/// The state of a machine apart from its program.
pub struct Snapshot {
    pub pc: nat,
    pub registers: Seq<usize>,
    pub current: Op,
}

/// The registers after `op` is applied, or the fault that it raises.
pub open spec fn effect(op: Op, registers: Seq<usize>) -> Result<Seq<usize>, Fault> {
    match op {
        Op::Reg(r, v) => Ok(written(registers, r, v)),
        Op::Add(x, y, d) => {
            let sum = read(registers, x) + read(registers, y);
            if sum > usize::MAX {
                Err(Fault::Overflow)
            } else {
                Ok(written(registers, d, sum as usize))
            }
        },
        Op::Sub(x, y, d) => {
            let difference = read(registers, x) - read(registers, y);
            if difference < 0 {
                Err(Fault::Overflow)
            } else {
                Ok(written(registers, d, difference as usize))
            }
        },
        Op::Mul(x, y, d) => {
            let product = read(registers, x) * read(registers, y);
            if product > usize::MAX {
                Err(Fault::Overflow)
            } else {
                Ok(written(registers, d, product as usize))
            }
        },
        Op::Div(x, y, d) => {
            if read(registers, y) == 0 {
                Err(Fault::DivisionByZero)
            } else {
                Ok(written(registers, d, (read(registers, x) / read(registers, y)) as usize))
            }
        },
        _ => Ok(registers),
    }
}

/// One cycle. Past the end of the program nothing changes and the machine
/// is halted. Otherwise the instruction at the program counter becomes the
/// current one; a halt stops there; a fault leaves registers and program
/// counter as they were; anything else is applied and the counter advances
/// by one.
pub open spec fn next(program: Seq<Op>, s: Snapshot) -> (Snapshot, Outcome) {
    if s.pc >= program.len() {
        (s, Outcome::Halted)
    } else {
        let op = program[s.pc as int];
        let fetched = Snapshot { pc: s.pc, registers: s.registers, current: op };
        if op is Hlt {
            (fetched, Outcome::Halted)
        } else {
            match effect(op, s.registers) {
                Err(fault) => (fetched, Outcome::Faulted(fault)),
                Ok(registers) => (
                    Snapshot { pc: s.pc + 1, registers, current: op },
                    Outcome::Running,
                ),
            }
        }
    }
}

/// Cycles repeated until one does not leave the machine running.
pub open spec fn finish(program: Seq<Op>, s: Snapshot) -> (Snapshot, Outcome)
    decreases program.len() - s.pc,
{
    let (after, outcome) = next(program, s);
    if outcome is Running {
        finish(program, after)
    } else {
        (after, outcome)
    }
}

impl Emulator {
    /// The state of the machine apart from its program.
    pub open spec fn snapshot(&self) -> Snapshot {
        Snapshot { pc: self.pc as nat, registers: self.registers@, current: self.inst@ }
    }

    /// A machine at the start of `instructions`, with every register at zero.
    pub fn new(instructions: Vec<Instruction>) -> (res: Emulator)
        ensures
            res.instructions == instructions,
            res.pc == 0,
            res.registers@ == Seq::new(8, |i: int| 0usize),
            res.inst@ == Op::Hlt,
    {
        Emulator { pc: 0, instructions, registers: Registry::new(), inst: Instruction::Hlt }
    }

    /// Runs one cycle.
    pub fn step(&mut self) -> (outcome: Outcome)
        ensures
            final(self).instructions == old(self).instructions,
            (final(self).snapshot(), outcome) == next(
                ops(old(self).instructions@),
                old(self).snapshot(),
            ),
    {
        if self.pc >= self.instructions.len() {
            return Outcome::Halted;
        }
        let fetched = self.instructions[self.pc].clone();
        let outcome = match &fetched {
            Instruction::Hlt => Outcome::Halted,
            Instruction::Reg(r, v) => {
                self.registers.set(*r, *v);
                Outcome::Running
            },
            Instruction::Add(x, y, d) => {
                match self.registers.get(*x).checked_add(self.registers.get(*y)) {
                    Some(sum) => {
                        self.registers.set(*d, sum);
                        Outcome::Running
                    },
                    None => Outcome::Faulted(Fault::Overflow),
                }
            },
            Instruction::Sub(x, y, d) => {
                match self.registers.get(*x).checked_sub(self.registers.get(*y)) {
                    Some(difference) => {
                        self.registers.set(*d, difference);
                        Outcome::Running
                    },
                    None => Outcome::Faulted(Fault::Overflow),
                }
            },
            Instruction::Mul(x, y, d) => {
                match self.registers.get(*x).checked_mul(self.registers.get(*y)) {
                    Some(product) => {
                        self.registers.set(*d, product);
                        Outcome::Running
                    },
                    None => Outcome::Faulted(Fault::Overflow),
                }
            },
            Instruction::Div(x, y, d) => {
                let divisor = self.registers.get(*y);
                if divisor == 0 {
                    Outcome::Faulted(Fault::DivisionByZero)
                } else {
                    let quotient = self.registers.get(*x) / divisor;
                    self.registers.set(*d, quotient);
                    Outcome::Running
                }
            },
            Instruction::Label(_) => Outcome::Running,
            Instruction::Jmp(_) => Outcome::Running,
        };
        self.inst = fetched;
        match outcome {
            Outcome::Running => {
                self.pc = self.pc + 1;
            },
            _ => {},
        }
        outcome
    }

    /// Runs cycles until the machine halts or faults. The end state and the
    /// outcome are a function of the program and the state at the start.
    pub fn run(&mut self) -> (outcome: Outcome)
        ensures
            final(self).instructions == old(self).instructions,
            (final(self).snapshot(), outcome) == finish(
                ops(old(self).instructions@),
                old(self).snapshot(),
            ),
            !(outcome is Running),
    {
        loop
            invariant
                self.instructions == old(self).instructions,
                finish(ops(self.instructions@), self.snapshot()) == finish(
                    ops(old(self).instructions@),
                    old(self).snapshot(),
                ),
            decreases
                    (if self.pc <= self.instructions.len() {
                        self.instructions.len() - self.pc + 1
                    } else {
                        0
                    }),
        {
            let outcome = self.step();
            match outcome {
                Outcome::Running => {},
                _ => {
                    return outcome;
                },
            }
        }
    }
}

/// There is no way on from a stop: after a cycle that halted or faulted,
/// the next cycle ends in the same way and changes nothing.
pub proof fn lemma_stopped_stays(program: Seq<Op>, s: Snapshot)
    requires
        !(next(program, s).1 is Running),
    ensures
        next(program, next(program, s).0) == next(program, s),
{
}

/// A run ends halted or faulted, with the program counter no further than
/// the end of the program or where it began.
pub proof fn lemma_finish_stops(program: Seq<Op>, s: Snapshot)
    ensures
        !(finish(program, s).1 is Running),
        finish(program, s).0.pc <= program.len() || finish(program, s).0.pc == s.pc,
        s.pc <= finish(program, s).0.pc,
    decreases program.len() - s.pc,
{
    let (after, outcome) = next(program, s);
    if outcome is Running {
        lemma_finish_stops(program, after);
    }
}

} // verus!

//! The machine: its state, and what one instruction does to it.

use crate::program::{paired, Instruction};
use vstd::prelude::*;

verus! {

/// The state of a machine: a program that never changes, and what running it
/// has changed so far.
pub struct Machine {
    /// The compiled program.
    pub code: Seq<Instruction>,
    /// The position in `code` of the instruction to execute next.
    pub counter: nat,
    /// The tape of 256 cells.
    pub tape: Seq<u8>,
    /// The position on the tape of the current cell.
    pub pointer: u8,
    /// The characters written so far.
    pub output: Seq<char>,
}

/// `v + 1` modulo 256.
pub open spec fn wrapping_inc(v: u8) -> u8 {
    if v == 255 {
        0
    } else {
        (v + 1) as u8
    }
}

/// `v - 1` modulo 256.
pub open spec fn wrapping_dec(v: u8) -> u8 {
    if v == 0 {
        255
    } else {
        (v - 1) as u8
    }
}

impl Machine {
    /// A fresh machine for `code`: the tape zeroed, pointer and counter at 0,
    /// nothing written.
    pub open spec fn boot(code: Seq<Instruction>) -> Machine {
        Machine {
            code,
            counter: 0,
            tape: Seq::new(256, |i: int| 0u8),
            pointer: 0,
            output: Seq::empty(),
        }
    }

    /// The counter has left the program: nothing is left to execute.
    pub open spec fn halted(self) -> bool {
        self.counter >= self.code.len()
    }

    /// The value of the current cell.
    pub open spec fn cell(self) -> u8 {
        self.tape[self.pointer as int]
    }

    /// The tape has its 256 cells, the counter is in the program or just
    /// behind it, and the program's branches are paired.
    pub open spec fn well_formed(self) -> bool {
        &&& self.tape.len() == 256
        &&& self.counter <= self.code.len()
        &&& paired(self.code)
    }

    /// The state with the current cell set to `v`.
    pub open spec fn store(self, v: u8) -> Machine {
        Machine { tape: self.tape.update(self.pointer as int, v), ..self }
    }

    /// The state with the counter set to `target`.
    pub open spec fn jump(self, target: nat) -> Machine {
        Machine { counter: target, ..self }
    }

    /// What the instruction `op` does, before the counter advances.
    pub open spec fn apply(self, op: Instruction) -> Machine {
        match op {
            Instruction::MoveRight => Machine { pointer: wrapping_inc(self.pointer), ..self },
            Instruction::MoveLeft => Machine { pointer: wrapping_dec(self.pointer), ..self },
            Instruction::Increment => self.store(wrapping_inc(self.cell())),
            Instruction::Decrement => self.store(wrapping_dec(self.cell())),
            Instruction::Output => Machine { output: self.output.push(self.cell() as char), ..self },
            Instruction::Input => self.store(0),
            Instruction::BranchIfZero(target) => if self.cell() == 0 {
                self.jump(target)
            } else {
                self
            },
            Instruction::BranchIfNonzero(target) => if self.cell() != 0 {
                self.jump(target)
            } else {
                self
            },
        }
    }

    /// The state after one step: a halted machine stays as it is; a running
    /// one executes the instruction under the counter and then advances the
    /// counter by one, also after a jump.
    pub open spec fn step(self) -> Machine {
        if self.halted() {
            self
        } else {
            let next = self.apply(self.code[self.counter as int]);
            next.jump(next.counter + 1)
        }
    }

    /// The state after `n` steps.
    pub open spec fn steps(self, n: nat) -> Machine
        decreases n,
    {
        if n == 0 {
            self
        } else {
            self.steps((n - 1) as nat).step()
        }
    }

    /// A step keeps a well-formed machine well formed, and never touches the
    /// program.
    pub proof fn lemma_step_well_formed(self)
        requires
            self.well_formed(),
        ensures
            self.step().well_formed(),
            self.step().code == self.code,
    {
        if !self.halted() {
            let op = self.code[self.counter as int];
            assert(self.apply(op).code == self.code);
            assert(self.apply(op).tape.len() == 256);
        }
    }

    /// Any number of steps keeps a well-formed machine well formed, and never
    /// touches the program.
    pub proof fn lemma_steps_well_formed(self, n: nat)
        requires
            self.well_formed(),
        ensures
            self.steps(n).well_formed(),
            self.steps(n).code == self.code,
        decreases n,
    {
        if n > 0 {
            self.lemma_steps_well_formed((n - 1) as nat);
            self.steps((n - 1) as nat).lemma_step_well_formed();
        }
    }

    /// A halted machine stays as it is, however many steps are taken.
    pub proof fn lemma_halted_stays(self, n: nat)
        requires
            self.halted(),
        ensures
            self.steps(n) == self,
        decreases n,
    {
        if n > 0 {
            self.lemma_halted_stays((n - 1) as nat);
        }
    }

    /// Taking `a` steps and then `b` more is taking `a + b` steps.
    pub proof fn lemma_steps_add(self, a: nat, b: nat)
        ensures
            self.steps(a).steps(b) == self.steps(a + b),
        decreases b,
    {
        if b > 0 {
            self.lemma_steps_add(a, (b - 1) as nat);
        }
    }

    /// A machine that has halted after `n` steps is in that same state after
    /// any greater number of steps.
    pub proof fn lemma_halt_is_final(self, n: nat, m: nat)
        requires
            self.steps(n).halted(),
            n <= m,
        ensures
            self.steps(m) == self.steps(n),
    {
        self.lemma_steps_add(n, (m - n) as nat);
        self.steps(n).lemma_halted_stays((m - n) as nat);
    }

    /// The state after `k` moves to the right and nothing else.
    pub open spec fn moved_right(self, k: nat) -> Machine {
        Machine {
            counter: self.counter + k,
            pointer: ((self.pointer + k) % 256) as u8,
            ..self
        }
    }

    /// Executing `k` times `>` in a row moves the pointer `k` cells to the
    /// right, around the end of the tape, and changes nothing else.
    pub proof fn lemma_moves_right(self, k: nat)
        requires
            self.counter + k <= self.code.len(),
            forall|i: int|
                self.counter <= i < self.counter + k ==> self.code[i] == Instruction::MoveRight,
        ensures
            self.steps(k) == self.moved_right(k),
        decreases k,
    {
        if k > 0 {
            self.lemma_moves_right((k - 1) as nat);
            let before = self.moved_right((k - 1) as nat);
            assert(before.code[before.counter as int] == Instruction::MoveRight);
        }
    }

    /// Executing 256 times `>` in a row brings the pointer back to the
    /// cell that it started from.
    pub proof fn lemma_full_circle(self)
        requires
            self.counter + 256 <= self.code.len(),
            forall|i: int|
                self.counter <= i < self.counter + 256 ==> self.code[i] == Instruction::MoveRight,
        ensures
            self.steps(256) == self.jump(self.counter + 256),
    {
        self.lemma_moves_right(256);
    }
}

} // verus!

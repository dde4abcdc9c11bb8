//! The interpreter: a compiler from source text to instructions, and an
//! engine that executes them one at a time within a step budget.

use crate::machine::Machine;
use crate::pairing::{
    lemma_read_all, lemma_read_close, lemma_read_nothing, lemma_read_open, lemma_read_plain,
    reading,
};
use crate::program::{
    commands, instruction_at, is_command, lemma_commands_push, lemma_level_next, level, nested,
    paired, program, Instruction,
};
use std::collections::VecDeque;
use vstd::prelude::*;
use vstd::std_specs::convert::TryFromSpecImpl;
use vstd::string::StringExecFns;

verus! {

/// The ways in which compiling or running a program can fail.
#[derive(Debug, Clone, Copy, PartialEq, Eq, Structural)]
pub enum InterpreterError {
    /// A `[` without its `]`, or a `]` without its `[`.
    UnbalancedBrackets,
    /// The step budget ran out while the program was still running.
    TickLimitReached,
}

impl InterpreterError {
    /// The name of the error, as it is shown to a user.
    pub open spec fn name_of(self) -> Seq<char> {
        match self {
            InterpreterError::UnbalancedBrackets => "UnbalancedBrackets"@,
            InterpreterError::TickLimitReached => "TickLimitReached"@,
        }
    }

    /// The name of the error, as it is shown to a user.
    pub fn name(&self) -> (text: String)
        ensures
            text@ == self.name_of(),
    {
        match self {
            InterpreterError::UnbalancedBrackets => String::from_str("UnbalancedBrackets"),
            InterpreterError::TickLimitReached => String::from_str("TickLimitReached"),
        }
    }
}

/// `String::push` appends the character to the end of the string.
pub assume_specification[ String::push ](s: &mut String, c: char)
    ensures
        final(s)@ == old(s)@.push(c),
;

/// One instruction of a compiled program, as the interpreter holds it. The
/// operand of a branch is the position of the bracket that it is paired with.
#[derive(Debug, Clone, Copy, PartialEq, Eq, Structural)]
pub enum Symbol {
    /// `>`
    Right,
    /// `<`
    Left,
    /// `+`
    Increment,
    /// `-`
    Decrement,
    /// `.`
    Output,
    /// `,`
    Input,
    /// `[`
    BranchZero(usize),
    /// `]`
    BranchNonzero(usize),
}

impl View for Symbol {
    type V = Instruction;

    open spec fn view(&self) -> Instruction {
        match self {
            Symbol::Right => Instruction::MoveRight,
            Symbol::Left => Instruction::MoveLeft,
            Symbol::Increment => Instruction::Increment,
            Symbol::Decrement => Instruction::Decrement,
            Symbol::Output => Instruction::Output,
            Symbol::Input => Instruction::Input,
            Symbol::BranchZero(target) => Instruction::BranchIfZero(*target as nat),
            Symbol::BranchNonzero(target) => Instruction::BranchIfNonzero(*target as nat),
        }
    }
}

/// The instructions that a sequence of symbols stands for.
pub open spec fn models(code: Seq<Symbol>) -> Seq<Instruction> {
    code.map_values(|s: Symbol| s@)
}

/// The positions on the stack, as integers.
spec fn positions(stack: Seq<usize>) -> Seq<int> {
    stack.map_values(|p: usize| p as int)
}

/// A compiled program: built once, never changed, its branches paired.
struct Code {
    symbols: Vec<Symbol>,
}

impl Code {
    #[verifier::type_invariant]
    spec fn well_formed(&self) -> bool {
        paired(models(self.symbols@))
    }
}

/// A compiled program together with the state of the machine that runs it.
pub struct Interpreter {
    code: Code,
    counter: usize,
    memory: [u8; 256],
    output: Vec<char>,
    pointer: u8,
}

impl View for Interpreter {
    type V = Machine;

    closed spec fn view(&self) -> Machine {
        Machine {
            code: models(self.code.symbols@),
            counter: self.counter as nat,
            tape: self.memory@,
            pointer: self.pointer,
            output: self.output@,
        }
    }
}

impl Interpreter {
    /// The position on the tape of the current cell.
    pub fn pointer(&self) -> (at: u8)
        ensures
            at == self@.pointer,
    {
        self.pointer
    }

    /// The position in the program of the instruction to execute next.
    pub fn counter(&self) -> (at: usize)
        ensures
            at == self@.counter,
    {
        self.counter
    }

    /// The compiled program.
    pub fn code(&self) -> (code: &Vec<Symbol>)
        ensures
            models(code@) == self@.code,
    {
        &self.code.symbols
    }

    /// The tape.
    pub fn memory(&self) -> (tape: &[u8; 256])
        ensures
            tape@ == self@.tape,
    {
        &self.memory
    }

    /// Whether nothing is left to execute.
    pub fn halted(&self) -> (done: bool)
        ensures
            done == self@.halted(),
    {
        self.counter >= self.code.symbols.len()
    }

    /// The text written so far.
    pub fn output(&self) -> (text: String)
        ensures
            text@ == self@.output,
    {
        let mut text = String::new();
        let mut i: usize = 0;
        while i < self.output.len()
            invariant
                i <= self.output.len(),
                text@ == self.output@.take(i as int),
            decreases self.output.len() - i,
        {
            text.push(self.output[i]);
            i += 1;
            assert(self.output@.take(i as int) =~= self.output@.take(i - 1).push(
                self.output@[i - 1],
            ));
        }
        assert(self.output@.take(i as int) =~= self.output@);
        text
    }

    /// Takes up to `len` steps, stopping early once the machine has halted.
    /// Returns what was written if the machine has halted by then, and
    /// `TickLimitReached` if it is still running.
    pub fn run(&mut self, len: usize) -> (res: Result<String, InterpreterError>)
        ensures
            final(self)@ == old(self)@.steps(len as nat),
            match res {
                Ok(text) => final(self)@.halted() && text@ == final(self)@.output,
                Err(e) => !final(self)@.halted() && e == InterpreterError::TickLimitReached,
            },
    {
        let ghost start = self@;
        let mut lcv: usize = 0;
        while lcv < len && self.counter < self.code.symbols.len()
            invariant
                lcv <= len,
                self@ == start.steps(lcv as nat),
            decreases len - lcv,
        {
            self.tick();
            lcv += 1;
        }
        proof {
            if lcv < len {
                start.lemma_halt_is_final(lcv as nat, len as nat);
            }
        }
        if self.counter >= self.code.symbols.len() {
            Ok(self.output())
        } else {
            Err(InterpreterError::TickLimitReached)
        }
    }

    /// Takes one step: does nothing once the machine has halted, and
    /// otherwise executes the instruction under the counter.
    pub fn tick(&mut self)
        ensures
            final(self)@ == old(self)@.step(),
    {
        proof {
            use_type_invariant(&self.code);
        }
        if self.counter < self.code.symbols.len() {
            let ghost before = self@;
            let at: usize = self.pointer as usize;
            let symbol: Symbol = self.code.symbols[self.counter];
            assert(before.code[before.counter as int] == symbol@);
            match symbol {
                Symbol::Right => {
                    self.pointer = self.pointer.wrapping_add(1);
                },
                Symbol::Left => {
                    self.pointer = self.pointer.wrapping_sub(1);
                },
                Symbol::Increment => {
                    self.memory[at] = self.memory[at].wrapping_add(1);
                },
                Symbol::Decrement => {
                    self.memory[at] = self.memory[at].wrapping_sub(1);
                },
                Symbol::Output => {
                    self.output.push(self.memory[at] as char);
                },
                Symbol::Input => {
                    self.memory[at] = 0;
                },
                Symbol::BranchZero(branch) => {
                    if self.memory[at] == 0 {
                        self.counter = branch;
                    }
                },
                Symbol::BranchNonzero(branch) => {
                    if self.memory[at] != 0 {
                        self.counter = branch;
                    }
                },
            }
            assert(self@.tape =~= before.apply(symbol@).tape);
            assert(self@ == before.apply(symbol@));
            self.counter += 1;
        }
    }
}

/// What compiling the text `src` returns: a fresh machine for the program
/// that `src` denotes if its brackets are balanced, and `UnbalancedBrackets`
/// if they are not.
pub open spec fn compiled(src: Seq<char>, res: Result<Interpreter, InterpreterError>) -> bool {
    match res {
        Ok(vm) => nested(src) && vm@ == Machine::boot(program(src)),
        Err(e) => !nested(src) && e == InterpreterError::UnbalancedBrackets,
    }
}

/// Compiling the same text twice gives the same outcome: both fail, or both
/// succeed with the same program in the same fresh state.
pub proof fn lemma_compile_idempotent(
    src: Seq<char>,
    first: Result<Interpreter, InterpreterError>,
    second: Result<Interpreter, InterpreterError>,
)
    requires
        compiled(src, first),
        compiled(src, second),
    ensures
        first is Ok <==> second is Ok,
        first is Ok ==> first->Ok_0@ == second->Ok_0@,
        first is Err ==> first->Err_0 == second->Err_0,
{
}

impl TryFrom<String> for Interpreter {
    type Error = InterpreterError;

    /// Compiles `src` in one pass from left to right. Characters that are no
    /// commands are skipped.
    fn try_from(src: String) -> (res: Result<Interpreter, InterpreterError>)
        ensures
            compiled(src@, res),
            res matches Ok(vm) ==> paired(vm@.code),
    {
        let mut code: Vec<Symbol> = Vec::new();
        let mut stack: VecDeque<usize> = VecDeque::new();
        let ghost mut cmds: Seq<char> = Seq::empty();
        proof {
            assert(src@.take(0) =~= Seq::<char>::empty());
            assert(commands(Seq::<char>::empty()) =~= Seq::<char>::empty()) by {
                reveal(Seq::filter);
            }
            assert(models(code@) =~= Seq::empty());
            assert(positions(stack@) =~= Seq::empty());
            lemma_read_nothing();
        }
        for c in it: src.as_str().chars()
            invariant
                it.seq() == src@,
                cmds == commands(src@.take(it.index() as int)),
                reading(cmds, models(code@), positions(stack@)),
                level(src@, it.index() as int) == stack@.len(),
                forall|k: int| 0 <= k <= it.index() ==> #[trigger] level(src@, k) >= 0,
        {
            let ghost read = it.index() as int;
            let ghost seen = cmds;
            let ghost built = models(code@);
            let ghost open = positions(stack@);
            proof {
                assert(src@.take(read + 1) =~= src@.take(read).push(c));
                lemma_commands_push(src@.take(read), c);
                lemma_level_next(src@, read);
                if is_command(c) {
                    cmds = seen.push(c);
                }
            }
            match c {
                '>' => code.push(Symbol::Right),
                '<' => code.push(Symbol::Left),
                '+' => code.push(Symbol::Increment),
                '-' => code.push(Symbol::Decrement),
                '.' => code.push(Symbol::Output),
                ',' => code.push(Symbol::Input),
                '[' => {
                    stack.push_back(code.len());
                    code.push(Symbol::BranchZero(0));
                },
                ']' => {
                    if let Some(matching) = stack.pop_back() {
                        proof {
                            lemma_read_close(seen, built, open);
                        }
                        let position = code.len();
                        code[matching] = Symbol::BranchZero(position);
                        code.push(Symbol::BranchNonzero(matching));
                    } else {
                        assert(level(src@, read + 1) < 0);
                        return Err(InterpreterError::UnbalancedBrackets);
                    }
                },
                _ => {},
            }
            proof {
                if c == '[' {
                    lemma_read_open(seen, built, open);
                    assert(models(code@) =~= built.push(Instruction::BranchIfZero(0)));
                    assert(positions(stack@) =~= open.push(seen.len() as int));
                } else if c == ']' {
                    assert(models(code@) =~= built.update(
                        open.last(),
                        Instruction::BranchIfZero(seen.len()),
                    ).push(Instruction::BranchIfNonzero(open.last() as nat)));
                    assert(positions(stack@) =~= open.drop_last());
                } else if is_command(c) {
                    lemma_read_plain(seen, built, open, c);
                    assert(models(code@) =~= built.push(instruction_at(cmds, seen.len() as int)));
                }
            }
        }
        proof {
            assert(src@.take(src@.len() as int) =~= src@);
        }
        if stack.len() > 0 {
            return Err(InterpreterError::UnbalancedBrackets);
        }
        proof {
            assert(positions(stack@) =~= Seq::empty());
            lemma_read_all(cmds, models(code@));
        }
        let vm = Interpreter {
            code: Code { symbols: code },
            counter: 0,
            memory: [0;256],
            output: Vec::new(),
            pointer: 0,
        };
        assert(vm@.tape =~= Machine::boot(program(src@)).tape);
        Ok(vm)
    }
}

/// What `try_from` returns is stated by its own contract, over the view of
/// the interpreter: a value of `Interpreter` cannot be written down in a
/// specification.
impl TryFromSpecImpl<String> for Interpreter {
    open spec fn obeys_try_from_spec() -> bool {
        false
    }

    open spec fn try_from_spec(src: String) -> Result<Interpreter, InterpreterError> {
        arbitrary()
    }
}

} // verus!

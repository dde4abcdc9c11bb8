//! The answer to a request to run a program: the source, and below it what
//! the program wrote or why it could not be run to its end.

use crate::bf::{Interpreter, InterpreterError};
use crate::machine::Machine;
use crate::program::{nested, program};
use vstd::prelude::*;
use vstd::string::StringExecFns;

verus! {

/// The number of steps that a request may take.
pub const TICK_LIMIT: usize = 8192;

/// The source, quoted as a block of code.
pub open spec fn quoted(src: Seq<char>) -> Seq<char> {
    "Source: ```Brainfuck\n"@ + src + "\n``` "@
}

/// The answer to a request to run `src`.
pub open spec fn reply_to(src: Seq<char>) -> Seq<char> {
    if !nested(src) {
        quoted(src) + "Compile error: "@ + InterpreterError::UnbalancedBrackets.name_of()
    } else {
        let end = Machine::boot(program(src)).steps(TICK_LIMIT as nat);
        if end.halted() {
            quoted(src) + "Program output: ```\n"@ + end.output + "\n```"@
        } else {
            quoted(src) + "Runtime error: "@ + InterpreterError::TickLimitReached.name_of()
        }
    }
}

/// Compiles `src`, runs it for at most `TICK_LIMIT` steps, and writes the
/// answer: the source, then the output of the program, or the error that
/// stopped it.
pub fn reply(src: &str) -> (text: String)
    ensures
        text@ == reply_to(src@),
{
    let mut text = String::from_str("Source: ```Brainfuck\n");
    text.append(src);
    text.append("\n``` ");
    match Interpreter::try_from(String::from_str(src)) {
        Ok(mut interpreter) => match interpreter.run(TICK_LIMIT) {
            Ok(output) => {
                text.append("Program output: ```\n");
                text.append(output.as_str());
                text.append("\n```");
            },
            Err(e) => {
                text.append("Runtime error: ");
                text.append(e.name().as_str());
            },
        },
        Err(e) => {
            text.append("Compile error: ");
            text.append(e.name().as_str());
        },
    }
    text
}

} // verus!

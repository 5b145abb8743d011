//! The driver: a line of text is tokenized, parsed as a whole and, if it
//! parses, run on an empty stack.

use crate::eval::{eval_all, eval_sequence};
use crate::lexer::tokens_of;
use crate::parser::parse_program;
use crate::value::{terms, ParseError, ParseFault, RuntimeError, Term, Value};
use vstd::prelude::*;

verus! {

/// Why a line could not be run to its end.
#[derive(Debug, PartialEq, Eq)]
pub enum RunError {
    /// The line is no program; nothing of it was run.
    Parse(ParseError),
    /// The program failed while it ran.
    Runtime(RuntimeError),
}

/// The mathematical model of a [`RunError`].
pub enum RunFault {
    Parse(ParseFault),
    Runtime(RuntimeError),
}

impl View for RunError {
    type V = RunFault;

    open spec fn view(&self) -> RunFault {
        match self {
            RunError::Parse(e) => RunFault::Parse(e@),
            RunError::Runtime(e) => RunFault::Runtime(*e),
        }
    }
}

/// The stack that a line of text leaves: the line is cut into tokens and
/// parsed as a whole program; a line that does not parse is not run at all.
/// The items of the program are then applied to an empty stack from left to
/// right, so an operator runs as soon as it is reached, while a block is
/// pushed as it stands.
pub open spec fn run_line(text: Seq<char>) -> Result<Seq<Term>, RunFault> {
    match parse_program(tokens_of(text)) {
        Err(fault) => Err(RunFault::Parse(fault)),
        Ok(program) => match eval_all(program, Seq::empty()) {
            Ok(stack) => Ok(stack),
            Err(e) => Err(RunFault::Runtime(e)),
        },
    }
}

/// Parses a line of text and runs it on an empty stack; returns the stack.
pub fn parse(input: &str) -> (result: Result<Vec<Value>, RunError>)
    ensures
        match result {
            Ok(stack) => run_line(input@) == Ok::<Seq<Term>, RunFault>(terms(stack@)),
            Err(e) => run_line(input@) == Err::<Seq<Term>, RunFault>(e@),
        },
{
    let program = match crate::parser::parse(input) {
        Ok(program) => program,
        Err(e) => {
            return Err(RunError::Parse(e));
        },
    };
    let mut stack: Vec<Value> = Vec::new();
    assert(terms(stack@) =~= Seq::<Term>::empty());
    match eval_sequence(program.as_slice(), &mut stack) {
        Ok(()) => Ok(stack),
        Err(e) => Err(RunError::Runtime(e)),
    }
}

} // verus!

//! An interpreter for a minimal eight-instruction language on a linear
//! byte-addressable memory tape: source bytes are lexed into tokens, the
//! tokens parsed into a tree of instructions with bracket pairs resolved
//! into nested loop nodes, and the tree executed against a fixed-size tape
//! of wrapping byte cells, a wrapping 8-bit data pointer, and a pair of
//! byte streams. Every stage carries a contract over the ghost semantics
//! in [`executor`], and the pipeline [`interpret`] ties them together.

use vstd::prelude::*;

pub mod lexer;
pub mod executor;
pub mod parser;

pub use lexer::Lexem;
pub use lexer::clean_code;
pub use lexer::get_lexems;
pub use lexer::lex_permissive;

pub use parser::Instruction;
pub use parser::parse_into_instructions;

pub use executor::interpret_instructions;

use executor::State;
use executor::Step;
use executor::run_seq;
use executor::state_of;
use executor::step_output;
use lexer::all_symbols;
use lexer::clean_spec;
use lexer::first_bad_at;
use lexer::tokens_of;
use parser::InstrView;
use parser::balanced;
use parser::first_unmatched_end_at;
use parser::flatten;
use parser::never_neg;
use parser::prog_view;
use parser::unmatched_begin_at;

verus! {

/// Number of byte cells on the interpreter's memory tape.
pub const MEMORY_SIZE: usize = 30000;

/// How many loop-body re-evaluations a run of [`interpret`] may spend
/// before it gives up with [`InterpreterError::StepsExhausted`].
pub const STEP_BUDGET: u64 = u64::MAX;

/// Everything that can go wrong while turning source bytes into a program
/// or while running one.
///
/// Lexing and parsing failures carry the offset at which they were detected:
/// `SyntaxError` the offending byte and its position in the cleaned source,
/// `UnmatchedLoopEnd` the position of a `]` that closes nothing, and
/// `UnmatchedLoopBegin` the position of the outermost `[` that is never
/// closed. `InputExhausted` reports a read past the end of the input stream;
/// `StepsExhausted` reports that the executor's step budget ran out.
#[derive(Debug, PartialEq, Eq, Structural)]
pub enum InterpreterError {
    SyntaxError(u8, usize),
    UnmatchedLoopEnd(usize),
    UnmatchedLoopBegin(usize),
    InputExhausted,
    StepsExhausted,
}

/// The state a run of [`interpret`] starts from: a fresh all-zero tape of
/// [`MEMORY_SIZE`] cells, the data pointer at zero, the whole input still
/// to be read, and nothing written yet.
pub open spec fn init_state(input: Seq<u8>) -> State {
    State {
        mem: Seq::new(MEMORY_SIZE as nat, |k: int| 0u8),
        ptr: 0,
        input: input,
        output: Seq::empty(),
    }
}

/// Runs a source program: cleans the source, lexes it strictly, parses it,
/// and executes it against a fresh tape, reading from `input` and returning
/// the bytes the program wrote.
///
/// Structural errors surface before anything runs: the first unrecognized
/// byte of the cleaned source as a syntax error, then the first `]` that
/// closes no loop, then the `[` of the outermost loop never closed. During
/// execution, a read past the end of `input` aborts the run, and a program
/// whose run under a budget of [`STEP_BUDGET`] loop re-evaluations times
/// out — and only such a program — gives up with `StepsExhausted`. On
/// success the output is exactly what the budgeted semantics says the
/// parsed program — the unique program whose tokens are the cleaned
/// source's — writes from [`init_state`].
pub fn interpret(code: Vec<u8>, input: &[u8]) -> (r: Result<Vec<u8>, InterpreterError>)
    ensures
        ({
            let cs = clean_spec(code@);
            let toks = tokens_of(cs);
            match r {
                Ok(out) => {
                    &&& all_symbols(cs)
                    &&& balanced(toks)
                    &&& exists|prog: Seq<InstrView>|
                        {
                            &&& flatten(prog) == toks
                            &&& (#[trigger] run_seq(prog, init_state(input@), STEP_BUDGET as nat)).0
                                is Done
                            &&& step_output(
                                run_seq(prog, init_state(input@), STEP_BUDGET as nat).0,
                            ) == out@
                        }
                },
                Err(e) => match e {
                    InterpreterError::SyntaxError(b, off) => {
                        &&& !all_symbols(cs)
                        &&& first_bad_at(cs, off as int)
                        &&& b == cs[off as int]
                    },
                    InterpreterError::UnmatchedLoopEnd(j) => {
                        &&& all_symbols(cs)
                        &&& !balanced(toks)
                        &&& first_unmatched_end_at(toks, j as int)
                    },
                    InterpreterError::UnmatchedLoopBegin(j) => {
                        &&& all_symbols(cs)
                        &&& !balanced(toks)
                        &&& never_neg(toks)
                        &&& unmatched_begin_at(toks, j as int)
                    },
                    InterpreterError::InputExhausted => {
                        &&& all_symbols(cs)
                        &&& balanced(toks)
                        &&& exists|prog: Seq<InstrView>|
                            {
                                &&& flatten(prog) == toks
                                &&& (#[trigger] run_seq(
                                    prog,
                                    init_state(input@),
                                    STEP_BUDGET as nat,
                                )).0 is Aborted
                            }
                    },
                    InterpreterError::StepsExhausted => {
                        &&& all_symbols(cs)
                        &&& balanced(toks)
                        &&& exists|prog: Seq<InstrView>|
                            {
                                &&& flatten(prog) == toks
                                &&& (#[trigger] run_seq(
                                    prog,
                                    init_state(input@),
                                    STEP_BUDGET as nat,
                                )).0 is Timeout
                            }
                    },
                },
            }
        }),
{
    let cleaned = clean_code(code);
    let ghost cleaned_view = cleaned@;
    let lexems = match get_lexems(cleaned) {
        Ok(l) => l,
        Err(e) => {
            proof {
                assert(cleaned_view == clean_spec(code@));
                assert(!all_symbols(cleaned_view));
                let j: usize = choose|j: usize|
                    #[trigger] first_bad_at(cleaned_view, j as int) && e
                        == InterpreterError::SyntaxError(cleaned_view[j as int], j);
                assert(first_bad_at(clean_spec(code@), j as int));
            }
            return Err(e);
        },
    };
    let instructions = match parse_into_instructions(lexems.as_slice()) {
        Ok(p) => p,
        Err(e) => {
            return Err(e);
        },
    };
    let mut memory: Vec<u8> = Vec::new();
    while memory.len() < MEMORY_SIZE
        invariant
            memory@.len() <= MEMORY_SIZE,
            forall|k: int| 0 <= k < memory@.len() ==> memory@[k] == 0u8,
        decreases MEMORY_SIZE - memory@.len(),
    {
        memory.push(0);
    }
    let mut data_ptr: u8 = 0;
    let mut output: Vec<u8> = Vec::new();
    let mut in_pos: usize = 0;
    let mut budget: u64 = STEP_BUDGET;
    let ghost pre = state_of(memory@, data_ptr, input@, in_pos as int, output@);
    proof {
        assert(memory@ =~= Seq::new(MEMORY_SIZE as nat, |k: int| 0u8));
        assert(input@.skip(0) =~= input@);
        assert(pre == init_state(input@));
    }
    match interpret_instructions(
        instructions.as_slice(),
        &mut memory,
        &mut data_ptr,
        &mut output,
        input,
        &mut in_pos,
        &mut budget,
    ) {
        Ok(_) => {
            proof {
                let post = state_of(memory@, data_ptr, input@, in_pos as int, output@);
                assert(run_seq(prog_view(instructions@), init_state(input@), STEP_BUDGET as nat).0
                    == Step::Done(post));
            }
            Ok(output)
        },
        Err(e) => {
            match e {
                InterpreterError::InputExhausted => {
                    proof {
                        let post = state_of(memory@, data_ptr, input@, in_pos as int, output@);
                        assert(run_seq(
                            prog_view(instructions@),
                            init_state(input@),
                            STEP_BUDGET as nat,
                        ).0 == Step::Aborted(post));
                    }
                    Err(InterpreterError::InputExhausted)
                },
                InterpreterError::StepsExhausted => {
                    proof {
                        assert(run_seq(
                            prog_view(instructions@),
                            init_state(input@),
                            STEP_BUDGET as nat,
                        ).0 is Timeout);
                    }
                    Err(InterpreterError::StepsExhausted)
                },
                _ => {
                    // The executor reports no other error.
                    proof {
                        assert(false);
                    }
                    Err(InterpreterError::StepsExhausted)
                },
            }
        },
    }
}

} // verus!

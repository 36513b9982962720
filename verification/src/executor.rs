use vstd::prelude::*;

use crate::InterpreterError;
use crate::parser::Instruction;
use crate::parser::InstrView;
use crate::parser::instr_view;
use crate::parser::prog_view;
use crate::parser::lemma_prog_view_concat;
use crate::parser::lemma_prog_view_push;

verus! {

/// The whole observable state of a run: the memory tape, the data pointer,
/// the input bytes not yet read, and the output bytes written so far.
pub struct State {
    pub mem: Seq<u8>,
    pub ptr: u8,
    pub input: Seq<u8>,
    pub output: Seq<u8>,
}

/// What running instructions under a loop-iteration budget comes to:
/// `Done` carries the state after the last instruction, `Aborted` the state
/// at a read that found the input exhausted, and `Timeout` says the budget
/// ran out before the program did.
pub enum Step {
    Done(State),
    Aborted(State),
    Timeout,
}

/// A byte one step up, wrapping at its width; used for the data pointer
/// and for cell values alike.
pub open spec fn wrap_inc(x: u8) -> u8 {
    if x == 255 {
        0
    } else {
        (x + 1) as u8
    }
}

/// A byte one step down, wrapping at its width.
pub open spec fn wrap_dec(x: u8) -> u8 {
    if x == 0 {
        255
    } else {
        (x - 1) as u8
    }
}

/// What one direct-effect instruction does to the state: the cell the data
/// pointer selects is read and written at `st.mem[st.ptr]`, cell and
/// pointer arithmetic wrap, a write appends the current cell to the output,
/// and a read takes the next input byte or aborts when there is none.
pub open spec fn step_simple(v: InstrView, st: State) -> Step
    recommends
        !(v is Loop),
{
    match v {
        InstrView::IncrementPointer => Step::Done(State { ptr: wrap_inc(st.ptr), ..st }),
        InstrView::DecrementPointer => Step::Done(State { ptr: wrap_dec(st.ptr), ..st }),
        InstrView::IncrementValue => Step::Done(
            State { mem: st.mem.update(st.ptr as int, wrap_inc(st.mem[st.ptr as int])), ..st },
        ),
        InstrView::DecrementValue => Step::Done(
            State { mem: st.mem.update(st.ptr as int, wrap_dec(st.mem[st.ptr as int])), ..st },
        ),
        InstrView::WriteOperation => Step::Done(
            State { output: st.output.push(st.mem[st.ptr as int]), ..st },
        ),
        InstrView::ReadOperation => {
            if st.input.len() == 0 {
                Step::Aborted(st)
            } else {
                Step::Done(
                    State {
                        mem: st.mem.update(st.ptr as int, st.input[0]),
                        input: st.input.drop_first(),
                        ..st
                    },
                )
            }
        },
        InstrView::Loop(_) => Step::Done(st),
    }
}

/// Runs one instruction from `st`, threading one global budget through the
/// whole run and returning what is left of it. Each time a loop finds its
/// guard cell non-zero it spends one unit before re-evaluating its body; a
/// spend that finds the budget empty ends the run with `(Timeout, 0)`.
/// Direct-effect instructions cost nothing.
///
/// The minimum in the loop case only makes termination of this definition
/// evident; a run never returns more budget than it was given
/// ([`lemma_run_one_budget_bound`]), so the branch that shrinks never runs.
pub open spec fn run_one(v: InstrView, st: State, budget: nat) -> (Step, nat)
    decreases budget, v,
{
    match v {
        InstrView::Loop(body) => {
            if st.mem[st.ptr as int] == 0 {
                (Step::Done(st), budget)
            } else if budget == 0 {
                (Step::Timeout, 0)
            } else {
                let r = run_seq(body, st, (budget - 1) as nat);
                match r.0 {
                    Step::Done(st2) => {
                        let b2 = if r.1 <= budget - 1 {
                            r.1
                        } else {
                            (budget - 1) as nat
                        };
                        run_one(v, st2, b2)
                    },
                    _ => r,
                }
            }
        },
        _ => (step_simple(v, st), budget),
    }
}

/// Runs an instruction sequence from `st`, in order, threading the budget
/// from each instruction into the next.
pub open spec fn run_seq(p: Seq<InstrView>, st: State, budget: nat) -> (Step, nat)
    decreases budget, p,
{
    if p.len() == 0 {
        (Step::Done(st), budget)
    } else {
        let r = run_one(p[0], st, budget);
        match r.0 {
            Step::Done(st2) => {
                let b2 = if r.1 <= budget {
                    r.1
                } else {
                    budget
                };
                run_seq(p.drop_first(), st2, b2)
            },
            _ => r,
        }
    }
}

/// A run never returns more budget than it was given.
pub proof fn lemma_run_one_budget_bound(v: InstrView, st: State, budget: nat)
    ensures
        run_one(v, st, budget).1 <= budget,
    decreases budget, v,
{
    match v {
        InstrView::Loop(body) => {
            if st.mem[st.ptr as int] != 0 && budget != 0 {
                lemma_run_seq_budget_bound(body, st, (budget - 1) as nat);
                let r = run_seq(body, st, (budget - 1) as nat);
                match r.0 {
                    Step::Done(st2) => {
                        lemma_run_one_budget_bound(v, st2, r.1);
                    },
                    _ => {
                    },
                }
            }
        },
        _ => {
        },
    }
}

/// A run never returns more budget than it was given.
pub proof fn lemma_run_seq_budget_bound(p: Seq<InstrView>, st: State, budget: nat)
    ensures
        run_seq(p, st, budget).1 <= budget,
    decreases budget, p,
{
    if p.len() > 0 {
        lemma_run_one_budget_bound(p[0], st, budget);
        let r = run_one(p[0], st, budget);
        match r.0 {
            Step::Done(st2) => {
                lemma_run_seq_budget_bound(p.drop_first(), st2, r.1);
            },
            _ => {
            },
        }
    }
}

/// Running a concatenation runs the first part, then the second from the
/// state and budget where the first left off.
pub proof fn lemma_run_seq_concat(p: Seq<InstrView>, q: Seq<InstrView>, st: State, budget: nat)
    ensures
        run_seq(p + q, st, budget) == (match run_seq(p, st, budget) {
            (Step::Done(st1), b1) => run_seq(q, st1, b1),
            r => r,
        }),
    decreases p.len(),
{
    if p.len() == 0 {
        assert(p + q =~= q);
    } else {
        assert((p + q)[0] == p[0]);
        assert((p + q).drop_first() =~= p.drop_first() + q);
        lemma_run_one_budget_bound(p[0], st, budget);
        let r = run_one(p[0], st, budget);
        match r.0 {
            Step::Done(st2) => {
                lemma_run_seq_concat(p.drop_first(), q, st2, r.1);
            },
            _ => {
            },
        }
    }
}

/// Appending one instruction to a program appends its effect to the run.
pub proof fn lemma_run_seq_push(p: Seq<InstrView>, v: InstrView, st: State, budget: nat)
    ensures
        run_seq(p.push(v), st, budget) == (match run_seq(p, st, budget) {
            (Step::Done(st1), b1) => run_one(v, st1, b1),
            r => r,
        }),
{
    assert(p.push(v) =~= p + seq![v]);
    lemma_run_seq_concat(p, seq![v], st, budget);
    match run_seq(p, st, budget) {
        (Step::Done(st1), b1) => {
            assert(seq![v][0] == v);
            assert(seq![v].drop_first() =~= Seq::<InstrView>::empty());
            lemma_run_one_budget_bound(v, st1, b1);
            let r = run_one(v, st1, b1);
            match r.0 {
                Step::Done(st2) => {
                    assert(run_seq(Seq::<InstrView>::empty(), st2, r.1) == (
                        Step::Done(st2),
                        r.1,
                    ));
                    assert(run_seq(seq![v], st1, b1) == (Step::Done(st2), r.1));
                },
                _ => {
                },
            }
        },
        _ => {
        },
    }
}

/// A loop whose guard cell is already zero on entry runs its body zero
/// times: it leaves the whole state unchanged and spends nothing, under
/// any budget at all.
pub proof fn lemma_loop_zero_guard(body: Seq<InstrView>, st: State, budget: nat)
    requires
        st.mem[st.ptr as int] == 0,
    ensures
        run_one(InstrView::Loop(body), st, budget) == (Step::Done(st), budget),
{
}

/// A pointer-increment at the pointer's maximum wraps it to zero; nothing
/// else of the state moves and nothing is spent.
pub proof fn lemma_pointer_increment_wraps(st: State, budget: nat)
    requires
        st.ptr == 255,
    ensures
        run_one(InstrView::IncrementPointer, st, budget) == (
            Step::Done(State { ptr: 0, ..st }),
            budget,
        ),
{
}

/// A pointer-decrement at zero wraps the pointer to its maximum; nothing
/// else of the state moves and nothing is spent.
pub proof fn lemma_pointer_decrement_wraps(st: State, budget: nat)
    requires
        st.ptr == 0,
    ensures
        run_one(InstrView::DecrementPointer, st, budget) == (
            Step::Done(State { ptr: 255, ..st }),
            budget,
        ),
{
}

/// Incrementing a cell that holds the maximum byte wraps it to zero.
pub proof fn lemma_cell_increment_wraps(st: State, budget: nat)
    requires
        st.mem[st.ptr as int] == 255,
    ensures
        run_one(InstrView::IncrementValue, st, budget) == (
            Step::Done(State { mem: st.mem.update(st.ptr as int, 0), ..st }),
            budget,
        ),
{
}

/// Decrementing a cell that holds zero wraps it to the maximum byte.
pub proof fn lemma_cell_decrement_wraps(st: State, budget: nat)
    requires
        st.mem[st.ptr as int] == 0,
    ensures
        run_one(InstrView::DecrementValue, st, budget) == (
            Step::Done(State { mem: st.mem.update(st.ptr as int, 255), ..st }),
            budget,
        ),
{
}

proof fn lemma_prefix_trans(a: Seq<u8>, b: Seq<u8>, c: Seq<u8>)
    requires
        a.is_prefix_of(b),
        b.is_prefix_of(c),
    ensures
        a.is_prefix_of(c),
{
    assert(c.take(b.len() as int).take(a.len() as int) =~= c.take(a.len() as int));
}

/// The output stream of a finished or aborted run.
pub open spec fn step_output(s: Step) -> Seq<u8>
    recommends
        !(s is Timeout),
{
    match s {
        Step::Done(st) => st.output,
        Step::Aborted(st) => st.output,
        Step::Timeout => Seq::empty(),
    }
}

/// The executor state assembled from the run-time pieces: the tape, the
/// data pointer, the input bytes from `pos` on, and the output written so
/// far.
pub open spec fn state_of(mem: Seq<u8>, ptr: u8, input: Seq<u8>, pos: int, output: Seq<u8>) -> State {
    State { mem: mem, ptr: ptr, input: input.skip(pos), output: output }
}

/// Executes every instruction in order against the tape, the data pointer
/// and the two byte streams: output bytes are appended to `output`, input
/// bytes are consumed from `input` at `*in_pos`. The tape must have a cell
/// for every pointer value, so at least 256.
///
/// The result is exactly the budgeted run [`run_seq`] of the program from
/// the entry state under `*old(budget)`: a finished run is its `Done`
/// outcome, a read past the end of the input its `Aborted` outcome — each
/// with `*final(budget)` the budget that run leaves over — and
/// `StepsExhausted` is returned exactly when that run times out, which
/// spends the budget to the last unit.
#[verifier::loop_isolation(false)]
pub fn interpret_instructions(
    instructions: &[Instruction],
    memory: &mut Vec<u8>,
    data_ptr: &mut u8,
    output: &mut Vec<u8>,
    input: &[u8],
    in_pos: &mut usize,
    budget: &mut u64,
) -> (r: Result<(), InterpreterError>)
    requires
        old(memory).len() >= 256,
        *old(in_pos) <= input.len(),
    ensures
        final(memory).len() == old(memory).len(),
        *old(in_pos) <= *final(in_pos) <= input@.len(),
        *final(budget) <= *old(budget),
        old(output)@.is_prefix_of(final(output)@),
        ({
            let pre = state_of(
                old(memory)@,
                *old(data_ptr),
                input@,
                *old(in_pos) as int,
                old(output)@,
            );
            let post = state_of(
                final(memory)@,
                *final(data_ptr),
                input@,
                *final(in_pos) as int,
                final(output)@,
            );
            let r0 = run_seq(prog_view(instructions@), pre, *old(budget) as nat);
            match r {
                Ok(_) => r0.0 == Step::Done(post) && r0.1 == *final(budget) as nat,
                Err(InterpreterError::InputExhausted) => r0.0 == Step::Aborted(post) && r0.1
                    == *final(budget) as nat,
                Err(InterpreterError::StepsExhausted) => (r0.0 is Timeout) && r0.1 == 0
                    && *final(budget) == 0,
                Err(_) => false,
            }
        }),
    decreases instructions@,
{
    let ghost b0: nat = *budget as nat;
    let ghost pre = state_of(memory@, *data_ptr, input@, *in_pos as int, output@);
    let mut idx: usize = 0;
    proof {
        assert(instructions@.take(0) =~= Seq::<Instruction>::empty());
        assert(prog_view(Seq::<Instruction>::empty()) =~= Seq::<InstrView>::empty());
        assert(run_seq(prog_view(instructions@.take(0)), pre, b0) == (Step::Done(pre), b0));
    }
    while idx < instructions.len()
        invariant
            idx <= instructions@.len(),
            memory@.len() == old(memory)@.len(),
            *old(in_pos) <= *in_pos <= input@.len(),
            *budget <= *old(budget),
            old(output)@.is_prefix_of(output@),
            run_seq(prog_view(instructions@.take(idx as int)), pre, b0) == (
                Step::Done(state_of(memory@, *data_ptr, input@, *in_pos as int, output@)),
                *budget as nat,
            ),
        decreases instructions@.len() - idx,
    {
        let ghost st_pre = state_of(memory@, *data_ptr, input@, *in_pos as int, output@);
        let ghost bc: nat = *budget as nat;
        let ghost iv = instr_view(instructions@[idx as int]);
        let instr = vstd::slice::slice_index_get(instructions, idx);
        match instr {
            Instruction::IncrementPointer => {
                let p = *data_ptr;
                *data_ptr = if p == 255 {
                    0
                } else {
                    p + 1
                };
                proof {
                    assert(run_one(iv, st_pre, bc) == (
                        Step::Done(state_of(memory@, *data_ptr, input@, *in_pos as int, output@)),
                        bc,
                    ));
                }
            },
            Instruction::DecrementPointer => {
                let p = *data_ptr;
                *data_ptr = if p == 0 {
                    255
                } else {
                    p - 1
                };
                proof {
                    assert(run_one(iv, st_pre, bc) == (
                        Step::Done(state_of(memory@, *data_ptr, input@, *in_pos as int, output@)),
                        bc,
                    ));
                }
            },
            Instruction::IncrementValue => {
                let i = *data_ptr as usize;
                let v0 = memory[i];
                memory[i] = if v0 == 255 {
                    0
                } else {
                    v0 + 1
                };
                proof {
                    assert(run_one(iv, st_pre, bc) == (
                        Step::Done(state_of(memory@, *data_ptr, input@, *in_pos as int, output@)),
                        bc,
                    ));
                }
            },
            Instruction::DecrementValue => {
                let i = *data_ptr as usize;
                let v0 = memory[i];
                memory[i] = if v0 == 0 {
                    255
                } else {
                    v0 - 1
                };
                proof {
                    assert(run_one(iv, st_pre, bc) == (
                        Step::Done(state_of(memory@, *data_ptr, input@, *in_pos as int, output@)),
                        bc,
                    ));
                }
            },
            Instruction::WriteOperation => {
                let ghost out0 = output@;
                let b = memory[*data_ptr as usize];
                output.push(b);
                proof {
                    assert(out0.is_prefix_of(output@)) by {
                        assert(output@.take(out0.len() as int) =~= out0);
                    }
                    lemma_prefix_trans(old(output)@, out0, output@);
                    assert(run_one(iv, st_pre, bc) == (
                        Step::Done(state_of(memory@, *data_ptr, input@, *in_pos as int, output@)),
                        bc,
                    ));
                }
            },
            Instruction::ReadOperation => {
                if *in_pos < input.len() {
                    let b = input[*in_pos];
                    let i = *data_ptr as usize;
                    memory[i] = b;
                    *in_pos = *in_pos + 1;
                    proof {
                        assert(st_pre.input[0] == input@[*in_pos - 1]);
                        assert(st_pre.input.drop_first() =~= input@.skip(*in_pos as int));
                        assert(run_one(iv, st_pre, bc) == (
                            Step::Done(
                                state_of(memory@, *data_ptr, input@, *in_pos as int, output@),
                            ),
                            bc,
                        ));
                    }
                } else {
                    proof {
                        assert(st_pre.input.len() == 0);
                        assert(run_one(iv, st_pre, bc) == (Step::Aborted(st_pre), bc));
                        lemma_run_seq_push(prog_view(instructions@.take(idx as int)), iv, pre, b0);
                        assert(instructions@.take(idx as int + 1) =~= instructions@.take(
                            idx as int,
                        ).push(instructions@[idx as int]));
                        lemma_prog_view_push(
                            instructions@.take(idx as int),
                            instructions@[idx as int],
                        );
                        assert(run_seq(prog_view(instructions@.take(idx as int + 1)), pre, b0) == (
                            Step::Aborted(st_pre),
                            bc,
                        ));
                        assert(instructions@ =~= instructions@.take(idx as int + 1)
                            + instructions@.skip(idx as int + 1));
                        lemma_prog_view_concat(
                            instructions@.take(idx as int + 1),
                            instructions@.skip(idx as int + 1),
                        );
                        lemma_run_seq_concat(
                            prog_view(instructions@.take(idx as int + 1)),
                            prog_view(instructions@.skip(idx as int + 1)),
                            pre,
                            b0,
                        );
                        assert(run_seq(prog_view(instructions@), pre, b0) == (
                            Step::Aborted(st_pre),
                            bc,
                        ));
                    }
                    return Err(InterpreterError::InputExhausted);
                }
            },
            Instruction::Loop(nested) => {
                let ghost body_v = prog_view(nested@);
                let ghost st_entry = st_pre;
                let ghost b_entry: nat = bc;
                proof {
                    assert(iv == InstrView::Loop(body_v));
                    assert(run_seq(prog_view(instructions@.take(idx as int)), pre, b0) == (
                        Step::Done(st_entry),
                        b_entry,
                    ));
                }
                while memory[*data_ptr as usize] != 0
                    invariant
                        memory@.len() == old(memory)@.len(),
                        *old(in_pos) <= *in_pos <= input@.len(),
                        *budget <= *old(budget),
                        old(output)@.is_prefix_of(output@),
                        run_one(InstrView::Loop(body_v), st_entry, b_entry) == run_one(
                            InstrView::Loop(body_v),
                            state_of(memory@, *data_ptr, input@, *in_pos as int, output@),
                            *budget as nat,
                        ),
                    decreases *budget,
                {
                    let ghost st_iter = state_of(memory@, *data_ptr, input@, *in_pos as int, output@);
                    let ghost bi: nat = *budget as nat;
                    if *budget == 0 {
                        proof {
                            assert(run_one(InstrView::Loop(body_v), st_iter, 0) == (
                                Step::Timeout,
                                0nat,
                            ));
                            lemma_run_seq_push(
                                prog_view(instructions@.take(idx as int)),
                                iv,
                                pre,
                                b0,
                            );
                            assert(instructions@.take(idx as int + 1) =~= instructions@.take(
                                idx as int,
                            ).push(instructions@[idx as int]));
                            lemma_prog_view_push(
                                instructions@.take(idx as int),
                                instructions@[idx as int],
                            );
                            assert(run_seq(prog_view(instructions@.take(idx as int + 1)), pre, b0)
                                == (Step::Timeout, 0nat));
                            assert(instructions@ =~= instructions@.take(idx as int + 1)
                                + instructions@.skip(idx as int + 1));
                            lemma_prog_view_concat(
                                instructions@.take(idx as int + 1),
                                instructions@.skip(idx as int + 1),
                            );
                            lemma_run_seq_concat(
                                prog_view(instructions@.take(idx as int + 1)),
                                prog_view(instructions@.skip(idx as int + 1)),
                                pre,
                                b0,
                            );
                            assert(run_seq(prog_view(instructions@), pre, b0) == (
                                Step::Timeout,
                                0nat,
                            ));
                        }
                        return Err(InterpreterError::StepsExhausted);
                    }
                    *budget = *budget - 1;
                    let ghost out_iter = output@;
                    proof {
                        assert(decreases_to!(instructions@ => instructions@[idx as int]));
                        assert(decreases_to!(instructions@[idx as int] => instructions@[idx as int]->Loop_0));
                        assert(decreases_to!(instructions@[idx as int]->Loop_0 => instructions@[idx as int]->Loop_0@));
                    }
                    let res = interpret_instructions(
                        nested.as_slice(),
                        memory,
                        data_ptr,
                        output,
                        input,
                        in_pos,
                        budget,
                    );
                    proof {
                        lemma_prefix_trans(old(output)@, out_iter, output@);
                    }
                    match res {
                        Ok(_) => {
                            proof {
                                let st_now = state_of(
                                    memory@,
                                    *data_ptr,
                                    input@,
                                    *in_pos as int,
                                    output@,
                                );
                                let bn: nat = *budget as nat;
                                assert(run_seq(body_v, st_iter, (bi - 1) as nat) == (
                                    Step::Done(st_now),
                                    bn,
                                ));
                                assert(run_one(InstrView::Loop(body_v), st_iter, bi) == run_one(
                                    InstrView::Loop(body_v),
                                    st_now,
                                    bn,
                                ));
                            }
                        },
                        Err(e) => {
                            match e {
                                InterpreterError::InputExhausted => {
                                    proof {
                                        let st_now = state_of(
                                            memory@,
                                            *data_ptr,
                                            input@,
                                            *in_pos as int,
                                            output@,
                                        );
                                        let bn: nat = *budget as nat;
                                        assert(run_seq(body_v, st_iter, (bi - 1) as nat) == (
                                            Step::Aborted(st_now),
                                            bn,
                                        ));
                                        assert(run_one(InstrView::Loop(body_v), st_iter, bi) == (
                                            Step::Aborted(st_now),
                                            bn,
                                        ));
                                        assert(run_one(InstrView::Loop(body_v), st_entry, b_entry)
                                            == (Step::Aborted(st_now), bn));
                                        lemma_run_seq_push(
                                            prog_view(instructions@.take(idx as int)),
                                            iv,
                                            pre,
                                            b0,
                                        );
                                        assert(instructions@.take(idx as int + 1)
                                            =~= instructions@.take(idx as int).push(
                                            instructions@[idx as int],
                                        ));
                                        lemma_prog_view_push(
                                            instructions@.take(idx as int),
                                            instructions@[idx as int],
                                        );
                                        assert(run_seq(
                                            prog_view(instructions@.take(idx as int + 1)),
                                            pre,
                                            b0,
                                        ) == (Step::Aborted(st_now), bn));
                                        assert(instructions@ =~= instructions@.take(idx as int + 1)
                                            + instructions@.skip(idx as int + 1));
                                        lemma_prog_view_concat(
                                            instructions@.take(idx as int + 1),
                                            instructions@.skip(idx as int + 1),
                                        );
                                        lemma_run_seq_concat(
                                            prog_view(instructions@.take(idx as int + 1)),
                                            prog_view(instructions@.skip(idx as int + 1)),
                                            pre,
                                            b0,
                                        );
                                        assert(run_seq(prog_view(instructions@), pre, b0) == (
                                            Step::Aborted(st_now),
                                            bn,
                                        ));
                                    }
                                    return Err(InterpreterError::InputExhausted);
                                },
                                InterpreterError::StepsExhausted => {
                                    proof {
                                        assert(run_seq(body_v, st_iter, (bi - 1) as nat) == (
                                            Step::Timeout,
                                            0nat,
                                        ));
                                        assert(run_one(InstrView::Loop(body_v), st_iter, bi) == (
                                            Step::Timeout,
                                            0nat,
                                        ));
                                        assert(run_one(InstrView::Loop(body_v), st_entry, b_entry)
                                            == (Step::Timeout, 0nat));
                                        lemma_run_seq_push(
                                            prog_view(instructions@.take(idx as int)),
                                            iv,
                                            pre,
                                            b0,
                                        );
                                        assert(instructions@.take(idx as int + 1)
                                            =~= instructions@.take(idx as int).push(
                                            instructions@[idx as int],
                                        ));
                                        lemma_prog_view_push(
                                            instructions@.take(idx as int),
                                            instructions@[idx as int],
                                        );
                                        assert(run_seq(
                                            prog_view(instructions@.take(idx as int + 1)),
                                            pre,
                                            b0,
                                        ) == (Step::Timeout, 0nat));
                                        assert(instructions@ =~= instructions@.take(idx as int + 1)
                                            + instructions@.skip(idx as int + 1));
                                        lemma_prog_view_concat(
                                            instructions@.take(idx as int + 1),
                                            instructions@.skip(idx as int + 1),
                                        );
                                        lemma_run_seq_concat(
                                            prog_view(instructions@.take(idx as int + 1)),
                                            prog_view(instructions@.skip(idx as int + 1)),
                                            pre,
                                            b0,
                                        );
                                        assert(run_seq(prog_view(instructions@), pre, b0) == (
                                            Step::Timeout,
                                            0nat,
                                        ));
                                    }
                                    return Err(InterpreterError::StepsExhausted);
                                },
                                _ => {
                                    // The recursive run reports no other error.
                                    proof {
                                        assert(false);
                                    }
                                    return Err(InterpreterError::StepsExhausted);
                                },
                            }
                        },
                    }
                }
                proof {
                    let st_cur = state_of(memory@, *data_ptr, input@, *in_pos as int, output@);
                    let bcur: nat = *budget as nat;
                    lemma_loop_zero_guard(body_v, st_cur, bcur);
                    assert(run_one(iv, st_pre, bc) == (Step::Done(st_cur), bcur));
                }
            },
        }
        proof {
            let st_now = state_of(memory@, *data_ptr, input@, *in_pos as int, output@);
            let bn: nat = *budget as nat;
            assert(run_one(iv, st_pre, bc) == (Step::Done(st_now), bn));
            lemma_run_seq_push(prog_view(instructions@.take(idx as int)), iv, pre, b0);
            assert(instructions@.take(idx as int + 1) =~= instructions@.take(idx as int).push(
                instructions@[idx as int],
            ));
            lemma_prog_view_push(instructions@.take(idx as int), instructions@[idx as int]);
            assert(run_seq(prog_view(instructions@.take(idx as int + 1)), pre, b0) == (
                Step::Done(st_now),
                bn,
            ));
        }
        idx = idx + 1;
    }
    proof {
        assert(instructions@.take(instructions@.len() as int) =~= instructions@);
    }
    Ok(())
}

} // verus!

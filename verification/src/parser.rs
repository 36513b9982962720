use vstd::prelude::*;

use crate::InterpreterError;
use crate::lexer::Lexem;

verus! {

/// One node of a parsed program: the six direct-effect instructions, plus a
/// loop that owns the ordered sequence of its child instructions.
#[derive(Debug, PartialEq, Eq)]
pub enum Instruction {
    IncrementPointer,
    DecrementPointer,
    IncrementValue,
    DecrementValue,
    WriteOperation,
    ReadOperation,
    Loop(Vec<Instruction>),
}

/// The mathematical shape of an [`Instruction`]: the same tree with ghost
/// sequences for loop bodies. Contracts speak of programs through this type.
pub enum InstrView {
    IncrementPointer,
    DecrementPointer,
    IncrementValue,
    DecrementValue,
    WriteOperation,
    ReadOperation,
    Loop(Seq<InstrView>),
}

/// The view of a single instruction.
pub open spec fn instr_view(i: Instruction) -> InstrView
    decreases i,
{
    match i {
        Instruction::IncrementPointer => InstrView::IncrementPointer,
        Instruction::DecrementPointer => InstrView::DecrementPointer,
        Instruction::IncrementValue => InstrView::IncrementValue,
        Instruction::DecrementValue => InstrView::DecrementValue,
        Instruction::WriteOperation => InstrView::WriteOperation,
        Instruction::ReadOperation => InstrView::ReadOperation,
        Instruction::Loop(body) => InstrView::Loop(prog_view(body@)),
    }
}

/// The view of an instruction sequence, node by node.
pub open spec fn prog_view(p: Seq<Instruction>) -> Seq<InstrView>
    decreases p,
{
    if p.len() == 0 {
        Seq::empty()
    } else {
        seq![instr_view(p[0])] + prog_view(p.drop_first())
    }
}

pub proof fn lemma_prog_view_len(p: Seq<Instruction>)
    ensures
        prog_view(p).len() == p.len(),
    decreases p,
{
    if p.len() > 0 {
        lemma_prog_view_len(p.drop_first());
    }
}

pub proof fn lemma_prog_view_index(p: Seq<Instruction>, k: int)
    requires
        0 <= k < p.len(),
    ensures
        prog_view(p).len() == p.len(),
        prog_view(p)[k] == instr_view(p[k]),
    decreases p,
{
    lemma_prog_view_len(p);
    if k > 0 {
        lemma_prog_view_index(p.drop_first(), k - 1);
    }
}

pub proof fn lemma_prog_view_push(p: Seq<Instruction>, i: Instruction)
    ensures
        prog_view(p.push(i)) == prog_view(p).push(instr_view(i)),
    decreases p,
{
    lemma_prog_view_len(p);
    lemma_prog_view_len(p.push(i));
    assert forall|k: int| 0 <= k < p.len() + 1 implies prog_view(p.push(i))[k] == prog_view(
        p,
    ).push(instr_view(i))[k] by {
        lemma_prog_view_index(p.push(i), k);
        if k < p.len() {
            lemma_prog_view_index(p, k);
            assert(p.push(i)[k] == p[k]);
        }
    }
    assert(prog_view(p.push(i)) =~= prog_view(p).push(instr_view(i)));
}

pub proof fn lemma_prog_view_concat(p: Seq<Instruction>, q: Seq<Instruction>)
    ensures
        prog_view(p + q) == prog_view(p) + prog_view(q),
    decreases p,
{
    if p.len() == 0 {
        assert(p + q =~= q);
        assert(prog_view(p) + prog_view(q) =~= prog_view(q));
    } else {
        assert((p + q)[0] == p[0]);
        assert((p + q).drop_first() =~= p.drop_first() + q);
        lemma_prog_view_concat(p.drop_first(), q);
        assert(seq![instr_view(p[0])] + (prog_view(p.drop_first()) + prog_view(q)) =~= (seq![
            instr_view(p[0]),
        ] + prog_view(p.drop_first())) + prog_view(q));
    }
}

/// The token a bracketless instruction stands for.
pub open spec fn simple_token(v: InstrView) -> Lexem
    recommends
        !(v is Loop),
{
    match v {
        InstrView::IncrementPointer => Lexem::IncrementPointer,
        InstrView::DecrementPointer => Lexem::DecrementPointer,
        InstrView::IncrementValue => Lexem::IncrementValue,
        InstrView::DecrementValue => Lexem::DecrementValue,
        InstrView::WriteOperation => Lexem::WriteOperation,
        InstrView::ReadOperation => Lexem::ReadOperation,
        InstrView::Loop(_) => Lexem::LoopBegining,
    }
}

/// The token sequence that one instruction came from: its own token for a
/// direct-effect instruction, and for a loop its body's tokens wrapped in a
/// bracket pair.
pub open spec fn flatten_one(v: InstrView) -> Seq<Lexem>
    decreases v,
{
    match v {
        InstrView::Loop(body) => seq![Lexem::LoopBegining] + flatten(body) + seq![
            Lexem::LoopEnding,
        ],
        _ => seq![simple_token(v)],
    }
}

/// The token sequence that a program came from, in order.
pub open spec fn flatten(p: Seq<InstrView>) -> Seq<Lexem>
    decreases p,
{
    if p.len() == 0 {
        Seq::empty()
    } else {
        flatten_one(p[0]) + flatten(p.drop_first())
    }
}

pub proof fn lemma_flatten_push(p: Seq<InstrView>, v: InstrView)
    ensures
        flatten(p.push(v)) == flatten(p) + flatten_one(v),
    decreases p,
{
    if p.len() == 0 {
        assert(p.push(v)[0] == v);
        assert(p.push(v).drop_first() =~= Seq::<InstrView>::empty());
        assert(flatten(Seq::<InstrView>::empty()) == Seq::<Lexem>::empty());
        assert(flatten(p.push(v)) =~= flatten(p) + flatten_one(v));
    } else {
        assert(p.push(v).drop_first() =~= p.drop_first().push(v));
        lemma_flatten_push(p.drop_first(), v);
        assert(flatten_one(p[0]) + (flatten(p.drop_first()) + flatten_one(v)) =~= (flatten_one(
            p[0],
        ) + flatten(p.drop_first())) + flatten_one(v));
    }
}

/// How one token changes the bracket depth.
pub open spec fn tok_delta(t: Lexem) -> int {
    match t {
        Lexem::LoopBegining => 1,
        Lexem::LoopEnding => -1,
        _ => 0,
    }
}

/// The bracket depth after the whole token sequence: opens minus closes.
pub open spec fn depth(toks: Seq<Lexem>) -> int
    decreases toks.len(),
{
    if toks.len() == 0 {
        0
    } else {
        depth(toks.drop_last()) + tok_delta(toks.last())
    }
}

/// No prefix of the sequence closes more loops than it has opened.
pub open spec fn never_neg(toks: Seq<Lexem>) -> bool {
    forall|k: int| 0 <= k <= toks.len() ==> depth(#[trigger] toks.take(k)) >= 0
}

/// Every `[` has its `]` and every `]` its `[`: the sequence never closes an
/// unopened loop, and every opened loop is closed at the end.
pub open spec fn balanced(toks: Seq<Lexem>) -> bool {
    never_neg(toks) && depth(toks) == 0
}

/// The token at `j` is the first `]` that closes no loop: the first place
/// where the bracket depth drops below zero.
pub open spec fn first_unmatched_end_at(toks: Seq<Lexem>, j: int) -> bool {
    &&& 0 <= j < toks.len()
    &&& depth(toks.take(j + 1)) < 0
    &&& forall|k: int| 0 <= k <= j ==> depth(#[trigger] toks.take(k)) >= 0
}

/// The token at `j` is the `[` of the outermost loop that is never closed:
/// it opens at depth zero and the depth never returns to zero after it.
pub open spec fn unmatched_begin_at(toks: Seq<Lexem>, j: int) -> bool {
    &&& 0 <= j < toks.len()
    &&& toks[j] == Lexem::LoopBegining
    &&& depth(toks.take(j)) == 0
    &&& forall|k: int| j < k <= toks.len() ==> depth(#[trigger] toks.take(k)) >= 1
}

pub proof fn lemma_depth_add(x: Seq<Lexem>, y: Seq<Lexem>)
    ensures
        depth(x + y) == depth(x) + depth(y),
    decreases y.len(),
{
    if y.len() == 0 {
        assert(x + y =~= x);
    } else {
        assert((x + y).drop_last() =~= x + y.drop_last());
        assert((x + y).last() == y.last());
        lemma_depth_add(x, y.drop_last());
    }
}

/// The depth of a prefix of a concatenation, read off the two parts.
pub proof fn lemma_prefix_depth(x: Seq<Lexem>, y: Seq<Lexem>, k: int)
    requires
        0 <= k <= x.len() + y.len(),
    ensures
        k <= x.len() ==> depth((x + y).take(k)) == depth(x.take(k)),
        k > x.len() ==> depth((x + y).take(k)) == depth(x) + depth(y.take(k - x.len())),
{
    if k <= x.len() {
        assert((x + y).take(k) =~= x.take(k));
    } else {
        assert((x + y).take(k) =~= x + y.take(k - x.len()));
        lemma_depth_add(x, y.take(k - x.len()));
        assert(x.take(x.len() as int) =~= x);
    }
}

pub proof fn lemma_depth_bounds(s: Seq<Lexem>)
    ensures
        -s.len() <= depth(s) <= s.len(),
    decreases s.len(),
{
    if s.len() > 0 {
        lemma_depth_bounds(s.drop_last());
    }
}

/// What one instruction flattens to is itself balanced, never empty, and —
/// for a loop — stays at depth one or more strictly between its brackets.
pub proof fn lemma_flatten_one_balanced(v: InstrView)
    ensures
        flatten_one(v).len() >= 1,
        balanced(flatten_one(v)),
        v is Loop ==> forall|k: int|
            0 < k < flatten_one(v).len() ==> depth(#[trigger] flatten_one(v).take(k)) >= 1,
    decreases v,
{
    match v {
        InstrView::Loop(body) => {
            lemma_flatten_balanced(body);
            let o = seq![Lexem::LoopBegining];
            let u = flatten(body);
            let c = seq![Lexem::LoopEnding];
            let x = o + u;
            let w = flatten_one(v);
            assert(w == x + c);
            assert(depth(Seq::<Lexem>::empty()) == 0);
            assert(o.drop_last() =~= Seq::<Lexem>::empty());
            assert(c.drop_last() =~= Seq::<Lexem>::empty());
            assert(depth(o) == 1);
            assert(depth(c) == -1);
            lemma_depth_add(o, u);
            lemma_depth_add(x, c);
            assert(depth(w) == 0);
            assert forall|k: int| 0 < k < w.len() implies depth(#[trigger] w.take(k)) >= 1 by {
                lemma_prefix_depth(x, c, k);
                assert(k <= x.len());
                lemma_prefix_depth(o, u, k);
                if k <= o.len() {
                    assert(o.take(k) =~= o);
                } else {
                    assert(depth(u.take(k - 1)) >= 0);
                }
            }
            assert forall|k: int| 0 <= k <= w.len() implies depth(#[trigger] w.take(k)) >= 0 by {
                if k == 0 {
                    assert(w.take(0) =~= Seq::<Lexem>::empty());
                } else if k == w.len() {
                    assert(w.take(k) =~= w);
                } else {
                    assert(depth(w.take(k)) >= 1);
                }
            }
        },
        _ => {
            let t = simple_token(v);
            let w = flatten_one(v);
            assert(w == seq![t]);
            assert(depth(Seq::<Lexem>::empty()) == 0);
            assert(w.drop_last() =~= Seq::<Lexem>::empty());
            assert(w.last() == t);
            assert(depth(w) == tok_delta(t));
            assert(tok_delta(t) == 0);
            assert forall|k: int| 0 <= k <= w.len() implies depth(#[trigger] w.take(k)) >= 0 by {
                if k == 0 {
                    assert(w.take(0) =~= Seq::<Lexem>::empty());
                } else {
                    assert(w.take(1) =~= w);
                }
            }
        },
    }
}

/// What a program flattens to is balanced.
pub proof fn lemma_flatten_balanced(p: Seq<InstrView>)
    ensures
        balanced(flatten(p)),
    decreases p,
{
    if p.len() == 0 {
        assert(flatten(p) == Seq::<Lexem>::empty());
        assert forall|k: int| 0 <= k <= 0 implies depth(#[trigger] flatten(p).take(k)) >= 0 by {
            assert(flatten(p).take(0) =~= Seq::<Lexem>::empty());
        }
    } else {
        lemma_flatten_one_balanced(p[0]);
        lemma_flatten_balanced(p.drop_first());
        let a = flatten_one(p[0]);
        let b = flatten(p.drop_first());
        lemma_depth_add(a, b);
        assert forall|k: int| 0 <= k <= (a + b).len() implies depth(#[trigger] (a + b).take(k))
            >= 0 by {
            lemma_prefix_depth(a, b, k);
            if k <= a.len() {
                assert(depth(a.take(k)) >= 0);
            } else {
                assert(depth(b.take(k - a.len())) >= 0);
            }
        }
    }
}

/// What one instruction flattens to is never a proper prefix of what
/// another flattens to, inside equal token streams: the matching bracket
/// pins where it ends, so the two flattenings have the same length.
proof fn lemma_flatten_one_len_eq(x: InstrView, y: InstrView, rx: Seq<Lexem>, ry: Seq<Lexem>)
    requires
        flatten_one(x) + rx == flatten_one(y) + ry,
    ensures
        flatten_one(x).len() == flatten_one(y).len(),
{
    let a = flatten_one(x);
    let b = flatten_one(y);
    lemma_flatten_one_balanced(x);
    lemma_flatten_one_balanced(y);
    if a.len() < b.len() {
        assert(b.take(a.len() as int) =~= a) by {
            assert forall|i: int| 0 <= i < a.len() implies b[i] == a[i] by {
                assert((a + rx)[i] == a[i]);
                assert((b + ry)[i] == b[i]);
            }
        }
        match y {
            InstrView::Loop(_) => {
                assert(depth(b.take(a.len() as int)) >= 1);
                assert(depth(a) == 0);
                assert(false);
            },
            _ => {
                assert(b.len() == 1);
                assert(false);
            },
        }
    }
    if b.len() < a.len() {
        assert(a.take(b.len() as int) =~= b) by {
            assert forall|i: int| 0 <= i < b.len() implies a[i] == b[i] by {
                assert((a + rx)[i] == a[i]);
                assert((b + ry)[i] == b[i]);
            }
        }
        match x {
            InstrView::Loop(_) => {
                assert(depth(a.take(b.len() as int)) >= 1);
                assert(depth(b) == 0);
                assert(false);
            },
            _ => {
                assert(a.len() == 1);
                assert(false);
            },
        }
    }
}

/// Flattening one instruction is injective.
pub proof fn lemma_flatten_one_injective(x: InstrView, y: InstrView)
    requires
        flatten_one(x) == flatten_one(y),
    ensures
        x == y,
    decreases x,
{
    let a = flatten_one(x);
    let b = flatten_one(y);
    match x {
        InstrView::Loop(bx) => {
            match y {
                InstrView::Loop(by) => {
                    let u = flatten(bx);
                    let w = flatten(by);
                    assert(a == (seq![Lexem::LoopBegining] + u) + seq![Lexem::LoopEnding]);
                    assert(b == (seq![Lexem::LoopBegining] + w) + seq![Lexem::LoopEnding]);
                    assert(u.len() == w.len());
                    assert(u =~= w) by {
                        assert forall|i: int| 0 <= i < u.len() implies u[i] == w[i] by {
                            assert(a[i + 1] == u[i]);
                            assert(b[i + 1] == w[i]);
                        }
                    }
                    lemma_flatten_injective(bx, by);
                },
                _ => {
                    assert(a.len() >= 2);
                    assert(b.len() == 1);
                },
            }
        },
        _ => {
            match y {
                InstrView::Loop(_) => {
                    assert(a.len() == 1);
                    assert(b.len() >= 2);
                },
                _ => {
                    assert(a[0] == simple_token(x));
                    assert(b[0] == simple_token(y));
                },
            }
        },
    }
}

/// Flattening is injective: two programs with the same token sequence are
/// the same tree. Parsing is deterministic in the strongest sense: since
/// [`parse_into_instructions`] returns a program that flattens to its
/// input, any two parses of the same token sequence yield structurally
/// identical trees, loop nesting included.
pub proof fn lemma_flatten_injective(p: Seq<InstrView>, q: Seq<InstrView>)
    requires
        flatten(p) == flatten(q),
    ensures
        p == q,
    decreases p,
{
    if p.len() == 0 {
        if q.len() > 0 {
            lemma_flatten_one_balanced(q[0]);
            assert(flatten(q).len() >= flatten_one(q[0]).len());
        }
        assert(p =~= q);
    } else if q.len() == 0 {
        lemma_flatten_one_balanced(p[0]);
        assert(flatten(p).len() >= flatten_one(p[0]).len());
    } else {
        let a = flatten_one(p[0]);
        let b = flatten_one(q[0]);
        let ra = flatten(p.drop_first());
        let rb = flatten(q.drop_first());
        lemma_flatten_one_len_eq(p[0], q[0], ra, rb);
        assert(a.len() == b.len());
        assert(a =~= b) by {
            assert forall|i: int| 0 <= i < a.len() implies a[i] == b[i] by {
                assert((a + ra)[i] == a[i]);
                assert((b + rb)[i] == b[i]);
            }
        }
        lemma_flatten_one_injective(p[0], q[0]);
        assert((a + ra).len() == a.len() + ra.len());
        assert((b + rb).len() == b.len() + rb.len());
        assert(ra.len() == rb.len());
        assert(ra =~= rb) by {
            assert forall|i: int| 0 <= i < ra.len() implies ra[i] == rb[i] by {
                assert((a + ra)[i + a.len()] == ra[i]);
                assert((b + rb)[i + b.len()] == rb[i]);
            }
        }
        lemma_flatten_injective(p.drop_first(), q.drop_first());
        assert(p.len() == q.len());
        assert forall|i: int| 0 <= i < p.len() implies p[i] == q[i] by {
            if i > 0 {
                assert(p.drop_first()[i - 1] == p[i]);
                assert(q.drop_first()[i - 1] == q[i]);
            }
        }
        assert(p =~= q);
    }
}

/// The instruction of a bracketless token.
fn token_instruction(t: Lexem) -> (i: Instruction)
    requires
        t != Lexem::LoopBegining,
        t != Lexem::LoopEnding,
    ensures
        flatten_one(instr_view(i)) == seq![t],
{
    match t {
        Lexem::WriteOperation => Instruction::WriteOperation,
        Lexem::ReadOperation => Instruction::ReadOperation,
        Lexem::IncrementValue => Instruction::IncrementValue,
        Lexem::DecrementValue => Instruction::DecrementValue,
        Lexem::IncrementPointer => Instruction::IncrementPointer,
        Lexem::DecrementPointer => Instruction::DecrementPointer,
        // Bracket tokens are excluded by the precondition.
        Lexem::LoopBegining => Instruction::WriteOperation,
        Lexem::LoopEnding => Instruction::WriteOperation,
    }
}

/// Parses the token range `[from, to)` of `lexems`: a single left-to-right
/// scan with a bracket-depth counter; a balanced bracket span is parsed into
/// a loop node by a recursive call on the span between its brackets. Error
/// offsets are absolute positions in `lexems`.
#[verifier::rlimit(50)]
fn parse_range(lexems: &[Lexem], from: usize, to: usize) -> (r: Result<
    Vec<Instruction>,
    InterpreterError,
>)
    requires
        from <= to <= lexems@.len(),
    ensures
        ({
            let seg = lexems@.subrange(from as int, to as int);
            match r {
                Ok(prog) => balanced(seg) && flatten(prog_view(prog@)) == seg,
                Err(e) => !balanced(seg) && (match e {
                    InterpreterError::UnmatchedLoopEnd(j) => from <= j < to
                        && first_unmatched_end_at(seg, j - from),
                    InterpreterError::UnmatchedLoopBegin(j) => from <= j < to && never_neg(seg)
                        && unmatched_begin_at(seg, j - from),
                    _ => false,
                }),
            }
        }),
    decreases to - from,
{
    let ghost seg = lexems@.subrange(from as int, to as int);
    let mut instructions: Vec<Instruction> = Vec::new();
    let mut loop_stack_ptr: usize = 0;
    let mut loop_start_ptr: usize = 0;
    let mut cur: usize = from;
    proof {
        assert(seg.take(0) =~= Seq::<Lexem>::empty());
        assert(prog_view(instructions@) =~= Seq::<InstrView>::empty());
        assert(flatten(prog_view(instructions@)) =~= seg.take(0));
    }
    while cur < to
        invariant
            from <= cur <= to <= lexems@.len(),
            seg == lexems@.subrange(from as int, to as int),
            depth(seg.take(cur - from)) == loop_stack_ptr as int,
            forall|k: int| 0 <= k <= cur - from ==> depth(#[trigger] seg.take(k)) >= 0,
            loop_stack_ptr == 0 ==> flatten(prog_view(instructions@)) == seg.take(cur - from),
            loop_stack_ptr > 0 ==> {
                &&& from <= loop_start_ptr < cur
                &&& seg[loop_start_ptr - from] == Lexem::LoopBegining
                &&& depth(seg.take(loop_start_ptr - from)) == 0
                &&& flatten(prog_view(instructions@)) == seg.take(loop_start_ptr - from)
                &&& forall|k: int|
                    loop_start_ptr - from < k <= cur - from ==> depth(#[trigger] seg.take(k)) >= 1
            },
        decreases to - cur,
    {
        let ghost c: int = cur as int - from as int;
        proof {
            assert(seg.take(c + 1).drop_last() =~= seg.take(c));
            assert(seg.take(c + 1).last() == seg[c]);
            assert(seg[c] == lexems@[cur as int]);
        }
        let t = lexems[cur];
        if loop_stack_ptr == 0 {
            match t {
                Lexem::LoopBegining => {
                    loop_start_ptr = cur;
                    loop_stack_ptr = 1;
                },
                Lexem::LoopEnding => {
                    proof {
                        assert(depth(seg.take(c + 1)) == -1);
                        assert(first_unmatched_end_at(seg, c));
                        assert(!never_neg(seg)) by {
                            assert(depth(seg.take(c + 1)) < 0);
                        }
                    }
                    return Err(InterpreterError::UnmatchedLoopEnd(cur));
                },
                _ => {
                    let ghost instrs0 = instructions@;
                    let instr = token_instruction(t);
                    instructions.push(instr);
                    proof {
                        lemma_prog_view_push(instrs0, instr);
                        lemma_flatten_push(prog_view(instrs0), instr_view(instr));
                        assert(seg.take(c + 1) =~= seg.take(c) + seq![t]);
                        assert(flatten(prog_view(instructions@)) == seg.take(c) + seq![t]);
                    }
                },
            }
        } else {
            match t {
                Lexem::LoopBegining => {
                    proof {
                        lemma_depth_bounds(seg.take(c));
                    }
                    loop_stack_ptr = loop_stack_ptr + 1;
                },
                Lexem::LoopEnding => {
                    loop_stack_ptr = loop_stack_ptr - 1;
                    if loop_stack_ptr == 0 {
                        let ghost ls: int = loop_start_ptr as int - from as int;
                        let ghost inner = lexems@.subrange(loop_start_ptr + 1, cur as int);
                        proof {
                            assert(inner =~= seg.subrange(ls + 1, c));
                            assert(seg.take(ls + 1).drop_last() =~= seg.take(ls));
                            assert(seg.take(ls + 1).last() == seg[ls]);
                            assert(depth(seg.take(ls + 1)) == 1);
                            assert forall|m: int| 0 <= m <= inner.len() implies depth(
                                #[trigger] inner.take(m),
                            ) >= 0 by {
                                lemma_depth_add(seg.take(ls + 1), inner.take(m));
                                assert(seg.take(ls + 1 + m) =~= seg.take(ls + 1) + inner.take(m));
                                assert(depth(seg.take(ls + 1 + m)) >= 1);
                            }
                            lemma_depth_add(seg.take(ls + 1), inner);
                            assert(seg.take(c) =~= seg.take(ls + 1) + inner);
                            assert(depth(inner) == 0);
                            assert(balanced(inner));
                        }
                        let ghost instrs0 = instructions@;
                        match parse_range(lexems, loop_start_ptr + 1, cur) {
                            Ok(body) => {
                                let ghost bodyv = prog_view(body@);
                                instructions.push(Instruction::Loop(body));
                                proof {
                                    let lv = InstrView::Loop(bodyv);
                                    lemma_prog_view_push(instrs0, Instruction::Loop(body));
                                    lemma_flatten_push(prog_view(instrs0), lv);
                                    assert(flatten_one(lv) == seq![Lexem::LoopBegining] + inner
                                        + seq![Lexem::LoopEnding]);
                                    assert(flatten(prog_view(instructions@)) == seg.take(ls) + (
                                    seq![Lexem::LoopBegining] + inner + seq![Lexem::LoopEnding]));
                                    assert(seg.take(c + 1) =~= seg.take(ls) + (seq![
                                        Lexem::LoopBegining,
                                    ] + inner + seq![Lexem::LoopEnding]));
                                }
                            },
                            Err(e) => {
                                // The span between the brackets is balanced,
                                // so the recursive parse cannot fail.
                                proof {
                                    assert(false);
                                }
                                return Err(e);
                            },
                        }
                    }
                },
                _ => {
                },
            }
        }
        cur = cur + 1;
    }
    if loop_stack_ptr != 0 {
        proof {
            assert(seg.take(to as int - from as int) =~= seg);
            assert(depth(seg) == loop_stack_ptr as int);
            assert(unmatched_begin_at(seg, loop_start_ptr as int - from as int));
        }
        return Err(InterpreterError::UnmatchedLoopBegin(loop_start_ptr));
    }
    proof {
        assert(seg.take(to as int - from as int) =~= seg);
        assert(balanced(seg));
    }
    Ok(instructions)
}

/// Parses a token sequence into a program: the ordered sequence of its
/// top-level instructions, with bracket pairs resolved into nested loop
/// nodes.
///
/// Succeeds exactly on balanced token sequences, and the program it returns
/// flattens back to the tokens it was given. On an unbalanced sequence it
/// reports the first `]` that closes no loop, or else the `[` of the
/// outermost loop that is never closed, each with its offset.
pub fn parse_into_instructions(lexems: &[Lexem]) -> (r: Result<Vec<Instruction>, InterpreterError>)
    ensures
        match r {
            Ok(prog) => balanced(lexems@) && flatten(prog_view(prog@)) == lexems@,
            Err(e) => !balanced(lexems@) && (match e {
                InterpreterError::UnmatchedLoopEnd(j) => first_unmatched_end_at(lexems@, j as int),
                InterpreterError::UnmatchedLoopBegin(j) => never_neg(lexems@) && unmatched_begin_at(
                    lexems@,
                    j as int,
                ),
                _ => false,
            }),
        },
{
    proof {
        assert(lexems@.subrange(0, lexems@.len() as int) =~= lexems@);
    }
    parse_range(lexems, 0, lexems.len())
}

} // verus!

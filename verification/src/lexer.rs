use vstd::prelude::*;

use crate::InterpreterError;

verus! {

/// ASCII codes of the bytes the lexer distinguishes.
pub const BYTE_RIGHT: u8 = 62;

pub const BYTE_LEFT: u8 = 60;

pub const BYTE_INC: u8 = 43;

pub const BYTE_DEC: u8 = 45;

pub const BYTE_WRITE: u8 = 46;

pub const BYTE_READ: u8 = 44;

pub const BYTE_OPEN: u8 = 91;

pub const BYTE_CLOSE: u8 = 93;

pub const BYTE_NEWLINE: u8 = 10;

pub const BYTE_SPACE: u8 = 32;

pub const BYTE_TAB: u8 = 9;

pub const BYTE_CR: u8 = 13;

pub const BYTE_SLASH: u8 = 47;


/// One token per recognized instruction byte. Tokens carry no payload: their
/// identity is their meaning, fixed by the byte-to-instruction mapping
/// `>` `<` `+` `-` `.` `,` `[` `]`.
#[derive(Debug, Clone, Copy, PartialEq, Eq, Structural)]
pub enum Lexem {
    IncrementPointer,
    DecrementPointer,
    IncrementValue,
    DecrementValue,
    WriteOperation,
    ReadOperation,
    LoopBegining,
    LoopEnding,
}

/// Whether `b` is one of the eight instruction characters.
pub open spec fn is_symbol(b: u8) -> bool {
    ||| b == BYTE_WRITE
    ||| b == BYTE_READ
    ||| b == BYTE_INC
    ||| b == BYTE_DEC
    ||| b == BYTE_RIGHT
    ||| b == BYTE_LEFT
    ||| b == BYTE_OPEN
    ||| b == BYTE_CLOSE
}

/// The token that an instruction byte stands for.
pub open spec fn symbol_token(b: u8) -> Lexem
    recommends
        is_symbol(b),
{
    if b == BYTE_WRITE {
        Lexem::WriteOperation
    } else if b == BYTE_READ {
        Lexem::ReadOperation
    } else if b == BYTE_INC {
        Lexem::IncrementValue
    } else if b == BYTE_DEC {
        Lexem::DecrementValue
    } else if b == BYTE_RIGHT {
        Lexem::IncrementPointer
    } else if b == BYTE_LEFT {
        Lexem::DecrementPointer
    } else if b == BYTE_OPEN {
        Lexem::LoopBegining
    } else {
        Lexem::LoopEnding
    }
}

/// Whether every byte of `code` is an instruction character.
pub open spec fn all_symbols(code: Seq<u8>) -> bool {
    forall|k: int| 0 <= k < code.len() ==> is_symbol(#[trigger] code[k])
}

/// The token sequence of a source whose bytes are all instruction
/// characters: one token per byte, in source order.
pub open spec fn tokens_of(code: Seq<u8>) -> Seq<Lexem>
    recommends
        all_symbols(code),
{
    Seq::new(code.len(), |k: int| symbol_token(code[k]))
}

/// The byte at `j` is the first one that is not an instruction character.
pub open spec fn first_bad_at(code: Seq<u8>, j: int) -> bool {
    &&& 0 <= j < code.len()
    &&& !is_symbol(code[j])
    &&& forall|k: int| 0 <= k < j ==> is_symbol(#[trigger] code[k])
}

/// The tokens that permissive-mode lexing retains: the instruction bytes of
/// the source, in source order, each mapped to its token; every other byte
/// is dropped as a comment.
pub open spec fn permissive_tokens(code: Seq<u8>) -> Seq<Lexem> {
    code.filter(|b: u8| is_symbol(b)).map_values(|b: u8| symbol_token(b))
}

/// Length of the first line of `s`: the index of its first newline byte, or
/// `s.len()` when it has none.
pub open spec fn line_len(s: Seq<u8>) -> int
    decreases s.len(),
{
    if s.len() == 0 {
        0
    } else if s[0] == BYTE_NEWLINE {
        0
    } else {
        1 + line_len(s.drop_first())
    }
}

pub proof fn lemma_line_len_bounds(s: Seq<u8>)
    ensures
        0 <= line_len(s) <= s.len(),
        line_len(s) < s.len() ==> s[line_len(s)] == BYTE_NEWLINE,
        forall|k: int| 0 <= k < line_len(s) ==> s[k] != BYTE_NEWLINE,
    decreases s.len(),
{
    if s.len() > 0 && s[0] != BYTE_NEWLINE {
        lemma_line_len_bounds(s.drop_first());
        assert forall|k: int| 0 <= k < line_len(s) implies s[k] != BYTE_NEWLINE by {
            if k > 0 {
                assert(s.drop_first()[k - 1] == s[k]);
            }
        }
    }
}

/// `line_len` is the position of the first newline; any scan that stops at
/// the first newline finds it.
pub proof fn lemma_line_len_is(s: Seq<u8>, n: int)
    requires
        0 <= n <= s.len(),
        forall|k: int| 0 <= k < n ==> s[k] != BYTE_NEWLINE,
        n < s.len() ==> s[n] == BYTE_NEWLINE,
    ensures
        line_len(s) == n,
    decreases s.len(),
{
    if s.len() > 0 && s[0] != BYTE_NEWLINE {
        assert forall|k: int| 0 <= k < n - 1 implies s.drop_first()[k] != BYTE_NEWLINE by {
            assert(s.drop_first()[k] == s[k + 1]);
        }
        lemma_line_len_is(s.drop_first(), n - 1);
    }
}

/// Whether `b` is a whitespace byte that the cleaning pre-pass strips.
pub open spec fn is_whitespace(b: u8) -> bool {
    b == BYTE_SPACE || b == BYTE_TAB || b == BYTE_CR || b == BYTE_NEWLINE
}

/// A comment line starts with two slashes.
pub open spec fn is_comment_line(line: Seq<u8>) -> bool {
    line.len() >= 2 && line[0] == BYTE_SLASH && line[1] == BYTE_SLASH
}

/// One source line after cleaning: dropped entirely when it is a comment
/// line, kept with its whitespace removed otherwise.
pub open spec fn clean_line(line: Seq<u8>) -> Seq<u8> {
    if is_comment_line(line) {
        Seq::empty()
    } else {
        line.filter(|b: u8| !is_whitespace(b))
    }
}

/// The cleaned source: the source split at newlines, comment lines dropped,
/// whitespace removed from the lines that remain, and the results joined.
pub open spec fn clean_spec(code: Seq<u8>) -> Seq<u8>
    decreases code.len(),
    via clean_spec_decreases
{
    if code.len() == 0 {
        Seq::empty()
    } else {
        let n = line_len(code);
        let rest = if n == code.len() {
            Seq::<u8>::empty()
        } else {
            code.skip(n + 1)
        };
        clean_line(code.take(n)) + clean_spec(rest)
    }
}

#[via_fn]
proof fn clean_spec_decreases(code: Seq<u8>) {
    lemma_line_len_bounds(code);
}

/// Strips the source down to what the strict lexer reads: lines that start
/// with `//` are dropped whole, and whitespace bytes are removed everywhere.
pub fn clean_code(code: Vec<u8>) -> (r: Vec<u8>)
    ensures
        r@ == clean_spec(code@),
{
    let mut out: Vec<u8> = Vec::new();
    let mut i: usize = 0;
    proof {
        assert(code@.skip(0) =~= code@);
        assert(out@ + clean_spec(code@) =~= clean_spec(code@));
    }
    while i < code.len()
        invariant
            i <= code.len(),
            out@ + clean_spec(code@.skip(i as int)) == clean_spec(code@),
        decreases code.len() - i,
    {
        let ghost seg = code@.skip(i as int);
        let ghost out0 = out@;
        let mut j: usize = i;
        while j < code.len() && code[j] != BYTE_NEWLINE
            invariant
                i <= j <= code.len(),
                forall|k: int| i <= k < j ==> code@[k] != BYTE_NEWLINE,
            decreases code.len() - j,
        {
            j = j + 1;
        }
        proof {
            assert forall|k: int| 0 <= k < j - i implies seg[k] != BYTE_NEWLINE by {
                assert(seg[k] == code@[i + k]);
            }
            if (j - i) < seg.len() {
                assert(seg[j - i] == code@[j as int]);
            }
            lemma_line_len_is(seg, j - i);
        }
        let ghost line = code@.subrange(i as int, j as int);
        proof {
            assert(seg.take(j - i) =~= line);
        }
        let is_comment = j - i >= 2 && code[i] == BYTE_SLASH && code[i + 1] == BYTE_SLASH;
        proof {
            assert(is_comment == is_comment_line(line));
        }
        if !is_comment {
            let mut k: usize = i;
            proof {
                reveal(Seq::filter);
                assert(code@.subrange(i as int, i as int).filter(|b: u8| !is_whitespace(b))
                    =~= Seq::<u8>::empty());
                assert(out@ =~= out0 + code@.subrange(i as int, i as int).filter(
                    |b: u8| !is_whitespace(b),
                ));
            }
            while k < j
                invariant
                    i <= k <= j <= code.len(),
                    out@ == out0 + code@.subrange(i as int, k as int).filter(
                        |b: u8| !is_whitespace(b),
                    ),
                decreases j - k,
            {
                let ghost pre = code@.subrange(i as int, k as int);
                let ghost cur = code@.subrange(i as int, k + 1);
                proof {
                    assert(cur.drop_last() =~= pre);
                    assert(cur.last() == code@[k as int]);
                }
                let b = code[k];
                if b != BYTE_SPACE && b != BYTE_TAB && b != BYTE_CR && b != BYTE_NEWLINE {
                    out.push(b);
                    proof {
                        reveal(Seq::filter);
                        assert(out@ =~= out0 + cur.filter(|b: u8| !is_whitespace(b)));
                    }
                } else {
                    proof {
                        reveal(Seq::filter);
                        assert(out@ =~= out0 + cur.filter(|b: u8| !is_whitespace(b)));
                    }
                }
                k = k + 1;
            }
            proof {
                assert(out@ == out0 + clean_line(line));
            }
        } else {
            proof {
                assert(out@ =~= out0 + clean_line(line));
            }
        }
        proof {
            if j == code.len() {
                assert(clean_spec(seg) == clean_line(seg.take(line_len(seg))) + clean_spec(
                    Seq::<u8>::empty(),
                ));
                assert(clean_line(line) + clean_spec(Seq::<u8>::empty()) =~= clean_line(line));
                assert(code@.skip(code@.len() as int) =~= Seq::<u8>::empty());
            } else {
                assert(seg.skip((j - i) + 1) =~= code@.skip(j + 1));
            }
        }
        if j < code.len() {
            i = j + 1;
        } else {
            i = j;
        }
        proof {
            assert(clean_spec(seg) == clean_line(line) + clean_spec(code@.skip(i as int)));
            assert(out0 + (clean_line(line) + clean_spec(code@.skip(i as int))) =~= (out0
                + clean_line(line)) + clean_spec(code@.skip(i as int)));
        }
    }
    proof {
        assert(code@.skip(code@.len() as int) =~= Seq::<u8>::empty());
        assert(out@ + Seq::<u8>::empty() =~= out@);
    }
    out
}

/// The token for `b`, or `None` when `b` is not an instruction character.
pub fn byte_token(b: u8) -> (r: Option<Lexem>)
    ensures
        match r {
            Some(t) => is_symbol(b) && t == symbol_token(b),
            None => !is_symbol(b),
        },
{
    match b {
        BYTE_WRITE => Some(Lexem::WriteOperation),
        BYTE_READ => Some(Lexem::ReadOperation),
        BYTE_INC => Some(Lexem::IncrementValue),
        BYTE_DEC => Some(Lexem::DecrementValue),
        BYTE_RIGHT => Some(Lexem::IncrementPointer),
        BYTE_LEFT => Some(Lexem::DecrementPointer),
        BYTE_OPEN => Some(Lexem::LoopBegining),
        BYTE_CLOSE => Some(Lexem::LoopEnding),
        _ => None,
    }
}

/// Strict-mode lexing: one token per byte, in source order. Every byte must
/// be an instruction character; the first one that is not is reported, with
/// its offset, as a syntax error.
pub fn get_lexems(code: Vec<u8>) -> (r: Result<Vec<Lexem>, InterpreterError>)
    ensures
        match r {
            Ok(toks) => all_symbols(code@) && toks@ == tokens_of(code@),
            Err(e) => {
                &&& !all_symbols(code@)
                &&& exists|j: usize|
                    #[trigger] first_bad_at(code@, j as int) && e == InterpreterError::SyntaxError(
                        code@[j as int],
                        j,
                    )
            },
        },
{
    let mut toks: Vec<Lexem> = Vec::new();
    let mut i: usize = 0;
    while i < code.len()
        invariant
            i <= code.len(),
            toks@.len() == i as int,
            forall|k: int|
                0 <= k < i ==> is_symbol(#[trigger] code@[k]) && toks@[k] == symbol_token(
                    code@[k],
                ),
        decreases code.len() - i,
    {
        match byte_token(code[i]) {
            Some(t) => {
                toks.push(t);
            },
            None => {
                proof {
                    assert(first_bad_at(code@, i as int));
                }
                return Err(InterpreterError::SyntaxError(code[i], i));
            },
        }
        i = i + 1;
    }
    proof {
        assert(toks@ =~= tokens_of(code@));
    }
    Ok(toks)
}

/// Permissive-mode lexing: bytes outside the eight-symbol set are silently
/// dropped, and the tokens of the bytes retained keep their source order.
pub fn lex_permissive(code: Vec<u8>) -> (r: Vec<Lexem>)
    ensures
        r@ == permissive_tokens(code@),
{
    let mut toks: Vec<Lexem> = Vec::new();
    let mut i: usize = 0;
    proof {
        assert(code@.take(0) =~= Seq::<u8>::empty());
    }
    while i < code.len()
        invariant
            i <= code.len(),
            toks@ == permissive_tokens(code@.take(i as int)),
        decreases code.len() - i,
    {
        let ghost pre = code@.take(i as int);
        let ghost cur = code@.take(i + 1);
        proof {
            assert(cur.drop_last() =~= pre);
            assert(cur.last() == code@[i as int]);
        }
        match byte_token(code[i]) {
            Some(t) => {
                toks.push(t);
                proof {
                    reveal(Seq::filter);
                    assert(cur.filter(|b: u8| is_symbol(b)) == pre.filter(
                        |b: u8| is_symbol(b),
                    ).push(code@[i as int]));
                    assert(permissive_tokens(cur) =~= permissive_tokens(pre).push(
                        symbol_token(code@[i as int]),
                    ));
                }
            },
            None => {
                proof {
                    reveal(Seq::filter);
                    assert(permissive_tokens(cur) =~= permissive_tokens(pre));
                }
            },
        }
        i = i + 1;
    }
    proof {
        assert(code@.take(code@.len() as int) =~= code@);
    }
    toks
}

} // verus!

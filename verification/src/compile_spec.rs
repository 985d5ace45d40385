//! Mathematical model of compilation: what the lexer emits for a source
//! text, how the parser folds tokens into instructions while back-patching
//! bracket jumps, and the structural facts that successful parses guarantee.

use vstd::prelude::*;

use crate::compiler::{Instruction, Token};

verus! {

/// Tokens produced for the suffix `s` of the source, when the characters
/// before `s` have already advanced the position counters to `line`
/// (1-based) and `col` (columns consumed on the current line so far).
/// Newlines advance the counters without emitting a token; characters
/// outside the eight operators are comments; the sequence always ends in
/// exactly one end-marker.
pub open spec fn spec_tokenize_from(s: Seq<char>, line: nat, col: nat) -> Seq<Token>
    decreases s.len(),
{
    if s.len() == 0 {
        seq![Token::EOF]
    } else {
        let c = s[0];
        let rest = s.drop_first();
        if c == '\n' {
            spec_tokenize_from(rest, line + 1, 0)
        } else if c == '+' {
            seq![Token::Plus] + spec_tokenize_from(rest, line, col + 1)
        } else if c == '-' {
            seq![Token::Minus] + spec_tokenize_from(rest, line, col + 1)
        } else if c == '<' {
            seq![Token::Less] + spec_tokenize_from(rest, line, col + 1)
        } else if c == '>' {
            seq![Token::Greater] + spec_tokenize_from(rest, line, col + 1)
        } else if c == '[' {
            seq![Token::LBrac { line: line as usize, col: (col + 1) as usize }]
                + spec_tokenize_from(rest, line, col + 1)
        } else if c == ']' {
            seq![Token::RBrac { line: line as usize, col: (col + 1) as usize }]
                + spec_tokenize_from(rest, line, col + 1)
        } else if c == '.' {
            seq![Token::Dot] + spec_tokenize_from(rest, line, col + 1)
        } else if c == ',' {
            seq![Token::Comma] + spec_tokenize_from(rest, line, col + 1)
        } else {
            spec_tokenize_from(rest, line, col + 1)
        }
    }
}

/// The token sequence of a whole source text.
pub open spec fn spec_tokenize(s: Seq<char>) -> Seq<Token> {
    spec_tokenize_from(s, 1, 0)
}

/// The token sequence is never empty and always ends in the end-marker.
pub proof fn lemma_tokenize_ends_eof(s: Seq<char>, line: nat, col: nat)
    ensures
        spec_tokenize_from(s, line, col).len() >= 1,
        spec_tokenize_from(s, line, col).last() == Token::EOF,
    decreases s.len(),
{
    if s.len() > 0 {
        lemma_tokenize_ends_eof(s.drop_first(), line + 1, 0);
        lemma_tokenize_ends_eof(s.drop_first(), line, col + 1);
    }
}

/// A source of `n` characters lexes to at most `n + 1` tokens.
pub proof fn lemma_tokenize_len(s: Seq<char>, line: nat, col: nat)
    ensures
        spec_tokenize_from(s, line, col).len() <= s.len() + 1,
    decreases s.len(),
{
    if s.len() > 0 {
        lemma_tokenize_len(s.drop_first(), line + 1, 0);
        lemma_tokenize_len(s.drop_first(), line, col + 1);
    }
}

/// Parser state mid-pass: the instructions emitted so far, the stack of
/// pending open brackets (the opener token and the index of its placeholder
/// `JmpZ`), and the offending bracket tokens recorded so far.
pub ghost struct ParseState {
    pub instrs: Seq<Instruction>,
    pub stack: Seq<(Token, usize)>,
    pub errs: Seq<Token>,
}

pub open spec fn parse_init() -> ParseState {
    ParseState { instrs: Seq::empty(), stack: Seq::empty(), errs: Seq::empty() }
}

/// One token's effect on the parser state. Ordinary operators emit one
/// instruction with count 1. An open bracket pushes its position and emits a
/// placeholder `JmpZ(0)`. A close bracket with a pending opener patches that
/// opener's target to the index one past the `Jmp` about to be emitted, then
/// emits `Jmp` back to the opener; with no pending opener it is recorded as
/// an error and emits nothing. The end-marker emits `Exit`.
pub open spec fn parse_step(st: ParseState, t: Token) -> ParseState {
    match t {
        Token::Plus => ParseState { instrs: st.instrs.push(Instruction::Inc(1)), ..st },
        Token::Minus => ParseState { instrs: st.instrs.push(Instruction::Dec(1)), ..st },
        Token::Greater => ParseState { instrs: st.instrs.push(Instruction::MvRight(1)), ..st },
        Token::Less => ParseState { instrs: st.instrs.push(Instruction::MvLeft(1)), ..st },
        Token::Dot => ParseState { instrs: st.instrs.push(Instruction::Put), ..st },
        Token::Comma => ParseState { instrs: st.instrs.push(Instruction::Get), ..st },
        Token::EOF => ParseState { instrs: st.instrs.push(Instruction::Exit), ..st },
        Token::LBrac { .. } => ParseState {
            stack: st.stack.push((t, st.instrs.len() as usize)),
            instrs: st.instrs.push(Instruction::JmpZ(0)),
            ..st
        },
        Token::RBrac { .. } => {
            if st.stack.len() == 0 {
                ParseState { errs: st.errs.push(t), ..st }
            } else {
                let top = st.stack.last();
                let addr = top.1;
                let jmp_at = st.instrs.len();
                if st.instrs[addr as int] is JmpZ {
                    ParseState {
                        instrs: st.instrs.update(
                            addr as int,
                            Instruction::JmpZ((jmp_at + 1) as usize),
                        ).push(Instruction::Jmp(addr)),
                        stack: st.stack.drop_last(),
                        errs: st.errs,
                    }
                } else {
                    ParseState {
                        instrs: st.instrs.push(Instruction::Jmp(addr)),
                        stack: st.stack.drop_last(),
                        errs: st.errs.push(top.0),
                    }
                }
            }
        },
    }
}

/// The parser state after a left-to-right pass over `toks`.
pub open spec fn parse_tokens(toks: Seq<Token>) -> ParseState
    decreases toks.len(),
{
    if toks.len() == 0 {
        parse_init()
    } else {
        parse_step(parse_tokens(toks.drop_last()), toks.last())
    }
}

/// After the pass, openers still pending are unmatched-open errors, reported
/// in the order popped (most recent first).
pub open spec fn drain_errs(errs: Seq<Token>, stack: Seq<(Token, usize)>) -> Seq<Token>
    decreases stack.len(),
{
    if stack.len() == 0 {
        errs
    } else {
        drain_errs(errs.push(stack.last().0), stack.drop_last())
    }
}

/// The whole parse: the finished instruction sequence, or every offending
/// bracket token when any was found (never a partial program).
pub open spec fn spec_parse(toks: Seq<Token>) -> Result<Seq<Instruction>, Seq<Token>> {
    let st = parse_tokens(toks);
    let errs = drain_errs(st.errs, st.stack);
    if errs.len() == 0 {
        Ok(st.instrs)
    } else {
        Err(errs)
    }
}

/// Compilation without the optimizer pass: lex, then parse.
pub open spec fn spec_compile(src: Seq<char>) -> Result<Seq<Instruction>, Seq<Token>> {
    spec_parse(spec_tokenize(src))
}

/// Structural well-formedness of a finished instruction sequence: it is
/// non-empty, ends in `Exit`, each `Jmp` targets the matching `JmpZ` before
/// it, and each `JmpZ` targets the index one past its matching `Jmp`. In
/// particular every jump target is strictly within bounds.
pub open spec fn wf_at(p: Seq<Instruction>, j: int) -> bool {
    match p[j] {
        Instruction::Jmp(t) => t < j && p[t as int] == Instruction::JmpZ((j + 1) as usize),
        Instruction::JmpZ(t) => j + 1 < t < p.len() && p[t - 1] == Instruction::Jmp(j as usize),
        _ => true,
    }
}

pub open spec fn wf_code(p: Seq<Instruction>) -> bool {
    &&& p.len() >= 1
    &&& p.last() == Instruction::Exit
    &&& forall|j: int| 0 <= j < p.len() ==> #[trigger] wf_at(p, j)
}

/// Whether some pending opener on the stack points at instruction `j`.
pub open spec fn on_stack(st: ParseState, j: int) -> bool {
    exists|k: int| 0 <= k < st.stack.len() && (#[trigger] st.stack[k]).1 == j
}

/// The invariant the parser maintains: stack entries point (in strictly
/// increasing order) at placeholder `JmpZ(0)` instructions; every emitted
/// `Jmp` already points at its patched `JmpZ` and vice versa; and a `JmpZ`
/// still holding the placeholder target is exactly one with a pending opener.
pub open spec fn state_inv_at(st: ParseState, j: int) -> bool {
    match st.instrs[j] {
        Instruction::Jmp(t) => t < j && st.instrs[t as int] == Instruction::JmpZ(
            (j + 1) as usize,
        ),
        Instruction::JmpZ(t) => if t == 0 {
            on_stack(st, j)
        } else {
            j + 1 < t <= st.instrs.len() && st.instrs[t - 1] == Instruction::Jmp(j as usize)
        },
        _ => true,
    }
}

pub open spec fn state_inv(st: ParseState) -> bool {
    &&& forall|k: int|
        0 <= k < st.stack.len() ==> (#[trigger] st.stack[k]).1 < st.instrs.len()
            && st.instrs[st.stack[k].1 as int] == Instruction::JmpZ(0)
    &&& forall|k1: int, k2: int|
        0 <= k1 < k2 < st.stack.len() ==> (#[trigger] st.stack[k1]).1
            < (#[trigger] st.stack[k2]).1
    &&& forall|j: int| 0 <= j < st.instrs.len() ==> #[trigger] state_inv_at(st, j)
}

/// One parse step preserves the invariant.
pub proof fn lemma_parse_step_inv(st: ParseState, t: Token)
    requires
        state_inv(st),
        st.instrs.len() + 1 <= usize::MAX,
    ensures
        state_inv(parse_step(st, t)),
        parse_step(st, t).instrs.len() <= st.instrs.len() + 1,
        parse_step(st, t).stack.len() <= st.stack.len() + 1,
{
    let st2 = parse_step(st, t);
    match t {
        Token::LBrac { .. } => {
            let l = st.instrs.len() as int;
            assert(st2.stack == st.stack.push((t, st.instrs.len() as usize)));
            assert forall|k: int|
                0 <= k < st2.stack.len() implies (#[trigger] st2.stack[k]).1 < st2.instrs.len()
                && st2.instrs[st2.stack[k].1 as int] == Instruction::JmpZ(0) by {
                if k < st.stack.len() {
                    assert(st2.stack[k] == st.stack[k]);
                    assert(st.stack[k].1 < st.instrs.len());
                } else {
                    assert(st2.stack[k].1 == l);
                }
            }
            assert forall|k1: int, k2: int|
                0 <= k1 < k2 < st2.stack.len() implies (#[trigger] st2.stack[k1]).1
                < (#[trigger] st2.stack[k2]).1 by {
                assert(st2.stack[k1] == st.stack[k1]);
                assert(st.stack[k1].1 < st.instrs.len());
                if k2 < st.stack.len() {
                    assert(st2.stack[k2] == st.stack[k2]);
                }
            }
            assert forall|j: int| 0 <= j < st2.instrs.len() implies #[trigger] state_inv_at(
                st2,
                j,
            ) by {
                if j < l {
                    assert(state_inv_at(st, j));
                    match st.instrs[j] {
                        Instruction::JmpZ(tz) => {
                            if tz == 0 {
                                let k = choose|k: int|
                                    0 <= k < st.stack.len() && (#[trigger] st.stack[k]).1 == j;
                                assert(st2.stack[k].1 == j);
                            }
                        },
                        _ => {},
                    }
                } else {
                    assert(st2.stack[st.stack.len() as int].1 == j);
                }
            }
        },
        Token::RBrac { .. } => {
            if st.stack.len() == 0 {
                assert forall|j: int| 0 <= j < st2.instrs.len() implies #[trigger] state_inv_at(
                    st2,
                    j,
                ) by {
                    assert(state_inv_at(st, j));
                }
            } else {
                let li = st.stack.len() - 1;
                assert(st.stack[li].1 < st.instrs.len());
                let addr = st.stack.last().1 as int;
                let l = st.instrs.len() as int;
                assert(st.instrs[addr] == Instruction::JmpZ(0));
                assert forall|k: int|
                    0 <= k < st2.stack.len() implies (#[trigger] st2.stack[k]).1
                    < st2.instrs.len() && st2.instrs[st2.stack[k].1 as int] == Instruction::JmpZ(
                    0,
                ) by {
                    assert(st.stack[k].1 < st.stack[li].1);
                }
                assert forall|j: int| 0 <= j < st2.instrs.len() implies #[trigger] state_inv_at(
                    st2,
                    j,
                ) by {
                    if j == l {
                        assert(st2.instrs[addr] == Instruction::JmpZ((l + 1) as usize));
                    } else if j == addr {
                        assert(st2.instrs[l] == Instruction::Jmp(addr as usize));
                    } else {
                        assert(state_inv_at(st, j));
                        match st.instrs[j] {
                            Instruction::Jmp(tj) => {
                                assert(st.instrs[tj as int] == Instruction::JmpZ(
                                    (j + 1) as usize,
                                ));
                                assert(tj != addr);
                            },
                            Instruction::JmpZ(tz) => {
                                if tz == 0 {
                                    let k = choose|k: int|
                                        0 <= k < st.stack.len() && (#[trigger] st.stack[k]).1 == j;
                                    assert(st.stack[li].1 == addr);
                                    assert(k != li);
                                    assert(st2.stack[k].1 == j);
                                } else {
                                    assert(st.instrs[tz - 1] == Instruction::Jmp(j as usize));
                                    assert(tz - 1 != addr);
                                }
                            },
                            _ => {},
                        }
                    }
                }
            }
        },
        _ => {
            assert forall|j: int| 0 <= j < st2.instrs.len() implies #[trigger] state_inv_at(
                st2,
                j,
            ) by {
                if j < st.instrs.len() {
                    assert(state_inv_at(st, j));
                    match st.instrs[j] {
                        Instruction::JmpZ(tz) => {
                            if tz == 0 {
                                let k = choose|k: int|
                                    0 <= k < st.stack.len() && (#[trigger] st.stack[k]).1 == j;
                                assert(st2.stack[k].1 == j);
                            }
                        },
                        _ => {},
                    }
                }
            }
        },
    }
}

/// The invariant holds of the state after parsing any token sequence.
pub proof fn lemma_parse_tokens_inv(toks: Seq<Token>)
    requires
        toks.len() <= usize::MAX,
    ensures
        state_inv(parse_tokens(toks)),
        parse_tokens(toks).instrs.len() <= toks.len(),
        parse_tokens(toks).stack.len() <= toks.len(),
    decreases toks.len(),
{
    if toks.len() > 0 {
        lemma_parse_tokens_inv(toks.drop_last());
        lemma_parse_step_inv(parse_tokens(toks.drop_last()), toks.last());
    }
}

pub proof fn lemma_drain_errs_len(errs: Seq<Token>, stack: Seq<(Token, usize)>)
    ensures
        drain_errs(errs, stack).len() == errs.len() + stack.len(),
    decreases stack.len(),
{
    if stack.len() > 0 {
        lemma_drain_errs_len(errs.push(stack.last().0), stack.drop_last());
    }
}

/// A successful parse of a token sequence that ends in the end-marker yields
/// a structurally well-formed program; in particular, every patched jump
/// target lies strictly within the program's bounds.
pub proof fn lemma_parse_wf(toks: Seq<Token>)
    requires
        toks.len() <= usize::MAX,
        toks.len() >= 1,
        toks.last() == Token::EOF,
        spec_parse(toks) is Ok,
    ensures
        wf_code(spec_parse(toks)->Ok_0),
{
    lemma_parse_tokens_inv(toks);
    let st = parse_tokens(toks);
    lemma_drain_errs_len(st.errs, st.stack);
    assert(st.stack.len() == 0);
    let p = st.instrs;
    assert(parse_tokens(toks) == parse_step(parse_tokens(toks.drop_last()), Token::EOF));
    assert(p.last() == Instruction::Exit);
    assert forall|j: int| 0 <= j < p.len() implies #[trigger] wf_at(p, j) by {
        assert(state_inv_at(st, j));
        match p[j] {
            Instruction::JmpZ(tz) => {
                assert(tz != 0);
                assert(p[tz - 1] == Instruction::Jmp(j as usize));
                assert(tz < p.len()) by {
                    if tz == p.len() {
                        assert(p[tz - 1] == Instruction::Exit);
                    }
                }
            },
            _ => {},
        }
    }
}

} // verus!


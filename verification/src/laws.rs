//! The library's laws, each stated once over all inputs and proved: the
//! peephole pass preserves observable behaviour; a source with matched
//! brackets always compiles, to one instruction per operator plus the final
//! halt; and every patched jump target lands strictly within its program.

use vstd::prelude::*;

use crate::compile_spec::{
    lemma_drain_errs_len, lemma_parse_tokens_inv, lemma_parse_wf, lemma_tokenize_ends_eof,
    lemma_tokenize_len, parse_tokens, spec_compile, spec_tokenize, spec_tokenize_from, wf_at,
    wf_code,
};
use crate::compiler::{Instruction, Token};
use crate::equivalence::{lemma_sim_bwd, lemma_sim_fwd, opt_state, same_obs};
use crate::optimizer::{
    lemma_optimize_wf, lemma_parse_unit_counts, new_index, retained, spec_optimize, unit_counts,
};
use crate::semantics::{run_n, state_wf, RunOutcome, VmState};

verus! {

/// What compilation guarantees of its output: structurally well-formed code
/// whose amplifiable instructions all carry count 1, no longer than the
/// source plus the final halt.
proof fn lemma_compile_facts(src: Seq<char>)
    requires
        src.len() < usize::MAX,
        spec_compile(src) is Ok,
    ensures
        wf_code(spec_compile(src)->Ok_0),
        unit_counts(spec_compile(src)->Ok_0),
        spec_compile(src)->Ok_0.len() <= src.len() + 1,
{
    let toks = spec_tokenize(src);
    lemma_tokenize_ends_eof(src, 1, 0);
    lemma_tokenize_len(src, 1, 0);
    lemma_parse_wf(toks);
    lemma_parse_unit_counts(toks);
    lemma_parse_tokens_inv(toks);
}

/// Law: for every source that compiles, every input stream, every tape, and
/// every step bound, running the folded program is observably identical to
/// running the unfolded one: the same output bytes, the same consumed-input
/// count, the same final tape and pointer on completion, and the same fault
/// kind on a fault. Termination agrees in both directions: whenever either
/// run reaches a terminal outcome, so does the other, with equal
/// observables.
pub proof fn optimizer_preserves_semantics(src: Seq<char>, input: Seq<u8>, tape: Seq<u8>, n: nat)
    requires
        src.len() < usize::MAX,
        tape.len() >= 1,
        spec_compile(src) is Ok,
    ensures
        ({
            let p = spec_compile(src)->Ok_0;
            let q = spec_optimize(p);
            let s0 = VmState { cells: tape, ptr: 0, ip: 0, in_pos: 0, output: Seq::empty() };
            &&& (!(run_n(p, input, s0, n) is Running) ==> same_obs(
                run_n(q, input, s0, n),
                run_n(p, input, s0, n),
            ))
            &&& (!(run_n(q, input, s0, n) is Running) ==> exists|m: nat|
                same_obs(#[trigger] run_n(p, input, s0, m), run_n(q, input, s0, n)))
        }),
{
    let p = spec_compile(src)->Ok_0;
    let q = spec_optimize(p);
    let s0 = VmState { cells: tape, ptr: 0, ip: 0, in_pos: 0, output: Seq::empty() };
    lemma_compile_facts(src);
    assert(retained(p, 0));
    assert(new_index(p, 0) == 0);
    assert(opt_state(p, s0) == s0);
    assert(state_wf(p, input, s0));
    if !(run_n(p, input, s0, n) is Running) {
        lemma_sim_fwd(p, input, s0, n);
    }
    if !(run_n(q, input, s0, n) is Running) {
        lemma_sim_bwd(p, input, s0, n);
        let m = choose|m: nat|
            same_obs(#[trigger] run_n(p, input, s0, m), run_n(q, input, opt_state(p, s0), n));
        assert(same_obs(run_n(p, input, s0, m), run_n(q, input, s0, n)));
    }
}

/// Every jump or conditional jump targets an index strictly inside the
/// program.
pub open spec fn targets_within(p: Seq<Instruction>) -> bool {
    forall|j: int|
        0 <= j < p.len() ==> match #[trigger] p[j] {
            Instruction::Jmp(t) => t < p.len(),
            Instruction::JmpZ(t) => t < p.len(),
            _ => true,
        }
}

/// Law: target patching always produces jump targets strictly within the
/// program's bounds, both straight out of the parser and again after the
/// peephole pass re-indexes them.
pub proof fn jump_targets_within_bounds(src: Seq<char>)
    requires
        src.len() < usize::MAX,
        spec_compile(src) is Ok,
    ensures
        targets_within(spec_compile(src)->Ok_0),
        targets_within(spec_optimize(spec_compile(src)->Ok_0)),
{
    lemma_compile_facts(src);
    let p = spec_compile(src)->Ok_0;
    let q = spec_optimize(p);
    lemma_optimize_wf(p);
    assert forall|j: int|
        0 <= j < p.len() implies match #[trigger] p[j] {
        Instruction::Jmp(t) => t < p.len(),
        Instruction::JmpZ(t) => t < p.len(),
        _ => true,
    } by {
        assert(wf_at(p, j));
    }
    assert forall|j: int|
        0 <= j < q.len() implies match #[trigger] q[j] {
        Instruction::Jmp(t) => t < q.len(),
        Instruction::JmpZ(t) => t < q.len(),
        _ => true,
    } by {
        assert(wf_at(q, j));
    }
}

/// The eight operator characters.
pub open spec fn is_op_char(c: char) -> bool {
    c == '+' || c == '-' || c == '<' || c == '>' || c == '[' || c == ']' || c == '.' || c == ','
}

/// Number of operator characters in the source.
pub open spec fn op_count(s: Seq<char>) -> int
    decreases s.len(),
{
    if s.len() == 0 {
        0
    } else {
        (if is_op_char(s[0]) {
            1int
        } else {
            0int
        }) + op_count(s.drop_first())
    }
}

/// The source's brackets are syntactically matched when read with `depth`
/// opens already pending: the depth never drops below zero and ends at zero.
pub open spec fn matched_from(s: Seq<char>, depth: int) -> bool
    decreases s.len(),
{
    if s.len() == 0 {
        depth == 0
    } else if s[0] == '[' {
        matched_from(s.drop_first(), depth + 1)
    } else if s[0] == ']' {
        depth >= 1 && matched_from(s.drop_first(), depth - 1)
    } else {
        matched_from(s.drop_first(), depth)
    }
}

/// A source whose brackets are syntactically matched.
pub open spec fn matched(s: Seq<char>) -> bool {
    matched_from(s, 0)
}

/// Token-level counterpart of `matched_from`.
spec fn tok_matched(toks: Seq<Token>, depth: int) -> bool
    decreases toks.len(),
{
    if toks.len() == 0 {
        depth == 0
    } else {
        match toks[0] {
            Token::LBrac { .. } => tok_matched(toks.drop_first(), depth + 1),
            Token::RBrac { .. } => depth >= 1 && tok_matched(toks.drop_first(), depth - 1),
            _ => tok_matched(toks.drop_first(), depth),
        }
    }
}

/// Lexing preserves bracket matching, and emits one token per operator
/// character plus the end-marker.
proof fn lemma_tokenize_matched(s: Seq<char>, line: nat, col: nat, depth: int)
    ensures
        tok_matched(spec_tokenize_from(s, line, col), depth) == matched_from(s, depth),
        spec_tokenize_from(s, line, col).len() == op_count(s) + 1,
    decreases s.len(),
{
    if s.len() == 0 {
        assert(seq![Token::EOF].drop_first() =~= Seq::<Token>::empty());
        assert(seq![Token::EOF][0] == Token::EOF);
        assert(tok_matched(Seq::<Token>::empty(), depth) == (depth == 0));
    } else {
        let rest = s.drop_first();
        let c = s[0];
        if c == '\n' {
            lemma_tokenize_matched(rest, line + 1, 0, depth);
        } else if c == '[' {
            lemma_tokenize_matched(rest, line, col + 1, depth + 1);
            let tl = spec_tokenize_from(rest, line, col + 1);
            let tok = Token::LBrac { line: line as usize, col: (col + 1) as usize };
            assert((seq![tok] + tl)[0] == tok);
            assert((seq![tok] + tl).drop_first() =~= tl);
        } else if c == ']' {
            lemma_tokenize_matched(rest, line, col + 1, depth - 1);
            let tl = spec_tokenize_from(rest, line, col + 1);
            let tok = Token::RBrac { line: line as usize, col: (col + 1) as usize };
            assert((seq![tok] + tl)[0] == tok);
            assert((seq![tok] + tl).drop_first() =~= tl);
        } else if is_op_char(c) {
            lemma_tokenize_matched(rest, line, col + 1, depth);
            let tl = spec_tokenize_from(rest, line, col + 1);
            if c == '+' {
                assert((seq![Token::Plus] + tl)[0] == Token::Plus);
                assert((seq![Token::Plus] + tl).drop_first() =~= tl);
            } else if c == '-' {
                assert((seq![Token::Minus] + tl)[0] == Token::Minus);
                assert((seq![Token::Minus] + tl).drop_first() =~= tl);
            } else if c == '<' {
                assert((seq![Token::Less] + tl)[0] == Token::Less);
                assert((seq![Token::Less] + tl).drop_first() =~= tl);
            } else if c == '>' {
                assert((seq![Token::Greater] + tl)[0] == Token::Greater);
                assert((seq![Token::Greater] + tl).drop_first() =~= tl);
            } else if c == '.' {
                assert((seq![Token::Dot] + tl)[0] == Token::Dot);
                assert((seq![Token::Dot] + tl).drop_first() =~= tl);
            } else {
                assert((seq![Token::Comma] + tl)[0] == Token::Comma);
                assert((seq![Token::Comma] + tl).drop_first() =~= tl);
            }
        } else {
            lemma_tokenize_matched(rest, line, col + 1, depth);
        }
    }
}

/// With matched brackets the parser records no errors, leaves no opener
/// pending, and emits exactly one instruction per token.
proof fn lemma_parse_matched(toks: Seq<Token>, i: int)
    requires
        toks.len() <= usize::MAX,
        0 <= i <= toks.len(),
        tok_matched(toks.skip(i), parse_tokens(toks.take(i)).stack.len() as int),
        parse_tokens(toks.take(i)).errs.len() == 0,
        parse_tokens(toks.take(i)).instrs.len() == i,
    ensures
        parse_tokens(toks).errs.len() == 0,
        parse_tokens(toks).stack.len() == 0,
        parse_tokens(toks).instrs.len() == toks.len(),
    decreases toks.len() - i,
{
    if i == toks.len() {
        assert(toks.take(i) =~= toks);
        assert(toks.skip(i) =~= Seq::<Token>::empty());
    } else {
        let st = parse_tokens(toks.take(i));
        lemma_parse_tokens_inv(toks.take(i));
        assert(toks.take(i + 1).drop_last() =~= toks.take(i));
        assert(toks.take(i + 1).last() == toks[i]);
        assert(toks.skip(i)[0] == toks[i]);
        assert(toks.skip(i).drop_first() =~= toks.skip(i + 1));
        if st.stack.len() > 0 {
            assert(st.stack[st.stack.len() - 1].1 < st.instrs.len());
            assert(st.instrs[st.stack[st.stack.len() - 1].1 as int] == Instruction::JmpZ(0));
        }
        lemma_parse_matched(toks, i + 1);
    }
}

/// Law: a source whose brackets are syntactically matched always compiles,
/// and the emitted program's instruction count is the number of operator
/// characters plus one halt instruction.
pub proof fn matched_brackets_compile(src: Seq<char>)
    requires
        src.len() < usize::MAX,
        matched(src),
    ensures
        spec_compile(src) is Ok,
        (spec_compile(src)->Ok_0).len() == op_count(src) + 1,
{
    let toks = spec_tokenize(src);
    lemma_tokenize_matched(src, 1, 0, 0);
    lemma_tokenize_len(src, 1, 0);
    assert(toks.take(0) =~= Seq::<Token>::empty());
    assert(toks.skip(0) =~= toks);
    lemma_parse_matched(toks, 0);
    lemma_drain_errs_len(parse_tokens(toks).errs, parse_tokens(toks).stack);
}

} // verus!

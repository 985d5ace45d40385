//! Source-to-instruction compilation: the lexer, the parser with its
//! bracket back-patching, and the compiled `Program` wrapper.

use vstd::prelude::*;
use vstd::string::{StrSliceExecFns, StringExecFns};

use crate::render::{
    caret_block, decimal_len, entries, entry, error_msg, header, line_at, push_decimal,
    push_spaces, spaces,
};

use crate::compile_spec::{
    drain_errs, lemma_parse_tokens_inv, lemma_parse_wf, lemma_tokenize_ends_eof,
    lemma_tokenize_len, parse_step, parse_tokens, spec_compile, spec_parse, spec_tokenize,
    spec_tokenize_from, wf_at, wf_code, ParseState,
};
use crate::optimizer::{
    bump, count_of, folded_at, foldable, lemma_new_index_flat, lemma_new_index_mono,
    lemma_new_index_onto, lemma_new_index_strict, lemma_opt_from_len, lemma_optimize_at,
    lemma_optimize_wf, lemma_parse_unit_counts, lemma_run_end_props, lemma_run_same_kind,
    lemma_run_start, lemma_sum_counts_snoc, lemma_sum_counts_unit, merges, new_index, pass1_at,
    pass1_partial, pass1_upto, retained, run_end, run_start, spec_optimize, sum_counts,
    unit_counts,
};

verus! {

/// One lexical token. Only the bracket variants carry their 1-based source
/// line and column: brackets are the only tokens that can turn into parse
/// errors, and the position is exactly the data needed to report them.
#[derive(Clone, Copy, PartialEq, Eq, Structural, Debug)]
pub enum Token {
    RBrac { line: usize, col: usize },
    LBrac { line: usize, col: usize },
    Plus,
    Minus,
    Less,
    Greater,
    Dot,
    Comma,
    EOF,
}

/// One executable instruction. The payload of the four amplifiable kinds is
/// a repetition count; the payload of the jump kinds is an absolute index
/// into the owning instruction sequence.
#[derive(Clone, Copy, PartialEq, Eq, Structural, Debug)]
pub enum Instruction {
    MvLeft(usize),
    MvRight(usize),
    Inc(usize),
    Dec(usize),
    Jmp(usize),
    JmpZ(usize),
    Get,
    Put,
    Exit,
}

impl Program {
    /// Lex a source text into a token sequence ending in one end-marker.
    /// Lexing is total: every character maps to at most one token, and
    /// non-operator characters are ignored comments.
    fn tokenize(program: &str) -> (tokens: Vec<Token>)
        requires
            program@.len() < usize::MAX,
        ensures
            tokens@ == spec_tokenize(program@),
    {
        let mut tokens: Vec<Token> = Vec::new();
        let mut line: usize = 1;
        let mut col: usize = 0;
        let n = program.unicode_len();
        let mut i: usize = 0;
        proof {
            assert(program@.skip(0) =~= program@);
            assert(tokens@ + spec_tokenize_from(program@, 1, 0) =~= spec_tokenize(program@));
        }
        while i < n
            invariant
                n == program@.len(),
                n < usize::MAX,
                i <= n,
                line as int <= i + 1,
                col as int <= i,
                spec_tokenize(program@) == tokens@ + spec_tokenize_from(
                    program@.skip(i as int),
                    line as nat,
                    col as nat,
                ),
            decreases n - i,
        {
            proof {
                assert(program@.skip(i as int)[0] == program@[i as int]);
                assert(program@.skip(i as int).drop_first() =~= program@.skip(i as int + 1));
            }
            let ghost toks_before = tokens@;
            let ghost l0 = line as nat;
            let ghost c0 = col as nat;
            let c = program.get_char(i);
            col = col + 1;
            match c {
                '+' => tokens.push(Token::Plus),
                '-' => tokens.push(Token::Minus),
                '<' => tokens.push(Token::Less),
                '>' => tokens.push(Token::Greater),
                ']' => tokens.push(Token::RBrac { line, col }),
                '[' => tokens.push(Token::LBrac { line, col }),
                '.' => tokens.push(Token::Dot),
                ',' => tokens.push(Token::Comma),
                '\n' => {
                    line = line + 1;
                    col = 0;
                },
                _ => {},
            }
            proof {
                let rest = spec_tokenize_from(program@.skip(i as int + 1), line as nat, col as nat);
                assert(tokens@ + rest =~= toks_before + spec_tokenize_from(
                    program@.skip(i as int),
                    l0,
                    c0,
                ));
            }
            i = i + 1;
        }
        proof {
            assert(program@.skip(n as int) =~= Seq::<char>::empty());
        }
        tokens.push(Token::EOF);
        proof {
            assert(tokens@ =~= spec_tokenize(program@));
        }
        tokens
    }

    /// Parse a token sequence into a finished program, or aggregate every
    /// unmatched bracket into one error (fail-slow, never a partial program).
    fn parse(program: Vec<Token>) -> (r: Result<Program, ParseError>)
        ensures
            match r {
                Ok(p) => spec_parse(program@) == Ok::<Seq<Instruction>, Seq<Token>>(p@),
                Err(e) => spec_parse(program@) == Err::<Seq<Instruction>, Seq<Token>>(e@)
                    && e@.len() >= 1,
            },
    {
        let ghost toks = program@;
        let mut instructions: Vec<Instruction> = Vec::new();
        let mut jmp_addresses: Vec<(Token, usize)> = Vec::new();
        let mut errors = ParseError::new();
        let n = program.len();
        let mut i: usize = 0;
        proof {
            assert(toks.take(0) =~= Seq::<Token>::empty());
        }
        while i < n
            invariant
                i <= n,
                n == toks.len(),
                program@ == toks,
                parse_tokens(toks.take(i as int)) == (ParseState {
                    instrs: instructions@,
                    stack: jmp_addresses@,
                    errs: errors@,
                }),
                instructions@.len() <= i,
            decreases n - i,
        {
            let ghost st0 = parse_tokens(toks.take(i as int));
            proof {
                assert(toks.take(i as int + 1).drop_last() =~= toks.take(i as int));
                assert(toks.take(i as int + 1).last() == toks[i as int]);
                lemma_parse_tokens_inv(toks.take(i as int));
            }
            let token = program[i];
            match token {
                Token::Plus => instructions.push(Instruction::Inc(1)),
                Token::Minus => instructions.push(Instruction::Dec(1)),
                Token::Greater => instructions.push(Instruction::MvRight(1)),
                Token::Less => instructions.push(Instruction::MvLeft(1)),
                Token::Dot => instructions.push(Instruction::Put),
                Token::Comma => instructions.push(Instruction::Get),
                Token::EOF => instructions.push(Instruction::Exit),
                Token::LBrac { .. } => {
                    jmp_addresses.push((token, instructions.len()));
                    instructions.push(Instruction::JmpZ(0));
                },
                Token::RBrac { .. } => {
                    if jmp_addresses.len() > 0 {
                        proof {
                            assert(st0.stack[st0.stack.len() - 1].1 < st0.instrs.len());
                            assert(st0.instrs[st0.stack[st0.stack.len() - 1].1 as int]
                                == Instruction::JmpZ(0));
                        }
                        let entry = jmp_addresses.pop().unwrap();
                        let address = entry.1;
                        let jmp_addr = instructions.len();
                        let cur = instructions[address];
                        match cur {
                            Instruction::JmpZ(_) => {
                                instructions.set(address, Instruction::JmpZ(jmp_addr + 1));
                            },
                            _ => {
                                errors.report_error(entry.0);
                            },
                        }
                        instructions.push(Instruction::Jmp(address));
                    } else {
                        errors.report_error(token);
                    }
                },
            }
            proof {
                assert((ParseState { instrs: instructions@, stack: jmp_addresses@, errs: errors@ })
                    == parse_step(st0, toks[i as int]));
            }
            i = i + 1;
        }
        proof {
            assert(toks.take(n as int) =~= toks);
        }
        while jmp_addresses.len() > 0
            invariant
                drain_errs(errors@, jmp_addresses@) == drain_errs(
                    parse_tokens(toks).errs,
                    parse_tokens(toks).stack,
                ),
                instructions@ == parse_tokens(toks).instrs,
            decreases jmp_addresses.len(),
        {
            let entry = jmp_addresses.pop().unwrap();
            errors.report_error(entry.0);
        }
        if errors.had_error() {
            Err(errors)
        } else {
            Ok(Program { instructions })
        }
    }

    /// Run-length peephole pass. A maximal run of one amplifiable kind folds
    /// into a single instruction carrying the run's total count, and every
    /// jump target is re-indexed through an old-to-new index map built in
    /// the same forward pass. It runs on freshly parsed programs, whose
    /// repetition counts are all 1.
    fn optimize(&mut self)
        requires
            unit_counts(old(self)@),
            wf_code(old(self)@),
        ensures
            final(self)@ == spec_optimize(old(self)@),
            wf_code(final(self)@),
    {
        let ghost p = self@;
        let n = self.instructions.len();
        proof {
            lemma_optimize_wf(p);
        }
        let mut opt: Vec<Instruction> = Vec::new();
        let mut index_map: Vec<usize> = Vec::new();
        let mut i: usize = 0;
        while i < n
            invariant
                self@ == p,
                n == p.len(),
                0 < n <= usize::MAX,
                unit_counts(p),
                i <= n,
                index_map@.len() == i,
                forall|k: int| 0 <= k < i ==> #[trigger] index_map@[k] as int == new_index(p, k),
                opt@.len() == new_index(p, i as int),
                forall|j: int| #![trigger new_index(p, j)]
                    0 <= j < i && retained(p, j) ==> opt@[new_index(p, j) as int]
                        == pass1_upto(p, j, i as int),
            decreases n - i,
        {
            let ghost ii = i as int;
            proof {
                lemma_new_index_mono(p, 0, ii);
                lemma_run_end_props(p, ii);
            }
            index_map.push(opt.len());
            let instr = self.instructions[i];
            let mut merged = false;
            if i > 0 {
                let ghost jb = run_start(p, ii - 1);
                proof {
                    lemma_run_start(p, ii - 1);
                    lemma_run_end_props(p, jb);
                    if jb < ii - 1 {
                        lemma_run_same_kind(p, jb, ii - 1);
                    }
                    lemma_new_index_strict(p, 0, ii);
                    lemma_new_index_flat(p, jb + 1, ii);
                    assert(new_index(p, jb) == new_index(p, ii) - 1);
                    assert(opt@[new_index(p, jb) as int] == pass1_upto(p, jb, ii));
                    assert(pass1_upto(p, jb, ii) == pass1_partial(p, jb, ii));
                    if foldable(p[jb]) {
                        assert forall|k: int| jb <= k < ii implies count_of(
                            #[trigger] p[k],
                        ) == 1 by {
                            if k > jb {
                                lemma_run_same_kind(p, jb, k);
                            }
                        }
                        lemma_sum_counts_unit(p, jb, ii);
                    }
                }
                let li = opt.len() - 1;
                let last = opt[li];
                proof {
                    assert(last == pass1_partial(p, jb, ii));
                    assert(merges(last, instr) == merges(p[ii - 1], instr));
                }
                if last.merges_with(&instr) {
                    proof {
                        assert(!retained(p, ii));
                        assert(foldable(p[jb]));
                        assert(count_of(last) == ii - jb);
                        lemma_sum_counts_snoc(p, jb, ii);
                    }
                    let mut updated = last;
                    updated.increment();
                    opt.set(li, updated);
                    merged = true;
                    proof {
                        assert(ii < run_end(p, jb)) by {
                            if run_end(p, jb) == ii {
                                assert(retained(p, ii));
                            }
                        }
                        assert(updated == pass1_partial(p, jb, ii + 1));
                        assert forall|j: int| #![trigger new_index(p, j)]
                            0 <= j < i + 1 && retained(p, j) implies opt@[new_index(p, j) as int] == pass1_upto(p, j, ii + 1) by {
                            if j == jb {
                                assert(pass1_upto(p, jb, ii + 1) == pass1_partial(p, jb, ii + 1));
                            } else {
                                assert(j <= ii - 1);
                                assert(j < jb) by {
                                    if j > jb {
                                        assert(!retained(p, j));
                                    }
                                }
                                lemma_run_end_props(p, j);
                                assert(run_end(p, j) <= jb) by {
                                    if run_end(p, j) > jb {
                                        assert(!retained(p, jb));
                                    }
                                }
                                lemma_new_index_strict(p, j, jb);
                                lemma_new_index_mono(p, 0, j);
                                assert(opt@[new_index(p, j) as int] == pass1_upto(p, j, ii));
                                assert(pass1_upto(p, j, ii + 1) == pass1_upto(p, j, ii));
                            }
                        }
                    }
                }
            }
            if !merged {
                proof {
                    assert(retained(p, ii));
                    assert(sum_counts(p, ii, ii + 1) == count_of(p[ii]) + sum_counts(
                        p,
                        ii + 1,
                        ii + 1,
                    ));
                    assert(pass1_upto(p, ii, ii + 1) == p[ii as int]);
                }
                opt.push(instr);
                proof {
                    assert forall|j: int| #![trigger new_index(p, j)]
                            0 <= j < i + 1 && retained(p, j) implies opt@[new_index(p, j) as int] == pass1_upto(p, j, ii + 1) by {
                        lemma_new_index_mono(p, 0, j);
                        lemma_new_index_mono(p, j, ii);
                        if j < ii {
                            lemma_run_end_props(p, j);
                            assert(run_end(p, j) <= ii) by {
                                if run_end(p, j) > ii {
                                    assert(!retained(p, ii));
                                }
                            }
                            lemma_new_index_strict(p, j, ii);
                            assert(pass1_upto(p, j, ii + 1) == pass1_upto(p, j, ii));
                        }
                    }
                }
            }
            i = i + 1;
        }
        index_map.push(opt.len());
        let ghost nn = n as int;
        proof {
            assert forall|j: int| #![trigger new_index(p, j)]
                0 <= j < nn && retained(p, j) implies opt@[new_index(p, j) as int] == pass1_at(p, j) by {
                lemma_run_end_props(p, j);
                assert(opt@[new_index(p, j) as int] == pass1_upto(p, j, nn));
            }
        }
        let m = opt.len();
        let mut k: usize = 0;
        while k < m
            invariant
                n == p.len(),
                0 < n <= usize::MAX,
                wf_code(p),
                m == opt@.len(),
                m as int == new_index(p, n as int),
                k <= m,
                index_map@.len() == n + 1,
                forall|q: int| 0 <= q <= n ==> #[trigger] index_map@[q] as int == new_index(p, q),
                forall|j: int| #![trigger new_index(p, j)]
                    0 <= j < n && retained(p, j) && new_index(p, j) >= k ==> opt@[new_index(p, j) as int] == pass1_at(p, j),
                forall|j: int| #![trigger new_index(p, j)]
                    0 <= j < n && retained(p, j) && new_index(p, j) < k ==> opt@[new_index(p, j) as int] == folded_at(p, j),
            decreases m - k,
        {
            let ghost kk = k as int;
            proof {
                lemma_new_index_onto(p, n as int, kk);
            }
            let ghost jk = choose|j: int|
                0 <= j < n as int && retained(p, j) && #[trigger] new_index(p, j) == kk;
            proof {
                assert(opt@[kk] == pass1_at(p, jk));
                assert(wf_at(p, jk));
                lemma_new_index_mono(p, 0, jk);
            }
            let ghost opt0 = opt@;
            let cur = opt[k];
            match cur {
                Instruction::Jmp(t) => {
                    proof {
                        assert(p[jk] == Instruction::Jmp(t));
                        lemma_new_index_mono(p, 0, t as int);
                        lemma_new_index_mono(p, t as int, jk);
                    }
                    let nt = index_map[t];
                    opt.set(k, Instruction::Jmp(nt));
                    proof {
                        assert(opt@[kk] == folded_at(p, jk));
                    }
                },
                Instruction::JmpZ(t) => {
                    proof {
                        assert(p[jk] == Instruction::JmpZ(t));
                        lemma_new_index_mono(p, 0, t as int);
                        lemma_new_index_mono(p, t as int, n as int);
                    }
                    let nt = index_map[t];
                    opt.set(k, Instruction::JmpZ(nt));
                    proof {
                        assert(opt@[kk] == folded_at(p, jk));
                    }
                },
                _ => {
                    proof {
                        assert(folded_at(p, jk) == pass1_at(p, jk));
                        assert(opt@[kk] == folded_at(p, jk));
                    }
                },
            }
            proof {
                assert(opt@.len() == m);
                assert(forall|idx: int|
                    0 <= idx < m && idx != kk ==> #[trigger] opt@[idx] == opt0[idx]);
                assert forall|j: int| #![trigger new_index(p, j)]
                    0 <= j < n && retained(p, j) && new_index(p, j) >= k + 1 implies opt@[new_index(p, j) as int] == pass1_at(p, j) by {
                    lemma_new_index_strict(p, j, n as int);
                    assert(new_index(p, j) != kk);
                    assert(opt0[new_index(p, j) as int] == pass1_at(p, j));
                }
                assert forall|j: int| #![trigger new_index(p, j)]
                    0 <= j < n && retained(p, j) && new_index(p, j) < k + 1 implies opt@[new_index(p, j) as int] == folded_at(p, j) by {
                    lemma_new_index_strict(p, j, n as int);
                    if new_index(p, j) < kk {
                        assert(new_index(p, j) != kk);
                        assert(opt0[new_index(p, j) as int] == folded_at(p, j));
                    } else {
                        assert(j == jk) by {
                            if j < jk {
                                lemma_new_index_strict(p, j, jk);
                            } else if j > jk {
                                lemma_new_index_strict(p, jk, j);
                            }
                        }
                    }
                }
            }
            k = k + 1;
        }
        self.instructions = opt;
        proof {
            lemma_opt_from_len(p, 0);
            assert forall|q: int| 0 <= q < self@.len() implies self@[q] == spec_optimize(p)[q] by {
                lemma_new_index_onto(p, nn, q);
                let j = choose|j: int|
                    0 <= j < nn && retained(p, j) && #[trigger] new_index(p, j) == q;
                lemma_optimize_at(p, j);
            }
            assert(self@ =~= spec_optimize(p));
        }
    }

    /// Compile a source text: lex, parse, and optionally run the peephole
    /// pass. Returns the finished program exactly when the source has no
    /// unmatched bracket, and otherwise an error holding every offending
    /// bracket.
    pub fn from_str(program: &str, optimize: bool) -> (r: Result<Program, ParseError>)
        requires
            program@.len() < usize::MAX,
        ensures
            match r {
                Ok(p) => spec_from_str(program@, optimize) == Ok::<Seq<Instruction>, Seq<Token>>(
                    p@,
                ) && p.wf(),
                Err(e) => spec_from_str(program@, optimize) == Err::<
                    Seq<Instruction>,
                    Seq<Token>,
                >(e@) && e@.len() >= 1,
            },
    {
        let tokens = Program::tokenize(program);
        let ghost toks = tokens@;
        match Program::parse(tokens) {
            Ok(mut prog) => {
                proof {
                    lemma_tokenize_ends_eof(program@, 1, 0);
                    lemma_tokenize_len(program@, 1, 0);
                    lemma_parse_wf(toks);
                    lemma_parse_unit_counts(toks);
                }
                if optimize {
                    prog.optimize();
                }
                Ok(prog)
            },
            Err(e) => Err(e),
        }
    }
}

/// What compilation returns for a given source text and optimizer setting:
/// the (optionally folded) instruction sequence, or the offending brackets.
pub open spec fn spec_from_str(src: Seq<char>, optimize: bool) -> Result<
    Seq<Instruction>,
    Seq<Token>,
> {
    match spec_compile(src) {
        Ok(p) => Ok(
            if optimize {
                spec_optimize(p)
            } else {
                p
            },
        ),
        Err(e) => Err(e),
    }
}

impl Instruction {
    /// Add one repetition to an amplifiable instruction, reporting whether
    /// the instruction was amplifiable.
    fn increment(&mut self) -> (amplified: bool)
        requires
            count_of(*old(self)) < usize::MAX,
        ensures
            *final(self) == bump(*old(self)),
            amplified == foldable(*old(self)),
    {
        match *self {
            Instruction::MvLeft(n) => {
                *self = Instruction::MvLeft(n + 1);
                true
            },
            Instruction::MvRight(n) => {
                *self = Instruction::MvRight(n + 1);
                true
            },
            Instruction::Inc(n) => {
                *self = Instruction::Inc(n + 1);
                true
            },
            Instruction::Dec(n) => {
                *self = Instruction::Dec(n + 1);
                true
            },
            _ => false,
        }
    }

    /// Whether `self` and `other` are the same amplifiable kind, so that
    /// adjacent occurrences fold into one instruction.
    fn merges_with(&self, other: &Instruction) -> (b: bool)
        ensures
            b == merges(*self, *other),
    {
        match (self, other) {
            (Instruction::MvLeft(_), Instruction::MvLeft(_)) => true,
            (Instruction::MvRight(_), Instruction::MvRight(_)) => true,
            (Instruction::Inc(_), Instruction::Inc(_)) => true,
            (Instruction::Dec(_), Instruction::Dec(_)) => true,
            _ => false,
        }
    }
}

/// The offending bracket tokens of a failed parse, in the order they were
/// recorded; non-empty whenever a parse returns one.
#[derive(Debug)]
pub struct ParseError {
    errors: Vec<Token>,
}

impl View for ParseError {
    type V = Seq<Token>;

    closed spec fn view(&self) -> Seq<Token> {
        self.errors@
    }
}

impl ParseError {
    fn new() -> (e: ParseError)
        ensures
            e@ == Seq::<Token>::empty(),
    {
        ParseError { errors: Vec::new() }
    }

    fn report_error(&mut self, token: Token)
        ensures
            final(self)@ == old(self)@.push(token),
    {
        self.errors.push(token)
    }

    fn had_error(&self) -> (b: bool)
        ensures
            b == (self@.len() != 0),
    {
        self.errors.len() != 0
    }

    /// Quote one offending source line with a caret under its column.
    fn format_error(line: usize, col: usize, line_str: &str) -> (s: String)
        ensures
            s@ == caret_block(line as nat, col as nat, line_str@),
    {
        let mut out = String::new();
        push_decimal(&mut out, line);
        out.append(" ");
        out.append(line_str);
        out.append("\n ");
        push_spaces(&mut out, col);
        let nd = decimal_len(line);
        push_spaces(&mut out, nd);
        out.append("^");
        proof {
            assert(spaces(col as nat) + spaces(nd as nat) =~= spaces(col as nat + nd as nat));
            assert(out@ =~= caret_block(line as nat, col as nat, line_str@));
        }
        out
    }

    /// Render the collected errors against the source text they were found
    /// in: a header with the error count, then each offending bracket, most
    /// recently recorded first, with its position and a caret under the
    /// exact column of its source line.
    #[verifier::rlimit(60)]
    pub fn get_error_msg(self, program: &str) -> (msg: String)
        requires
            program@.len() < usize::MAX,
        ensures
            msg@ == error_msg(self@, program@),
    {
        let ghost errs0 = self@;
        let ParseError { errors } = self;
        let count = errors.len();
        let mut msg = String::new();
        push_decimal(&mut msg, count);
        msg.append(" error");
        if count == 1 {
            msg.append("\u{0}");
        } else {
            msg.append("s");
        }
        msg.append(" occured during parsing:\n");
        proof {
            assert(msg@ =~= header(count as nat));
            assert(errs0.take(count as int) =~= errs0);
        }
        let mut i = count;
        while i > 0
            invariant
                i <= count,
                count == errs0.len(),
                errors@ == errs0,
                program@.len() < usize::MAX,
                msg@ + entries(errs0.take(i as int), program@) == error_msg(errs0, program@),
            decreases i,
        {
            i = i - 1;
            let ghost before = msg@;
            let token = errors[i];
            match token {
                Token::RBrac { line, col } => {
                    let line_str = line_at(program, line);
                    msg.append("Unexpected closing bracket found at ");
                    push_decimal(&mut msg, line);
                    msg.append(":");
                    push_decimal(&mut msg, col);
                    msg.append(": \n ");
                    let block = ParseError::format_error(line, col, line_str);
                    msg.append(block.as_str());
                    msg.append("\n");
                },
                Token::LBrac { line, col } => {
                    let line_str = line_at(program, line);
                    msg.append("Opening bracket at ");
                    push_decimal(&mut msg, line);
                    msg.append(":");
                    push_decimal(&mut msg, col);
                    msg.append(" wasn't closed: \n ");
                    let block = ParseError::format_error(line, col, line_str);
                    msg.append(block.as_str());
                    msg.append("\n");
                },
                _ => {
                    msg.append("Unexpected Error\n");
                },
            }
            proof {
                assert(msg@ =~= before + entry(errs0[i as int], program@));
                assert(errs0.take(i as int + 1).drop_last() =~= errs0.take(i as int));
                assert(errs0.take(i as int + 1).last() == errs0[i as int]);
                assert(before + (entry(errs0[i as int], program@) + entries(
                    errs0.take(i as int),
                    program@,
                )) =~= msg@ + entries(errs0.take(i as int), program@));
            }
        }
        proof {
            assert(errs0.take(0) =~= Seq::<Token>::empty());
            assert(msg@ + entries(Seq::<Token>::empty(), program@) =~= msg@);
        }
        msg
    }
}

/// A compiled instruction sequence. It is produced only by successful
/// compilation and is exposed read-only thereafter.
#[derive(Debug)]
pub struct Program {
    instructions: Vec<Instruction>,
}

impl View for Program {
    type V = Seq<Instruction>;

    closed spec fn view(&self) -> Seq<Instruction> {
        self.instructions@
    }
}

impl Program {
    /// Structural well-formedness: non-empty, `Exit`-terminated code whose
    /// jump targets all land strictly in bounds on their matching partners.
    /// Every successful compilation establishes it; the machine relies on it.
    pub open spec fn wf(&self) -> bool {
        wf_code(self@)
    }

    /// Number of instructions.
    pub fn len(&self) -> (n: usize)
        ensures
            n == self@.len(),
    {
        self.instructions.len()
    }

    /// The instruction at index `i`.
    pub fn get(&self, i: usize) -> (instr: Instruction)
        requires
            i < self@.len(),
        ensures
            instr == self@[i as int],
    {
        self.instructions[i]
    }
}

} // verus!

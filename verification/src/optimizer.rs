//! Mathematical model of the peephole pass: maximal runs of identical
//! amplifiable instructions fold into one instruction carrying the run's
//! total count, and every jump target is re-indexed by the number of
//! instructions removed strictly before it.

use vstd::prelude::*;

use crate::compile_spec::{wf_at, wf_code};
use crate::compiler::Instruction;

verus! {

/// The four amplifiable kinds; only these fold.
pub open spec fn foldable(i: Instruction) -> bool {
    match i {
        Instruction::MvLeft(_) => true,
        Instruction::MvRight(_) => true,
        Instruction::Inc(_) => true,
        Instruction::Dec(_) => true,
        _ => false,
    }
}

/// Two adjacent instructions merge exactly when they are the same
/// amplifiable kind.
pub open spec fn merges(prev: Instruction, cur: Instruction) -> bool {
    ||| (prev is MvLeft && cur is MvLeft)
    ||| (prev is MvRight && cur is MvRight)
    ||| (prev is Inc && cur is Inc)
    ||| (prev is Dec && cur is Dec)
}

/// The repetition count carried by an amplifiable instruction.
pub open spec fn count_of(i: Instruction) -> int {
    match i {
        Instruction::MvLeft(n) => n as int,
        Instruction::MvRight(n) => n as int,
        Instruction::Inc(n) => n as int,
        Instruction::Dec(n) => n as int,
        _ => 0,
    }
}

/// Every amplifiable instruction carries count 1, as freshly parsed code does.
pub open spec fn unit_counts(p: Seq<Instruction>) -> bool {
    forall|j: int| 0 <= j < p.len() && foldable(#[trigger] p[j]) ==> count_of(p[j]) == 1
}

/// Position `i` survives folding: it starts a new output instruction.
pub open spec fn retained(p: Seq<Instruction>, i: int) -> bool {
    i == 0 || !merges(p[i - 1], p[i])
}

/// New index of old position `j`: the number of retained positions before it,
/// that is, `j` minus the number of instructions removed strictly before `j`.
pub open spec fn new_index(p: Seq<Instruction>, j: int) -> nat
    decreases j,
{
    if j <= 0 {
        0
    } else {
        new_index(p, j - 1) + if retained(p, j - 1) {
            1nat
        } else {
            0nat
        }
    }
}

/// End of the maximal run starting at `j`: the next retained position, or
/// the end of the program.
pub open spec fn run_end(p: Seq<Instruction>, j: int) -> int
    decreases p.len() - j,
{
    if j + 1 >= p.len() {
        j + 1
    } else if retained(p, j + 1) {
        j + 1
    } else {
        run_end(p, j + 1)
    }
}

/// Total repetition count of the instructions in `[a, b)`.
pub open spec fn sum_counts(p: Seq<Instruction>, a: int, b: int) -> int
    decreases b - a,
{
    if a >= b {
        0
    } else {
        count_of(p[a]) + sum_counts(p, a + 1, b)
    }
}

/// The one instruction standing for the run that starts at retained
/// position `j`: an amplifiable kind with the run's summed count, a jump
/// with its re-indexed target, or the instruction unchanged.
pub open spec fn folded_at(p: Seq<Instruction>, j: int) -> Instruction {
    let e = run_end(p, j);
    match p[j] {
        Instruction::MvLeft(_) => Instruction::MvLeft(sum_counts(p, j, e) as usize),
        Instruction::MvRight(_) => Instruction::MvRight(sum_counts(p, j, e) as usize),
        Instruction::Inc(_) => Instruction::Inc(sum_counts(p, j, e) as usize),
        Instruction::Dec(_) => Instruction::Dec(sum_counts(p, j, e) as usize),
        Instruction::Jmp(t) => Instruction::Jmp(new_index(p, t as int) as usize),
        Instruction::JmpZ(t) => Instruction::JmpZ(new_index(p, t as int) as usize),
        other => other,
    }
}

/// An amplifiable instruction with one more repetition; anything else
/// unchanged.
pub open spec fn bump(i: Instruction) -> Instruction {
    match i {
        Instruction::MvLeft(n) => Instruction::MvLeft((n + 1) as usize),
        Instruction::MvRight(n) => Instruction::MvRight((n + 1) as usize),
        Instruction::Inc(n) => Instruction::Inc((n + 1) as usize),
        Instruction::Dec(n) => Instruction::Dec((n + 1) as usize),
        other => other,
    }
}

/// The first-pass form of the run starting at `j`, folded up to `e`: counts
/// are summed, but jump targets still hold their old indices.
pub open spec fn pass1_partial(p: Seq<Instruction>, j: int, e: int) -> Instruction {
    match p[j] {
        Instruction::MvLeft(_) => Instruction::MvLeft(sum_counts(p, j, e) as usize),
        Instruction::MvRight(_) => Instruction::MvRight(sum_counts(p, j, e) as usize),
        Instruction::Inc(_) => Instruction::Inc(sum_counts(p, j, e) as usize),
        Instruction::Dec(_) => Instruction::Dec(sum_counts(p, j, e) as usize),
        other => other,
    }
}

/// The first-pass form of the whole run starting at `j`.
pub open spec fn pass1_at(p: Seq<Instruction>, j: int) -> Instruction {
    pass1_partial(p, j, run_end(p, j))
}

/// The first-pass form of `j`'s run folded up to at most position `i`.
pub open spec fn pass1_upto(p: Seq<Instruction>, j: int, i: int) -> Instruction {
    pass1_partial(
        p,
        j,
        if run_end(p, j) <= i {
            run_end(p, j)
        } else {
            i
        },
    )
}

/// Start of the run containing position `i`.
pub open spec fn run_start(p: Seq<Instruction>, i: int) -> int
    decreases i,
{
    if i <= 0 {
        0
    } else if retained(p, i) {
        i
    } else {
        run_start(p, i - 1)
    }
}

pub proof fn lemma_run_end_props(p: Seq<Instruction>, j: int)
    requires
        0 <= j < p.len(),
    ensures
        j < run_end(p, j) <= p.len(),
        run_end(p, j) == p.len() || retained(p, run_end(p, j)),
        forall|i: int| j < i < run_end(p, j) ==> !retained(p, i),
    decreases p.len() - j,
{
    if j + 1 >= p.len() || retained(p, j + 1) {
    } else {
        lemma_run_end_props(p, j + 1);
    }
}

#[via_fn]
proof fn opt_from_decreases(p: Seq<Instruction>, j: int) {
    if 0 <= j < p.len() {
        lemma_run_end_props(p, j);
    }
}

/// The folded form of the program suffix that starts at boundary `j`.
pub open spec fn opt_from(p: Seq<Instruction>, j: int) -> Seq<Instruction>
    decreases p.len() - j,
        via opt_from_decreases
{
    if j < 0 || j >= p.len() {
        Seq::empty()
    } else {
        seq![folded_at(p, j)] + opt_from(p, run_end(p, j))
    }
}

/// The folded whole program.
pub open spec fn spec_optimize(p: Seq<Instruction>) -> Seq<Instruction> {
    opt_from(p, 0)
}

pub proof fn lemma_new_index_mono(p: Seq<Instruction>, a: int, b: int)
    requires
        a <= b,
    ensures
        new_index(p, a) <= new_index(p, b) <= new_index(p, a) + (b - a),
    decreases b - a,
{
    if a < b {
        lemma_new_index_mono(p, a, b - 1);
    }
}

pub proof fn lemma_new_index_strict(p: Seq<Instruction>, a: int, b: int)
    requires
        0 <= a < b,
        retained(p, a),
    ensures
        new_index(p, a) < new_index(p, b),
{
    lemma_new_index_mono(p, a + 1, b);
}

/// Across a stretch with no retained positions the new index is constant.
pub proof fn lemma_new_index_flat(p: Seq<Instruction>, a: int, b: int)
    requires
        0 <= a <= b,
        forall|i: int| a <= i < b ==> !retained(p, i),
    ensures
        new_index(p, b) == new_index(p, a),
    decreases b - a,
{
    if a < b {
        lemma_new_index_flat(p, a, b - 1);
    }
}

/// Crossing one whole run advances the new index by exactly one.
pub proof fn lemma_run_new_index(p: Seq<Instruction>, j: int)
    requires
        0 <= j < p.len(),
        retained(p, j),
    ensures
        new_index(p, run_end(p, j)) == new_index(p, j) + 1,
{
    lemma_run_end_props(p, j);
    lemma_new_index_flat(p, j + 1, run_end(p, j));
}

pub proof fn lemma_sum_counts_snoc(p: Seq<Instruction>, a: int, b: int)
    requires
        a <= b,
    ensures
        sum_counts(p, a, b + 1) == sum_counts(p, a, b) + count_of(p[b]),
    decreases b - a,
{
    if a < b {
        lemma_sum_counts_snoc(p, a + 1, b);
    } else {
        assert(sum_counts(p, a + 1, b + 1) == 0);
    }
}

/// With unit counts, a sum over a range is the range's length.
pub proof fn lemma_sum_counts_unit(p: Seq<Instruction>, a: int, b: int)
    requires
        a <= b,
        forall|i: int| a <= i < b ==> count_of(#[trigger] p[i]) == 1,
    ensures
        sum_counts(p, a, b) == b - a,
    decreases b - a,
{
    if a < b {
        lemma_sum_counts_unit(p, a + 1, b);
    }
}

/// Everything strictly inside a run merges with its predecessor, so a run is
/// one amplifiable kind throughout (or a single non-amplifiable instruction).
pub proof fn lemma_run_same_kind(p: Seq<Instruction>, j: int, i: int)
    requires
        0 <= j < p.len(),
        j <= i < run_end(p, j),
    ensures
        i > j ==> merges(p[j], p[i]) && foldable(p[j]) && foldable(p[i]),
    decreases i - j,
{
    lemma_run_end_props(p, j);
    if i > j {
        lemma_run_same_kind(p, j, i - 1);
        assert(!retained(p, i));
    }
}

/// Length of the folded suffix that starts at boundary `j`.
pub proof fn lemma_opt_from_len(p: Seq<Instruction>, j: int)
    requires
        0 <= j <= p.len(),
        j == p.len() || retained(p, j),
    ensures
        opt_from(p, j).len() == new_index(p, p.len() as int) - new_index(p, j),
    decreases p.len() - j,
{
    if j < p.len() {
        lemma_run_end_props(p, j);
        lemma_run_new_index(p, j);
        lemma_opt_from_len(p, run_end(p, j));
    }
}

/// The folded suffix holds, at the re-indexed position of each retained `j`,
/// exactly the folded form of `j`'s run.
pub proof fn lemma_opt_from_index(p: Seq<Instruction>, j0: int, j: int)
    requires
        0 <= j0 <= j < p.len(),
        retained(p, j0),
        retained(p, j),
    ensures
        0 <= new_index(p, j) - new_index(p, j0) < opt_from(p, j0).len(),
        opt_from(p, j0)[new_index(p, j) - new_index(p, j0)] == folded_at(p, j),
    decreases j - j0,
{
    lemma_run_end_props(p, j0);
    lemma_opt_from_len(p, j0);
    lemma_new_index_mono(p, j0, j);
    lemma_new_index_strict(p, j, p.len() as int);
    lemma_run_new_index(p, j0);
    if j == j0 {
    } else {
        let e = run_end(p, j0);
        assert(e <= j) by {
            if e > j {
                assert(!retained(p, j));
            }
        }
        lemma_opt_from_index(p, e, j);
    }
}

/// The folded program's length, and its instruction at each retained
/// position's new index.
pub proof fn lemma_optimize_at(p: Seq<Instruction>, j: int)
    requires
        0 <= j < p.len(),
        retained(p, j),
    ensures
        spec_optimize(p).len() == new_index(p, p.len() as int),
        0 <= new_index(p, j) < spec_optimize(p).len(),
        spec_optimize(p)[new_index(p, j) as int] == folded_at(p, j),
{
    lemma_opt_from_len(p, 0);
    lemma_opt_from_index(p, 0, j);
}

/// Every position of the folded program is some retained position's new index.
pub proof fn lemma_new_index_onto(p: Seq<Instruction>, i: int, k: int)
    requires
        0 <= i <= p.len(),
        0 <= k < new_index(p, i),
    ensures
        exists|j: int| 0 <= j < i && retained(p, j) && #[trigger] new_index(p, j) == k,
    decreases i,
{
    if i > 0 {
        if k < new_index(p, i - 1) {
            lemma_new_index_onto(p, i - 1, k);
            let j = choose|j: int|
                0 <= j < i - 1 && retained(p, j) && #[trigger] new_index(p, j) == k;
            assert(0 <= j < i && retained(p, j) && new_index(p, j) == k);
        } else {
            assert(retained(p, i - 1) && new_index(p, i - 1) == k);
        }
    }
}

/// `run_start` finds the retained position whose run contains `i`.
pub proof fn lemma_run_start(p: Seq<Instruction>, i: int)
    requires
        0 <= i < p.len(),
    ensures
        0 <= run_start(p, i) <= i,
        retained(p, run_start(p, i)),
        forall|k: int| run_start(p, i) < k <= i ==> !retained(p, k),
        i < run_end(p, run_start(p, i)),
    decreases i,
{
    let jb = run_start(p, i);
    if i == 0 || retained(p, i) {
        lemma_run_end_props(p, i);
    } else {
        lemma_run_start(p, i - 1);
        lemma_run_end_props(p, jb);
        if run_end(p, jb) == i {
            assert(retained(p, i));
        }
    }
}

/// The parser emits every amplifiable instruction with count exactly 1.
pub proof fn lemma_parse_unit_counts(toks: Seq<crate::compiler::Token>)
    requires
        toks.len() <= usize::MAX,
    ensures
        unit_counts(crate::compile_spec::parse_tokens(toks).instrs),
    decreases toks.len(),
{
    if toks.len() > 0 {
        lemma_parse_unit_counts(toks.drop_last());
        crate::compile_spec::lemma_parse_tokens_inv(toks.drop_last());
        let st = crate::compile_spec::parse_tokens(toks.drop_last());
        let st2 = crate::compile_spec::parse_tokens(toks);
        if st.stack.len() > 0 {
            assert(st.stack[st.stack.len() - 1].1 < st.instrs.len());
        }
        assert forall|j: int|
            0 <= j < st2.instrs.len() && foldable(#[trigger] st2.instrs[j]) implies count_of(
            st2.instrs[j],
        ) == 1 by {
            if j < st.instrs.len() {
                assert(foldable(st.instrs[j]) ==> count_of(st.instrs[j]) == 1);
            }
        }
    }
}

/// Folding preserves structural well-formedness: the result still ends in
/// `Exit` and every re-indexed jump target again lands strictly in bounds on
/// its matching partner.
pub proof fn lemma_optimize_wf(p: Seq<Instruction>)
    requires
        wf_code(p),
        p.len() <= usize::MAX,
    ensures
        wf_code(spec_optimize(p)),
        spec_optimize(p).len() == new_index(p, p.len() as int),
        1 <= spec_optimize(p).len() <= p.len(),
{
    let q = spec_optimize(p);
    let n = p.len() as int;
    lemma_opt_from_len(p, 0);
    lemma_new_index_mono(p, 0, n);
    lemma_new_index_strict(p, 0, n);
    assert(wf_at(p, n - 1));
    assert(retained(p, n - 1));
    lemma_optimize_at(p, n - 1);
    lemma_run_end_props(p, n - 1);
    assert(run_end(p, n - 1) == n);
    lemma_run_new_index(p, n - 1);
    assert(q[q.len() - 1] == Instruction::Exit);
    assert forall|k: int| 0 <= k < q.len() implies #[trigger] wf_at(q, k) by {
        lemma_new_index_onto(p, n, k);
        let j = choose|j: int|
            0 <= j < n && retained(p, j) && #[trigger] new_index(p, j) == k;
        lemma_optimize_at(p, j);
        assert(wf_at(p, j));
        match p[j] {
            Instruction::Jmp(t) => {
                let ti = t as int;
                assert(p[ti] == Instruction::JmpZ((j + 1) as usize));
                assert(retained(p, ti));
                lemma_optimize_at(p, ti);
                lemma_new_index_strict(p, ti, j);
                lemma_new_index_mono(p, 0, ti);
                // the matching opener sits right at the re-indexed target
                assert(retained(p, j));
                assert(new_index(p, j + 1) == k + 1);
                assert(folded_at(p, ti) == Instruction::JmpZ(new_index(p, j + 1) as usize));
                assert(q[new_index(p, ti) as int] == Instruction::JmpZ((k + 1) as usize));
                assert(wf_at(q, k));
            },
            Instruction::JmpZ(t) => {
                let ti = t as int;
                assert(p[ti - 1] == Instruction::Jmp(j as usize));
                assert(retained(p, ti - 1));
                assert(retained(p, ti));
                lemma_optimize_at(p, ti);
                lemma_optimize_at(p, ti - 1);
                lemma_new_index_strict(p, ti, n);
                lemma_new_index_mono(p, j + 1, ti - 1);
                assert(new_index(p, j + 1) == k + 1);
                assert(new_index(p, ti) == new_index(p, ti - 1) + 1);
                assert(folded_at(p, ti - 1) == Instruction::Jmp(new_index(p, j) as usize));
                assert(q[new_index(p, ti) - 1] == Instruction::Jmp(k as usize));
                assert(k + 1 < new_index(p, ti) < q.len());
                assert(wf_at(q, k));
            },
            _ => {
                assert(wf_at(q, k));
            },
        }
    }
}

} // verus!

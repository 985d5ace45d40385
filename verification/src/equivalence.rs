//! The peephole pass preserves behaviour: running folded code reaches the
//! same observable outcome (output bytes, consumed-input count, tape, and
//! fault kind) as running the code it was folded from. The proof simulates
//! each folded instruction by the maximal run it stands for.

use vstd::arithmetic::div_mod::{lemma_add_mod_noop_right, lemma_sub_mod_noop, lemma_sub_mod_noop_right};
use vstd::prelude::*;

use crate::compile_spec::{wf_at, wf_code};
use crate::compiler::Instruction;
use crate::optimizer::{
    count_of, foldable, folded_at, lemma_new_index_mono, lemma_optimize_at, lemma_run_end_props,
    lemma_run_new_index, lemma_run_same_kind, lemma_sum_counts_unit, merges, new_index, retained,
    run_end, spec_optimize, sum_counts, unit_counts,
};
use crate::semantics::{lemma_run_n_mono, run_n, state_wf, step, Fault, RunOutcome, VmState};

verus! {

/// The folded-side state matching an original-side state: identical except
/// that the instruction pointer is re-indexed into the folded program.
pub open spec fn opt_state(p: Seq<Instruction>, s: VmState) -> VmState {
    VmState { ip: new_index(p, s.ip as int), ..s }
}

/// Observable agreement of two terminal outcomes: the same completion or
/// the same fault kind, with the same tape, consumed-input count, and
/// output; a completed run also agrees on the pointer. Instruction pointers
/// are not observable, and a fault interrupted the two runs at different
/// points of the same maximal run, so the pointer at a fault is not either.
pub open spec fn same_obs(a: RunOutcome, b: RunOutcome) -> bool {
    match (a, b) {
        (RunOutcome::Halted(sa), RunOutcome::Halted(sb)) => sa.cells == sb.cells && sa.ptr
            == sb.ptr && sa.in_pos == sb.in_pos && sa.output == sb.output,
        (RunOutcome::Faulted(fa, sa), RunOutcome::Faulted(fb, sb)) => fa == fb && sa.cells
            == sb.cells && sa.in_pos == sb.in_pos && sa.output == sb.output,
        _ => false,
    }
}

/// Repetition counts are never negative, so neither are their sums.
pub proof fn lemma_sum_counts_nonneg(p: Seq<Instruction>, a: int, b: int)
    ensures
        sum_counts(p, a, b) >= 0,
    decreases b - a,
{
    if a < b {
        lemma_sum_counts_nonneg(p, a + 1, b);
    }
}

/// Executing a window of `Inc` instructions adds their summed count to the
/// current cell, modulo 256, and spends one step per instruction.
pub proof fn lemma_run_incs(p: Seq<Instruction>, input: Seq<u8>, s: VmState, e: int, n: nat)
    requires
        0 <= s.ip,
        s.ip <= e <= p.len(),
        s.ptr < s.cells.len(),
        forall|i: int| s.ip <= i < e ==> (#[trigger] p[i]) is Inc,
    ensures
        ({
            let after = VmState {
                cells: s.cells.update(
                    s.ptr as int,
                    ((s.cells[s.ptr as int] + sum_counts(p, s.ip as int, e)) % 256) as u8,
                ),
                ip: e as nat,
                ..s
            };
            if n >= e - s.ip {
                run_n(p, input, s, n) == run_n(p, input, after, (n - (e - s.ip)) as nat)
            } else {
                run_n(p, input, s, n) is Running
            }
        }),
    decreases e - s.ip,
{
    let j = s.ip as int;
    let c = s.cells[s.ptr as int];
    if j == e {
        assert(s.cells.update(s.ptr as int, ((c + 0) % 256) as u8) =~= s.cells);
    } else {
        let n0 = count_of(p[j]);
        let s1 = VmState {
            cells: s.cells.update(s.ptr as int, ((c + n0) % 256) as u8),
            ip: s.ip + 1,
            ..s
        };
        assert(step(p, input, s) == RunOutcome::Running(s1));
        if n == 0 {
        } else {
            lemma_run_incs(p, input, s1, e, (n - 1) as nat);
            let c1 = s1.cells[s.ptr as int];
            assert(c1 == ((c + n0) % 256) as u8);
            lemma_add_mod_noop_right(sum_counts(p, j + 1, e), c + n0, 256);
            assert((c1 + sum_counts(p, j + 1, e)) % 256 == (c + n0 + sum_counts(p, j + 1, e))
                % 256);
            assert(sum_counts(p, j, e) == n0 + sum_counts(p, j + 1, e));
            assert(s1.cells.update(
                s.ptr as int,
                ((c1 + sum_counts(p, j + 1, e)) % 256) as u8,
            ) =~= s.cells.update(s.ptr as int, ((c + sum_counts(p, j, e)) % 256) as u8));
        }
    }
}

/// Executing a window of `Dec` instructions subtracts their summed count
/// from the current cell, modulo 256, one step per instruction.
pub proof fn lemma_run_decs(p: Seq<Instruction>, input: Seq<u8>, s: VmState, e: int, n: nat)
    requires
        0 <= s.ip,
        s.ip <= e <= p.len(),
        s.ptr < s.cells.len(),
        forall|i: int| s.ip <= i < e ==> (#[trigger] p[i]) is Dec,
    ensures
        ({
            let after = VmState {
                cells: s.cells.update(
                    s.ptr as int,
                    ((s.cells[s.ptr as int] - sum_counts(p, s.ip as int, e)) % 256) as u8,
                ),
                ip: e as nat,
                ..s
            };
            if n >= e - s.ip {
                run_n(p, input, s, n) == run_n(p, input, after, (n - (e - s.ip)) as nat)
            } else {
                run_n(p, input, s, n) is Running
            }
        }),
    decreases e - s.ip,
{
    let j = s.ip as int;
    let c = s.cells[s.ptr as int];
    if j == e {
        assert(s.cells.update(s.ptr as int, ((c - 0) % 256) as u8) =~= s.cells);
    } else {
        let n0 = count_of(p[j]);
        let s1 = VmState {
            cells: s.cells.update(s.ptr as int, ((c - n0) % 256) as u8),
            ip: s.ip + 1,
            ..s
        };
        assert(step(p, input, s) == RunOutcome::Running(s1));
        if n == 0 {
        } else {
            lemma_run_decs(p, input, s1, e, (n - 1) as nat);
            let c1 = s1.cells[s.ptr as int];
            let rest = sum_counts(p, j + 1, e);
            assert((c1 - rest) % 256 == (c - n0 - rest) % 256) by {
                lemma_sub_mod_noop_right((c - n0) % 256, rest, 256);
                lemma_sub_mod_noop(c - n0, rest, 256);
                assert(((c - n0) % 256 - rest % 256) % 256 == (c - n0 - rest) % 256);
            }
            assert(sum_counts(p, j, e) == n0 + rest);
            assert(s1.cells.update(s.ptr as int, ((c1 - rest) % 256) as u8) =~= s.cells.update(
                s.ptr as int,
                ((c - sum_counts(p, j, e)) % 256) as u8,
            ));
        }
    }
}

/// Executing a window of `MvRight` instructions: if the summed count stays
/// on the tape the pointer advances by the sum, one step per instruction;
/// if it would leave the tape, the run stops at an overflow fault whose
/// state differs from `s` at most in the pointer.
pub proof fn lemma_run_mvrs(p: Seq<Instruction>, input: Seq<u8>, s: VmState, e: int, n: nat)
    requires
        0 <= s.ip,
        s.ip <= e <= p.len(),
        s.ptr < s.cells.len(),
        forall|i: int| s.ip <= i < e ==> (#[trigger] p[i]) is MvRight,
    ensures
        s.ptr + sum_counts(p, s.ip as int, e) < s.cells.len() ==> ({
            let after = VmState {
                ptr: (s.ptr + sum_counts(p, s.ip as int, e)) as nat,
                ip: e as nat,
                ..s
            };
            if n >= e - s.ip {
                run_n(p, input, s, n) == run_n(p, input, after, (n - (e - s.ip)) as nat)
            } else {
                run_n(p, input, s, n) is Running
            }
        }),
        s.ptr + sum_counts(p, s.ip as int, e) >= s.cells.len() ==> ((exists|sf: VmState|
            run_n(p, input, s, n) == RunOutcome::Faulted(Fault::Overflow, sf) && sf.cells
                == s.cells && sf.in_pos == s.in_pos && sf.output == s.output) || (n < e - s.ip
            && run_n(p, input, s, n) is Running)),
    decreases e - s.ip,
{
    let j = s.ip as int;
    let total = sum_counts(p, j, e);
    lemma_sum_counts_nonneg(p, j, e);
    if j == e {
    } else {
        let n0 = count_of(p[j]);
        lemma_sum_counts_nonneg(p, j + 1, e);
        assert(total == n0 + sum_counts(p, j + 1, e));
        if s.ptr + n0 >= s.cells.len() {
            assert(step(p, input, s) == RunOutcome::Faulted(Fault::Overflow, s));
            if n >= 1 {
                assert(run_n(p, input, s, n) == RunOutcome::Faulted(Fault::Overflow, s));
            }
        } else {
            let s1 = VmState { ptr: (s.ptr + n0) as nat, ip: s.ip + 1, ..s };
            assert(step(p, input, s) == RunOutcome::Running(s1));
            if n == 0 {
            } else {
                lemma_run_mvrs(p, input, s1, e, (n - 1) as nat);
            }
        }
    }
}

/// Executing a window of `MvLeft` instructions: if the summed count stays
/// on the tape the pointer recedes by the sum, one step per instruction; if
/// it would pass cell 0, the run stops at an underflow fault whose state
/// differs from `s` at most in the pointer.
pub proof fn lemma_run_mvls(p: Seq<Instruction>, input: Seq<u8>, s: VmState, e: int, n: nat)
    requires
        0 <= s.ip,
        s.ip <= e <= p.len(),
        s.ptr < s.cells.len(),
        forall|i: int| s.ip <= i < e ==> (#[trigger] p[i]) is MvLeft,
    ensures
        sum_counts(p, s.ip as int, e) <= s.ptr ==> ({
            let after = VmState {
                ptr: (s.ptr - sum_counts(p, s.ip as int, e)) as nat,
                ip: e as nat,
                ..s
            };
            if n >= e - s.ip {
                run_n(p, input, s, n) == run_n(p, input, after, (n - (e - s.ip)) as nat)
            } else {
                run_n(p, input, s, n) is Running
            }
        }),
        sum_counts(p, s.ip as int, e) > s.ptr ==> ((exists|sf: VmState|
            run_n(p, input, s, n) == RunOutcome::Faulted(Fault::Underflow, sf) && sf.cells
                == s.cells && sf.in_pos == s.in_pos && sf.output == s.output) || (n < e - s.ip
            && run_n(p, input, s, n) is Running)),
    decreases e - s.ip,
{
    let j = s.ip as int;
    lemma_sum_counts_nonneg(p, j, e);
    if j == e {
    } else {
        let n0 = count_of(p[j]);
        lemma_sum_counts_nonneg(p, j + 1, e);
        assert(sum_counts(p, j, e) == n0 + sum_counts(p, j + 1, e));
        if n0 > s.ptr {
            assert(step(p, input, s) == RunOutcome::Faulted(Fault::Underflow, s));
            if n >= 1 {
                assert(run_n(p, input, s, n) == RunOutcome::Faulted(Fault::Underflow, s));
            }
        } else {
            let s1 = VmState { ptr: (s.ptr - n0) as nat, ip: s.ip + 1, ..s };
            assert(step(p, input, s) == RunOutcome::Running(s1));
            if n == 0 {
            } else {
                lemma_run_mvls(p, input, s1, e, (n - 1) as nat);
            }
        }
    }
}

/// Facts about the maximal run of an amplifiable instruction at a retained
/// position of well-formed, freshly parsed code: the run ends before the
/// final `Exit`, stays one kind throughout, sums to its own length, and
/// crossing it advances the new index by one.
proof fn lemma_fold_window(p: Seq<Instruction>, j: int)
    requires
        wf_code(p),
        unit_counts(p),
        0 <= j < p.len(),
        retained(p, j),
        foldable(p[j]),
    ensures
        j < run_end(p, j) < p.len(),
        retained(p, run_end(p, j)),
        forall|i: int| j < i < run_end(p, j) ==> merges(p[j], #[trigger] p[i]),
        sum_counts(p, j, run_end(p, j)) == run_end(p, j) - j,
        new_index(p, run_end(p, j)) == new_index(p, j) + 1,
{
    let e = run_end(p, j);
    lemma_run_end_props(p, j);
    assert forall|i: int| j < i < e implies merges(p[j], #[trigger] p[i]) by {
        lemma_run_same_kind(p, j, i);
    }
    assert(e < p.len()) by {
        if e == p.len() {
            if e - 1 > j {
                lemma_run_same_kind(p, j, e - 1);
            }
            assert(p[p.len() - 1] == Instruction::Exit);
        }
    }
    lemma_run_new_index(p, j);
    assert forall|i: int| j <= i < e implies count_of(#[trigger] p[i]) == 1 by {
        if i > j {
            lemma_run_same_kind(p, j, i);
        }
    }
    lemma_sum_counts_unit(p, j, e);
}

/// Forward simulation: whenever the original program reaches a terminal
/// outcome within `n` steps from a state at a run boundary, the folded
/// program reaches an observably equal outcome from the matching state
/// within the same `n` steps.
pub proof fn lemma_sim_fwd(p: Seq<Instruction>, input: Seq<u8>, s: VmState, n: nat)
    requires
        wf_code(p),
        unit_counts(p),
        p.len() <= usize::MAX,
        state_wf(p, input, s),
        retained(p, s.ip as int),
        !(run_n(p, input, s, n) is Running),
    ensures
        same_obs(run_n(spec_optimize(p), input, opt_state(p, s), n), run_n(p, input, s, n)),
    decreases n,
{
    let q = spec_optimize(p);
    let j = s.ip as int;
    let sq = opt_state(p, s);
    lemma_optimize_at(p, j);
    lemma_new_index_mono(p, 0, j);
    assert(q[new_index(p, j) as int] == folded_at(p, j));
    assert(n >= 1);
    assert(wf_at(p, j));
    match p[j] {
        Instruction::Exit => {
            assert(run_n(p, input, s, n) == RunOutcome::Halted(s));
            assert(run_n(q, input, sq, n) == RunOutcome::Halted(sq));
        },
        Instruction::Jmp(t) => {
            let s1 = VmState { ip: t as nat, ..s };
            assert(step(p, input, s) == RunOutcome::Running(s1));
            assert(run_n(p, input, s, n) == run_n(p, input, s1, (n - 1) as nat));
            lemma_new_index_mono(p, 0, t as int);
            assert(retained(p, t as int));
            lemma_sim_fwd(p, input, s1, (n - 1) as nat);
            assert(folded_at(p, j) == Instruction::Jmp(new_index(p, t as int) as usize));
            assert(step(q, input, sq) == RunOutcome::Running(opt_state(p, s1)));
            assert(run_n(q, input, sq, n) == run_n(q, input, opt_state(p, s1), (n - 1) as nat));
        },
        Instruction::JmpZ(t) => {
            let z = s.cells[s.ptr as int] == 0;
            let s1 = VmState {
                ip: if z {
                    t as nat
                } else {
                    s.ip + 1
                },
                ..s
            };
            assert(step(p, input, s) == RunOutcome::Running(s1));
            assert(run_n(p, input, s, n) == run_n(p, input, s1, (n - 1) as nat));
            lemma_new_index_mono(p, 0, t as int);
            assert(p[t - 1] == Instruction::Jmp(j as usize));
            assert(retained(p, t as int));
            assert(retained(p, j + 1));
            assert(new_index(p, j + 1) == new_index(p, j) + 1);
            lemma_sim_fwd(p, input, s1, (n - 1) as nat);
            assert(folded_at(p, j) == Instruction::JmpZ(new_index(p, t as int) as usize));
            assert(step(q, input, sq) == RunOutcome::Running(opt_state(p, s1)));
            assert(run_n(q, input, sq, n) == run_n(q, input, opt_state(p, s1), (n - 1) as nat));
        },
        Instruction::Get => {
            let s1 = if s.in_pos < input.len() {
                VmState {
                    cells: s.cells.update(s.ptr as int, input[s.in_pos as int]),
                    in_pos: s.in_pos + 1,
                    ip: s.ip + 1,
                    ..s
                }
            } else {
                VmState { cells: s.cells.update(s.ptr as int, 0u8), ip: s.ip + 1, ..s }
            };
            assert(step(p, input, s) == RunOutcome::Running(s1));
            assert(run_n(p, input, s, n) == run_n(p, input, s1, (n - 1) as nat));
            assert(j + 1 < p.len()) by {
                if j + 1 == p.len() {
                    assert(p[p.len() - 1] == Instruction::Exit);
                }
            }
            assert(retained(p, j + 1));
            assert(new_index(p, j + 1) == new_index(p, j) + 1);
            lemma_sim_fwd(p, input, s1, (n - 1) as nat);
            assert(step(q, input, sq) == RunOutcome::Running(opt_state(p, s1)));
            assert(run_n(q, input, sq, n) == run_n(q, input, opt_state(p, s1), (n - 1) as nat));
        },
        Instruction::Put => {
            let s1 = VmState {
                output: s.output.push(s.cells[s.ptr as int]),
                ip: s.ip + 1,
                ..s
            };
            assert(step(p, input, s) == RunOutcome::Running(s1));
            assert(run_n(p, input, s, n) == run_n(p, input, s1, (n - 1) as nat));
            assert(j + 1 < p.len()) by {
                if j + 1 == p.len() {
                    assert(p[p.len() - 1] == Instruction::Exit);
                }
            }
            assert(retained(p, j + 1));
            assert(new_index(p, j + 1) == new_index(p, j) + 1);
            lemma_sim_fwd(p, input, s1, (n - 1) as nat);
            assert(step(q, input, sq) == RunOutcome::Running(opt_state(p, s1)));
            assert(run_n(q, input, sq, n) == run_n(q, input, opt_state(p, s1), (n - 1) as nat));
        },
        Instruction::Inc(_) => {
            lemma_fold_window(p, j);
            let e = run_end(p, j);
            let m = sum_counts(p, j, e);
            assert forall|i: int| j <= i < e implies (#[trigger] p[i]) is Inc by {}
            lemma_run_incs(p, input, s, e, n);
            let after = VmState {
                cells: s.cells.update(s.ptr as int, ((s.cells[s.ptr as int] + m) % 256) as u8),
                ip: e as nat,
                ..s
            };
            assert(n >= e - j);
            assert(run_n(p, input, s, n) == run_n(p, input, after, (n - (e - j)) as nat));
            assert(folded_at(p, j) == Instruction::Inc(m as usize));
            assert(step(q, input, sq) == RunOutcome::Running(opt_state(p, after)));
            assert(run_n(q, input, sq, n) == run_n(q, input, opt_state(p, after), (n - 1) as nat));
            lemma_sim_fwd(p, input, after, (n - (e - j)) as nat);
            lemma_run_n_mono(q, input, opt_state(p, after), (n - (e - j)) as nat, (n - 1) as nat);
        },
        Instruction::Dec(_) => {
            lemma_fold_window(p, j);
            let e = run_end(p, j);
            let m = sum_counts(p, j, e);
            assert forall|i: int| j <= i < e implies (#[trigger] p[i]) is Dec by {}
            lemma_run_decs(p, input, s, e, n);
            let after = VmState {
                cells: s.cells.update(s.ptr as int, ((s.cells[s.ptr as int] - m) % 256) as u8),
                ip: e as nat,
                ..s
            };
            assert(n >= e - j);
            assert(run_n(p, input, s, n) == run_n(p, input, after, (n - (e - j)) as nat));
            assert(folded_at(p, j) == Instruction::Dec(m as usize));
            assert(step(q, input, sq) == RunOutcome::Running(opt_state(p, after)));
            assert(run_n(q, input, sq, n) == run_n(q, input, opt_state(p, after), (n - 1) as nat));
            lemma_sim_fwd(p, input, after, (n - (e - j)) as nat);
            lemma_run_n_mono(q, input, opt_state(p, after), (n - (e - j)) as nat, (n - 1) as nat);
        },
        Instruction::MvRight(_) => {
            lemma_fold_window(p, j);
            let e = run_end(p, j);
            let m = sum_counts(p, j, e);
            assert forall|i: int| j <= i < e implies (#[trigger] p[i]) is MvRight by {}
            lemma_run_mvrs(p, input, s, e, n);
            assert(folded_at(p, j) == Instruction::MvRight(m as usize));
            if s.ptr + m < s.cells.len() {
                let after = VmState { ptr: (s.ptr + m) as nat, ip: e as nat, ..s };
                assert(n >= e - j);
                assert(run_n(p, input, s, n) == run_n(p, input, after, (n - (e - j)) as nat));
                assert(step(q, input, sq) == RunOutcome::Running(opt_state(p, after)));
                assert(run_n(q, input, sq, n) == run_n(
                    q,
                    input,
                    opt_state(p, after),
                    (n - 1) as nat,
                ));
                lemma_sim_fwd(p, input, after, (n - (e - j)) as nat);
                lemma_run_n_mono(
                    q,
                    input,
                    opt_state(p, after),
                    (n - (e - j)) as nat,
                    (n - 1) as nat,
                );
            } else {
                let sf = choose|sf: VmState|
                    run_n(p, input, s, n) == RunOutcome::Faulted(Fault::Overflow, sf) && sf.cells
                        == s.cells && sf.in_pos == s.in_pos && sf.output == s.output;
                assert(step(q, input, sq) == RunOutcome::Faulted(Fault::Overflow, sq));
                assert(run_n(q, input, sq, n) == RunOutcome::Faulted(Fault::Overflow, sq));
                assert(same_obs(run_n(q, input, sq, n), run_n(p, input, s, n)));
            }
        },
        Instruction::MvLeft(_) => {
            lemma_fold_window(p, j);
            let e = run_end(p, j);
            let m = sum_counts(p, j, e);
            assert forall|i: int| j <= i < e implies (#[trigger] p[i]) is MvLeft by {}
            lemma_run_mvls(p, input, s, e, n);
            assert(folded_at(p, j) == Instruction::MvLeft(m as usize));
            if m <= s.ptr {
                let after = VmState { ptr: (s.ptr - m) as nat, ip: e as nat, ..s };
                assert(n >= e - j);
                assert(run_n(p, input, s, n) == run_n(p, input, after, (n - (e - j)) as nat));
                assert(step(q, input, sq) == RunOutcome::Running(opt_state(p, after)));
                assert(run_n(q, input, sq, n) == run_n(
                    q,
                    input,
                    opt_state(p, after),
                    (n - 1) as nat,
                ));
                lemma_sim_fwd(p, input, after, (n - (e - j)) as nat);
                lemma_run_n_mono(
                    q,
                    input,
                    opt_state(p, after),
                    (n - (e - j)) as nat,
                    (n - 1) as nat,
                );
            } else {
                let sf = choose|sf: VmState|
                    run_n(p, input, s, n) == RunOutcome::Faulted(Fault::Underflow, sf) && sf.cells
                        == s.cells && sf.in_pos == s.in_pos && sf.output == s.output;
                assert(step(q, input, sq) == RunOutcome::Faulted(Fault::Underflow, sq));
                assert(run_n(q, input, sq, n) == RunOutcome::Faulted(Fault::Underflow, sq));
                assert(same_obs(run_n(q, input, sq, n), run_n(p, input, s, n)));
            }
        },
    }
}

/// Backward simulation: whenever the folded program reaches a terminal
/// outcome within `n` steps from the state matching a run boundary, the
/// original program reaches an observably equal outcome within some number
/// of steps.
pub proof fn lemma_sim_bwd(p: Seq<Instruction>, input: Seq<u8>, s: VmState, n: nat)
    requires
        wf_code(p),
        unit_counts(p),
        p.len() <= usize::MAX,
        state_wf(p, input, s),
        retained(p, s.ip as int),
        !(run_n(spec_optimize(p), input, opt_state(p, s), n) is Running),
    ensures
        exists|m: nat|
            same_obs(
                #[trigger] run_n(p, input, s, m),
                run_n(spec_optimize(p), input, opt_state(p, s), n),
            ),
    decreases n,
{
    let q = spec_optimize(p);
    let j = s.ip as int;
    let sq = opt_state(p, s);
    lemma_optimize_at(p, j);
    lemma_new_index_mono(p, 0, j);
    assert(q[new_index(p, j) as int] == folded_at(p, j));
    assert(n >= 1);
    assert(wf_at(p, j));
    match p[j] {
        Instruction::Exit => {
            assert(run_n(q, input, sq, n) == RunOutcome::Halted(sq));
            assert(run_n(p, input, s, 1nat) == RunOutcome::Halted(s));
            assert(same_obs(run_n(p, input, s, 1nat), run_n(q, input, sq, n)));
        },
        Instruction::Jmp(t) => {
            let s1 = VmState { ip: t as nat, ..s };
            assert(step(p, input, s) == RunOutcome::Running(s1));
            lemma_new_index_mono(p, 0, t as int);
            assert(retained(p, t as int));
            assert(folded_at(p, j) == Instruction::Jmp(new_index(p, t as int) as usize));
            assert(step(q, input, sq) == RunOutcome::Running(opt_state(p, s1)));
            assert(run_n(q, input, sq, n) == run_n(q, input, opt_state(p, s1), (n - 1) as nat));
            lemma_sim_bwd(p, input, s1, (n - 1) as nat);
            let m1 = choose|m: nat|
                same_obs(
                    #[trigger] run_n(p, input, s1, m),
                    run_n(q, input, opt_state(p, s1), (n - 1) as nat),
                );
            assert(run_n(p, input, s, m1 + 1) == run_n(p, input, s1, m1));
            assert(same_obs(run_n(p, input, s, m1 + 1), run_n(q, input, sq, n)));
        },
        Instruction::JmpZ(t) => {
            let z = s.cells[s.ptr as int] == 0;
            let s1 = VmState {
                ip: if z {
                    t as nat
                } else {
                    s.ip + 1
                },
                ..s
            };
            assert(step(p, input, s) == RunOutcome::Running(s1));
            lemma_new_index_mono(p, 0, t as int);
            assert(p[t - 1] == Instruction::Jmp(j as usize));
            assert(retained(p, t as int));
            assert(retained(p, j + 1));
            assert(new_index(p, j + 1) == new_index(p, j) + 1);
            assert(folded_at(p, j) == Instruction::JmpZ(new_index(p, t as int) as usize));
            assert(step(q, input, sq) == RunOutcome::Running(opt_state(p, s1)));
            assert(run_n(q, input, sq, n) == run_n(q, input, opt_state(p, s1), (n - 1) as nat));
            lemma_sim_bwd(p, input, s1, (n - 1) as nat);
            let m1 = choose|m: nat|
                same_obs(
                    #[trigger] run_n(p, input, s1, m),
                    run_n(q, input, opt_state(p, s1), (n - 1) as nat),
                );
            assert(run_n(p, input, s, m1 + 1) == run_n(p, input, s1, m1));
            assert(same_obs(run_n(p, input, s, m1 + 1), run_n(q, input, sq, n)));
        },
        Instruction::Get => {
            let s1 = if s.in_pos < input.len() {
                VmState {
                    cells: s.cells.update(s.ptr as int, input[s.in_pos as int]),
                    in_pos: s.in_pos + 1,
                    ip: s.ip + 1,
                    ..s
                }
            } else {
                VmState { cells: s.cells.update(s.ptr as int, 0u8), ip: s.ip + 1, ..s }
            };
            assert(step(p, input, s) == RunOutcome::Running(s1));
            assert(j + 1 < p.len()) by {
                if j + 1 == p.len() {
                    assert(p[p.len() - 1] == Instruction::Exit);
                }
            }
            assert(retained(p, j + 1));
            assert(new_index(p, j + 1) == new_index(p, j) + 1);
            assert(step(q, input, sq) == RunOutcome::Running(opt_state(p, s1)));
            assert(run_n(q, input, sq, n) == run_n(q, input, opt_state(p, s1), (n - 1) as nat));
            lemma_sim_bwd(p, input, s1, (n - 1) as nat);
            let m1 = choose|m: nat|
                same_obs(
                    #[trigger] run_n(p, input, s1, m),
                    run_n(q, input, opt_state(p, s1), (n - 1) as nat),
                );
            assert(run_n(p, input, s, m1 + 1) == run_n(p, input, s1, m1));
            assert(same_obs(run_n(p, input, s, m1 + 1), run_n(q, input, sq, n)));
        },
        Instruction::Put => {
            let s1 = VmState {
                output: s.output.push(s.cells[s.ptr as int]),
                ip: s.ip + 1,
                ..s
            };
            assert(step(p, input, s) == RunOutcome::Running(s1));
            assert(j + 1 < p.len()) by {
                if j + 1 == p.len() {
                    assert(p[p.len() - 1] == Instruction::Exit);
                }
            }
            assert(retained(p, j + 1));
            assert(new_index(p, j + 1) == new_index(p, j) + 1);
            assert(step(q, input, sq) == RunOutcome::Running(opt_state(p, s1)));
            assert(run_n(q, input, sq, n) == run_n(q, input, opt_state(p, s1), (n - 1) as nat));
            lemma_sim_bwd(p, input, s1, (n - 1) as nat);
            let m1 = choose|m: nat|
                same_obs(
                    #[trigger] run_n(p, input, s1, m),
                    run_n(q, input, opt_state(p, s1), (n - 1) as nat),
                );
            assert(run_n(p, input, s, m1 + 1) == run_n(p, input, s1, m1));
            assert(same_obs(run_n(p, input, s, m1 + 1), run_n(q, input, sq, n)));
        },
        Instruction::Inc(_) => {
            lemma_fold_window(p, j);
            let e = run_end(p, j);
            let m = sum_counts(p, j, e);
            assert forall|i: int| j <= i < e implies (#[trigger] p[i]) is Inc by {}
            let after = VmState {
                cells: s.cells.update(s.ptr as int, ((s.cells[s.ptr as int] + m) % 256) as u8),
                ip: e as nat,
                ..s
            };
            assert(folded_at(p, j) == Instruction::Inc(m as usize));
            assert(step(q, input, sq) == RunOutcome::Running(opt_state(p, after)));
            assert(run_n(q, input, sq, n) == run_n(q, input, opt_state(p, after), (n - 1) as nat));
            lemma_sim_bwd(p, input, after, (n - 1) as nat);
            let m1 = choose|m1: nat|
                same_obs(
                    #[trigger] run_n(p, input, after, m1),
                    run_n(q, input, opt_state(p, after), (n - 1) as nat),
                );
            lemma_run_incs(p, input, s, e, m1 + (e - j) as nat);
            assert(run_n(p, input, s, m1 + (e - j) as nat) == run_n(p, input, after, m1));
            assert(same_obs(run_n(p, input, s, m1 + (e - j) as nat), run_n(q, input, sq, n)));
        },
        Instruction::Dec(_) => {
            lemma_fold_window(p, j);
            let e = run_end(p, j);
            let m = sum_counts(p, j, e);
            assert forall|i: int| j <= i < e implies (#[trigger] p[i]) is Dec by {}
            let after = VmState {
                cells: s.cells.update(s.ptr as int, ((s.cells[s.ptr as int] - m) % 256) as u8),
                ip: e as nat,
                ..s
            };
            assert(folded_at(p, j) == Instruction::Dec(m as usize));
            assert(step(q, input, sq) == RunOutcome::Running(opt_state(p, after)));
            assert(run_n(q, input, sq, n) == run_n(q, input, opt_state(p, after), (n - 1) as nat));
            lemma_sim_bwd(p, input, after, (n - 1) as nat);
            let m1 = choose|m1: nat|
                same_obs(
                    #[trigger] run_n(p, input, after, m1),
                    run_n(q, input, opt_state(p, after), (n - 1) as nat),
                );
            lemma_run_decs(p, input, s, e, m1 + (e - j) as nat);
            assert(run_n(p, input, s, m1 + (e - j) as nat) == run_n(p, input, after, m1));
            assert(same_obs(run_n(p, input, s, m1 + (e - j) as nat), run_n(q, input, sq, n)));
        },
        Instruction::MvRight(_) => {
            lemma_fold_window(p, j);
            let e = run_end(p, j);
            let m = sum_counts(p, j, e);
            assert forall|i: int| j <= i < e implies (#[trigger] p[i]) is MvRight by {}
            assert(folded_at(p, j) == Instruction::MvRight(m as usize));
            if s.ptr + m < s.cells.len() {
                let after = VmState { ptr: (s.ptr + m) as nat, ip: e as nat, ..s };
                assert(step(q, input, sq) == RunOutcome::Running(opt_state(p, after)));
                assert(run_n(q, input, sq, n) == run_n(
                    q,
                    input,
                    opt_state(p, after),
                    (n - 1) as nat,
                ));
                lemma_sim_bwd(p, input, after, (n - 1) as nat);
                let m1 = choose|m1: nat|
                    same_obs(
                        #[trigger] run_n(p, input, after, m1),
                        run_n(q, input, opt_state(p, after), (n - 1) as nat),
                    );
                lemma_run_mvrs(p, input, s, e, m1 + (e - j) as nat);
                assert(run_n(p, input, s, m1 + (e - j) as nat) == run_n(p, input, after, m1));
                assert(same_obs(run_n(p, input, s, m1 + (e - j) as nat), run_n(q, input, sq, n)));
            } else {
                assert(step(q, input, sq) == RunOutcome::Faulted(Fault::Overflow, sq));
                assert(run_n(q, input, sq, n) == RunOutcome::Faulted(Fault::Overflow, sq));
                lemma_run_mvrs(p, input, s, e, (e - j) as nat);
                let sf = choose|sf: VmState|
                    run_n(p, input, s, (e - j) as nat) == RunOutcome::Faulted(Fault::Overflow, sf)
                        && sf.cells == s.cells && sf.in_pos == s.in_pos && sf.output == s.output;
                assert(same_obs(run_n(p, input, s, (e - j) as nat), run_n(q, input, sq, n)));
            }
        },
        Instruction::MvLeft(_) => {
            lemma_fold_window(p, j);
            let e = run_end(p, j);
            let m = sum_counts(p, j, e);
            assert forall|i: int| j <= i < e implies (#[trigger] p[i]) is MvLeft by {}
            assert(folded_at(p, j) == Instruction::MvLeft(m as usize));
            if m <= s.ptr {
                let after = VmState { ptr: (s.ptr - m) as nat, ip: e as nat, ..s };
                assert(step(q, input, sq) == RunOutcome::Running(opt_state(p, after)));
                assert(run_n(q, input, sq, n) == run_n(
                    q,
                    input,
                    opt_state(p, after),
                    (n - 1) as nat,
                ));
                lemma_sim_bwd(p, input, after, (n - 1) as nat);
                let m1 = choose|m1: nat|
                    same_obs(
                        #[trigger] run_n(p, input, after, m1),
                        run_n(q, input, opt_state(p, after), (n - 1) as nat),
                    );
                lemma_run_mvls(p, input, s, e, m1 + (e - j) as nat);
                assert(run_n(p, input, s, m1 + (e - j) as nat) == run_n(p, input, after, m1));
                assert(same_obs(run_n(p, input, s, m1 + (e - j) as nat), run_n(q, input, sq, n)));
            } else {
                assert(step(q, input, sq) == RunOutcome::Faulted(Fault::Underflow, sq));
                assert(run_n(q, input, sq, n) == RunOutcome::Faulted(Fault::Underflow, sq));
                lemma_run_mvls(p, input, s, e, (e - j) as nat);
                let sf = choose|sf: VmState|
                    run_n(p, input, s, (e - j) as nat) == RunOutcome::Faulted(
                        Fault::Underflow,
                        sf,
                    ) && sf.cells == s.cells && sf.in_pos == s.in_pos && sf.output == s.output;
                assert(same_obs(run_n(p, input, s, (e - j) as nat), run_n(q, input, sq, n)));
            }
        },
    }
}

} // verus!

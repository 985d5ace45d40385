//! Small-step semantics of the tape machine: a spec-level run state, one
//! transition per instruction, and its fuel-indexed closure. The executable
//! machine and the optimizer's preservation proof are both stated against
//! these definitions.

use vstd::prelude::*;

use crate::compiler::Instruction;

verus! {

/// A machine mid-run: the tape, the data pointer, the instruction pointer,
/// how many input bytes have been consumed, and the bytes written so far.
pub ghost struct VmState {
    pub cells: Seq<u8>,
    pub ptr: nat,
    pub ip: nat,
    pub in_pos: nat,
    pub output: Seq<u8>,
}

/// The two tape-boundary faults: moving right past the end, or left past
/// the start.
pub ghost enum Fault {
    Overflow,
    Underflow,
}

/// What a bounded run reaches: still running when the step bound is spent,
/// completed at `Exit`, or stopped at the first fault.
pub ghost enum RunOutcome {
    Running(VmState),
    Halted(VmState),
    Faulted(Fault, VmState),
}

/// One instruction's effect on a run state. Arithmetic wraps modulo 256;
/// pointer motion past either tape edge faults without moving; reading
/// exhausted input stores 0 and consumes nothing; jumps replace the default
/// advance-by-one.
pub open spec fn step(p: Seq<Instruction>, input: Seq<u8>, s: VmState) -> RunOutcome {
    match p[s.ip as int] {
        Instruction::Exit => RunOutcome::Halted(s),
        Instruction::MvLeft(n) => if n > s.ptr {
            RunOutcome::Faulted(Fault::Underflow, s)
        } else {
            RunOutcome::Running(VmState { ptr: (s.ptr - n) as nat, ip: s.ip + 1, ..s })
        },
        Instruction::MvRight(n) => if s.ptr + n >= s.cells.len() {
            RunOutcome::Faulted(Fault::Overflow, s)
        } else {
            RunOutcome::Running(VmState { ptr: (s.ptr + n) as nat, ip: s.ip + 1, ..s })
        },
        Instruction::Inc(n) => RunOutcome::Running(
            VmState {
                cells: s.cells.update(
                    s.ptr as int,
                    ((s.cells[s.ptr as int] + n) % 256) as u8,
                ),
                ip: s.ip + 1,
                ..s
            },
        ),
        Instruction::Dec(n) => RunOutcome::Running(
            VmState {
                cells: s.cells.update(
                    s.ptr as int,
                    ((s.cells[s.ptr as int] - n) % 256) as u8,
                ),
                ip: s.ip + 1,
                ..s
            },
        ),
        Instruction::Get => RunOutcome::Running(
            if s.in_pos < input.len() {
                VmState {
                    cells: s.cells.update(s.ptr as int, input[s.in_pos as int]),
                    in_pos: s.in_pos + 1,
                    ip: s.ip + 1,
                    ..s
                }
            } else {
                VmState { cells: s.cells.update(s.ptr as int, 0), ip: s.ip + 1, ..s }
            },
        ),
        Instruction::Put => RunOutcome::Running(
            VmState { output: s.output.push(s.cells[s.ptr as int]), ip: s.ip + 1, ..s },
        ),
        Instruction::Jmp(t) => RunOutcome::Running(VmState { ip: t as nat, ..s }),
        Instruction::JmpZ(t) => RunOutcome::Running(
            VmState {
                ip: if s.cells[s.ptr as int] == 0 {
                    t as nat
                } else {
                    s.ip + 1
                },
                ..s
            },
        ),
    }
}

/// The state or terminal outcome reached after at most `fuel` steps.
pub open spec fn run_n(p: Seq<Instruction>, input: Seq<u8>, s: VmState, fuel: nat) -> RunOutcome
    decreases fuel,
{
    if fuel == 0 {
        RunOutcome::Running(s)
    } else {
        match step(p, input, s) {
            RunOutcome::Running(s2) => run_n(p, input, s2, (fuel - 1) as nat),
            done => done,
        }
    }
}

/// Consistency of a run state with its program and input: the pointer is on
/// the tape, the instruction pointer is on an instruction, and no more input
/// was consumed than exists.
pub open spec fn state_wf(p: Seq<Instruction>, input: Seq<u8>, s: VmState) -> bool {
    &&& s.ptr < s.cells.len()
    &&& s.ip < p.len()
    &&& s.in_pos <= input.len()
}

/// Fuel splits: running `a + b` steps is running `a` steps and then `b` more
/// from wherever that landed.
pub proof fn lemma_run_n_add(
    p: Seq<Instruction>,
    input: Seq<u8>,
    s: VmState,
    t: VmState,
    a: nat,
    b: nat,
)
    requires
        run_n(p, input, s, a) == RunOutcome::Running(t),
    ensures
        run_n(p, input, s, a + b) == run_n(p, input, t, b),
    decreases a,
{
    if a > 0 {
        match step(p, input, s) {
            RunOutcome::Running(s2) => {
                lemma_run_n_add(p, input, s2, t, (a - 1) as nat, b);
            },
            _ => {},
        }
    }
}

/// A terminal outcome is stable under extra fuel.
pub proof fn lemma_run_n_mono(p: Seq<Instruction>, input: Seq<u8>, s: VmState, a: nat, b: nat)
    requires
        a <= b,
        !(run_n(p, input, s, a) is Running),
    ensures
        run_n(p, input, s, b) == run_n(p, input, s, a),
    decreases a,
{
    if a > 0 {
        match step(p, input, s) {
            RunOutcome::Running(s2) => {
                lemma_run_n_mono(p, input, s2, (a - 1) as nat, (b - 1) as nat);
            },
            _ => {},
        }
    }
}

} // verus!

//! The tape machine: a fixed-size array of byte cells, a data pointer, an
//! instruction pointer, and a bounded executor whose behaviour is exactly
//! the fuel-indexed closure of the small-step semantics.

use vstd::arithmetic::div_mod::{
    lemma_add_mod_noop_right, lemma_mod_multiples_vanish, lemma_small_mod, lemma_sub_mod_noop_right,
};
use vstd::prelude::*;

use crate::compile_spec::wf_at;
use crate::compiler::{Instruction, Program};
use crate::semantics::{lemma_run_n_add, run_n, step, Fault, RunOutcome, VmState};
use crate::Config;

verus! {

/// A fatal tape-boundary violation, with a human-readable description.
/// Moving right past the last cell overflows; moving left past cell 0
/// underflows.
#[derive(Debug)]
pub enum RuntimeError {
    CellOverflow(String),
    CellUnderflow(String),
}

/// Description carried by the overflow fault.
pub open spec fn overflow_msg() -> Seq<char> {
    "Pointer can't move beyond the last cell. Try running again with a bigger cell size"@
}

/// Description carried by the underflow fault.
pub open spec fn underflow_msg() -> Seq<char> {
    "Pointer can't move below 0"@
}

impl RuntimeError {
    /// The fault of the small-step semantics this error reports.
    pub open spec fn fault(&self) -> Fault {
        match self {
            RuntimeError::CellOverflow(_) => Fault::Overflow,
            RuntimeError::CellUnderflow(_) => Fault::Underflow,
        }
    }

    /// The description carried by the error.
    pub open spec fn description(&self) -> Seq<char> {
        match self {
            RuntimeError::CellOverflow(s) => s@,
            RuntimeError::CellUnderflow(s) => s@,
        }
    }

    /// The description, for callers that print the error.
    pub fn message(&self) -> (m: &String)
        ensures
            m@ == self.description(),
    {
        match self {
            RuntimeError::CellOverflow(s) => s,
            RuntimeError::CellUnderflow(s) => s,
        }
    }
}

/// How a bounded run ended when it did not fault: the program reached its
/// `Exit` instruction, or the step bound ran out first and the machine can
/// be resumed.
#[derive(Clone, Copy, PartialEq, Eq, Structural, Debug)]
pub enum Status {
    Completed,
    Pending,
}

/// A machine that runs compiled programs: a zero-initialized tape of fixed
/// size, a data pointer starting at cell 0, an instruction pointer, the
/// count of consumed input bytes, and the output written so far.
pub struct Machine {
    cells: Vec<u8>,
    ptr: usize,
    ip: usize,
    in_pos: usize,
    output: Vec<u8>,
}

impl View for Machine {
    type V = VmState;

    closed spec fn view(&self) -> VmState {
        VmState {
            cells: self.cells@,
            ptr: self.ptr as nat,
            ip: self.ip as nat,
            in_pos: self.in_pos as nat,
            output: self.output@,
        }
    }
}

impl Machine {
    /// The machine's own invariant: the pointer is on the tape.
    pub open spec fn wf(&self) -> bool {
        self@.ptr < self@.cells.len()
    }

    /// Create a machine from a configuration: `cell_sz` zero cells (at least
    /// one, so that the pointer has a cell to stand on), everything else at
    /// its starting value.
    pub fn new(cnfg: &Config) -> (m: Machine)
        requires
            cnfg.cell_sz >= 1,
        ensures
            m.wf(),
            m@.cells =~= Seq::new(cnfg.cell_sz as nat, |i: int| 0u8),
            m@.ptr == 0,
            m@.ip == 0,
            m@.in_pos == 0,
            m@.output =~= Seq::<u8>::empty(),
    {
        let mut cells: Vec<u8> = Vec::new();
        let mut i: usize = 0;
        while i < cnfg.cell_sz
            invariant
                i <= cnfg.cell_sz,
                cells@.len() == i,
                forall|k: int| 0 <= k < i ==> cells@[k] == 0u8,
            decreases cnfg.cell_sz - i,
        {
            cells.push(0);
            i = i + 1;
        }
        let m = Machine { cells, ptr: 0, ip: 0, in_pos: 0, output: Vec::new() };
        proof {
            assert(m@.cells =~= Seq::new(cnfg.cell_sz as nat, |i: int| 0u8));
        }
        m
    }

    /// The value of the cell under the pointer.
    pub fn value(&self) -> (v: u8)
        requires
            self.wf(),
        ensures
            v == self@.cells[self@.ptr as int],
    {
        self.cells[self.ptr]
    }

    /// The whole tape, for reading the final state after a run.
    pub fn cells(&self) -> (c: &Vec<u8>)
        ensures
            c@ == self@.cells,
    {
        &self.cells
    }

    /// The bytes the program has written so far.
    pub fn output(&self) -> (o: &Vec<u8>)
        ensures
            o@ == self@.output,
    {
        &self.output
    }

    /// Where the data pointer stands.
    pub fn pointer(&self) -> (p: usize)
        ensures
            p == self@.ptr,
    {
        self.ptr
    }

    /// How many input bytes the program has consumed so far.
    pub fn consumed(&self) -> (n: usize)
        ensures
            n == self@.in_pos,
    {
        self.in_pos
    }

    /// Move the pointer `times` cells right; past the last cell this is a
    /// fatal overflow fault and the machine is left unchanged.
    fn mv_right(&mut self, times: usize) -> (r: Result<(), RuntimeError>)
        requires
            old(self).wf(),
        ensures
            match r {
                Ok(()) => old(self)@.ptr + times < old(self)@.cells.len() && final(self)@
                    == (VmState { ptr: (old(self)@.ptr + times) as nat, ..old(self)@ }),
                Err(e) => old(self)@.ptr + times >= old(self)@.cells.len() && final(self)@ == old(
                    self,
                )@ && e.fault() == Fault::Overflow && e.description() == overflow_msg(),
            },
    {
        if times >= self.cells.len() - self.ptr {
            Err(
                RuntimeError::CellOverflow(
                    "Pointer can't move beyond the last cell. Try running again with a bigger cell size".to_owned(),
                ),
            )
        } else {
            self.ptr = self.ptr + times;
            Ok(())
        }
    }

    /// Move the pointer `times` cells left; past cell 0 this is a fatal
    /// underflow fault and the machine is left unchanged.
    fn mv_left(&mut self, times: usize) -> (r: Result<(), RuntimeError>)
        requires
            old(self).wf(),
        ensures
            match r {
                Ok(()) => times <= old(self)@.ptr && final(self)@ == (VmState {
                    ptr: (old(self)@.ptr - times) as nat,
                    ..old(self)@
                }),
                Err(e) => times > old(self)@.ptr && final(self)@ == old(self)@ && e.fault()
                    == Fault::Underflow && e.description() == underflow_msg(),
            },
    {
        if times > self.ptr {
            Err(RuntimeError::CellUnderflow("Pointer can't move below 0".to_owned()))
        } else {
            self.ptr = self.ptr - times;
            Ok(())
        }
    }

    /// Add `times` (modulo 256) to the cell under the pointer, wrapping at
    /// the 0/255 boundary; this never faults.
    fn inc(&mut self, times: usize)
        requires
            old(self).wf(),
        ensures
            final(self)@ == (VmState {
                cells: old(self)@.cells.update(
                    old(self)@.ptr as int,
                    ((old(self)@.cells[old(self)@.ptr as int] + times) % 256) as u8,
                ),
                ..old(self)@
            }),
    {
        let cur = self.cells[self.ptr];
        let amt = (times % 256) as u8;
        let newv = cur.wrapping_add(amt);
        proof {
            lemma_add_mod_noop_right(cur as int, times as int, 256);
            if cur + amt >= 256 {
                lemma_mod_multiples_vanish(1, cur + amt - 256, 256);
                lemma_small_mod((cur + amt - 256) as nat, 256);
            } else {
                lemma_small_mod((cur + amt) as nat, 256);
            }
            assert(newv == ((cur + times) % 256) as u8);
        }
        self.cells.set(self.ptr, newv);
    }

    /// Subtract `times` (modulo 256) from the cell under the pointer,
    /// wrapping at the 0/255 boundary; this never faults.
    fn dec(&mut self, times: usize)
        requires
            old(self).wf(),
        ensures
            final(self)@ == (VmState {
                cells: old(self)@.cells.update(
                    old(self)@.ptr as int,
                    ((old(self)@.cells[old(self)@.ptr as int] - times) % 256) as u8,
                ),
                ..old(self)@
            }),
    {
        let cur = self.cells[self.ptr];
        let amt = (times % 256) as u8;
        let newv = cur.wrapping_sub(amt);
        proof {
            lemma_sub_mod_noop_right(cur as int, times as int, 256);
            if cur >= amt {
                lemma_small_mod((cur - amt) as nat, 256);
            } else {
                lemma_mod_multiples_vanish(1, cur - amt, 256);
                lemma_small_mod((cur - amt + 256) as nat, 256);
            }
            assert(newv == ((cur - times) % 256) as u8);
        }
        self.cells.set(self.ptr, newv);
    }

    /// Store the next input byte in the current cell, or 0 when the input is
    /// exhausted (never a fault); a successful read consumes one byte.
    fn get(&mut self, input: &Vec<u8>)
        requires
            old(self).wf(),
            old(self)@.in_pos <= input@.len(),
        ensures
            final(self)@ == (if old(self)@.in_pos < input@.len() {
                VmState {
                    cells: old(self)@.cells.update(
                        old(self)@.ptr as int,
                        input@[old(self)@.in_pos as int],
                    ),
                    in_pos: old(self)@.in_pos + 1,
                    ..old(self)@
                }
            } else {
                VmState {
                    cells: old(self)@.cells.update(old(self)@.ptr as int, 0u8),
                    ..old(self)@
                }
            }),
    {
        if self.in_pos < input.len() {
            let b = input[self.in_pos];
            self.cells.set(self.ptr, b);
            self.in_pos = self.in_pos + 1;
        } else {
            self.cells.set(self.ptr, 0);
        }
    }

    /// Append the current cell's value to the output.
    fn put(&mut self)
        requires
            old(self).wf(),
        ensures
            final(self)@ == (VmState {
                output: old(self)@.output.push(old(self)@.cells[old(self)@.ptr as int]),
                ..old(self)@
            }),
    {
        let b = self.cells[self.ptr];
        self.output.push(b);
    }

    /// Execute at most `fuel` instructions of `program` against `input`,
    /// starting from the machine's current state. The result is exactly what
    /// the small-step semantics reaches with that much fuel: `Completed`
    /// when `Exit` was reached, `Pending` when the bound ran out first (the
    /// machine can be resumed with the same program and input), or the first
    /// tape-boundary fault. The machine's final state is the reached state
    /// in every case.
    pub fn run(&mut self, program: &Program, input: &Vec<u8>, fuel: usize) -> (r: Result<
        Status,
        RuntimeError,
    >)
        requires
            old(self).wf(),
            program.wf(),
            old(self)@.ip < program@.len(),
            old(self)@.in_pos <= input@.len(),
        ensures
            final(self).wf(),
            final(self)@.ip < program@.len(),
            final(self)@.in_pos <= input@.len(),
            final(self)@.cells.len() == old(self)@.cells.len(),
            match r {
                Ok(Status::Completed) => run_n(program@, input@, old(self)@, fuel as nat)
                    == RunOutcome::Halted(final(self)@),
                Ok(Status::Pending) => run_n(program@, input@, old(self)@, fuel as nat)
                    == RunOutcome::Running(final(self)@),
                Err(e) => run_n(program@, input@, old(self)@, fuel as nat) == RunOutcome::Faulted(
                    e.fault(),
                    final(self)@,
                ) && (e.fault() == Fault::Overflow ==> e.description() == overflow_msg()) && (
                e.fault() == Fault::Underflow ==> e.description() == underflow_msg()),
            },
    {
        let ghost p = program@;
        let ghost inp = input@;
        let ghost s0 = self@;
        let _program_len = program.len();
        let mut remaining = fuel;
        while remaining > 0
            invariant
                p.len() <= usize::MAX,
                old(self)@ == s0,
                self.wf(),
                program.wf(),
                program@ == p,
                input@ == inp,
                self@.ip < p.len(),
                self@.in_pos <= inp.len(),
                self@.cells.len() == s0.cells.len(),
                remaining <= fuel,
                run_n(p, inp, s0, (fuel - remaining) as nat) == RunOutcome::Running(self@),
            decreases remaining,
        {
            let ghost scur = self@;
            let ghost spent = (fuel - remaining) as nat;
            proof {
                assert(wf_at(p, scur.ip as int));
            }
            let instr = program.get(self.ip);
            match instr {
                Instruction::Exit => {
                    proof {
                        assert(run_n(p, inp, scur, remaining as nat) == RunOutcome::Halted(scur));
                        lemma_run_n_add(p, inp, s0, scur, spent, remaining as nat);
                    }
                    return Ok(Status::Completed);
                },
                Instruction::MvLeft(times) => {
                    match self.mv_left(times) {
                        Ok(()) => {
                            self.ip = self.ip + 1;
                        },
                        Err(e) => {
                            proof {
                                assert(run_n(p, inp, scur, remaining as nat)
                                    == RunOutcome::Faulted(Fault::Underflow, scur));
                                lemma_run_n_add(p, inp, s0, scur, spent, remaining as nat);
                            }
                            return Err(e);
                        },
                    }
                },
                Instruction::MvRight(times) => {
                    match self.mv_right(times) {
                        Ok(()) => {
                            self.ip = self.ip + 1;
                        },
                        Err(e) => {
                            proof {
                                assert(run_n(p, inp, scur, remaining as nat)
                                    == RunOutcome::Faulted(Fault::Overflow, scur));
                                lemma_run_n_add(p, inp, s0, scur, spent, remaining as nat);
                            }
                            return Err(e);
                        },
                    }
                },
                Instruction::Inc(times) => {
                    self.inc(times);
                    self.ip = self.ip + 1;
                },
                Instruction::Dec(times) => {
                    self.dec(times);
                    self.ip = self.ip + 1;
                },
                Instruction::Get => {
                    self.get(input);
                    self.ip = self.ip + 1;
                },
                Instruction::Put => {
                    self.put();
                    self.ip = self.ip + 1;
                },
                Instruction::Jmp(addr) => {
                    self.ip = addr;
                },
                Instruction::JmpZ(addr) => {
                    if self.value() == 0 {
                        self.ip = addr;
                    } else {
                        self.ip = self.ip + 1;
                    }
                },
            }
            proof {
                assert(self@.ip < p.len()) by {
                    if self@.ip == p.len() {
                        assert(p[p.len() - 1] == Instruction::Exit);
                    }
                }
                assert(step(p, inp, scur) == RunOutcome::Running(self@));
                lemma_run_n_add(p, inp, s0, scur, spent, 1);
                assert(run_n(p, inp, self@, 0) == RunOutcome::Running(self@));
                assert(run_n(p, inp, scur, 1) == RunOutcome::Running(self@));
            }
            remaining = remaining - 1;
        }
        Ok(Status::Pending)
    }
}

} // verus!

//! Execution: a program against a fixed-size byte tape.
//!
//! The meaning of a program is given by a small-step machine (`step`,
//! `reach`): a snapshot holds the instruction cursor, the data pointer, the
//! tape, how much input was consumed, and the output so far. The executable
//! interpreter is proved to realize exactly the runs of that machine.

use crate::lexer::{lex, lex_spec, LexError, Token};
use crate::parser::{
    inst_wf,
    parse,
    parse_spec,
    prog_wf,
    Instruction,
    ParseError,
    ProgModel,
    Program,
};
use vstd::prelude::*;
use vstd::string::StringSliceAdditionalSpecFns;

verus! {

broadcast use vstd::std_specs::hash::group_hash_axioms;

/// A fixed-size byte tape with a data pointer.
pub struct Interpreter {
    stack: Vec<u8>,
    sp: usize,
    stack_size: usize,
}

/// Execution failure: a pointer move that would leave the tape, or a read
/// with no input byte left.
#[derive(Debug, PartialEq, Eq, Structural, Clone, Copy)]
pub enum InterpreterError {
    MemoryError,
    InputExhausted,
}

/// Whatever made a whole run fail: the stage's own error, unchanged.
#[derive(Debug, PartialEq, Eq, Structural, Clone, Copy)]
pub enum RunError {
    Lex(LexError),
    Parse(ParseError),
    Interpreter(InterpreterError),
}

/// A snapshot of execution.
pub struct ExecState {
    /// Index of the next instruction.
    pub pos: int,
    /// The data pointer.
    pub sp: int,
    /// The tape contents.
    pub tape: Seq<u8>,
    /// How many input bytes were consumed.
    pub in_pos: int,
    /// The bytes written so far.
    pub out: Seq<u8>,
}

/// Where a run stands: still going, past the last instruction, or failed.
pub enum ExecStatus {
    Running(ExecState),
    Done(ExecState),
    Failed(InterpreterError),
}

/// Byte addition, wrapping modulo 256.
pub open spec fn wrap_add(v: u8, n: u8) -> u8 {
    (((v + n) % 256) as u8)
}

/// Byte subtraction, wrapping modulo 256.
pub open spec fn wrap_sub(v: u8, n: u8) -> u8 {
    (((v - n + 256) % 256) as u8)
}

/// One step of the machine on program `m` with input `input`.
pub open spec fn step(m: ProgModel, input: Seq<u8>, s: ExecState) -> ExecStatus {
    if !(0 <= s.pos < m.insts.len()) {
        ExecStatus::Done(s)
    } else {
        match m.insts[s.pos] {
            Instruction::Add(n) => ExecStatus::Running(
                ExecState { pos: s.pos + 1, tape: s.tape.update(s.sp, wrap_add(s.tape[s.sp], n)), ..s },
            ),
            Instruction::Sub(n) => ExecStatus::Running(
                ExecState { pos: s.pos + 1, tape: s.tape.update(s.sp, wrap_sub(s.tape[s.sp], n)), ..s },
            ),
            Instruction::AddPtr(n) => if s.sp + n >= s.tape.len() {
                ExecStatus::Failed(InterpreterError::MemoryError)
            } else {
                ExecStatus::Running(ExecState { pos: s.pos + 1, sp: s.sp + n, ..s })
            },
            Instruction::SubPtr(n) => if s.sp - n < 0 {
                ExecStatus::Failed(InterpreterError::MemoryError)
            } else {
                ExecStatus::Running(ExecState { pos: s.pos + 1, sp: s.sp - n, ..s })
            },
            Instruction::Write => ExecStatus::Running(
                ExecState { pos: s.pos + 1, out: s.out.push(s.tape[s.sp]), ..s },
            ),
            Instruction::Read => if s.in_pos < input.len() {
                ExecStatus::Running(
                    ExecState {
                        pos: s.pos + 1,
                        tape: s.tape.update(s.sp, input[s.in_pos]),
                        in_pos: s.in_pos + 1,
                        ..s
                    },
                )
            } else {
                ExecStatus::Failed(InterpreterError::InputExhausted)
            },
            Instruction::JumpToRBracket(id) => if s.tape[s.sp] == 0 {
                ExecStatus::Running(ExecState { pos: m.rbr[id] + 1, ..s })
            } else {
                ExecStatus::Running(ExecState { pos: s.pos + 1, ..s })
            },
            Instruction::JumpToLBracket(id) => if s.tape[s.sp] != 0 {
                ExecStatus::Running(ExecState { pos: m.lbr[id] + 1, ..s })
            } else {
                ExecStatus::Running(ExecState { pos: s.pos + 1, ..s })
            },
        }
    }
}

/// One step, leaving a finished or failed run as it is.
pub open spec fn step_status(m: ProgModel, input: Seq<u8>, st: ExecStatus) -> ExecStatus {
    match st {
        ExecStatus::Running(s) => step(m, input, s),
        _ => st,
    }
}

/// Where the machine stands after `n` steps from state `s0`.
pub open spec fn reach(m: ProgModel, input: Seq<u8>, s0: ExecState, n: nat) -> ExecStatus
    decreases n,
{
    if n == 0 {
        ExecStatus::Running(s0)
    } else {
        step_status(m, input, reach(m, input, s0, (n - 1) as nat))
    }
}

/// Does some number of steps from `s0` land the machine at `st`?
pub open spec fn execution_reaches(
    m: ProgModel,
    input: Seq<u8>,
    s0: ExecState,
    st: ExecStatus,
) -> bool {
    exists|n: nat| reach(m, input, s0, n) == st
}

/// One more step from a still-running machine does what `step` says.
pub proof fn lemma_reach_step(
    m: ProgModel,
    input: Seq<u8>,
    s0: ExecState,
    n: nat,
    cur: ExecState,
)
    requires
        reach(m, input, s0, n) == ExecStatus::Running(cur),
    ensures
        reach(m, input, s0, n + 1) == step(m, input, cur),
{
    assert(reach(m, input, s0, n + 1) == step_status(m, input, reach(m, input, s0, n)));
}

/// Does the machine, started at `s0`, finish or fail after finitely many
/// steps? A program that keeps a loop's cell non-zero never does; the
/// language allows that, and on such a run the interpreter loops forever.
pub open spec fn halts(m: ProgModel, input: Seq<u8>, s0: ExecState) -> bool {
    exists|n: nat| !(#[trigger] reach(m, input, s0, n) is Running)
}

/// A machine that has finished or failed stays exactly where it is.
pub proof fn lemma_outcome_is_stable(m: ProgModel, input: Seq<u8>, s0: ExecState, a: nat, b: nat)
    requires
        a <= b,
        !(reach(m, input, s0, a) is Running),
    ensures
        reach(m, input, s0, b) == reach(m, input, s0, a),
    decreases b,
{
    if a < b {
        lemma_outcome_is_stable(m, input, s0, a, (b - 1) as nat);
    }
}

/// Law: the machine is deterministic, so it has at most one halting
/// outcome: two finished-or-failed statuses reached from one start are the
/// same status.
pub proof fn lemma_halting_outcome_unique(
    m: ProgModel,
    input: Seq<u8>,
    s0: ExecState,
    st1: ExecStatus,
    st2: ExecStatus,
)
    requires
        execution_reaches(m, input, s0, st1),
        execution_reaches(m, input, s0, st2),
        !(st1 is Running),
        !(st2 is Running),
    ensures
        st1 == st2,
{
    let n1 = choose|n: nat| reach(m, input, s0, n) == st1;
    let n2 = choose|n: nat| reach(m, input, s0, n) == st2;
    if n1 <= n2 {
        lemma_outcome_is_stable(m, input, s0, n1, n2);
    } else {
        lemma_outcome_is_stable(m, input, s0, n2, n1);
    }
}

/// Execution starts at the first instruction, with nothing consumed and
/// nothing written, on the given tape and pointer.
pub open spec fn init_state(tape: Seq<u8>, sp: int) -> ExecState {
    ExecState { pos: 0, sp, tape, in_pos: 0, out: Seq::empty() }
}

impl Interpreter {
    /// The tape contents.
    pub closed spec fn tape(&self) -> Seq<u8> {
        self.stack@
    }

    /// The data pointer.
    pub closed spec fn pointer(&self) -> int {
        self.sp as int
    }

    /// The recorded size agrees with the tape's length.
    pub closed spec fn size_ok(&self) -> bool {
        self.stack_size == self.stack@.len()
    }

    /// A healthy interpreter: a non-empty tape and a pointer on it.
    pub open spec fn wf(&self) -> bool {
        &&& self.size_ok()
        &&& self.tape().len() >= 1
        &&& 0 <= self.pointer() < self.tape().len()
    }

    /// Make an interpreter with a zero-filled tape of `stack_size` cells and
    /// the pointer at the first cell.
    pub fn new(stack_size: usize) -> (r: Interpreter)
        requires
            stack_size >= 1,
        ensures
            r.wf(),
            r.tape() == Seq::new(stack_size as nat, |i: int| 0u8),
            r.pointer() == 0,
    {
        let mut stack: Vec<u8> = Vec::new();
        let mut i: usize = 0;
        while i < stack_size
            invariant
                i <= stack_size,
                stack@.len() == i,
                forall|j: int| 0 <= j < i ==> stack@[j] == 0u8,
            decreases stack_size - i,
        {
            stack.push(0);
            i += 1;
        }
        proof {
            assert(stack@ =~= Seq::new(stack_size as nat, |i: int| 0u8));
        }
        Interpreter { stack, sp: 0, stack_size }
    }

    /// Where the data pointer stands.
    pub fn pointer_index(&self) -> (r: usize)
        ensures
            r as int == self.pointer(),
    {
        self.sp
    }

    /// How many cells the tape has.
    pub fn tape_len(&self) -> (r: usize)
        ensures
            r == self.tape().len(),
    {
        self.stack.len()
    }

    /// The byte in cell `i`.
    pub fn cell(&self, i: usize) -> (r: u8)
        requires
            i < self.tape().len(),
        ensures
            r == self.tape()[i as int],
    {
        self.stack[i]
    }

    /// Lex, parse and execute `code`, reading from `input` and returning the
    /// written bytes; each stage's failure is passed through unchanged. The
    /// contract asks (in ghost) that the machine halt on this program and
    /// input; on a program that never finishes, the call never returns.
    pub fn run(&mut self, code: &str, input: &Vec<u8>) -> (r: Result<Vec<u8>, RunError>)
        requires
            old(self).wf(),
            lex_spec(code.spec_bytes()) matches Ok(toks) && parse_spec(toks) matches Ok(m)
                ==> halts(m, input@, init_state(old(self).tape(), old(self).pointer())),
        ensures
            final(self).wf(),
            final(self).tape().len() == old(self).tape().len(),
            match r {
                Ok(out) => lex_spec(code.spec_bytes()) matches Ok(toks) && parse_spec(toks) matches Ok(m)
                    && (exists|s: ExecState|
                    execution_reaches(
                        m,
                        input@,
                        init_state(old(self).tape(), old(self).pointer()),
                        ExecStatus::Done(s),
                    ) && s.tape == final(self).tape() && s.sp == final(self).pointer() && s.out
                        == out@),
                Err(RunError::Lex(e)) => lex_spec(code.spec_bytes()) == Err::<Seq<Token>, LexError>(e),
                Err(RunError::Parse(e)) => lex_spec(code.spec_bytes()) matches Ok(toks)
                    && parse_spec(toks) == Err::<ProgModel, ParseError>(e),
                Err(RunError::Interpreter(e)) => lex_spec(code.spec_bytes()) matches Ok(toks)
                    && parse_spec(toks) matches Ok(m) && execution_reaches(
                    m,
                    input@,
                    init_state(old(self).tape(), old(self).pointer()),
                    ExecStatus::Failed(e),
                ),
            },
    {
        let tokens = match lex(code) {
            Ok(t) => t,
            Err(e) => {
                return Err(RunError::Lex(e));
            },
        };
        let prog = match parse(&tokens) {
            Ok(p) => p,
            Err(e) => {
                return Err(RunError::Parse(e));
            },
        };
        match self.exec(&prog, input) {
            Ok(out) => Ok(out),
            Err(e) => Err(RunError::Interpreter(e)),
        }
    }

    /// Execute a well-formed program, reading from `input` and returning the
    /// written bytes. The contract asks that the machine halt on this
    /// program and input; the number of steps that bound promises is the
    /// loop's termination measure. On a program that never finishes, the
    /// call never returns.
    fn exec(&mut self, prog: &Program, input: &Vec<u8>) -> (r: Result<Vec<u8>, InterpreterError>)
        requires
            old(self).wf(),
            prog_wf(prog@),
            halts(prog@, input@, init_state(old(self).tape(), old(self).pointer())),
        ensures
            final(self).wf(),
            final(self).tape().len() == old(self).tape().len(),
            match r {
                Ok(out) => exists|s: ExecState|
                    execution_reaches(
                        prog@,
                        input@,
                        init_state(old(self).tape(), old(self).pointer()),
                        ExecStatus::Done(s),
                    ) && s.tape == final(self).tape() && s.sp == final(self).pointer() && s.out
                        == out@,
                Err(e) => execution_reaches(
                    prog@,
                    input@,
                    init_state(old(self).tape(), old(self).pointer()),
                    ExecStatus::Failed(e),
                ),
            },
    {
        let mut pos: usize = 0;
        let mut in_ptr: usize = 0;
        let mut output: Vec<u8> = Vec::new();

        let ghost s0 = init_state(old(self).tape(), old(self).pointer());
        let ghost mut steps: nat = 0;
        let ghost fuel = choose|n: nat| !(#[trigger] reach(prog@, input@, s0, n) is Running);

        while pos < prog.insts.len()
            invariant
                s0 == init_state(old(self).tape(), old(self).pointer()),
                !(reach(prog@, input@, s0, fuel) is Running),
                steps <= fuel,
                prog_wf(prog@),
                self.wf(),
                self.tape().len() == old(self).tape().len(),
                pos <= prog@.insts.len(),
                in_ptr <= input@.len(),
                reach(prog@, input@, s0, steps) == ExecStatus::Running(
                    (ExecState {
                        pos: pos as int,
                        sp: self.pointer(),
                        tape: self.tape(),
                        in_pos: in_ptr as int,
                        out: output@,
                    }),
                ),
            decreases fuel - steps,
        {
            proof {
                assert(steps < fuel);
            }
            let ghost cur = ExecState {
                pos: pos as int,
                sp: self.pointer(),
                tape: self.tape(),
                in_pos: in_ptr as int,
                out: output@,
            };
            proof {
                assert(inst_wf(prog@, pos as int));
                lemma_reach_step(prog@, input@, s0, steps, cur);
            }
            match prog.insts[pos] {
                Instruction::Add(n) => {
                    let v = self.stack[self.sp];
                    let w = v.wrapping_add(n);
                    proof {
                        assert(w == wrap_add(cur.tape[cur.sp], n));
                    }
                    self.stack[self.sp] = w;
                },
                Instruction::Sub(n) => {
                    let v = self.stack[self.sp];
                    let w = v.wrapping_sub(n);
                    proof {
                        assert(w == wrap_sub(cur.tape[cur.sp], n));
                    }
                    self.stack[self.sp] = w;
                },
                Instruction::AddPtr(n) => {
                    let mut ok = false;
                    match self.sp.checked_add(n as usize) {
                        Some(new_sp) => {
                            if new_sp < self.stack_size {
                                self.sp = new_sp;
                                ok = true;
                            }
                        },
                        None => {},
                    }
                    if !ok {
                        proof {
                            assert(reach(prog@, input@, s0, steps + 1) == ExecStatus::Failed(
                                InterpreterError::MemoryError,
                            ));
                        }
                        return Err(InterpreterError::MemoryError);
                    }
                },
                Instruction::SubPtr(n) => {
                    match self.sp.checked_sub(n as usize) {
                        Some(new_sp) => {
                            self.sp = new_sp;
                        },
                        None => {
                            proof {
                                assert(reach(prog@, input@, s0, steps + 1) == ExecStatus::Failed(
                                    InterpreterError::MemoryError,
                                ));
                            }
                            return Err(InterpreterError::MemoryError);
                        },
                    }
                },
                Instruction::Write => {
                    let v = self.stack[self.sp];
                    output.push(v);
                },
                Instruction::Read => {
                    if in_ptr < input.len() {
                        let b = input[in_ptr];
                        self.stack[self.sp] = b;
                        in_ptr += 1;
                    } else {
                        proof {
                            assert(reach(prog@, input@, s0, steps + 1) == ExecStatus::Failed(
                                InterpreterError::InputExhausted,
                            ));
                        }
                        return Err(InterpreterError::InputExhausted);
                    }
                },
                Instruction::JumpToLBracket(id) => {
                    if self.stack[self.sp] != 0 {
                        let entry = prog.lbr_pos.get(&id).unwrap();
                        pos = *entry;
                    }
                },
                Instruction::JumpToRBracket(id) => {
                    if self.stack[self.sp] == 0 {
                        let entry = prog.rbr_pos.get(&id).unwrap();
                        pos = *entry;
                    }
                },
            }
            pos += 1;
            proof {
                steps = steps + 1;
                assert(reach(prog@, input@, s0, steps) == ExecStatus::Running(
                    (ExecState {
                        pos: pos as int,
                        sp: self.pointer(),
                        tape: self.tape(),
                        in_pos: in_ptr as int,
                        out: output@,
                    }),
                ));
            }
        }
        proof {
            let cur = ExecState {
                pos: pos as int,
                sp: self.pointer(),
                tape: self.tape(),
                in_pos: in_ptr as int,
                out: output@,
            };
            lemma_reach_step(prog@, input@, s0, steps, cur);
            assert(reach(prog@, input@, s0, steps + 1) == ExecStatus::Done(cur));
            assert(execution_reaches(prog@, input@, s0, ExecStatus::Done(cur)));
        }
        Ok(output)
    }
}

/// Law: tape arithmetic wraps modulo 256. A counted add of `n` turns the
/// current cell `v` into `(v + n) % 256`, and a counted subtract into
/// `(v - n + 256) % 256`; in particular one `Add(1)` on 255 yields 0, and
/// one `Sub(1)` on 0 yields 255. Wrapping never fails the run.
pub proof fn lemma_tape_wraps_modulo_256(m: ProgModel, input: Seq<u8>, s: ExecState)
    requires
        0 <= s.pos < m.insts.len(),
        0 <= s.sp < s.tape.len(),
    ensures
        m.insts[s.pos] matches Instruction::Add(n) ==> step(m, input, s) == ExecStatus::Running(
            (ExecState { pos: s.pos + 1, tape: s.tape.update(s.sp, (((s.tape[s.sp] + n) % 256) as u8)), ..s }),
        ),
        m.insts[s.pos] matches Instruction::Sub(n) ==> step(m, input, s) == ExecStatus::Running(
            (ExecState {
                pos: s.pos + 1,
                tape: s.tape.update(s.sp, (((s.tape[s.sp] - n + 256) % 256) as u8)),
                ..s
            }),
        ),
        m.insts[s.pos] == Instruction::Add(1u8) && s.tape[s.sp] == 255 ==> (step(m, input, s)
            matches ExecStatus::Running(s2) && s2.tape[s.sp] == 0),
        m.insts[s.pos] == Instruction::Sub(1u8) && s.tape[s.sp] == 0 ==> (step(m, input, s)
            matches ExecStatus::Running(s2) && s2.tape[s.sp] == 255),
{
}

/// Law: pointer motion is bounds-checked. A forward move fails with the
/// memory error exactly when it would reach or pass the tape's length, and a
/// backward move exactly when it would pass below zero; in bounds, the
/// pointer lands where the count says and nothing else changes.
pub proof fn lemma_pointer_moves_are_bounds_checked(m: ProgModel, input: Seq<u8>, s: ExecState)
    requires
        0 <= s.pos < m.insts.len(),
        0 <= s.sp < s.tape.len(),
    ensures
        m.insts[s.pos] matches Instruction::AddPtr(n) ==> step(m, input, s) == (if s.sp + n
            >= s.tape.len() {
            ExecStatus::Failed(InterpreterError::MemoryError)
        } else {
            ExecStatus::Running((ExecState { pos: s.pos + 1, sp: s.sp + n, ..s }))
        }),
        m.insts[s.pos] matches Instruction::SubPtr(n) ==> step(m, input, s) == (if s.sp - n < 0 {
            ExecStatus::Failed(InterpreterError::MemoryError)
        } else {
            ExecStatus::Running((ExecState { pos: s.pos + 1, sp: s.sp - n, ..s }))
        }),
{
}

} // verus!

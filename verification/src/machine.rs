//! The execution engine: a fixed tape of byte cells, a tape pointer, a
//! program counter, and the fetch-decode-execute loop, all specified by a
//! mathematical small-step interpreter.

use std::collections::HashMap;
use vstd::pervasive::VecAdditionalExecFns;
use vstd::prelude::*;

use crate::jump::{build_jump_table, jump_scan};
use crate::ops::{decode, Operator};
use crate::{EngineError, TAPE_LEN};

verus! {

broadcast use vstd::std_specs::hash::group_hash_axioms;

/// The mathematical state of a run: program counter, tape pointer, and the
/// tape contents.
pub struct MState {
    pub pc: int,
    pub ptr: int,
    pub tape: Seq<u8>,
}

/// A cell increment, wrapping past 255 back to 0.
pub open spec fn inc_cell(c: u8) -> u8 {
    if c == 255 {
        0
    } else {
        (c + 1) as u8
    }
}

/// A cell decrement, wrapping below 0 back to 255.
pub open spec fn dec_cell(c: u8) -> u8 {
    if c == 0 {
        255
    } else {
        (c - 1) as u8
    }
}

/// One step right on the circular tape.
pub open spec fn right_of(p: int) -> int {
    if p == TAPE_LEN - 1 {
        0
    } else {
        p + 1
    }
}

/// One step left on the circular tape.
pub open spec fn left_of(p: int) -> int {
    if p == 0 {
        TAPE_LEN - 1
    } else {
        p - 1
    }
}

/// What executing the single instruction under the program counter does.
pub enum StepSpec {
    /// The program counter has left the program: the run is over.
    Halt,
    /// The instruction is an input instruction and no input byte was offered.
    NeedIn,
    /// The step fails with this terminal error; the state does not change.
    Fail { e: EngineError },
    /// The machine moves to state `st`; `emit` is the byte written by an
    /// output instruction, and `used_input` says whether the offered input
    /// byte was consumed.
    Next { st: MState, emit: Option<u8>, used_input: bool },
}

/// The small-step semantics of the engine: one instruction of program `src`
/// under jump table `jt`, from state `st`, offered the input byte `input`.
pub open spec fn spec_step(src: Seq<u8>, jt: Map<u64, u64>, st: MState, input: Option<u8>) -> StepSpec {
    if !(0 <= st.pc < src.len()) {
        StepSpec::Halt
    } else {
        let b = src[st.pc];
        match decode(b) {
            None => StepSpec::Fail {
                e: EngineError::UnknownInstruction { position: st.pc as u64, byte: b },
            },
            Some(op) => match op {
                Operator::Increase => StepSpec::Next {
                    st: MState {
                        pc: st.pc + 1,
                        ptr: st.ptr,
                        tape: st.tape.update(st.ptr, inc_cell(st.tape[st.ptr])),
                    },
                    emit: None,
                    used_input: false,
                },
                Operator::Decrease => StepSpec::Next {
                    st: MState {
                        pc: st.pc + 1,
                        ptr: st.ptr,
                        tape: st.tape.update(st.ptr, dec_cell(st.tape[st.ptr])),
                    },
                    emit: None,
                    used_input: false,
                },
                Operator::MoveRight => StepSpec::Next {
                    st: MState { pc: st.pc + 1, ptr: right_of(st.ptr), tape: st.tape },
                    emit: None,
                    used_input: false,
                },
                Operator::MoveLeft => StepSpec::Next {
                    st: MState { pc: st.pc + 1, ptr: left_of(st.ptr), tape: st.tape },
                    emit: None,
                    used_input: false,
                },
                Operator::Output => StepSpec::Next {
                    st: MState { pc: st.pc + 1, ptr: st.ptr, tape: st.tape },
                    emit: Some(st.tape[st.ptr]),
                    used_input: false,
                },
                Operator::Input => match input {
                    None => StepSpec::NeedIn,
                    Some(v) => StepSpec::Next {
                        st: MState { pc: st.pc + 1, ptr: st.ptr, tape: st.tape.update(st.ptr, v) },
                        emit: None,
                        used_input: true,
                    },
                },
                Operator::JumpRight => if st.tape[st.ptr] == 0 {
                    if jt.contains_key(st.pc as u64) && jt[st.pc as u64] < src.len() {
                        StepSpec::Next {
                            st: MState {
                                pc: jt[st.pc as u64] as int + 1,
                                ptr: st.ptr,
                                tape: st.tape,
                            },
                            emit: None,
                            used_input: false,
                        }
                    } else {
                        StepSpec::Fail {
                            e: EngineError::MalformedProgram { position: st.pc as u64 },
                        }
                    }
                } else {
                    StepSpec::Next {
                        st: MState { pc: st.pc + 1, ptr: st.ptr, tape: st.tape },
                        emit: None,
                        used_input: false,
                    }
                },
                Operator::JumpLeft => if st.tape[st.ptr] != 0 {
                    if jt.contains_key(st.pc as u64) && jt[st.pc as u64] < src.len() {
                        StepSpec::Next {
                            st: MState {
                                pc: jt[st.pc as u64] as int + 1,
                                ptr: st.ptr,
                                tape: st.tape,
                            },
                            emit: None,
                            used_input: false,
                        }
                    } else {
                        StepSpec::Fail {
                            e: EngineError::MalformedProgram { position: st.pc as u64 },
                        }
                    }
                } else {
                    StepSpec::Next {
                        st: MState { pc: st.pc + 1, ptr: st.ptr, tape: st.tape },
                        emit: None,
                        used_input: false,
                    }
                },
            },
        }
    }
}

/// LAW: cell wraparound is a round trip in both directions.  Incrementing
/// then decrementing any cell value returns it unchanged — in particular a
/// zeroed cell comes back to 0 — and so does decrementing then incrementing,
/// covering the wraps 0 -> 255 -> 0 and 255 -> 0 -> 255.
pub proof fn lemma_cell_round_trip(c: u8)
    ensures
        dec_cell(inc_cell(c)) == c,
        inc_cell(dec_cell(c)) == c,
{
}

/// `n` steps right on the circular tape.
pub open spec fn right_n(p: int, n: nat) -> int
    decreases n,
{
    if n == 0 {
        p
    } else {
        right_of(right_n(p, (n - 1) as nat))
    }
}

/// `n` steps left on the circular tape.
pub open spec fn left_n(p: int, n: nat) -> int
    decreases n,
{
    if n == 0 {
        p
    } else {
        left_of(left_n(p, (n - 1) as nat))
    }
}

/// Where `n` steps right from `p` land, in closed form, while `n` stays
/// within one full turn of the tape.
proof fn lemma_right_n_closed(p: int, n: nat)
    requires
        0 <= p < TAPE_LEN,
        n <= TAPE_LEN,
    ensures
        right_n(p, n) == if p + n < TAPE_LEN {
            p + n
        } else {
            p + n - TAPE_LEN
        },
    decreases n,
{
    if n > 0 {
        lemma_right_n_closed(p, (n - 1) as nat);
    }
}

/// Where `n` steps left from `p` land, in closed form, while `n` stays
/// within one full turn of the tape.
proof fn lemma_left_n_closed(p: int, n: nat)
    requires
        0 <= p < TAPE_LEN,
        n <= TAPE_LEN,
    ensures
        left_n(p, n) == if p - n >= 0 {
            p - n
        } else {
            p - n + TAPE_LEN
        },
    decreases n,
{
    if n > 0 {
        lemma_left_n_closed(p, (n - 1) as nat);
    }
}

/// LAW: moving right as many times as the tape has cells returns the tape
/// pointer to its starting value, and the same holds for moving left.
pub proof fn lemma_pointer_full_cycle(p: int)
    requires
        0 <= p < TAPE_LEN,
    ensures
        right_n(p, TAPE_LEN as nat) == p,
        left_n(p, TAPE_LEN as nat) == p,
{
    lemma_right_n_closed(p, TAPE_LEN as nat);
    lemma_left_n_closed(p, TAPE_LEN as nat);
}

/// The zeroed tape a run starts from.
pub open spec fn init_tape() -> Seq<u8> {
    Seq::new(TAPE_LEN as nat, |j: int| 0u8)
}

/// The state a fresh engine starts from.
pub open spec fn init_mstate() -> MState {
    MState { pc: 0, ptr: 0, tape: init_tape() }
}

/// The execution engine: an immutable program of instruction bytes, the
/// tape, the two counters, and the bracket jump table.
pub struct Interpreter {
    source: Vec<u8>,
    memory: Vec<u8>,
    pointer: u64,
    pc: u64,
    jump_map: HashMap<u64, u64>,
}

impl Interpreter {
    /// Well-formedness: a full-size tape and an in-range tape pointer.
    pub closed spec fn wf(self) -> bool {
        &&& self.memory@.len() == TAPE_LEN
        &&& self.pointer < TAPE_LEN
    }

    /// The program, as the mathematical sequence of its bytes.
    pub closed spec fn program(self) -> Seq<u8> {
        self.source@
    }

    /// The jump table, as a mathematical map.
    pub closed spec fn table(self) -> Map<u64, u64> {
        self.jump_map@
    }

    /// The machine state, as the mathematical small-step semantics sees it.
    pub closed spec fn mstate(self) -> MState {
        MState { pc: self.pc as int, ptr: self.pointer as int, tape: self.memory@ }
    }

    /// A fresh engine over an already filtered program: zeroed tape, both
    /// counters at zero, empty jump table.
    pub fn new(source: Vec<u8>) -> (r: Interpreter)
        ensures
            r.wf(),
            r.program() == source@,
            r.mstate() == init_mstate(),
            r.table() == Map::<u64, u64>::empty(),
    {
        let mut memory: Vec<u8> = Vec::new();
        let mut j: usize = 0;
        while j < TAPE_LEN
            invariant
                j <= TAPE_LEN,
                memory@.len() == j,
                forall|k: int| 0 <= k < j ==> memory@[k] == 0u8,
            decreases TAPE_LEN - j,
        {
            memory.push(0u8);
            j = j + 1;
        }
        proof {
            assert(memory@ =~= init_tape());
        }
        let r = Interpreter {
            source,
            memory,
            pointer: 0u64,
            pc: 0u64,
            jump_map: HashMap::<u64, u64>::new(),
        };
        proof {
            assert(r.mstate() == init_mstate());
        }
        r
    }

    /// Build the bracket-matching jump table with one scan over the program:
    /// push each open bracket, pop it for its matching close bracket, record
    /// the pair in both directions.  A stray close bracket fails at its own
    /// position; an open bracket still unmatched after the scan fails at that
    /// bracket's position; a byte that is no instruction fails where it
    /// stands.  On failure the previous table is kept and the engine state is
    /// untouched.
    pub fn record_condition_location(&mut self) -> (r: Result<(), EngineError>)
        ensures
            final(self).program() == old(self).program(),
            final(self).mstate() == old(self).mstate(),
            match r {
                Ok(()) => build_jump_table(final(self).program()) matches Ok(t) && final(self).table() == t,
                Err(e) => build_jump_table(final(self).program()) == Err::<
                    Map<u64, u64>,
                    EngineError,
                >(e) && final(self).table() == old(self).table(),
            },
    {
        let mut stack: Vec<u64> = Vec::new();
        let mut m: HashMap<u64, u64> = HashMap::new();
        let n = self.source.len();
        let mut i: usize = 0;
        while i < n
            invariant
                n == self.source@.len(),
                i <= n,
                jump_scan(self.source@, i as int, stack@, m@) == build_jump_table(self.source@),
            decreases n - i,
        {
            let ghost stack0 = stack@;
            let ghost m0 = m@;
            let b = self.source[i];
            match Operator::try_from(b) {
                Err(_) => {
                    proof {
                        assert(jump_scan(self.source@, i as int, stack0, m0)
                            == Err::<Map<u64, u64>, EngineError>(
                            (EngineError::UnknownInstruction { position: i as u64, byte: b }),
                        ));
                    }
                    return Err(EngineError::UnknownInstruction { position: i as u64, byte: b });
                },
                Ok(Operator::JumpRight) => {
                    stack.push(i as u64);
                    proof {
                        assert(jump_scan(self.source@, i as int, stack0, m0) == jump_scan(
                            self.source@,
                            i as int + 1,
                            stack@,
                            m@,
                        ));
                    }
                },
                Ok(Operator::JumpLeft) => {
                    if stack.len() == 0 {
                        proof {
                            assert(jump_scan(self.source@, i as int, stack0, m0)
                                == Err::<Map<u64, u64>, EngineError>(
                                (EngineError::MalformedProgram { position: i as u64 }),
                            ));
                        }
                        return Err(EngineError::MalformedProgram { position: i as u64 });
                    }
                    let x = match stack.pop() {
                        Some(x) => x,
                        None => {
                            proof {
                                assert(false);
                            }
                            0u64
                        },
                    };
                    m.insert(x, i as u64);
                    m.insert(i as u64, x);
                    proof {
                        assert(stack@ == stack0.drop_last());
                        assert(m@ == m0.insert(stack0.last(), i as u64).insert(
                            i as u64,
                            stack0.last(),
                        ));
                        assert(jump_scan(self.source@, i as int, stack0, m0) == jump_scan(
                            self.source@,
                            i as int + 1,
                            stack@,
                            m@,
                        ));
                    }
                },
                Ok(_) => {
                    proof {
                        assert(jump_scan(self.source@, i as int, stack0, m0) == jump_scan(
                            self.source@,
                            i as int + 1,
                            stack@,
                            m@,
                        ));
                    }
                },
            }
            i = i + 1;
        }
        if stack.len() > 0 {
            let last = stack[stack.len() - 1];
            proof {
                assert(jump_scan(self.source@, n as int, stack@, m@)
                    == Err::<Map<u64, u64>, EngineError>(
                    (EngineError::MalformedProgram { position: stack@.last() }),
                ));
            }
            return Err(EngineError::MalformedProgram { position: last });
        }
        self.jump_map = m;
        Ok(())
    }

    /// The current tape pointer.
    pub fn tape_pointer(&self) -> (r: u64)
        ensures
            r == self.mstate().ptr,
    {
        self.pointer
    }

    /// The current program counter.
    pub fn program_counter(&self) -> (r: u64)
        ensures
            r == self.mstate().pc,
    {
        self.pc
    }

    /// The value of the cell under the tape pointer.
    pub fn current_cell(&self) -> (r: u8)
        requires
            self.wf(),
        ensures
            r == self.mstate().tape[self.mstate().ptr],
    {
        self.memory[self.pointer as usize]
    }

    /// Whether the run is over: the program counter has left the program.
    pub fn finished(&self) -> (r: bool)
        ensures
            r == (self.mstate().pc >= self.program().len()),
    {
        self.pc >= self.source.len() as u64
    }

    /// Execute the single instruction under the program counter, exactly as
    /// the small-step semantics says.  `input` is the one byte on offer for
    /// an input instruction; every other instruction ignores it, and an
    /// input instruction offered nothing reports that it needs input and
    /// leaves the state untouched, so the caller can fetch a byte and try
    /// again — or give up and report exhaustion.  On an error the state is
    /// untouched as well.
    pub fn step_io(&mut self, input: Option<u8>) -> (r: Result<StepOut, EngineError>)
        requires
            old(self).wf(),
            old(self).mstate().pc < old(self).program().len(),
        ensures
            final(self).wf(),
            final(self).program() == old(self).program(),
            final(self).table() == old(self).table(),
            match spec_step(old(self).program(), old(self).table(), old(self).mstate(), input) {
                StepSpec::Halt => false,
                StepSpec::NeedIn => r == Ok::<StepOut, EngineError>(StepOut::NeedInput) && final(self).mstate() == old(self).mstate(),
                StepSpec::Fail { e } => r == Err::<StepOut, EngineError>(e) && final(self).mstate()
                    == old(self).mstate(),
                StepSpec::Next { st, emit, used_input } => final(self).mstate() == st && (match emit {
                    Some(b) => r == Ok::<StepOut, EngineError>(StepOut::Emitted(b)),
                    None => if used_input {
                        r == Ok::<StepOut, EngineError>(StepOut::ConsumedInput)
                    } else {
                        r == Ok::<StepOut, EngineError>(StepOut::Stepped)
                    },
                }),
            },
    {
        let ghost pre = *self;
        let n = self.source.len();
        let b = self.source[self.pc as usize];
        match Operator::try_from(b) {
            Err(_) => Err(EngineError::UnknownInstruction { position: self.pc, byte: b }),
            Ok(Operator::Increase) => {
                let idx = self.pointer as usize;
                let cur = self.memory[idx];
                self.memory.set(idx, cur.wrapping_add(1));
                self.pc = self.pc + 1;
                Ok(StepOut::Stepped)
            },
            Ok(Operator::Decrease) => {
                let idx = self.pointer as usize;
                let cur = self.memory[idx];
                self.memory.set(idx, cur.wrapping_sub(1));
                self.pc = self.pc + 1;
                Ok(StepOut::Stepped)
            },
            Ok(Operator::MoveRight) => {
                self.pointer = (self.pointer + 1) % (TAPE_LEN as u64);
                self.pc = self.pc + 1;
                proof {
                    if pre.pointer as int + 1 < TAPE_LEN as int {
                        vstd::arithmetic::div_mod::lemma_small_mod(
                            (pre.pointer + 1) as nat,
                            TAPE_LEN as nat,
                        );
                    } else {
                        vstd::arithmetic::div_mod::lemma_mod_self_0(TAPE_LEN as int);
                    }
                    assert(self.pointer as int == right_of(pre.mstate().ptr));
                }
                Ok(StepOut::Stepped)
            },
            Ok(Operator::MoveLeft) => {
                if self.pointer == 0 {
                    self.pointer = (TAPE_LEN as u64) - 1;
                } else {
                    self.pointer = self.pointer - 1;
                }
                self.pc = self.pc + 1;
                Ok(StepOut::Stepped)
            },
            Ok(Operator::Output) => {
                let v = self.memory[self.pointer as usize];
                self.pc = self.pc + 1;
                Ok(StepOut::Emitted(v))
            },
            Ok(Operator::Input) => match input {
                None => Ok(StepOut::NeedInput),
                Some(v) => {
                    let idx = self.pointer as usize;
                    self.memory.set(idx, v);
                    self.pc = self.pc + 1;
                    Ok(StepOut::ConsumedInput)
                },
            },
            Ok(Operator::JumpRight) => {
                let cell = self.memory[self.pointer as usize];
                if cell == 0 {
                    match self.jump_map.get(&self.pc) {
                        None => Err(EngineError::MalformedProgram { position: self.pc }),
                        Some(x) => {
                            let tgt = *x;
                            if tgt < self.source.len() as u64 {
                                self.pc = tgt + 1;
                                Ok(StepOut::Stepped)
                            } else {
                                Err(EngineError::MalformedProgram { position: self.pc })
                            }
                        },
                    }
                } else {
                    self.pc = self.pc + 1;
                    Ok(StepOut::Stepped)
                }
            },
            Ok(Operator::JumpLeft) => {
                let cell = self.memory[self.pointer as usize];
                if cell != 0 {
                    match self.jump_map.get(&self.pc) {
                        None => Err(EngineError::MalformedProgram { position: self.pc }),
                        Some(x) => {
                            let tgt = *x;
                            if tgt < self.source.len() as u64 {
                                self.pc = tgt + 1;
                                Ok(StepOut::Stepped)
                            } else {
                                Err(EngineError::MalformedProgram { position: self.pc })
                            }
                        },
                    }
                } else {
                    self.pc = self.pc + 1;
                    Ok(StepOut::Stepped)
                }
            },
        }
    }
}

/// What one executed instruction handed back to the driver of a run.
#[derive(Clone, Copy, Debug, PartialEq, Eq, Structural)]
pub enum StepOut {
    /// The instruction ran; nothing was emitted and no input was consumed.
    Stepped,
    /// An output instruction emitted this byte.
    Emitted(u8),
    /// An input instruction consumed the offered input byte.
    ConsumedInput,
    /// An input instruction found no offered byte; nothing changed.
    NeedInput,
}

/// What has come of a run granted a bounded amount of fuel.
pub enum ExecOutcome {
    /// The program counter left the program: the run completed, with this
    /// final state, these emitted bytes, and this count of consumed inputs.
    Halted { st: MState, out: Seq<u8>, used: int },
    /// The fuel ran out first: the run is still going.
    Running { st: MState, out: Seq<u8>, used: int },
    /// The run stopped at this terminal error, in this state.
    Failed { st: MState, out: Seq<u8>, used: int, e: EngineError },
}

/// The big-step semantics of the engine, by fuel: from state `st` of program
/// `src` under jump table `jt`, with `out` already emitted and `used` input
/// bytes of `inputs` already consumed, execute at most `fuel` further
/// instructions.  An input instruction past the end of `inputs` is the
/// input-exhausted error.
pub open spec fn exec_n(
    src: Seq<u8>,
    jt: Map<u64, u64>,
    inputs: Seq<u8>,
    st: MState,
    out: Seq<u8>,
    used: int,
    fuel: nat,
) -> ExecOutcome
    decreases fuel,
{
    if st.pc >= src.len() {
        ExecOutcome::Halted { st, out, used }
    } else if fuel == 0 {
        ExecOutcome::Running { st, out, used }
    } else {
        let input = if 0 <= used < inputs.len() {
            Some(inputs[used])
        } else {
            None::<u8>
        };
        match spec_step(src, jt, st, input) {
            StepSpec::Halt => ExecOutcome::Halted { st, out, used },
            StepSpec::NeedIn => ExecOutcome::Failed {
                st,
                out,
                used,
                e: EngineError::InputExhausted { position: st.pc as u64 },
            },
            StepSpec::Fail { e } => ExecOutcome::Failed { st, out, used, e },
            StepSpec::Next { st: st2, emit, used_input } => exec_n(
                src,
                jt,
                inputs,
                st2,
                match emit {
                    Some(v) => out.push(v),
                    None => out,
                },
                used + if used_input {
                    1int
                } else {
                    0int
                },
                (fuel - 1) as nat,
            ),
        }
    }
}

/// Fuel only matters until the run settles: a halted or failed outcome
/// stands under any larger fuel.
proof fn lemma_exec_n_settled(
    src: Seq<u8>,
    jt: Map<u64, u64>,
    inputs: Seq<u8>,
    st: MState,
    out: Seq<u8>,
    used: int,
    fuel: nat,
    more: nat,
)
    requires
        fuel <= more,
        !(exec_n(src, jt, inputs, st, out, used, fuel) matches ExecOutcome::Running { st: _, out: _, used: _ }),
    ensures
        exec_n(src, jt, inputs, st, out, used, more) == exec_n(
            src,
            jt,
            inputs,
            st,
            out,
            used,
            fuel,
        ),
    decreases fuel,
{
    if st.pc >= src.len() {
    } else {
        let input = if 0 <= used < inputs.len() {
            Some(inputs[used])
        } else {
            None::<u8>
        };
        match spec_step(src, jt, st, input) {
            StepSpec::Next { st: st2, emit, used_input } => {
                lemma_exec_n_settled(
                    src,
                    jt,
                    inputs,
                    st2,
                    match emit {
                        Some(v) => out.push(v),
                        None => out,
                    },
                    used + if used_input {
                        1int
                    } else {
                        0int
                    },
                    (fuel - 1) as nat,
                    (more - 1) as nat,
                );
            },
            _ => {},
        }
    }
}

/// Granting one more unit of fuel to a still-running run executes exactly
/// one more instruction.
proof fn lemma_exec_n_extend(
    src: Seq<u8>,
    jt: Map<u64, u64>,
    inputs: Seq<u8>,
    st: MState,
    out: Seq<u8>,
    used: int,
    fuel: nat,
    t: MState,
    o: Seq<u8>,
    u: int,
)
    requires
        exec_n(src, jt, inputs, st, out, used, fuel) == (ExecOutcome::Running {
            st: t,
            out: o,
            used: u,
        }),
    ensures
        exec_n(src, jt, inputs, st, out, used, (fuel + 1) as nat) == exec_n(
            src,
            jt,
            inputs,
            t,
            o,
            u,
            1,
        ),
    decreases fuel,
{
    if st.pc >= src.len() {
    } else if fuel == 0 {
    } else {
        let input = if 0 <= used < inputs.len() {
            Some(inputs[used])
        } else {
            None::<u8>
        };
        match spec_step(src, jt, st, input) {
            StepSpec::Next { st: st2, emit, used_input } => {
                lemma_exec_n_extend(
                    src,
                    jt,
                    inputs,
                    st2,
                    match emit {
                        Some(v) => out.push(v),
                        None => out,
                    },
                    used + if used_input {
                        1int
                    } else {
                        0int
                    },
                    (fuel - 1) as nat,
                    t,
                    o,
                    u,
                );
            },
            _ => {},
        }
    }
}

/// Possible results of a bounded run that hit no error.
#[derive(Clone, Debug, PartialEq, Eq)]
pub enum RunOutcome {
    /// The run completed within the step budget, emitting these bytes.
    Completed { output: Vec<u8> },
    /// The step budget ran out first; these bytes were emitted so far.
    StillRunning { output: Vec<u8> },
}

impl Interpreter {
    /// Build the jump table, then execute at most `max_steps` instructions
    /// from the current state, drawing input bytes from `inputs` in order
    /// and collecting every emitted byte.  The result is exactly what the
    /// big-step semantics says for that fuel.  The budget belongs to the
    /// caller: the engine itself has no step guard, and a program whose
    /// program counter never leaves the program simply never completes,
    /// however much fuel it is granted.
    pub fn run_steps(&mut self, inputs: &Vec<u8>, max_steps: u64) -> (r: Result<
        RunOutcome,
        EngineError,
    >)
        requires
            old(self).wf(),
        ensures
            final(self).wf(),
            final(self).program() == old(self).program(),
            match build_jump_table(old(self).program()) {
                Err(e0) => r == Err::<RunOutcome, EngineError>(e0) && final(self).mstate() == old(self).mstate() && final(self).table() == old(self).table(),
                Ok(t) => final(self).table() == t && (match exec_n(
                    old(self).program(),
                    t,
                    inputs@,
                    old(self).mstate(),
                    Seq::empty(),
                    0,
                    max_steps as nat,
                ) {
                    ExecOutcome::Halted { st, out, used } => (r matches Ok(
                        RunOutcome::Completed { output },
                    ) && output@ == out) && final(self).mstate() == st,
                    ExecOutcome::Running { st, out, used } => (r matches Ok(
                        RunOutcome::StillRunning { output },
                    ) && output@ == out) && final(self).mstate() == st,
                    ExecOutcome::Failed { st, out, used, e } => r == Err::<RunOutcome, EngineError>(
                        e,
                    ) && final(self).mstate() == st,
                }),
            },
    {
        match self.record_condition_location() {
            Err(e) => {
                return Err(e);
            },
            Ok(()) => {},
        }
        let ghost t = self.table();
        let ghost s0 = self.mstate();
        let ghost prog = self.program();
        let mut out: Vec<u8> = Vec::new();
        let mut used: usize = 0;
        let mut steps: u64 = 0;
        while steps < max_steps && self.pc < self.source.len() as u64
            invariant
                self.wf(),
                prog == old(self).program(),
                s0 == old(self).mstate(),
                self.program() == prog,
                self.table() == t,
                build_jump_table(prog) == Ok::<Map<u64, u64>, EngineError>(t),
                steps <= max_steps,
                used <= inputs@.len(),
                exec_n(prog, t, inputs@, s0, Seq::empty(), 0, steps as nat) == (if self.mstate().pc
                    >= prog.len() {
                    ExecOutcome::Halted { st: self.mstate(), out: out@, used: used as int }
                } else {
                    ExecOutcome::Running { st: self.mstate(), out: out@, used: used as int }
                }),
            decreases max_steps - steps,
        {
            let input_opt: Option<u8> = if used < inputs.len() {
                Some(inputs[used])
            } else {
                None
            };
            let ghost pre = self.mstate();
            let ghost out0 = out@;
            let ghost used0 = used as int;
            let res = self.step_io(input_opt);
            proof {
                lemma_exec_n_extend(
                    prog,
                    t,
                    inputs@,
                    s0,
                    Seq::empty(),
                    0,
                    steps as nat,
                    pre,
                    out0,
                    used0,
                );
                assert((if 0 <= used0 < inputs@.len() {
                    Some(inputs@[used0])
                } else {
                    None::<u8>
                }) == input_opt);
                match spec_step(prog, t, pre, input_opt) {
                    StepSpec::Next { st: st2, emit, used_input } => {
                        let out1 = match emit {
                            Some(v) => out0.push(v),
                            None => out0,
                        };
                        let used1 = used0 + if used_input {
                            1int
                        } else {
                            0int
                        };
                        assert(exec_n(prog, t, inputs@, pre, out0, used0, 1) == exec_n(
                            prog,
                            t,
                            inputs@,
                            st2,
                            out1,
                            used1,
                            0,
                        ));
                        assert(exec_n(prog, t, inputs@, st2, out1, used1, 0) == (if st2.pc
                            >= prog.len() {
                            ExecOutcome::Halted { st: st2, out: out1, used: used1 }
                        } else {
                            ExecOutcome::Running { st: st2, out: out1, used: used1 }
                        }));
                    },
                    _ => {},
                }
            }
            match res {
                Err(e) => {
                    proof {
                        assert(exec_n(prog, t, inputs@, s0, Seq::empty(), 0, (steps + 1) as nat)
                            == (ExecOutcome::Failed { st: pre, out: out0, used: used0, e }));
                        lemma_exec_n_settled(
                            prog,
                            t,
                            inputs@,
                            s0,
                            Seq::empty(),
                            0,
                            (steps + 1) as nat,
                            max_steps as nat,
                        );
                    }
                    return Err(e);
                },
                Ok(StepOut::NeedInput) => {
                    let e = EngineError::InputExhausted { position: self.pc };
                    proof {
                        assert(exec_n(prog, t, inputs@, s0, Seq::empty(), 0, (steps + 1) as nat)
                            == (ExecOutcome::Failed { st: pre, out: out0, used: used0, e }));
                        lemma_exec_n_settled(
                            prog,
                            t,
                            inputs@,
                            s0,
                            Seq::empty(),
                            0,
                            (steps + 1) as nat,
                            max_steps as nat,
                        );
                    }
                    return Err(e);
                },
                Ok(StepOut::Emitted(v)) => {
                    out.push(v);
                },
                Ok(StepOut::ConsumedInput) => {
                    used = used + 1;
                },
                Ok(StepOut::Stepped) => {},
            }
            steps = steps + 1;
        }
        let done = self.pc >= self.source.len() as u64;
        proof {
            if done {
                lemma_exec_n_settled(
                    prog,
                    t,
                    inputs@,
                    s0,
                    Seq::empty(),
                    0,
                    steps as nat,
                    max_steps as nat,
                );
            }
        }
        if done {
            Ok(RunOutcome::Completed { output: out })
        } else {
            Ok(RunOutcome::StillRunning { output: out })
        }
    }
}

/// LAW: once the jump-table construction has accepted a program, a step of
/// the engine can no longer fail on it: from any state inside the program,
/// the small-step semantics is an ordinary move or a wait for input — never
/// a decode failure and never a missed or out-of-range table lookup.  Of
/// the whole error taxonomy, only input exhaustion remains possible during
/// such a run.
pub proof fn lemma_accepted_program_never_step_fails(
    src: Seq<u8>,
    t: Map<u64, u64>,
    st: MState,
    input: Option<u8>,
)
    requires
        src.len() <= u64::MAX,
        build_jump_table(src) == Ok::<Map<u64, u64>, EngineError>(t),
        0 <= st.pc < src.len(),
    ensures
        !(spec_step(src, t, st, input) matches StepSpec::Fail { e: _ }),
{
    crate::jump::lemma_accepted_build_wf(src);
    assert(crate::jump::all_instructions(src));
    assert(decode(src[st.pc]) is Some);
    let op = decode(src[st.pc])->0;
    if op == Operator::JumpRight || op == Operator::JumpLeft {
        assert(t.contains_key(st.pc as u64));
        assert(crate::jump::table_entry_ok(src, t, st.pc as u64));
        assert(t[st.pc as u64] < src.len());
    }
}

/// The canonical program that never terminates: set the cell to one, then
/// loop on it forever.
pub open spec fn spin_program() -> Seq<u8> {
    seq![43u8, 91u8, 93u8]
}

/// The state the spin program settles into: the close bracket jumping back
/// to itself over a cell pinned at one.
spec fn spin_state() -> MState {
    MState { pc: 2, ptr: 0, tape: init_tape().update(0, 1u8) }
}

/// The jump table of the spin program pairs its one bracket pair.
proof fn lemma_spin_table()
    ensures
        build_jump_table(spin_program()) == Ok::<Map<u64, u64>, EngineError>(
            Map::<u64, u64>::empty().insert(1u64, 2u64).insert(2u64, 1u64),
        ),
{
    let src = spin_program();
    let t = Map::<u64, u64>::empty().insert(1u64, 2u64).insert(2u64, 1u64);
    let stack1 = Seq::<u64>::empty().push(1u64);
    assert(src.len() == 3);
    assert(decode(src[0]) == Some(Operator::Increase));
    assert(decode(src[1]) == Some(Operator::JumpRight));
    assert(decode(src[2]) == Some(Operator::JumpLeft));
    assert(jump_scan(src, 0, Seq::empty(), Map::empty()) == jump_scan(
        src,
        1,
        Seq::empty(),
        Map::empty(),
    ));
    assert(jump_scan(src, 1, Seq::empty(), Map::empty()) == jump_scan(src, 2, stack1, Map::empty()));
    assert(stack1.last() == 1u64);
    assert(jump_scan(src, 2, stack1, Map::empty()) == jump_scan(src, 3, stack1.drop_last(), t));
    assert(stack1.drop_last() =~= Seq::<u64>::empty());
    assert(jump_scan(src, 3, Seq::empty(), t) == Ok::<Map<u64, u64>, EngineError>(t));
}

/// Once the spin program reaches its loop state it stays there: whatever
/// the fuel, the run is still running, nothing more emitted or consumed.
proof fn lemma_spin_state_spins(inputs: Seq<u8>, out: Seq<u8>, used: int, fuel: nat)
    ensures
        exec_n(
            spin_program(),
            Map::<u64, u64>::empty().insert(1u64, 2u64).insert(2u64, 1u64),
            inputs,
            spin_state(),
            out,
            used,
            fuel,
        ) == (ExecOutcome::Running { st: spin_state(), out, used }),
    decreases fuel,
{
    let src = spin_program();
    let t = Map::<u64, u64>::empty().insert(1u64, 2u64).insert(2u64, 1u64);
    let s2 = spin_state();
    assert(src.len() == 3);
    assert(decode(src[2]) == Some(Operator::JumpLeft));
    assert(s2.tape[0] == 1u8);
    if fuel > 0 {
        let input = if 0 <= used < inputs.len() {
            Some(inputs[used])
        } else {
            None::<u8>
        };
        assert(t.contains_key(2u64) && t[2u64] == 1u64);
        assert(spec_step(src, t, s2, input) == (StepSpec::Next {
            st: s2,
            emit: None::<u8>,
            used_input: false,
        }));
        lemma_spin_state_spins(inputs, out, used, (fuel - 1) as nat);
    }
}

/// LAW: an infinite loop never reaches the terminal program-counter
/// condition.  Shown for the canonical spin program: under the jump table
/// its own construction yields, however much fuel a run from the fresh
/// state is granted and whatever input it is offered, the big-step
/// semantics still reports it running — never halted, never failed.
pub proof fn lemma_spin_program_never_completes(inputs: Seq<u8>, fuel: nat)
    ensures
        build_jump_table(spin_program()) matches Ok(t) && (exec_n(
            spin_program(),
            t,
            inputs,
            init_mstate(),
            Seq::empty(),
            0,
            fuel,
        ) matches ExecOutcome::Running { st: _, out: _, used: _ }),
{
    lemma_spin_table();
    let src = spin_program();
    let t = Map::<u64, u64>::empty().insert(1u64, 2u64).insert(2u64, 1u64);
    let s0 = init_mstate();
    let s1 = MState { pc: 1, ptr: 0, tape: init_tape().update(0, 1u8) };
    let s2 = spin_state();
    assert(src.len() == 3);
    assert(decode(src[0]) == Some(Operator::Increase));
    assert(decode(src[1]) == Some(Operator::JumpRight));
    assert(s0.tape[0] == 0u8);
    assert(s1.tape[0] == 1u8);
    if fuel == 0 {
        assert(exec_n(src, t, inputs, s0, Seq::empty(), 0, fuel) == (ExecOutcome::Running {
            st: s0,
            out: Seq::<u8>::empty(),
            used: 0int,
        }));
    } else {
        let input0 = if 0 <= 0int < inputs.len() {
            Some(inputs[0])
        } else {
            None::<u8>
        };
        assert(spec_step(src, t, s0, input0) == (StepSpec::Next {
            st: s1,
            emit: None::<u8>,
            used_input: false,
        }));
        assert(exec_n(src, t, inputs, s0, Seq::empty(), 0, fuel) == exec_n(
            src,
            t,
            inputs,
            s1,
            Seq::empty(),
            0,
            (fuel - 1) as nat,
        ));
        if fuel == 1 {
            assert(exec_n(src, t, inputs, s1, Seq::empty(), 0, 0) == (ExecOutcome::Running {
                st: s1,
                out: Seq::<u8>::empty(),
                used: 0int,
            }));
        } else {
            assert(spec_step(src, t, s1, input0) == (StepSpec::Next {
                st: s2,
                emit: None::<u8>,
                used_input: false,
            }));
            assert(exec_n(src, t, inputs, s1, Seq::empty(), 0, (fuel - 1) as nat) == exec_n(
                src,
                t,
                inputs,
                s2,
                Seq::empty(),
                0,
                (fuel - 2) as nat,
            ));
            lemma_spin_state_spins(inputs, Seq::empty(), 0int, (fuel - 2) as nat);
        }
    }
}

} // verus!

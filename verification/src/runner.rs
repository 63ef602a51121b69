//! Running of programs.
//!
//! The execution engine interprets an instruction sequence against a single
//! growable byte tape, a data pointer and an instruction pointer, consuming
//! bytes from an input slice and appending bytes to an output vector. Its
//! behaviour is specified by a small-step abstract machine: [`machine_step`]
//! gives the effect of one instruction, [`run_steps`] iterates it, and the
//! contract of [`Runner::run`] says that the concrete engine reaches exactly
//! the status the abstract machine reaches.

use vstd::prelude::*;
use crate::parser::Instruction;
use crate::parser::Instructions;
use crate::parser::resolves;

verus! {

/// Runtime errors: the data pointer would leave its valid range. These
/// abort the run immediately; there is no recovery.
#[derive(Clone, Copy, Debug, PartialEq, Eq, Structural)]
pub enum RunError {
    /// The data pointer is at the maximum representable index and cannot
    /// move further right.
    PointerOverflow,
    /// The data pointer is at cell zero and cannot move further left.
    PointerUnderflow,
}

impl RunError {
    /// The human-readable message of this error.
    pub open spec fn spec_message(self) -> Seq<char> {
        match self {
            RunError::PointerOverflow => "cannot increment the data pointer because it is MAX"@,
            RunError::PointerUnderflow => "cannot decrement the data pointer because it is 0"@,
        }
    }

    /// Renders this error as its human-readable message.
    pub fn message(&self) -> (s: String)
        ensures
            s@ == self.spec_message(),
    {
        match *self {
            RunError::PointerOverflow => "cannot increment the data pointer because it is MAX".to_owned(),
            RunError::PointerUnderflow => "cannot decrement the data pointer because it is 0".to_owned(),
        }
    }
}

/// The full state of the abstract machine: the tape cells grown so far, the
/// data pointer, the instruction pointer, the number of input bytes
/// consumed so far, and everything standing in the output stream.
pub ghost struct MachineState {
    pub tape: Seq<u8>,
    pub dp: nat,
    pub ip: nat,
    pub in_pos: nat,
    pub out: Seq<u8>,
}

/// Where a run stands: still running, finished because the instruction
/// pointer passed the end, or aborted by a runtime error. A finished or
/// failed status keeps the machine state it was reached with.
pub ghost enum Status {
    Running(MachineState),
    Halted(MachineState),
    Failed(MachineState, RunError),
}

/// The machine state a status carries.
pub open spec fn status_state(st: Status) -> MachineState {
    match st {
        Status::Running(s) => s,
        Status::Halted(s) => s,
        Status::Failed(s, _) => s,
    }
}

/// The tape grown so that the cell at `dp` exists: cells past the end are
/// zero-filled, existing cells are never touched, and the tape never
/// shrinks.
pub open spec fn grown(tape: Seq<u8>, dp: nat) -> Seq<u8> {
    if dp < tape.len() {
        tape
    } else {
        tape + Seq::new((dp + 1 - tape.len()) as nat, |i: int| 0u8)
    }
}

/// The value of the cell at `dp`: zero if the tape has not grown that far.
pub open spec fn cell(tape: Seq<u8>, dp: nat) -> u8 {
    if dp < tape.len() {
        tape[dp as int]
    } else {
        0
    }
}

/// One increment with wrap-around at modulo 256.
pub open spec fn inc_cell(c: u8) -> u8 {
    if c == 255 {
        0
    } else {
        (c + 1) as u8
    }
}

/// One decrement with wrap-around at modulo 256.
pub open spec fn dec_cell(c: u8) -> u8 {
    if c == 0 {
        255
    } else {
        (c - 1) as u8
    }
}

/// Every loop target in the program leaves room for the step to the
/// following instruction. Resolved programs always satisfy this (see
/// [`lemma_resolved_targets_fit`]).
pub open spec fn targets_fit(prog: Seq<Instruction>) -> bool {
    forall|i: int|
        0 <= i < prog.len() ==> match #[trigger] prog[i] {
            Instruction::LoopStart(t) => t < usize::MAX,
            Instruction::LoopEnd(t) => t < usize::MAX,
            _ => true,
        }
}

/// The effect of the one instruction at `s.ip`, for `s.ip` within the
/// program:
/// - `Next`/`Prev` move the data pointer, failing at the ends of its range;
/// - `Inc`/`Dec` replace the current cell with its wrap-around successor or
///   predecessor;
/// - `Read` stores the next input byte and consumes it; at end of input the
///   cell and the tape are left unchanged (this is a policy choice, not an
///   error);
/// - `Write` appends the current cell to the output;
/// - `LoopStart(t)` jumps past `t` when the current cell is zero;
/// - `LoopEnd(t)` jumps past `t` when the current cell is not zero.
///
/// Every access to the current cell first grows the tape to make it exist.
pub open spec fn machine_step(prog: Seq<Instruction>, input: Seq<u8>, s: MachineState) -> Status
    recommends
        s.ip < prog.len(),
{
    match prog[s.ip as int] {
        Instruction::Next => if s.dp + 1 > usize::MAX {
            Status::Failed(s, RunError::PointerOverflow)
        } else {
            Status::Running(MachineState { dp: s.dp + 1, ip: s.ip + 1, ..s })
        },
        Instruction::Prev => if s.dp == 0 {
            Status::Failed(s, RunError::PointerUnderflow)
        } else {
            Status::Running(MachineState { dp: (s.dp - 1) as nat, ip: s.ip + 1, ..s })
        },
        Instruction::Inc => Status::Running(
            MachineState {
                tape: grown(s.tape, s.dp).update(s.dp as int, inc_cell(cell(s.tape, s.dp))),
                ip: s.ip + 1,
                ..s
            },
        ),
        Instruction::Dec => Status::Running(
            MachineState {
                tape: grown(s.tape, s.dp).update(s.dp as int, dec_cell(cell(s.tape, s.dp))),
                ip: s.ip + 1,
                ..s
            },
        ),
        Instruction::Read => if s.in_pos < input.len() {
            Status::Running(
                MachineState {
                    tape: grown(s.tape, s.dp).update(s.dp as int, input[s.in_pos as int]),
                    in_pos: s.in_pos + 1,
                    ip: s.ip + 1,
                    ..s
                },
            )
        } else {
            Status::Running(MachineState { ip: s.ip + 1, ..s })
        },
        Instruction::Write => Status::Running(
            MachineState {
                tape: grown(s.tape, s.dp),
                out: s.out.push(cell(s.tape, s.dp)),
                ip: s.ip + 1,
                ..s
            },
        ),
        Instruction::LoopStart(t) => Status::Running(
            MachineState {
                tape: grown(s.tape, s.dp),
                ip: if cell(s.tape, s.dp) == 0 {
                    (t + 1) as nat
                } else {
                    s.ip + 1
                },
                ..s
            },
        ),
        Instruction::LoopEnd(t) => Status::Running(
            MachineState {
                tape: grown(s.tape, s.dp),
                ip: if cell(s.tape, s.dp) != 0 {
                    (t + 1) as nat
                } else {
                    s.ip + 1
                },
                ..s
            },
        ),
    }
}

/// Drives a status forward by one tick: a running machine halts once its
/// instruction pointer passes the end, otherwise it executes one
/// instruction; a halted or failed status stays as it is.
pub open spec fn machine_tick(prog: Seq<Instruction>, input: Seq<u8>, st: Status) -> Status {
    match st {
        Status::Running(s) => if s.ip >= prog.len() {
            Status::Halted(s)
        } else {
            machine_step(prog, input, s)
        },
        _ => st,
    }
}

/// The status after `n` ticks from `st`.
pub open spec fn run_steps(prog: Seq<Instruction>, input: Seq<u8>, st: Status, n: nat) -> Status
    decreases n,
{
    if n == 0 {
        st
    } else {
        machine_tick(prog, input, run_steps(prog, input, st, (n - 1) as nat))
    }
}

/// The machine at the start of a run: empty tape, both pointers at zero, no
/// input consumed, and the output stream already holding `out`.
pub open spec fn start_state(out: Seq<u8>) -> MachineState {
    MachineState { tape: Seq::empty(), dp: 0, ip: 0, in_pos: 0, out }
}

/// The run from the start state reaches a halted or failed status in some
/// number of ticks. The engine itself imposes no step limit — a program
/// whose loops never finish simply keeps it from returning — but only runs
/// that do finish can be stated to return at all, so the contract of
/// [`Runner::run`] records this as a precondition.
pub open spec fn run_finishes(prog: Seq<Instruction>, input: Seq<u8>, out0: Seq<u8>) -> bool {
    exists|n: nat| !((#[trigger] run_steps(prog, input, Status::Running(start_state(out0)), n)) is Running)
}

/// Ticks compose: running `a + b` ticks is running `a` ticks and then `b`.
pub proof fn lemma_run_steps_add(
    prog: Seq<Instruction>,
    input: Seq<u8>,
    st: Status,
    a: nat,
    b: nat,
)
    ensures
        run_steps(prog, input, st, a + b) == run_steps(
            prog,
            input,
            run_steps(prog, input, st, a),
            b,
        ),
    decreases b,
{
    if b > 0 {
        lemma_run_steps_add(prog, input, st, a, (b - 1) as nat);
    }
}

/// A halted or failed status never changes again.
pub proof fn lemma_terminal_stays(prog: Seq<Instruction>, input: Seq<u8>, st: Status, n: nat)
    requires
        !(st is Running),
    ensures
        run_steps(prog, input, st, n) == st,
    decreases n,
{
    if n > 0 {
        lemma_terminal_stays(prog, input, st, (n - 1) as nat);
    }
}

/// Law: the machine is deterministic — any two tick counts that finish a
/// run from the same start agree on the final status, so the outcome of
/// [`Runner::run`] is unique.
pub proof fn lemma_run_deterministic(
    prog: Seq<Instruction>,
    input: Seq<u8>,
    st: Status,
    n1: nat,
    n2: nat,
)
    requires
        !(run_steps(prog, input, st, n1) is Running),
        !(run_steps(prog, input, st, n2) is Running),
    ensures
        run_steps(prog, input, st, n1) == run_steps(prog, input, st, n2),
{
    if n1 <= n2 {
        lemma_run_steps_add(prog, input, st, n1, (n2 - n1) as nat);
        lemma_terminal_stays(
            prog,
            input,
            run_steps(prog, input, st, n1),
            (n2 - n1) as nat,
        );
    } else {
        lemma_run_steps_add(prog, input, st, n2, (n1 - n2) as nat);
        lemma_terminal_stays(
            prog,
            input,
            run_steps(prog, input, st, n2),
            (n1 - n2) as nat,
        );
    }
}

/// Law: a run only ever appends to the output stream — whatever stood in
/// it at the start is still its prefix at every later point.
pub proof fn lemma_run_steps_output_extends(
    prog: Seq<Instruction>,
    input: Seq<u8>,
    st: Status,
    n: nat,
)
    ensures
        status_state(st).out.is_prefix_of(status_state(run_steps(prog, input, st, n)).out),
    decreases n,
{
    if n > 0 {
        lemma_run_steps_output_extends(prog, input, st, (n - 1) as nat);
        let prev = run_steps(prog, input, st, (n - 1) as nat);
        let cur = run_steps(prog, input, st, n);
        assert(status_state(prev).out.is_prefix_of(status_state(cur).out));
    }
}

/// Law: a program in which every loop bracket points at its partner keeps
/// all loop targets inside the program, so it always leaves room for the
/// step past a jump target.
pub proof fn lemma_resolved_targets_fit(t: Seq<crate::lexer::Token>, ins: Seq<Instruction>)
    requires
        resolves(t, ins),
        t.len() <= usize::MAX,
    ensures
        targets_fit(ins),
{
    assert forall|i: int| 0 <= i < ins.len() implies match #[trigger] ins[i] {
        Instruction::LoopStart(t0) => t0 < usize::MAX,
        Instruction::LoopEnd(t0) => t0 < usize::MAX,
        _ => true,
    } by {
        assert(crate::parser::resolves_at(t, ins, i));
    }
}

/// Applying the wrap-around increment `n` times.
pub open spec fn iter_inc(c: u8, n: nat) -> u8
    decreases n,
{
    if n == 0 {
        c
    } else {
        inc_cell(iter_inc(c, (n - 1) as nat))
    }
}

proof fn lemma_iter_inc_mod(c: u8, n: nat)
    ensures
        iter_inc(c, n) == ((c + n) % 256) as u8,
    decreases n,
{
    if n > 0 {
        lemma_iter_inc_mod(c, (n - 1) as nat);
    }
}

/// Law: the engine's increment applied 256 times to a cell returns it to
/// its original value — wrap-around at modulo 256 is idempotent over a
/// full cycle.
pub proof fn lemma_increment_wraps_around(c: u8)
    ensures
        iter_inc(c, 256) == c,
{
    lemma_iter_inc_mod(c, 256);
}

/// Law: the engine's decrement is the exact inverse of its increment.
pub proof fn lemma_decrement_inverts_increment(c: u8)
    ensures
        dec_cell(inc_cell(c)) == c,
        inc_cell(dec_cell(c)) == c,
{
}

/// A runner of programs.
pub struct Runner {
    /// Program to be run.
    prog: Instructions,
    /// A potentially infinite number of data cells.
    data: Vec<u8>,
    /// Instruction pointer (index).
    ip: usize,
    /// Data-cell pointer (index).
    dp: usize,
}

impl Default for Runner {
    /// A fresh runner: no program, an empty tape, both pointers at zero.
    fn default() -> (r: Self)
        ensures
            r.prog_view() == Seq::<Instruction>::empty(),
            r.tape_view() == Seq::<u8>::empty(),
            r.ip_view() == 0,
            r.dp_view() == 0,
    {
        Runner { prog: Vec::new(), data: Vec::new(), ip: 0, dp: 0 }
    }
}

impl Runner {
    /// The program held by this runner.
    pub closed spec fn prog_view(&self) -> Seq<Instruction> {
        self.prog@
    }

    /// The tape cells grown so far.
    pub closed spec fn tape_view(&self) -> Seq<u8> {
        self.data@
    }

    /// The instruction pointer.
    pub closed spec fn ip_view(&self) -> nat {
        self.ip as nat
    }

    /// The data pointer.
    pub closed spec fn dp_view(&self) -> nat {
        self.dp as nat
    }

    /// The abstract machine state this runner stands at, given how much
    /// input was consumed and what stands in the output stream.
    spec fn mstate(&self, in_pos: nat, out: Seq<u8>) -> MachineState {
        MachineState {
            tape: self.data@,
            dp: self.dp as nat,
            ip: self.ip as nat,
            in_pos,
            out,
        }
    }

    /// Constructs a new runner.
    pub fn new() -> (r: Self)
        ensures
            r.prog_view() == Seq::<Instruction>::empty(),
            r.tape_view() == Seq::<u8>::empty(),
            r.ip_view() == 0,
            r.dp_view() == 0,
    {
        Runner::default()
    }

    /// Runs the given program.
    ///
    /// The runner's state is fully reset first, so one runner can be reused
    /// across programs. The result and the bytes appended to `output` are
    /// exactly those of the abstract machine run from the start state: on
    /// `Ok` the machine halted with its instruction pointer past the end,
    /// on `Err` it failed with the returned error, and in both cases the
    /// runner is left in the machine's final state.
    ///
    /// The engine imposes no step limit: a program whose loops never
    /// finish keeps this function from returning at all. Since every
    /// verified loop must be shown to terminate, the contract records as
    /// the precondition [`run_finishes`] that this run does; the compiled
    /// code behaves the same either way.
    ///
    /// # Arguments
    ///
    /// * `prog` - Program to be run.
    /// * `input` - Input bytes for the program, consumed left to right.
    /// * `output` - Output of the program; written bytes are appended.
    pub fn run(&mut self, prog: Instructions, input: &[u8], output: &mut Vec<u8>) -> (r: Result<
        (),
        RunError,
    >)
        requires
            targets_fit(prog@),
            run_finishes(prog@, input@, old(output)@),
        ensures
            final(self).prog_view() == prog@,
            old(output)@.is_prefix_of(final(output)@),
            match r {
                Ok(()) => exists|n: nat|
                    (#[trigger] run_steps(
                        prog@,
                        input@,
                        Status::Running(start_state(old(output)@)),
                        n,
                    )) matches Status::Halted(s) && s.tape == final(self).tape_view() && s.dp
                        == final(self).dp_view() && s.ip == final(self).ip_view() && s.out == final(output)@,
                Err(e) => exists|n: nat|
                    (#[trigger] run_steps(
                        prog@,
                        input@,
                        Status::Running(start_state(old(output)@)),
                        n,
                    )) matches Status::Failed(s, e2) && e2 == e && s.tape == final(self).tape_view() && s.dp == final(self).dp_view() && s.ip == final(self).ip_view()
                        && s.out == final(output)@,
            },
    {
        self.prog = prog;
        self.data.clear();
        self.ip = 0;
        self.dp = 0;
        let mut in_pos: usize = 0;

        let ghost st0 = Status::Running(start_state(output@));
        let ghost base_out = output@;
        let ghost mut steps: nat = 0;
        let ghost total: nat = choose|n: nat|
            !((#[trigger] run_steps(prog@, input@, st0, n)) is Running);

        while !self.is_prog_end()
            invariant
                targets_fit(self.prog@),
                self.prog@ == prog@,
                in_pos <= input@.len(),
                base_out == old(output)@,
                base_out.is_prefix_of(output@),
                st0 == Status::Running(start_state(base_out)),
                !(run_steps(prog@, input@, st0, total) is Running),
                steps <= total,
                run_steps(prog@, input@, st0, steps) == Status::Running(
                    self.mstate(in_pos as nat, output@),
                ),
            decreases total - steps,
        {
            let ghost pre = self.mstate(in_pos as nat, output@);
            proof {
                if steps >= total {
                    lemma_run_steps_add(prog@, input@, st0, total, (steps - total) as nat);
                    lemma_terminal_stays(
                        prog@,
                        input@,
                        run_steps(prog@, input@, st0, total),
                        (steps - total) as nat,
                    );
                }
                assert(steps < total);
            }
            match self.run_instruction(input, &mut in_pos, output) {
                Ok(()) => {
                    proof {
                        steps = steps + 1;
                        assert(run_steps(prog@, input@, st0, steps) == machine_tick(
                            prog@,
                            input@,
                            Status::Running(pre),
                        ));
                    }
                },
                Err(e) => {
                    proof {
                        steps = steps + 1;
                        assert(run_steps(prog@, input@, st0, steps) == machine_tick(
                            prog@,
                            input@,
                            Status::Running(pre),
                        ));
                        assert(base_out == old(output)@);
                        assert(run_steps(
                            prog@,
                            input@,
                            Status::Running(start_state(old(output)@)),
                            steps,
                        ) == Status::Failed(pre, e));
                        assert(pre.out == output@);
                        assert(old(output)@.is_prefix_of(output@));
                    }
                    return Err(e);
                },
            }
        }
        proof {
            let cur = self.mstate(in_pos as nat, output@);
            steps = steps + 1;
            assert(run_steps(prog@, input@, st0, steps) == machine_tick(
                prog@,
                input@,
                Status::Running(cur),
            ));
            assert(base_out == old(output)@);
            assert(run_steps(prog@, input@, Status::Running(start_state(old(output)@)), steps)
                == Status::Halted(cur));
            assert(cur.out == output@);
            assert(old(output)@.is_prefix_of(output@));
        }
        Ok(())
    }

    fn is_prog_end(&self) -> (r: bool)
        ensures
            r == (self.ip >= self.prog@.len()),
    {
        self.ip >= self.prog.len()
    }

    fn run_instruction(&mut self, input: &[u8], in_pos: &mut usize, output: &mut Vec<u8>) -> (r:
        Result<(), RunError>)
        requires
            old(self).ip < old(self).prog@.len(),
            targets_fit(old(self).prog@),
            *old(in_pos) <= input@.len(),
        ensures
            final(self).prog == old(self).prog,
            *final(in_pos) <= input@.len(),
            match r {
                Ok(()) => machine_step(
                    old(self).prog@,
                    input@,
                    old(self).mstate(*old(in_pos) as nat, old(output)@),
                ) == Status::Running(final(self).mstate(*final(in_pos) as nat, final(output)@)),
                Err(e) => {
                    &&& machine_step(
                        old(self).prog@,
                        input@,
                        old(self).mstate(*old(in_pos) as nat, old(output)@),
                    ) == Status::Failed(old(self).mstate(*old(in_pos) as nat, old(output)@), e)
                    &&& *final(self) == *old(self)
                    &&& *final(in_pos) == *old(in_pos)
                    &&& final(output)@ == old(output)@
                },
            },
    {
        let ghost p0 = old(self).prog@;
        let ghost i0 = old(self).ip as int;
        proof {
            // A vector's length fits in usize, so stepping past a
            // non-jump instruction cannot overflow the pointer.
            vstd::std_specs::vec::axiom_spec_len(&self.prog);
            assert(match p0[i0] {
                Instruction::LoopStart(t) => t < usize::MAX,
                Instruction::LoopEnd(t) => t < usize::MAX,
                _ => true,
            });
        }
        match self.prog[self.ip] {
            Instruction::Next => {
                self.ensure_can_increment_dp_by_one()?;
                self.dp += 1;
            },
            Instruction::Prev => {
                self.ensure_can_decrement_dp_by_one()?;
                self.dp -= 1;
            },
            Instruction::Inc => {
                let value = self.load_value();
                self.store_value(value.wrapping_add(1));
            },
            Instruction::Dec => {
                let value = self.load_value();
                self.store_value(value.wrapping_sub(1));
            },
            Instruction::Read => {
                self.read_value(input, in_pos);
            },
            Instruction::Write => {
                self.write_value(output);
            },
            Instruction::LoopStart(loop_end_ip) => {
                if self.is_current_cell_zero() {
                    self.ip = loop_end_ip;
                }
            },
            Instruction::LoopEnd(loop_start_ip) => {
                if !self.is_current_cell_zero() {
                    self.ip = loop_start_ip;
                }
            },
        }
        self.ip += 1;
        Ok(())
    }

    fn load_value(&mut self) -> (value: u8)
        ensures
            final(self).data@ == grown(old(self).data@, old(self).dp as nat),
            final(self).prog == old(self).prog,
            final(self).ip == old(self).ip,
            final(self).dp == old(self).dp,
            value == cell(old(self).data@, old(self).dp as nat),
    {
        self.ensure_current_cell_is_accessible();
        self.data[self.dp]
    }

    fn store_value(&mut self, value: u8)
        ensures
            final(self).data@ == grown(old(self).data@, old(self).dp as nat).update(
                old(self).dp as int,
                value,
            ),
            final(self).prog == old(self).prog,
            final(self).ip == old(self).ip,
            final(self).dp == old(self).dp,
    {
        self.ensure_current_cell_is_accessible();
        self.data[self.dp] = value;
    }

    /// Reads one byte from the input into the current cell and consumes
    /// it; at end of input the cell and the tape are left unchanged. There
    /// are multiple ways of dealing with end of input; leaving the current
    /// cell unchanged is this engine's deliberate policy.
    fn read_value(&mut self, input: &[u8], in_pos: &mut usize)
        requires
            *old(in_pos) <= input@.len(),
        ensures
            final(self).prog == old(self).prog,
            final(self).ip == old(self).ip,
            final(self).dp == old(self).dp,
            if *old(in_pos) < input@.len() {
                &&& final(self).data@ == grown(old(self).data@, old(self).dp as nat).update(
                    old(self).dp as int,
                    input@[*old(in_pos) as int],
                )
                &&& *final(in_pos) == *old(in_pos) + 1
            } else {
                &&& final(self).data@ == old(self).data@
                &&& *final(in_pos) == *old(in_pos)
            },
    {
        if *in_pos < input.len() {
            let b = input[*in_pos];
            *in_pos += 1;
            self.store_value(b);
        }
    }

    fn write_value(&mut self, output: &mut Vec<u8>)
        ensures
            final(self).data@ == grown(old(self).data@, old(self).dp as nat),
            final(self).prog == old(self).prog,
            final(self).ip == old(self).ip,
            final(self).dp == old(self).dp,
            final(output)@ == old(output)@.push(cell(old(self).data@, old(self).dp as nat)),
    {
        let value = self.load_value();
        output.push(value);
    }

    fn is_current_cell_zero(&mut self) -> (r: bool)
        ensures
            final(self).data@ == grown(old(self).data@, old(self).dp as nat),
            final(self).prog == old(self).prog,
            final(self).ip == old(self).ip,
            final(self).dp == old(self).dp,
            r == (cell(old(self).data@, old(self).dp as nat) == 0),
    {
        self.load_value() == 0
    }

    fn ensure_current_cell_is_accessible(&mut self)
        ensures
            final(self).data@ == grown(old(self).data@, old(self).dp as nat),
            final(self).prog == old(self).prog,
            final(self).ip == old(self).ip,
            final(self).dp == old(self).dp,
            old(self).dp < final(self).data@.len(),
    {
        let cell_count = self.data.len();
        if self.dp >= cell_count {
            while self.data.len() <= self.dp
                invariant
                    self.prog == old(self).prog,
                    self.ip == old(self).ip,
                    self.dp == old(self).dp,
                    old(self).data@.len() <= self.data@.len() <= old(self).dp + 1,
                    self.data@.subrange(0, old(self).data@.len() as int) == old(self).data@,
                    forall|k: int|
                        old(self).data@.len() <= k < self.data@.len() ==> self.data@[k] == 0,
                decreases old(self).dp + 1 - self.data@.len(),
            {
                self.data.push(0);
                proof {
                    assert(self.data@.subrange(0, old(self).data@.len() as int) =~= old(
                        self,
                    ).data@);
                }
            }
            proof {
                assert(self.data@ =~= grown(old(self).data@, old(self).dp as nat));
            }
        }
    }

    fn ensure_can_increment_dp_by_one(&self) -> (r: Result<(), RunError>)
        ensures
            match r {
                Ok(()) => self.dp < usize::MAX,
                Err(e) => e == RunError::PointerOverflow && self.dp == usize::MAX,
            },
    {
        if self.dp == usize::MAX {
            Err(RunError::PointerOverflow)
        } else {
            Ok(())
        }
    }

    fn ensure_can_decrement_dp_by_one(&self) -> (r: Result<(), RunError>)
        ensures
            match r {
                Ok(()) => self.dp > 0,
                Err(e) => e == RunError::PointerUnderflow && self.dp == 0,
            },
    {
        if self.dp == 0 {
            Err(RunError::PointerUnderflow)
        } else {
            Ok(())
        }
    }
}

/// Runs the given program on a fresh runner.
///
/// # Arguments
///
/// * `prog` - Program to be run.
/// * `input` - Input bytes for the program, consumed left to right.
/// * `output` - Output of the program; written bytes are appended.
pub fn run(prog: Instructions, input: &[u8], output: &mut Vec<u8>) -> (r: Result<(), RunError>)
    requires
        targets_fit(prog@),
        run_finishes(prog@, input@, old(output)@),
    ensures
        old(output)@.is_prefix_of(final(output)@),
        match r {
            Ok(()) => exists|n: nat|
                (#[trigger] run_steps(
                    prog@,
                    input@,
                    Status::Running(start_state(old(output)@)),
                    n,
                )) matches Status::Halted(s) && s.out == final(output)@,
            Err(e) => exists|n: nat|
                (#[trigger] run_steps(
                    prog@,
                    input@,
                    Status::Running(start_state(old(output)@)),
                    n,
                )) matches Status::Failed(s, e2) && e2 == e && s.out == final(output)@,
        },
{
    let mut runner = Runner::new();
    runner.run(prog, input, output)
}


/// The copy program: read one byte per cell in a loop, rewind, then write
/// each cell back in a loop. Cell zero stays zero, cell one holds a one so
/// the read loop is entered, and the input bytes land in the cells after
/// them.
pub open spec fn copy_program() -> Seq<Instruction> {
    seq![
        Instruction::Next,
        Instruction::Inc,
        Instruction::LoopStart(5),
        Instruction::Next,
        Instruction::Read,
        Instruction::LoopEnd(2),
        Instruction::Prev,
        Instruction::LoopStart(9),
        Instruction::Prev,
        Instruction::LoopEnd(7),
        Instruction::Next,
        Instruction::Next,
        Instruction::LoopStart(15),
        Instruction::Write,
        Instruction::Next,
        Instruction::LoopEnd(12),
    ]
}

/// The machine can step from `a` to `b` in some number of ticks.
spec fn reaches(prog: Seq<Instruction>, input: Seq<u8>, a: MachineState, b: MachineState) -> bool {
    exists|n: nat|
        (#[trigger] run_steps(prog, input, Status::Running(a), n)) == Status::Running(b)
}

proof fn lemma_reaches_refl(prog: Seq<Instruction>, input: Seq<u8>, a: MachineState)
    ensures
        reaches(prog, input, a, a),
{
    assert(run_steps(prog, input, Status::Running(a), 0) == Status::Running(a));
}

proof fn lemma_reaches_step(prog: Seq<Instruction>, input: Seq<u8>, a: MachineState, b: MachineState)
    requires
        machine_tick(prog, input, Status::Running(a)) == Status::Running(b),
    ensures
        reaches(prog, input, a, b),
{
    assert(run_steps(prog, input, Status::Running(a), 1) == machine_tick(
        prog,
        input,
        run_steps(prog, input, Status::Running(a), 0),
    ));
    assert(run_steps(prog, input, Status::Running(a), 1) == Status::Running(b));
}

proof fn lemma_reaches_trans(
    prog: Seq<Instruction>,
    input: Seq<u8>,
    a: MachineState,
    b: MachineState,
    c: MachineState,
)
    requires
        reaches(prog, input, a, b),
        reaches(prog, input, b, c),
    ensures
        reaches(prog, input, a, c),
{
    let n1 = choose|n: nat|
        (#[trigger] run_steps(prog, input, Status::Running(a), n)) == Status::Running(b);
    let n2 = choose|n: nat|
        (#[trigger] run_steps(prog, input, Status::Running(b), n)) == Status::Running(c);
    lemma_run_steps_add(prog, input, Status::Running(a), n1, n2);
    assert(run_steps(prog, input, Status::Running(a), n1 + n2) == Status::Running(c));
}

/// The tape while the copy program is still reading: the zero cell, the
/// sentinel one, and the first `k` input bytes.
spec fn copy_read_tape(input: Seq<u8>, k: int) -> Seq<u8> {
    seq![0u8, 1u8] + input.subrange(0, k)
}

/// The tape once the copy program has read all of the input: one zero cell
/// past the last input byte ends both remaining loops.
spec fn copy_full_tape(input: Seq<u8>) -> Seq<u8> {
    seq![0u8, 1u8] + input + seq![0u8]
}

/// The state at the head of the read loop with `k` bytes read.
spec fn copy_read_state(input: Seq<u8>, out0: Seq<u8>, k: nat) -> MachineState {
    MachineState {
        tape: copy_read_tape(input, k as int),
        dp: 1 + k,
        ip: 3,
        in_pos: k,
        out: out0,
    }
}

/// The state at the head of the rewind loop with the data pointer at `d`.
spec fn copy_rewind_state(input: Seq<u8>, out0: Seq<u8>, d: nat) -> MachineState {
    MachineState {
        tape: copy_full_tape(input),
        dp: d,
        ip: 8,
        in_pos: input.len(),
        out: out0,
    }
}

/// The state at the head of the write loop with `m` bytes written.
spec fn copy_write_state(input: Seq<u8>, out0: Seq<u8>, m: nat) -> MachineState {
    MachineState {
        tape: copy_full_tape(input),
        dp: 2 + m,
        ip: 13,
        in_pos: input.len(),
        out: out0 + input.subrange(0, m as int),
    }
}

/// The inputs on which the copy program is an identity transform: at least
/// one byte, no zero byte (a zero cell ends its loops early), and short
/// enough that the data pointer stays in its range.
pub open spec fn copy_input_ok(input: Seq<u8>) -> bool {
    &&& input.len() >= 1
    &&& forall|i: int| 0 <= i < input.len() ==> input[i] != 0
    &&& input.len() + 2 <= usize::MAX
}

proof fn lemma_copy_enter(input: Seq<u8>, out0: Seq<u8>)
    requires
        copy_input_ok(input),
    ensures
        reaches(copy_program(), input, start_state(out0), copy_read_state(input, out0, 0)),
{
    let prog = copy_program();
    let s0 = start_state(out0);
    let s1 = MachineState { tape: Seq::empty(), dp: 1, ip: 1, in_pos: 0, out: out0 };
    let s2 = MachineState { tape: seq![0u8, 1u8], dp: 1, ip: 2, in_pos: 0, out: out0 };
    let b0 = copy_read_state(input, out0, 0);
    assert(machine_tick(prog, input, Status::Running(s0)) == Status::Running(s1));
    lemma_reaches_step(prog, input, s0, s1);
    assert(grown(s1.tape, 1).update(1, inc_cell(cell(s1.tape, 1))) =~= seq![0u8, 1u8]);
    assert(machine_tick(prog, input, Status::Running(s1)) == Status::Running(s2));
    lemma_reaches_step(prog, input, s1, s2);
    assert(cell(s2.tape, 1) == 1);
    assert(b0.tape =~= s2.tape);
    assert(machine_tick(prog, input, Status::Running(s2)) == Status::Running(b0));
    lemma_reaches_step(prog, input, s2, b0);
    lemma_reaches_trans(prog, input, s0, s1, s2);
    lemma_reaches_trans(prog, input, s0, s2, b0);
}

proof fn lemma_copy_reads(input: Seq<u8>, out0: Seq<u8>, k: nat)
    requires
        copy_input_ok(input),
        k <= input.len(),
    ensures
        reaches(
            copy_program(),
            input,
            copy_read_state(input, out0, 0),
            copy_read_state(input, out0, k),
        ),
    decreases k,
{
    let prog = copy_program();
    if k == 0 {
        lemma_reaches_refl(prog, input, copy_read_state(input, out0, 0));
    } else {
        let j = (k - 1) as nat;
        lemma_copy_reads(input, out0, j);
        let a = copy_read_state(input, out0, j);
        let b = copy_read_state(input, out0, k);
        let t0 = copy_read_tape(input, j as int);
        assert(t0.len() == 2 + j);
        let s1 = MachineState { tape: t0, dp: 2 + j, ip: 4, in_pos: j, out: out0 };
        assert(a.dp + 1 <= usize::MAX);
        assert(machine_tick(prog, input, Status::Running(a)) == Status::Running(s1));
        lemma_reaches_step(prog, input, a, s1);
        // The read grows the tape by one zero cell and stores input[j] there.
        assert(grown(t0, 2 + j).update(2 + j as int, input[j as int]) =~= copy_read_tape(
            input,
            k as int,
        ));
        let s2 = MachineState {
            tape: copy_read_tape(input, k as int),
            dp: 2 + j,
            ip: 5,
            in_pos: k,
            out: out0,
        };
        assert(machine_tick(prog, input, Status::Running(s1)) == Status::Running(s2));
        lemma_reaches_step(prog, input, s1, s2);
        // The freshly read byte is not zero, so the loop is re-entered.
        assert(cell(s2.tape, 2 + j) == input[j as int]);
        assert(machine_tick(prog, input, Status::Running(s2)) == Status::Running(b));
        lemma_reaches_step(prog, input, s2, b);
        lemma_reaches_trans(prog, input, a, s1, s2);
        lemma_reaches_trans(prog, input, a, s2, b);
        lemma_reaches_trans(prog, input, copy_read_state(input, out0, 0), a, b);
    }
}

proof fn lemma_copy_to_rewind(input: Seq<u8>, out0: Seq<u8>)
    requires
        copy_input_ok(input),
    ensures
        reaches(
            copy_program(),
            input,
            copy_read_state(input, out0, input.len()),
            copy_rewind_state(input, out0, 1 + input.len()),
        ),
{
    let prog = copy_program();
    let len = input.len();
    let a = copy_read_state(input, out0, len);
    let t0 = copy_read_tape(input, len as int);
    assert(t0 =~= seq![0u8, 1u8] + input);
    let s1 = MachineState { tape: t0, dp: 2 + len, ip: 4, in_pos: len, out: out0 };
    assert(machine_tick(prog, input, Status::Running(a)) == Status::Running(s1));
    lemma_reaches_step(prog, input, a, s1);
    // Reading at the end of the input leaves everything but ip unchanged.
    let s2 = MachineState { tape: t0, dp: 2 + len, ip: 5, in_pos: len, out: out0 };
    assert(machine_tick(prog, input, Status::Running(s1)) == Status::Running(s2));
    lemma_reaches_step(prog, input, s1, s2);
    // The loop end grows the tape by the zero cell and falls through.
    let full = copy_full_tape(input);
    assert(grown(t0, 2 + len) =~= full);
    assert(cell(t0, 2 + len) == 0);
    let s3 = MachineState { tape: full, dp: 2 + len, ip: 6, in_pos: len, out: out0 };
    assert(machine_tick(prog, input, Status::Running(s2)) == Status::Running(s3));
    lemma_reaches_step(prog, input, s2, s3);
    let s4 = MachineState { tape: full, dp: 1 + len, ip: 7, in_pos: len, out: out0 };
    assert(machine_tick(prog, input, Status::Running(s3)) == Status::Running(s4));
    lemma_reaches_step(prog, input, s3, s4);
    let b = copy_rewind_state(input, out0, 1 + len);
    assert(cell(full, 1 + len) == input[len - 1]);
    assert(machine_tick(prog, input, Status::Running(s4)) == Status::Running(b));
    lemma_reaches_step(prog, input, s4, b);
    lemma_reaches_trans(prog, input, a, s1, s2);
    lemma_reaches_trans(prog, input, a, s2, s3);
    lemma_reaches_trans(prog, input, a, s3, s4);
    lemma_reaches_trans(prog, input, a, s4, b);
}

proof fn lemma_copy_rewind(input: Seq<u8>, out0: Seq<u8>, d: nat)
    requires
        copy_input_ok(input),
        1 <= d <= 1 + input.len(),
    ensures
        reaches(
            copy_program(),
            input,
            copy_rewind_state(input, out0, d),
            MachineState {
                tape: copy_full_tape(input),
                dp: 0,
                ip: 10,
                in_pos: input.len(),
                out: out0,
            },
        ),
    decreases d,
{
    let prog = copy_program();
    let full = copy_full_tape(input);
    let a = copy_rewind_state(input, out0, d);
    let s1 = MachineState { tape: full, dp: (d - 1) as nat, ip: 9, in_pos: input.len(), out: out0 };
    assert(machine_tick(prog, input, Status::Running(a)) == Status::Running(s1));
    lemma_reaches_step(prog, input, a, s1);
    if d == 1 {
        assert(cell(full, 0) == 0);
        let b = MachineState { tape: full, dp: 0, ip: 10, in_pos: input.len(), out: out0 };
        assert(machine_tick(prog, input, Status::Running(s1)) == Status::Running(b));
        lemma_reaches_step(prog, input, s1, b);
        lemma_reaches_trans(prog, input, a, s1, b);
    } else {
        // Every cell between the sentinel and the final zero is not zero,
        // so the rewind loop keeps walking left.
        if d - 1 >= 2 {
            assert(cell(full, (d - 1) as nat) == input[d - 3]);
        }
        assert(cell(full, (d - 1) as nat) != 0);
        let b = copy_rewind_state(input, out0, (d - 1) as nat);
        assert(machine_tick(prog, input, Status::Running(s1)) == Status::Running(b));
        lemma_reaches_step(prog, input, s1, b);
        lemma_reaches_trans(prog, input, a, s1, b);
        lemma_copy_rewind(input, out0, (d - 1) as nat);
        lemma_reaches_trans(
            prog,
            input,
            a,
            b,
            MachineState {
                tape: full,
                dp: 0,
                ip: 10,
                in_pos: input.len(),
                out: out0,
            },
        );
    }
}

proof fn lemma_copy_to_write(input: Seq<u8>, out0: Seq<u8>)
    requires
        copy_input_ok(input),
    ensures
        reaches(
            copy_program(),
            input,
            MachineState {
                tape: copy_full_tape(input),
                dp: 0,
                ip: 10,
                in_pos: input.len(),
                out: out0,
            },
            copy_write_state(input, out0, 0),
        ),
{
    let prog = copy_program();
    let full = copy_full_tape(input);
    let a = MachineState { tape: full, dp: 0, ip: 10, in_pos: input.len(), out: out0 };
    let s1 = MachineState { tape: full, dp: 1, ip: 11, in_pos: input.len(), out: out0 };
    let s2 = MachineState { tape: full, dp: 2, ip: 12, in_pos: input.len(), out: out0 };
    assert(machine_tick(prog, input, Status::Running(a)) == Status::Running(s1));
    lemma_reaches_step(prog, input, a, s1);
    assert(machine_tick(prog, input, Status::Running(s1)) == Status::Running(s2));
    lemma_reaches_step(prog, input, s1, s2);
    let b = copy_write_state(input, out0, 0);
    assert(cell(full, 2) == input[0]);
    assert(b.out =~= out0);
    assert(machine_tick(prog, input, Status::Running(s2)) == Status::Running(b));
    lemma_reaches_step(prog, input, s2, b);
    lemma_reaches_trans(prog, input, a, s1, s2);
    lemma_reaches_trans(prog, input, a, s2, b);
}

proof fn lemma_copy_writes(input: Seq<u8>, out0: Seq<u8>, m: nat)
    requires
        copy_input_ok(input),
        m < input.len(),
    ensures
        reaches(
            copy_program(),
            input,
            copy_write_state(input, out0, 0),
            copy_write_state(input, out0, m),
        ),
    decreases m,
{
    let prog = copy_program();
    let full = copy_full_tape(input);
    if m == 0 {
        lemma_reaches_refl(prog, input, copy_write_state(input, out0, 0));
    } else {
        let j = (m - 1) as nat;
        lemma_copy_writes(input, out0, j);
        let a = copy_write_state(input, out0, j);
        // Write appends the cell under the pointer, which is input[j].
        assert(cell(full, 2 + j) == input[j as int]);
        let out1 = out0 + input.subrange(0, j as int);
        assert(out1.push(input[j as int]) =~= out0 + input.subrange(0, m as int));
        let s1 = MachineState {
            tape: full,
            dp: 2 + j,
            ip: 14,
            in_pos: input.len(),
            out: out0 + input.subrange(0, m as int),
        };
        assert(machine_tick(prog, input, Status::Running(a)) == Status::Running(s1));
        lemma_reaches_step(prog, input, a, s1);
        let s2 = MachineState { tape: full, dp: 3 + j, ip: 15, in_pos: input.len(), out: s1.out };
        assert(s1.dp + 1 <= usize::MAX);
        assert(machine_tick(prog, input, Status::Running(s1)) == Status::Running(s2));
        lemma_reaches_step(prog, input, s1, s2);
        // m < len, so the cell after the one just written is an input byte
        // and the write loop is re-entered.
        assert(cell(full, 3 + j) == input[m as int]);
        let b = copy_write_state(input, out0, m);
        assert(machine_tick(prog, input, Status::Running(s2)) == Status::Running(b));
        lemma_reaches_step(prog, input, s2, b);
        lemma_reaches_trans(prog, input, a, s1, s2);
        lemma_reaches_trans(prog, input, a, s2, b);
        lemma_reaches_trans(prog, input, copy_write_state(input, out0, 0), a, b);
    }
}

/// Law: the copy program — one loop reading a byte per cell, a rewind, and
/// one loop writing each cell back — is an identity transform: the run
/// halts and its output is exactly its input. This holds for every
/// non-empty input without zero bytes that fits on the data pointer's
/// range; a zero byte (for instance the input `[0]`) ends the program's
/// own loops early and breaks the identity.
pub proof fn lemma_copy_program_identity(input: Seq<u8>, out0: Seq<u8>)
    requires
        copy_input_ok(input),
    ensures
        exists|n: nat|
            (#[trigger] run_steps(
                copy_program(),
                input,
                Status::Running(start_state(out0)),
                n,
            )) matches Status::Halted(s) && s.out == out0 + input,
        run_finishes(copy_program(), input, out0),
{
    let prog = copy_program();
    let full = copy_full_tape(input);
    let len = input.len();
    let rewound = MachineState { tape: full, dp: 0, ip: 10, in_pos: len, out: out0 };
    lemma_copy_enter(input, out0);
    lemma_copy_reads(input, out0, len);
    lemma_copy_to_rewind(input, out0);
    lemma_copy_rewind(input, out0, 1 + len);
    lemma_copy_to_write(input, out0);
    lemma_copy_writes(input, out0, (len - 1) as nat);
    let s0 = start_state(out0);
    lemma_reaches_trans(prog, input, s0, copy_read_state(input, out0, 0), copy_read_state(input, out0, len));
    lemma_reaches_trans(prog, input, s0, copy_read_state(input, out0, len), copy_rewind_state(input, out0, 1 + len));
    lemma_reaches_trans(prog, input, s0, copy_rewind_state(input, out0, 1 + len), rewound);
    lemma_reaches_trans(prog, input, s0, rewound, copy_write_state(input, out0, 0));
    lemma_reaches_trans(prog, input, s0, copy_write_state(input, out0, 0), copy_write_state(input, out0, (len - 1) as nat));
    // The last write reaches the zero cell after the input and the loop
    // ends; one more tick halts the machine.
    let a = copy_write_state(input, out0, (len - 1) as nat);
    assert(cell(full, 2 + (len - 1) as nat) == input[len - 1]);
    let done_out = out0 + input.subrange(0, len as int);
    assert(input.subrange(0, (len - 1) as int).push(input[len - 1]) =~= input.subrange(0, len as int));
    assert(a.out.push(input[len - 1]) =~= done_out);
    let s1 = MachineState { tape: full, dp: 1 + len, ip: 14, in_pos: len, out: done_out };
    assert(machine_tick(prog, input, Status::Running(a)) == Status::Running(s1));
    lemma_reaches_step(prog, input, a, s1);
    let s2 = MachineState { tape: full, dp: 2 + len, ip: 15, in_pos: len, out: done_out };
    assert(s1.dp + 1 <= usize::MAX);
    assert(machine_tick(prog, input, Status::Running(s1)) == Status::Running(s2));
    lemma_reaches_step(prog, input, s1, s2);
    assert(cell(full, 2 + len) == 0);
    let fin = MachineState { tape: full, dp: 2 + len, ip: 16, in_pos: len, out: done_out };
    assert(machine_tick(prog, input, Status::Running(s2)) == Status::Running(fin));
    lemma_reaches_step(prog, input, s2, fin);
    lemma_reaches_trans(prog, input, s0, a, s1);
    lemma_reaches_trans(prog, input, s0, s1, s2);
    lemma_reaches_trans(prog, input, s0, s2, fin);
    let n = choose|n: nat|
        (#[trigger] run_steps(prog, input, Status::Running(s0), n)) == Status::Running(fin);
    assert(run_steps(prog, input, Status::Running(s0), n + 1) == machine_tick(
        prog,
        input,
        run_steps(prog, input, Status::Running(s0), n),
    ));
    assert(run_steps(prog, input, Status::Running(s0), n + 1) == Status::Halted(fin));
    assert(done_out =~= out0 + input);
    assert((run_steps(prog, input, Status::Running(s0), n + 1)) matches Status::Halted(s)
        && s.out == out0 + input);
}

} // verus!

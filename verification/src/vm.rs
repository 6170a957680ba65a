//! The interpreter: a virtual machine stepping through a [`Program`] on a
//! fixed byte tape, in a plain flavour and a profiling flavour.

use vstd::prelude::*;

use crate::io::{spec_console_translate, StdinCap, StdoutCap};
use crate::opcode::{count_sum, OpCode};
use crate::program::{Program, ProgramError};

verus! {

/// A runtime failure: a construction error carried over, the data pointer
/// running off either end of the tape, or a console I/O failure.
#[derive(Debug, Clone, Copy, PartialEq, Eq, Structural)]
pub enum EvalError {
    ProgramError(ProgramError),
    MemoryOutOfBounds,
    InvalidInstructionPointer,
    IOError,
}

/// Wrapping cell increment: add `count` modulo 256.
pub open spec fn cell_add(c: u8, count: usize) -> u8 {
    vstd::wrapping::u8_specs::wrapping_add(c, (count % 256) as u8)
}

/// Wrapping cell decrement: subtract `count` modulo 256.
pub open spec fn cell_sub(c: u8, count: usize) -> u8 {
    vstd::wrapping::u8_specs::wrapping_sub(c, (count % 256) as u8)
}

/// The cell value an input character is stored as: its low eight bits.
pub open spec fn spec_char_cell(c: char) -> u8 {
    (c as u32 % 256) as u8
}

fn char_cell(c: char) -> (r: u8)
    ensures
        r == spec_char_cell(c),
{
    (c as u32 % 256) as u8
}

/// The observable machine state: instruction pointer, data pointer, tape,
/// input not yet read, and output written so far.
pub struct MachineView {
    pub ip: int,
    pub data_ptr: int,
    pub mem: Seq<u8>,
    pub input: Seq<char>,
    pub output: Seq<char>,
}

/// What one interpreter step does to a machine state.
pub enum ModelOutcome {
    /// The program is over; the state after any final side effect.
    Halt(MachineView),
    /// Execution continues in the given state.
    Step(MachineView),
    /// The step fails and leaves the state unchanged.
    Fail(EvalError),
}

/// Move on to the successor `next`, or halt when there is none.
pub open spec fn model_advance(m: MachineView, next: Option<usize>) -> ModelOutcome {
    match next {
        Some(n) => ModelOutcome::Step(MachineView { ip: n as int, ..m }),
        None => ModelOutcome::Halt(m),
    }
}

/// One interpreter step on a machine state, for string-backed input: fetch
/// the step at `ip` and execute its opcode the way the interpreter does.
pub open spec fn step_model(p: Program, m: MachineView) -> ModelOutcome {
    match p.spec_step(m.ip) {
        None => ModelOutcome::Halt(m),
        Some(st) => match st.opcode {
            OpCode::DecDataPtr(count) => if m.data_ptr < count {
                ModelOutcome::Fail(EvalError::MemoryOutOfBounds)
            } else {
                model_advance(MachineView { data_ptr: m.data_ptr - count, ..m }, st.then_ip)
            },
            OpCode::IncDataPtr(count) => if m.data_ptr + count >= m.mem.len() {
                ModelOutcome::Fail(EvalError::InvalidInstructionPointer)
            } else {
                model_advance(MachineView { data_ptr: m.data_ptr + count, ..m }, st.then_ip)
            },
            OpCode::DecValue(count) => model_advance(
                MachineView { mem: m.mem.update(m.data_ptr, cell_sub(m.mem[m.data_ptr], count)), ..m },
                st.then_ip,
            ),
            OpCode::IncValue(count) => model_advance(
                MachineView { mem: m.mem.update(m.data_ptr, cell_add(m.mem[m.data_ptr], count)), ..m },
                st.then_ip,
            ),
            OpCode::Input => if m.input.len() > 0 {
                model_advance(
                    MachineView {
                        mem: m.mem.update(m.data_ptr, spec_char_cell(m.input[0])),
                        input: m.input.skip(1),
                        ..m
                    },
                    st.then_ip,
                )
            } else {
                model_advance(m, st.then_ip)
            },
            OpCode::Output => model_advance(
                MachineView { output: m.output.push(m.mem[m.data_ptr] as char), ..m },
                st.then_ip,
            ),
            OpCode::LoopStart | OpCode::LoopEnd => model_advance(
                m,
                if m.mem[m.data_ptr] == 0 {
                    st.else_ip
                } else {
                    st.then_ip
                },
            ),
        },
    }
}

/// The machine state after `k` further steps, when none of them halts or
/// fails on the way.
pub open spec fn steps_model(p: Program, m: MachineView, k: nat) -> Option<MachineView>
    decreases k,
{
    if k == 0 {
        Some(m)
    } else {
        match step_model(p, m) {
            ModelOutcome::Step(m2) => steps_model(p, m2, (k - 1) as nat),
            _ => None,
        }
    }
}

/// How a bounded run ends.
pub enum RunEnd {
    /// The program ran off its end, in this state.
    Halted(MachineView),
    /// A step failed, leaving this state.
    Failed(EvalError, MachineView),
}

/// Run the machine for at most `fuel` steps: the ending if one is reached,
/// `None` if the program is still going.
pub open spec fn run_model(p: Program, m: MachineView, fuel: nat) -> Option<RunEnd>
    decreases fuel,
{
    if fuel == 0 {
        None
    } else {
        match step_model(p, m) {
            ModelOutcome::Halt(m2) => Some(RunEnd::Halted(m2)),
            ModelOutcome::Fail(e) => Some(RunEnd::Failed(e, m)),
            ModelOutcome::Step(m2) => run_model(p, m2, (fuel - 1) as nat),
        }
    }
}

/// Extending a successful stretch of steps by one more step.
pub proof fn lemma_steps_snoc(p: Program, m: MachineView, k: nat, m2: MachineView)
    requires
        steps_model(p, m, k) == Some(m2),
    ensures
        match step_model(p, m2) {
            ModelOutcome::Step(m3) => steps_model(p, m, k + 1) == Some(m3),
            _ => true,
        },
    decreases k,
{
    if k == 0 {
        assert(m2 == m);
        match step_model(p, m) {
            ModelOutcome::Step(m3) => {
                assert(steps_model(p, m3, 0nat) == Some(m3));
                assert(steps_model(p, m, 1nat) == steps_model(p, m3, 0nat));
            },
            _ => {},
        }
    } else {
        match step_model(p, m) {
            ModelOutcome::Step(mm) => {
                lemma_steps_snoc(p, mm, (k - 1) as nat, m2);
                assert(steps_model(p, m, k + 1) == steps_model(p, mm, ((k + 1) - 1) as nat));
                assert(((k + 1) - 1) as nat == ((k - 1) as nat) + 1);
            },
            _ => {
                assert(steps_model(p, m, k) is None);
            },
        }
    }
}

/// A stretch of steps that reaches a halting or failing state is a whole
/// bounded run.
pub proof fn lemma_steps_end(p: Program, m: MachineView, k: nat, m2: MachineView)
    requires
        steps_model(p, m, k) == Some(m2),
    ensures
        match step_model(p, m2) {
            ModelOutcome::Halt(h) => run_model(p, m, k + 1) == Some(RunEnd::Halted(h)),
            ModelOutcome::Fail(e) => run_model(p, m, k + 1) == Some(RunEnd::Failed(e, m2)),
            _ => true,
        },
    decreases k,
{
    if k > 0 {
        if let ModelOutcome::Step(mm) = step_model(p, m) {
            lemma_steps_end(p, mm, (k - 1) as nat, m2);
        }
    }
}

/// The per-opcode hit counts after at most `k` steps of the trace from
/// `m`: every step that finds an opcode at the cursor counts it once
/// before dispatch; the step that finds none counts nothing.
pub open spec fn model_hits(p: Program, m: MachineView, hits: Seq<nat>, k: nat) -> Seq<nat>
    decreases k,
{
    if k == 0 {
        hits
    } else if !(0 <= m.ip < p.code@.len()) {
        hits
    } else {
        let counted = hits.update(m.ip, (hits[m.ip] + 1) as nat);
        match step_model(p, m) {
            ModelOutcome::Step(m2) => model_hits(p, m2, counted, (k - 1) as nat),
            _ => counted,
        }
    }
}

/// Counting one more step of a stretch bumps the hit count of the opcode
/// the stretch ends at, when there is one.
pub proof fn lemma_model_hits_snoc(
    p: Program,
    m: MachineView,
    hits: Seq<nat>,
    k: nat,
    m2: MachineView,
)
    requires
        steps_model(p, m, k) == Some(m2),
    ensures
        ({
            let pre = model_hits(p, m, hits, k);
            model_hits(p, m, hits, k + 1) == (if 0 <= m2.ip < p.code@.len() {
                pre.update(m2.ip, (pre[m2.ip] + 1) as nat)
            } else {
                pre
            })
        }),
    decreases k,
{
    if k == 0 {
        assert(m2 == m);
        if 0 <= m.ip < p.code@.len() {
            let counted = hits.update(m.ip, (hits[m.ip] + 1) as nat);
            match step_model(p, m) {
                ModelOutcome::Step(mm) => {
                    assert(model_hits(p, mm, counted, 0nat) == counted);
                },
                _ => {},
            }
        }
    } else {
        match step_model(p, m) {
            ModelOutcome::Step(mm) => {
                assert(0 <= m.ip < p.code@.len());
                let counted = hits.update(m.ip, (hits[m.ip] + 1) as nat);
                assert(steps_model(p, m, k) == steps_model(p, mm, (k - 1) as nat));
                lemma_model_hits_snoc(p, mm, counted, (k - 1) as nat, m2);
                assert(model_hits(p, m, hits, k + 1) == model_hits(
                    p,
                    mm,
                    counted,
                    ((k + 1) - 1) as nat,
                ));
                assert(model_hits(p, m, hits, k) == model_hits(p, mm, counted, (k - 1) as nat));
            },
            _ => {
                assert(steps_model(p, m, k) is None);
            },
        }
    }
}

/// The marker for the two flavours a VM comes in.
pub trait VMConfig {

}

/// The plain interpreter flavour.
#[derive(Debug)]
pub struct Normal;

/// The profiling flavour: per-source-character execution counters and the
/// map from each opcode index to its first counter.
pub struct Profiler {
    profile_data: Vec<usize>,
    ip_map: Vec<usize>,
    hits: Ghost<Seq<nat>>,
}

impl VMConfig for Normal {

}

impl VMConfig for Profiler {

}

/// The virtual machine: a program, a tape, the two pointers, and the two
/// I/O capabilities.
pub struct VM<S: VMConfig> {
    ip: usize,
    data_ptr: usize,
    memory: Vec<u8>,
    program: Program,
    stdin: StdinCap,
    stdout: StdoutCap,
    config: S,
}

impl<S: VMConfig> VM<S> {
    pub closed spec fn spec_ip(self) -> int {
        self.ip as int
    }

    pub closed spec fn spec_data_ptr(self) -> int {
        self.data_ptr as int
    }

    pub closed spec fn spec_mem(self) -> Seq<u8> {
        self.memory@
    }

    pub closed spec fn spec_program(self) -> Program {
        self.program
    }

    pub closed spec fn spec_stdin(self) -> StdinCap {
        self.stdin
    }

    pub closed spec fn spec_stdout(self) -> StdoutCap {
        self.stdout
    }

    pub closed spec fn spec_config(self) -> S {
        self.config
    }

    /// Whether the input is string-backed, hence deterministic.
    pub open spec fn input_is_text(self) -> bool {
        self.spec_stdin().is_text()
    }

    /// The observable machine state; its `input` is meaningful for
    /// string-backed input only.
    pub open spec fn mview(self) -> MachineView {
        MachineView {
            ip: self.spec_ip(),
            data_ptr: self.spec_data_ptr(),
            mem: self.spec_mem(),
            input: self.spec_stdin().text_view(),
            output: self.spec_stdout()@,
        }
    }

    /// A healthy machine: a well-formed program and the data pointer on
    /// the tape.
    pub open spec fn wf(self) -> bool {
        &&& self.spec_program().wf()
        &&& 0 <= self.spec_data_ptr() < self.spec_mem().len()
    }

    /// What never changes across a step.
    pub open spec fn step_frame(pre: Self, post: Self) -> bool {
        &&& post.spec_program() == pre.spec_program()
        &&& post.spec_mem().len() == pre.spec_mem().len()
        &&& post.input_is_text() == pre.input_is_text()
        &&& (post.spec_stdout() is Console <==> pre.spec_stdout() is Console)
    }

    /// The machine state the step contract speaks of is unchanged: the
    /// pointers, the tape and both capabilities are as they were.
    pub open spec fn core_unchanged(pre: Self, post: Self) -> bool {
        &&& post.spec_ip() == pre.spec_ip()
        &&& post.spec_data_ptr() == pre.spec_data_ptr()
        &&& post.spec_mem() == pre.spec_mem()
        &&& post.spec_stdin() == pre.spec_stdin()
        &&& post.spec_stdout() == pre.spec_stdout()
    }

    /// The instruction pointer moved to `next`, or the step reported the
    /// program done and left it alone.
    pub open spec fn advanced(
        pre: Self,
        post: Self,
        r: Result<bool, EvalError>,
        next: Option<usize>,
    ) -> bool {
        match next {
            Some(n) => r == Ok::<bool, EvalError>(false) && post.spec_ip() == n as int,
            None => r == Ok::<bool, EvalError>(true) && post.spec_ip() == pre.spec_ip(),
        }
    }

    /// The full contract of one step with console input: every opcode acts
    /// as the specification says, with the byte read left open.
    pub open spec fn console_step_post(pre: Self, post: Self, r: Result<bool, EvalError>) -> bool {
        match pre.spec_program().spec_step(pre.spec_ip()) {
            None => r == Ok::<bool, EvalError>(true) && Self::core_unchanged(pre, post),
            Some(st) => match st.opcode {
                OpCode::DecDataPtr(count) => if pre.spec_data_ptr() < count {
                    r == Err::<bool, EvalError>(EvalError::MemoryOutOfBounds)
                        && Self::core_unchanged(pre, post)
                } else {
                    &&& post.spec_data_ptr() == pre.spec_data_ptr() - count
                    &&& post.spec_mem() == pre.spec_mem()
                    &&& post.spec_stdin() == pre.spec_stdin()
                    &&& post.spec_stdout() == pre.spec_stdout()
                    &&& Self::advanced(pre, post, r, st.then_ip)
                },
                OpCode::IncDataPtr(count) => if pre.spec_data_ptr() + count
                    >= pre.spec_mem().len() {
                    r == Err::<bool, EvalError>(EvalError::InvalidInstructionPointer)
                        && Self::core_unchanged(pre, post)
                } else {
                    &&& post.spec_data_ptr() == pre.spec_data_ptr() + count
                    &&& post.spec_mem() == pre.spec_mem()
                    &&& post.spec_stdin() == pre.spec_stdin()
                    &&& post.spec_stdout() == pre.spec_stdout()
                    &&& Self::advanced(pre, post, r, st.then_ip)
                },
                OpCode::DecValue(count) => {
                    &&& post.spec_mem() == pre.spec_mem().update(
                        pre.spec_data_ptr(),
                        cell_sub(pre.spec_mem()[pre.spec_data_ptr()], count),
                    )
                    &&& post.spec_data_ptr() == pre.spec_data_ptr()
                    &&& post.spec_stdin() == pre.spec_stdin()
                    &&& post.spec_stdout() == pre.spec_stdout()
                    &&& Self::advanced(pre, post, r, st.then_ip)
                },
                OpCode::IncValue(count) => {
                    &&& post.spec_mem() == pre.spec_mem().update(
                        pre.spec_data_ptr(),
                        cell_add(pre.spec_mem()[pre.spec_data_ptr()], count),
                    )
                    &&& post.spec_data_ptr() == pre.spec_data_ptr()
                    &&& post.spec_stdin() == pre.spec_stdin()
                    &&& post.spec_stdout() == pre.spec_stdout()
                    &&& Self::advanced(pre, post, r, st.then_ip)
                },
                OpCode::Input => {
                    &&& post.spec_data_ptr() == pre.spec_data_ptr()
                    &&& post.spec_stdout() == pre.spec_stdout()
                    &&& post.spec_stdin() == pre.spec_stdin()
                    &&& (r is Err ==> r == Err::<bool, EvalError>(EvalError::IOError)
                        && post.spec_mem() == pre.spec_mem() && post.spec_ip() == pre.spec_ip())
                    &&& (r is Ok ==> (post.spec_mem() == pre.spec_mem() || (exists|b: u8|
                        post.spec_mem() == pre.spec_mem().update(
                            pre.spec_data_ptr(),
                            spec_char_cell(spec_console_translate(b)),
                        ))) && Self::advanced(pre, post, r, st.then_ip))
                },
                OpCode::Output => {
                    &&& post.spec_stdout()@ == pre.spec_stdout()@.push(
                        pre.spec_mem()[pre.spec_data_ptr()] as char,
                    )
                    &&& post.spec_mem() == pre.spec_mem()
                    &&& post.spec_data_ptr() == pre.spec_data_ptr()
                    &&& post.spec_stdin() == pre.spec_stdin()
                    &&& Self::advanced(pre, post, r, st.then_ip)
                },
                OpCode::LoopStart | OpCode::LoopEnd => {
                    &&& post.spec_mem() == pre.spec_mem()
                    &&& post.spec_data_ptr() == pre.spec_data_ptr()
                    &&& post.spec_stdin() == pre.spec_stdin()
                    &&& post.spec_stdout() == pre.spec_stdout()
                    &&& Self::advanced(
                        pre,
                        post,
                        r,
                        if pre.spec_mem()[pre.spec_data_ptr()] == 0 {
                            st.else_ip
                        } else {
                            st.then_ip
                        },
                    )
                },
            },
        }
    }

    /// The machine `post` is reachable from `pre` by exactly `k` console
    /// steps, each reporting that execution continues.
    pub open spec fn console_reaches(pre: Self, post: Self, k: nat) -> bool
        decreases k,
    {
        if k == 0 {
            post == pre
        } else {
            exists|mid: Self|
                Self::console_reaches(pre, mid, (k - 1) as nat) && Self::console_step_post(
                    mid,
                    post,
                    Ok(false),
                ) && post.spec_program() == mid.spec_program()
        }
    }

    /// Read the instruction pointer.
    pub fn ip(&self) -> (r: usize)
        ensures
            r == self.spec_ip(),
    {
        self.ip
    }

    /// Read the data pointer.
    pub fn data_ptr(&self) -> (r: usize)
        ensures
            r == self.spec_data_ptr(),
    {
        self.data_ptr
    }

    /// The output capability, for reading back what was written.
    pub fn stdout(&self) -> (r: &StdoutCap)
        ensures
            *r == self.spec_stdout(),
    {
        &self.stdout
    }

    /// The program being run.
    pub fn program(&self) -> (r: &Program)
        ensures
            *r == self.spec_program(),
    {
        &self.program
    }

    /// The tape.
    pub fn memory(&self) -> (r: &Vec<u8>)
        ensures
            r@ == self.spec_mem(),
    {
        &self.memory
    }

    /// Execute exactly one step if there is a step left; `Ok(true)` means
    /// the program is done. With string-backed input the machine follows
    /// [`step_model`] exactly; with console input, [`Self::console_step_post`].
    pub fn execute_step(&mut self) -> (r: Result<bool, EvalError>)
        requires
            old(self).wf(),
        ensures
            final(self).wf(),
            Self::step_frame(*old(self), *final(self)),
            final(self).spec_config() == old(self).spec_config(),
            old(self).input_is_text() ==> match step_model(
                old(self).spec_program(),
                old(self).mview(),
            ) {
                ModelOutcome::Halt(m2) => r == Ok::<bool, EvalError>(true) && final(self).mview()
                    == m2,
                ModelOutcome::Step(m2) => r == Ok::<bool, EvalError>(false) && final(self).mview()
                    == m2,
                ModelOutcome::Fail(e) => r == Err::<bool, EvalError>(e) && final(self).mview()
                    == old(self).mview(),
            },
            !old(self).input_is_text() ==> Self::console_step_post(*old(self), *final(self), r),
    {
        let step_option = self.program.get_step(self.ip);
        if step_option.is_none() {
            return Ok(true);
        }
        let step = step_option.unwrap();
        let next_ip_option = match step.opcode {
            OpCode::DecDataPtr(count) => {
                if self.data_ptr < count {
                    return Err(EvalError::MemoryOutOfBounds);
                }
                self.data_ptr = self.data_ptr - count;
                step.then_ip
            },
            OpCode::IncDataPtr(count) => {
                if count >= self.memory.len() - self.data_ptr {
                    return Err(EvalError::InvalidInstructionPointer);
                }
                self.data_ptr = self.data_ptr + count;
                step.then_ip
            },
            OpCode::DecValue(count) => {
                let cell = self.memory[self.data_ptr];
                self.memory.set(self.data_ptr, cell.wrapping_sub((count % 256) as u8));
                step.then_ip
            },
            OpCode::IncValue(count) => {
                let cell = self.memory[self.data_ptr];
                self.memory.set(self.data_ptr, cell.wrapping_add((count % 256) as u8));
                step.then_ip
            },
            OpCode::Input => {
                match self.stdin.read() {
                    Err(_) => {
                        return Err(EvalError::IOError);
                    },
                    Ok(Some(value)) => {
                        self.memory.set(self.data_ptr, char_cell(value));
                    },
                    Ok(None) => {},
                }
                step.then_ip
            },
            OpCode::Output => {
                let cell = self.memory[self.data_ptr];
                self.stdout.write(cell as char);
                step.then_ip
            },
            OpCode::LoopStart | OpCode::LoopEnd => {
                if self.memory[self.data_ptr] == 0 {
                    step.else_ip
                } else {
                    step.then_ip
                }
            },
        };
        if let Some(next_ip) = next_ip_option {
            self.ip = next_ip;
        } else {
            return Ok(true);
        }
        Ok(false)
    }
}

impl VM<Normal> {
    /// Build a machine over a freshly parsed program and a zeroed tape of
    /// `memory_size` cells, with both pointers at zero.
    pub fn new(
        program_code: &str,
        stdin: StdinCap,
        stdout: StdoutCap,
        rle: bool,
        memory_size: usize,
    ) -> (r: Result<VM<Normal>, EvalError>)
        requires
            memory_size >= 1,
        ensures
            match r {
                Ok(vm) => {
                    &&& vm.wf()
                    &&& vm.spec_ip() == 0
                    &&& vm.spec_data_ptr() == 0
                    &&& vm.spec_mem() == Seq::new(memory_size as nat, |i: int| 0u8)
                    &&& vm.spec_program().code@ == Program::spec_tokens(program_code@, rle)
                    &&& crate::program::bracket_result(vm.spec_program().code@) == Ok::<
                        Seq<Option<usize>>,
                        usize,
                    >(vm.spec_program().jump_table@)
                    &&& vm.spec_stdin() == stdin
                    &&& vm.spec_stdout() == stdout
                },
                Err(e) => e matches EvalError::ProgramError(pe) && (pe matches
                    ProgramError::MissingBracket(i) && crate::program::bracket_result(
                    Program::spec_tokens(program_code@, rle),
                ) == Err::<Seq<Option<usize>>, usize>(i)),
            },
    {
        let program = match Program::new(program_code, rle) {
            Ok(p) => p,
            Err(e) => {
                return Err(EvalError::ProgramError(e));
            },
        };
        let mut memory: Vec<u8> = Vec::new();
        let mut i: usize = 0;
        while i < memory_size
            invariant
                i <= memory_size,
                memory@ =~= Seq::new(i as nat, |k: int| 0u8),
            decreases memory_size - i,
        {
            memory.push(0);
            proof {
                assert(memory@ =~= Seq::new((i + 1) as nat, |k: int| 0u8));
            }
            i += 1;
        }
        Ok(VM { ip: 0, data_ptr: 0, memory, program, stdin, stdout, config: Normal })
    }

    /// Run the program until it ends, fails, or `max_steps` steps have
    /// been taken. `Ok(true)` means the program ended; `Ok(false)` that the
    /// step budget ran out first. With string-backed input the run follows
    /// [`run_model`] exactly; with console input every outcome names its
    /// cause: the program ended after a chain of continuing console steps,
    /// the budget ran out after exactly `max_steps` of them, or a step
    /// failed with the returned error.
    pub fn run(&mut self, max_steps: usize) -> (r: Result<bool, EvalError>)
        requires
            old(self).wf(),
        ensures
            final(self).wf(),
            Self::step_frame(*old(self), *final(self)),
            old(self).input_is_text() ==> match r {
                Ok(true) => exists|fuel: nat|
                    run_model(old(self).spec_program(), old(self).mview(), fuel) == Some(
                        RunEnd::Halted(final(self).mview()),
                    ),
                Ok(false) => steps_model(
                    old(self).spec_program(),
                    old(self).mview(),
                    max_steps as nat,
                ) == Some(final(self).mview()),
                Err(e) => exists|fuel: nat|
                    run_model(old(self).spec_program(), old(self).mview(), fuel) == Some(
                        RunEnd::Failed(e, final(self).mview()),
                    ),
            },
            !old(self).input_is_text() ==> match r {
                Ok(true) => exists|k: nat, mid: Self|
                    #![auto]
                    Self::console_reaches(*old(self), mid, k) && Self::console_step_post(
                        mid,
                        *final(self),
                        Ok(true),
                    ),
                Ok(false) => Self::console_reaches(*old(self), *final(self), max_steps as nat),
                Err(e) => exists|k: nat, mid: Self|
                    #![auto]
                    Self::console_reaches(*old(self), mid, k) && Self::console_step_post(
                        mid,
                        *final(self),
                        Err(e),
                    ),
            },
    {
        let ghost m0 = old(self).mview();
        let ghost prog = old(self).spec_program();
        let mut steps: usize = 0;
        while steps < max_steps
            invariant
                steps <= max_steps,
                self.wf(),
                Self::step_frame(*old(self), *self),
                old(self).input_is_text() ==> steps_model(prog, m0, steps as nat) == Some(
                    self.mview(),
                ),
                !old(self).input_is_text() ==> Self::console_reaches(
                    *old(self),
                    *self,
                    steps as nat,
                ),
                prog == old(self).spec_program(),
                m0 == old(self).mview(),
            decreases max_steps - steps,
        {
            let ghost pre = self.mview();
            let ghost pre_vm = *self;
            let step_result = self.execute_step();
            proof {
                if old(self).input_is_text() {
                    match step_result {
                        Ok(false) => {
                            lemma_steps_snoc(prog, m0, steps as nat, pre);
                        },
                        _ => {
                            lemma_steps_end(prog, m0, steps as nat, pre);
                        },
                    }
                } else {
                    if step_result == Ok::<bool, EvalError>(false) {
                        assert(Self::console_reaches(*old(self), pre_vm, steps as nat)
                            && Self::console_step_post(pre_vm, *self, Ok(false))
                            && self.spec_program() == pre_vm.spec_program());
                        assert(Self::console_reaches(*old(self), *self, (steps + 1) as nat));
                    }
                }
            }
            match step_result {
                Ok(true) => {
                    return Ok(true);
                },
                Ok(false) => {},
                Err(e) => {
                    return Err(e);
                },
            }
            steps += 1;
        }
        Ok(false)
    }

    /// Switch the machine into its profiling flavour: counters start at
    /// zero, one per original source character, and the index map carries
    /// each opcode to its first counter.
    pub fn enable_profiler(self) -> (r: VM<Profiler>)
        requires
            self.wf(),
        ensures
            r.wf(),
            r.prof_wf(),
            r.spec_ip() == self.spec_ip(),
            r.spec_data_ptr() == self.spec_data_ptr(),
            r.spec_mem() == self.spec_mem(),
            r.spec_program() == self.spec_program(),
            r.spec_stdin() == self.spec_stdin(),
            r.spec_stdout() == self.spec_stdout(),
            r.spec_hits() == Seq::new(self.spec_program().code@.len(), |i: int| 0nat),
            r.spec_profile() == Seq::new(count_sum(self.spec_program().code@) as nat, |i: int| 0usize),
    {
        let code_len = self.program.code.len();
        let ghost code = self.program.code@;
        let mut ip_map: Vec<usize> = Vec::new();
        ip_map.push(0);
        let mut i: usize = 0;
        proof {
            assert(code.take(0) =~= Seq::<OpCode>::empty());
        }
        while i < code_len
            invariant
                i <= code_len,
                code_len == code.len(),
                self.program.code@ == code,
                count_sum(code) <= usize::MAX,
                forall|k: int| 0 <= k < code.len() ==> 1 <= (#[trigger] code[k]).spec_count(),
                ip_map@.len() == i + 1,
                forall|k: int|
                    0 <= k <= i ==> (#[trigger] ip_map@[k]) == count_sum(code.take(k)),
            decreases code_len - i,
        {
            proof {
                crate::program::lemma_count_sum_take_step(code, i as int);
                lemma_count_sum_bounds(code, i as int);
            }
            let last = ip_map[i];
            let step = self.program.code[i].count();
            ip_map.push(last + step);
            i += 1;
        }
        proof {
            assert(code.take(code_len as int) =~= code);
        }
        let total = ip_map[code_len];
        let mut profile_data: Vec<usize> = Vec::new();
        let mut j: usize = 0;
        while j < total
            invariant
                j <= total,
                profile_data@ =~= Seq::new(j as nat, |k: int| 0usize),
            decreases total - j,
        {
            profile_data.push(0);
            proof {
                assert(profile_data@ =~= Seq::new((j + 1) as nat, |k: int| 0usize));
            }
            j += 1;
        }
        let ghost hits = Seq::new(code.len(), |k: int| 0nat);
        proof {
            lemma_counter_index_bounds(code, ip_map@);
            assert(profile_data@ =~= Seq::new(count_sum(code) as nat, |k: int| 0usize));
        }
        VM {
            ip: self.ip,
            data_ptr: self.data_ptr,
            memory: self.memory,
            program: self.program,
            stdin: self.stdin,
            stdout: self.stdout,
            config: Profiler { profile_data, ip_map, hits: Ghost(hits) },
        }
    }
}

/// A counter value as it appears in the table: exact until it would no
/// longer fit, then pinned at the maximum.
pub open spec fn saturated(n: nat) -> int {
    if n <= usize::MAX {
        n as int
    } else {
        usize::MAX as int
    }
}

impl VM<Profiler> {
    /// The execution counters, one per original source character.
    pub closed spec fn spec_profile(self) -> Seq<usize> {
        self.config.profile_data@
    }

    /// How often the opcode at each compressed index has been counted.
    pub closed spec fn spec_hits(self) -> Seq<nat> {
        self.config.hits@
    }

    pub closed spec fn spec_ip_map(self) -> Seq<usize> {
        self.config.ip_map@
    }

    /// One counted console step: the opcode at the cursor is counted once
    /// — the ghost hit count of that opcode rises by one — and the step
    /// then acts as the console step contract says.
    pub open spec fn counted_console_step(pre: Self, post: Self, r: Result<bool, EvalError>) -> bool {
        &&& Self::console_step_post(pre, post, r)
        &&& 0 <= pre.spec_ip() < pre.spec_program().code@.len()
        &&& post.spec_hits() == pre.spec_hits().update(
            pre.spec_ip(),
            (pre.spec_hits()[pre.spec_ip()] + 1) as nat,
        )
    }

    /// The machine `post` is reachable from `pre` by exactly `k` counted
    /// console steps, each reporting that execution continues.
    pub open spec fn counted_reaches(pre: Self, post: Self, k: nat) -> bool
        decreases k,
    {
        if k == 0 {
            Self::core_unchanged(pre, post) && post.spec_hits() == pre.spec_hits()
                && post.spec_profile() == pre.spec_profile() && post.spec_ip_map()
                == pre.spec_ip_map() && post.spec_program() == pre.spec_program()
        } else {
            exists|mid: Self|
                Self::counted_reaches(pre, mid, (k - 1) as nat) && Self::counted_console_step(
                    mid,
                    post,
                    Ok(false),
                ) && post.spec_program() == mid.spec_program()
        }
    }

    /// The profiler's books are straight: the index map holds the prefix
    /// sums of the fold counts, there is one counter per original source
    /// character, and the `count` counters of an opcode executed `m` times
    /// all read `m`.
    pub open spec fn prof_wf(self) -> bool {
        let code = self.spec_program().code@;
        &&& self.spec_ip_map().len() == code.len() + 1
        &&& forall|k: int|
            0 <= k <= code.len() ==> (#[trigger] self.spec_ip_map()[k]) == count_sum(code.take(k))
        &&& self.spec_profile().len() == count_sum(code)
        &&& self.spec_hits().len() == code.len()
        &&& forall|i: int, j: int|
            0 <= i < code.len() && 0 <= j < code[i].spec_count() ==> (#[trigger] self.spec_profile()[
                self.spec_ip_map()[i] + j
            ]) == saturated(self.spec_hits()[i])
    }

    /// Run the program until it ends, fails, or `max_steps` steps have
    /// been taken, counting, for every step, the opcode's `count` source
    /// characters before executing it. `Ok(true)` means the program ended.
    /// With string-backed input the run follows [`run_model`] and the ghost
    /// hit counts follow [`model_hits`] — each opcode's count rises by one
    /// per step executed at it; with console input the run is a chain of
    /// counted console steps.
    pub fn run(&mut self, max_steps: usize) -> (r: Result<bool, EvalError>)
        requires
            old(self).wf(),
            old(self).prof_wf(),
        ensures
            final(self).wf(),
            final(self).prof_wf(),
            Self::step_frame(*old(self), *final(self)),
            old(self).input_is_text() ==> match r {
                Ok(true) => exists|fuel: nat|
                    #![auto]
                    run_model(old(self).spec_program(), old(self).mview(), fuel) == Some(
                        RunEnd::Halted(final(self).mview()),
                    ) && final(self).spec_hits() == model_hits(
                        old(self).spec_program(),
                        old(self).mview(),
                        old(self).spec_hits(),
                        fuel,
                    ),
                Ok(false) => steps_model(
                    old(self).spec_program(),
                    old(self).mview(),
                    max_steps as nat,
                ) == Some(final(self).mview()) && final(self).spec_hits() == model_hits(
                    old(self).spec_program(),
                    old(self).mview(),
                    old(self).spec_hits(),
                    max_steps as nat,
                ),
                Err(e) => exists|fuel: nat|
                    #![auto]
                    run_model(old(self).spec_program(), old(self).mview(), fuel) == Some(
                        RunEnd::Failed(e, final(self).mview()),
                    ) && final(self).spec_hits() == model_hits(
                        old(self).spec_program(),
                        old(self).mview(),
                        old(self).spec_hits(),
                        fuel,
                    ),
            },
            !old(self).input_is_text() ==> match r {
                Ok(true) => exists|k: nat, mid: Self|
                    #![auto]
                    Self::counted_reaches(*old(self), mid, k) && (Self::counted_console_step(
                        mid,
                        *final(self),
                        Ok(true),
                    ) || (*final(self) == mid && mid.spec_ip()
                        >= mid.spec_program().code@.len())),
                Ok(false) => Self::counted_reaches(*old(self), *final(self), max_steps as nat),
                Err(e) => exists|k: nat, mid: Self|
                    #![auto]
                    Self::counted_reaches(*old(self), mid, k) && Self::counted_console_step(
                        mid,
                        *final(self),
                        Err(e),
                    ),
            },
    {
        let ghost m0 = old(self).mview();
        let ghost prog = old(self).spec_program();
        let ghost h0 = old(self).spec_hits();
        let mut steps: usize = 0;
        while steps < max_steps
            invariant
                steps <= max_steps,
                self.wf(),
                self.prof_wf(),
                Self::step_frame(*old(self), *self),
                old(self).input_is_text() ==> steps_model(prog, m0, steps as nat) == Some(
                    self.mview(),
                ) && self.spec_hits() == model_hits(prog, m0, h0, steps as nat),
                !old(self).input_is_text() ==> Self::counted_reaches(
                    *old(self),
                    *self,
                    steps as nat,
                ),
                prog == old(self).spec_program(),
                m0 == old(self).mview(),
                h0 == old(self).spec_hits(),
            decreases max_steps - steps,
        {
            let ghost pre_vm = *self;
            let ghost pre_view = self.mview();
            let step_option = self.program.get_step(self.ip);
            if step_option.is_none() {
                proof {
                    if old(self).input_is_text() {
                        lemma_steps_end(prog, m0, steps as nat, pre_view);
                        lemma_model_hits_snoc(prog, m0, h0, steps as nat, pre_view);
                    }
                }
                return Ok(true);
            }
            let count = step_option.unwrap().opcode.count();
            proof {
                assert(self.spec_program().code@[self.spec_ip()].spec_count() == count);
            }
            let uncompressed_ip = self.config.ip_map[self.ip];
            let ghost pre_hits = self.config.hits@;
            let ghost at_ip = self.spec_ip();
            proof {
                crate::program::lemma_count_sum_take_step(
                    self.spec_program().code@,
                    self.spec_ip(),
                );
                lemma_count_sum_bounds(self.spec_program().code@, self.spec_ip());
            }
            let mut offset: usize = 0;
            while offset < count
                invariant
                    offset <= count,
                    self.wf(),
                    self.mview() == pre_view,
                    self.spec_stdin() == pre_vm.spec_stdin(),
                    self.spec_stdout() == pre_vm.spec_stdout(),
                    self.spec_mem() == pre_vm.spec_mem(),
                    self.spec_data_ptr() == pre_vm.spec_data_ptr(),
                    at_ip == pre_vm.spec_ip(),
                    pre_hits == pre_vm.spec_hits(),
                    count == self.spec_program().code@[at_ip].spec_count(),
                    0 <= at_ip < self.spec_program().code@.len(),
                    self.spec_ip() == at_ip,
                    uncompressed_ip == self.spec_ip_map()[at_ip],
                    uncompressed_ip + count <= self.spec_profile().len(),
                    self.spec_ip_map().len() == self.spec_program().code@.len() + 1,
                    forall|k: int|
                        0 <= k <= self.spec_program().code@.len() ==> (
                        #[trigger] self.spec_ip_map()[k]) == count_sum(
                            self.spec_program().code@.take(k),
                        ),
                    self.spec_hits().len() == self.spec_program().code@.len(),
                    self.spec_hits() == pre_hits,
                    self.spec_profile().len() == count_sum(self.spec_program().code@),
                    forall|k: int|
                        0 <= k < self.spec_program().code@.len() ==> 1 <= (
                        #[trigger] self.spec_program().code@[k]).spec_count(),
                    forall|i: int, j: int|
                        0 <= i < self.spec_program().code@.len() && 0 <= j
                            < self.spec_program().code@[i].spec_count() && !(i == at_ip && j
                            < offset) ==> (#[trigger] self.spec_profile()[
                            self.spec_ip_map()[i] + j
                        ]) == saturated(self.spec_hits()[i]),
                    forall|j: int|
                        0 <= j < offset ==> (#[trigger] self.spec_profile()[
                            self.spec_ip_map()[at_ip] + j
                        ]) == saturated(self.spec_hits()[at_ip] + 1),
                    Self::step_frame(*old(self), *self),
                decreases count - offset,
            {
                proof {
                    lemma_counter_index_bounds(self.spec_program().code@, self.spec_ip_map());
                }
                let cur = self.config.profile_data[uncompressed_ip + offset];
                let bumped = if cur < usize::MAX {
                    cur + 1
                } else {
                    cur
                };
                self.config.profile_data.set(uncompressed_ip + offset, bumped);
                proof {
                    lemma_counter_index_bounds(self.spec_program().code@, self.spec_ip_map());
                    lemma_ip_map_injective(
                        self.spec_program().code@,
                        self.spec_ip_map(),
                        at_ip,
                        offset as int,
                    );
                }
                offset += 1;
            }
            proof {
                self.config.hits@ = pre_hits.update(at_ip, (pre_hits[at_ip] + 1) as nat);
            }
            let step_result = self.execute_step();
            proof {
                if old(self).input_is_text() {
                    lemma_model_hits_snoc(prog, m0, h0, steps as nat, pre_view);
                    match step_result {
                        Ok(false) => {
                            lemma_steps_snoc(prog, m0, steps as nat, pre_view);
                        },
                        _ => {
                            lemma_steps_end(prog, m0, steps as nat, pre_view);
                        },
                    }
                } else {
                    assert(Self::counted_console_step(pre_vm, *self, step_result));
                    if step_result == Ok::<bool, EvalError>(false) {
                        assert(Self::counted_reaches(*old(self), pre_vm, steps as nat)
                            && Self::counted_console_step(pre_vm, *self, Ok(false))
                            && self.spec_program() == pre_vm.spec_program());
                        assert(Self::counted_reaches(*old(self), *self, (steps + 1) as nat));
                    }
                }
            }
            match step_result {
                Ok(true) => {
                    return Ok(true);
                },
                Ok(false) => {},
                Err(e) => {
                    return Err(e);
                },
            }
            steps += 1;
        }
        Ok(false)
    }

    /// The execution counters, one per original source character.
    pub fn profile_data(&self) -> (r: &Vec<usize>)
        ensures
            r@ == self.spec_profile(),
    {
        &self.config.profile_data
    }
}

/// Prefix sums of the fold counts are monotone and stay within the total.
pub proof fn lemma_count_sum_bounds(code: Seq<OpCode>, i: int)
    requires
        0 <= i < code.len(),
        forall|k: int| 0 <= k < code.len() ==> 1 <= (#[trigger] code[k]).spec_count(),
    ensures
        count_sum(code.take(i)) + code[i].spec_count() <= count_sum(code),
        count_sum(code.take(i)) >= 0,
    decreases code.len(),
{
    crate::program::lemma_count_sum_take_step(code, i);
    lemma_count_sum_take_le(code, i + 1);
    lemma_count_sum_nonneg(code.take(i));
}

/// With non-negative counts, a prefix counts no more than the whole.
pub proof fn lemma_count_sum_take_le(code: Seq<OpCode>, n: int)
    requires
        0 <= n <= code.len(),
        forall|k: int| 0 <= k < code.len() ==> 1 <= (#[trigger] code[k]).spec_count(),
    ensures
        count_sum(code.take(n)) <= count_sum(code),
    decreases code.len() - n,
{
    if n < code.len() {
        crate::program::lemma_count_sum_take_step(code, n);
        lemma_count_sum_take_le(code, n + 1);
    } else {
        assert(code.take(n) =~= code);
    }
}

/// A stream of opcodes with positive counts has a non-negative total.
pub proof fn lemma_count_sum_nonneg(code: Seq<OpCode>)
    requires
        forall|k: int| 0 <= k < code.len() ==> 1 <= (#[trigger] code[k]).spec_count(),
    ensures
        count_sum(code) >= 0,
    decreases code.len(),
{
    if code.len() > 0 {
        lemma_count_sum_nonneg(code.drop_last());
    }
}

/// Every counter index laid out by the prefix sums lies inside the table.
pub proof fn lemma_counter_index_bounds(code: Seq<OpCode>, ip_map: Seq<usize>)
    requires
        forall|k: int| 0 <= k < code.len() ==> 1 <= (#[trigger] code[k]).spec_count(),
        ip_map.len() == code.len() + 1,
        forall|k: int| 0 <= k <= code.len() ==> (#[trigger] ip_map[k]) == count_sum(code.take(k)),
    ensures
        forall|i: int, j: int|
            #![trigger ip_map[i] + j]
            0 <= i < code.len() && 0 <= j < code[i].spec_count() ==> 0 <= ip_map[i] + j
                < count_sum(code),
{
    assert forall|i: int, j: int|
        #![trigger ip_map[i] + j]
        0 <= i < code.len() && 0 <= j < code[i].spec_count() implies 0 <= ip_map[i] + j
        < count_sum(code) by {
        lemma_count_sum_bounds(code, i);
    }
}

/// Two different opcodes never share a counter: the counter ranges laid out
/// by the prefix sums are disjoint.
pub proof fn lemma_ip_map_injective(code: Seq<OpCode>, ip_map: Seq<usize>, i: int, j: int)
    requires
        forall|k: int| 0 <= k < code.len() ==> 1 <= (#[trigger] code[k]).spec_count(),
        ip_map.len() == code.len() + 1,
        forall|k: int| 0 <= k <= code.len() ==> (#[trigger] ip_map[k]) == count_sum(code.take(k)),
        0 <= i < code.len(),
        0 <= j < code[i].spec_count(),
    ensures
        forall|i2: int, j2: int|
            #![trigger ip_map[i2] + j2]
            0 <= i2 < code.len() && 0 <= j2 < code[i2].spec_count() && (i2 != i || j2 != j)
                ==> ip_map[i2] + j2 != ip_map[i] + j,
{
    assert forall|i2: int, j2: int|
        #![trigger ip_map[i2] + j2]
        0 <= i2 < code.len() && 0 <= j2 < code[i2].spec_count() && (i2 != i || j2 != j) implies ip_map[i2]
        + j2 != ip_map[i] + j by {
        if i2 < i {
            lemma_prefix_gap(code, i2, i);
        } else if i < i2 {
            lemma_prefix_gap(code, i, i2);
        }
    }
}

/// The counter range of an earlier opcode ends before a later one's begins.
pub proof fn lemma_prefix_gap(code: Seq<OpCode>, a: int, b: int)
    requires
        forall|k: int| 0 <= k < code.len() ==> 1 <= (#[trigger] code[k]).spec_count(),
        0 <= a < b < code.len(),
    ensures
        count_sum(code.take(a)) + code[a].spec_count() <= count_sum(code.take(b)),
    decreases b - a,
{
    crate::program::lemma_count_sum_take_step(code, a);
    if a + 1 == b {
    } else {
        lemma_prefix_gap(code, a + 1, b);
        crate::program::lemma_count_sum_take_step(code, a + 1);
    }
}

/// A cell bumped by one, `times` times over.
pub open spec fn iter_cell_add(c: u8, times: nat) -> u8
    decreases times,
{
    if times == 0 {
        c
    } else {
        cell_add(iter_cell_add(c, (times - 1) as nat), 1)
    }
}

/// A cell dropped by one, `times` times over.
pub open spec fn iter_cell_sub(c: u8, times: nat) -> u8
    decreases times,
{
    if times == 0 {
        c
    } else {
        cell_sub(iter_cell_sub(c, (times - 1) as nat), 1)
    }
}

/// Bumping a cell by one `times` times lands on the sum modulo 256.
pub proof fn lemma_iter_cell_add(c: u8, times: nat)
    ensures
        iter_cell_add(c, times) == ((c + times) % 256) as u8,
    decreases times,
{
    if times > 0 {
        lemma_iter_cell_add(c, (times - 1) as nat);
    }
}

/// Dropping a cell by one `times` times lands on the difference modulo 256.
pub proof fn lemma_iter_cell_sub(c: u8, times: nat)
    ensures
        iter_cell_sub(c, times) == ((c + 256 * times - times) % 256) as u8,
    decreases times,
{
    if times > 0 {
        lemma_iter_cell_sub(c, (times - 1) as nat);
        assert((c + 256 * times - times) % 256 == (c + 256 * (times - 1) - (times - 1) + 255)
            % 256);
    }
}

/// Wrap semantics of the cells: `+` applied 256 times to a zero cell gives
/// zero again, and `-` applied once to a zero cell gives 255.
pub proof fn lemma_wrap_semantics()
    ensures
        iter_cell_add(0, 256) == 0u8,
        cell_sub(0, 1) == 255u8,
{
    lemma_iter_cell_add(0, 256);
}

/// A folded value change acts like its unfolded form: adding `count` in
/// one opcode equals adding one `count` times, and so for subtracting —
/// the cell-level half of the equivalence of the two opcode streams.
#[verifier::rlimit(100)]
pub proof fn lemma_cell_fold_equivalence(c: u8, count: usize)
    ensures
        cell_add(c, count) == iter_cell_add(c, count as nat),
        cell_sub(c, count) == iter_cell_sub(c, count as nat),
{
    lemma_iter_cell_add(c, count as nat);
    lemma_iter_cell_sub(c, count as nat);
    assert(cell_add(c, count) == ((c + count) % 256) as u8) by {
        assert(count % 256 == count as int % 256);
        assert((c + count) % 256 == (c + count % 256) % 256);
    }
    assert(cell_sub(c, count) == ((c + 256 * count - count) % 256) as u8) by {
        assert((c + 256 * count - count) % 256 == (c + 256 - count % 256) % 256) by (nonlinear_arith)
            requires count >= 0;
    }
}

/// The sum of a counter prefix `[0, n)`.
pub open spec fn seg_sum(s: Seq<usize>, a: int, b: int) -> int
    decreases b - a,
{
    if a >= b {
        0int
    } else {
        seg_sum(s, a, b - 1) + s[b - 1]
    }
}

/// A sum splits at any midpoint.
pub proof fn lemma_seg_split(s: Seq<usize>, a: int, m: int, b: int)
    requires
        a <= m <= b,
    ensures
        seg_sum(s, a, b) == seg_sum(s, a, m) + seg_sum(s, m, b),
    decreases b - m,
{
    if m < b {
        lemma_seg_split(s, a, m, b - 1);
    }
}

/// A segment of equal counters sums to its width times the value.
pub proof fn lemma_seg_const(s: Seq<usize>, a: int, b: int, v: int)
    requires
        a <= b,
        forall|k: int| a <= k < b ==> (#[trigger] s[k]) == v,
    ensures
        seg_sum(s, a, b) == (b - a) * v,
    decreases b - a,
{
    if a < b {
        lemma_seg_const(s, a, b - 1, v);
        assert(s[b - 1] == v);
        assert(seg_sum(s, a, b) == seg_sum(s, a, b - 1) + s[b - 1]);
        assert((b - a) * v == (b - 1 - a) * v + v) by (nonlinear_arith);
    } else {
        assert((b - a) * v == 0) by (nonlinear_arith)
            requires
                a == b,
        ;
    }
}

/// The total number of primitive executions: each opcode's fold count
/// times the number of times it ran.
pub open spec fn weighted_hits(code: Seq<OpCode>, hits: Seq<nat>, n: int) -> int
    decreases n,
{
    if n <= 0 {
        0int
    } else {
        weighted_hits(code, hits, n - 1) + code[n - 1].spec_count() * hits[n - 1]
    }
}

/// Profiler consistency: while no counter has saturated, the sum of the
/// counter table equals the total number of primitive opcode executions,
/// and the `count` counters of an opcode executed `m` times all read `m`.
pub proof fn lemma_profiler_consistency(vm: VM<Profiler>)
    requires
        vm.wf(),
        vm.prof_wf(),
        forall|i: int|
            0 <= i < vm.spec_hits().len() ==> (#[trigger] vm.spec_hits()[i]) <= usize::MAX,
    ensures
        seg_sum(vm.spec_profile(), 0, vm.spec_profile().len() as int) == weighted_hits(
            vm.spec_program().code@,
            vm.spec_hits(),
            vm.spec_program().code@.len() as int,
        ),
        forall|i: int, j: int|
            0 <= i < vm.spec_program().code@.len() && 0 <= j
                < vm.spec_program().code@[i].spec_count() ==> (#[trigger] vm.spec_profile()[
                vm.spec_ip_map()[i] + j
            ]) == vm.spec_hits()[i],
{
    let code = vm.spec_program().code@;
    let profile = vm.spec_profile();
    let hits = vm.spec_hits();
    let ip_map = vm.spec_ip_map();
    lemma_profiler_sum_prefix(code, profile, hits, ip_map, code.len() as int);
    assert(ip_map[code.len() as int] == count_sum(code.take(code.len() as int)));
    assert(code.take(code.len() as int) =~= code);
}

/// The counter sum up to the `n`-th opcode's first counter equals the
/// weighted executions of the first `n` opcodes.
proof fn lemma_profiler_sum_prefix(
    code: Seq<OpCode>,
    profile: Seq<usize>,
    hits: Seq<nat>,
    ip_map: Seq<usize>,
    n: int,
)
    requires
        0 <= n <= code.len(),
        ip_map.len() == code.len() + 1,
        forall|k: int| 0 <= k <= code.len() ==> (#[trigger] ip_map[k]) == count_sum(code.take(k)),
        forall|k: int| 0 <= k < code.len() ==> 1 <= (#[trigger] code[k]).spec_count(),
        profile.len() == count_sum(code),
        hits.len() == code.len(),
        forall|i: int, j: int|
            0 <= i < code.len() && 0 <= j < code[i].spec_count() ==> (#[trigger] profile[
                ip_map[i] + j
            ]) == saturated(hits[i]),
        forall|i: int| 0 <= i < hits.len() ==> (#[trigger] hits[i]) <= usize::MAX,
    ensures
        seg_sum(profile, 0, ip_map[n] as int) == weighted_hits(code, hits, n),
    decreases n,
{
    if n > 0 {
        lemma_profiler_sum_prefix(code, profile, hits, ip_map, n - 1);
        crate::program::lemma_count_sum_take_step(code, n - 1);
        lemma_seg_split(profile, 0, ip_map[n - 1] as int, ip_map[n] as int);
        assert forall|k: int|
            ip_map[n - 1] <= k < ip_map[n] implies (#[trigger] profile[k]) == saturated(
            hits[n - 1],
        ) by {
            assert(profile[ip_map[n - 1] + (k - ip_map[n - 1])] == saturated(hits[n - 1]));
        }
        lemma_seg_const(
            profile,
            ip_map[n - 1] as int,
            ip_map[n] as int,
            saturated(hits[n - 1]),
        );
        assert(code[n - 1].spec_count() * hits[n - 1] == (ip_map[n] - ip_map[n - 1]) * saturated(
            hits[n - 1],
        ));
    }
}

} // verus!

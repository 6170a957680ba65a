//! The debugger: a console-backed VM with a breakpoint set, a listing
//! window, and a hex/ASCII memory dump.

use vstd::prelude::*;
use vstd::string::StringExecFns;

use crate::io::{StdinCap, StdinConsole, StdoutCap, StdoutConsole};
use crate::program::spec_listing;
use crate::text::{spec_hex, string_push};
use crate::vm::{EvalError, Normal, VM};

verus! {

/// How a debugger run came to a stop.
#[derive(Debug, Clone, Copy, PartialEq, Eq, Structural)]
pub enum DebugOutcome {
    /// The program ran off its end.
    Finished,
    /// A step landed on a breakpoint.
    AtBreakpoint,
    /// The step budget ran out first.
    OutOfSteps,
}

/// A debugger: the machine under inspection and its breakpoints, kept in
/// ascending order.
pub struct Debugger {
    vm: VM<Normal>,
    breakpoints: Vec<usize>,
}

/// A byte the ASCII column shows verbatim: the graphic ASCII range —
/// exactly the alphanumeric and punctuation characters.
pub open spec fn spec_printable(b: u8) -> bool {
    33 <= b <= 126
}

/// One 16-byte dump row at the aligned address `a`: the address, the hex
/// bytes inside the window, and the ASCII column.
pub open spec fn spec_dump_row(mem: Seq<u8>, start: int, len: int, a: int) -> Seq<char> {
    spec_hex(a, 4) + " | "@ + spec_hex_cells(mem, start, len, a, 16) + "| "@ + spec_ascii_cells(
        mem,
        start,
        len,
        a,
        16,
    ) + "\n"@
}

/// The first `j` hex cells of the row at `a`: blanks outside the window,
/// two hex digits and a space for each cell inside it that is on the tape.
pub open spec fn spec_hex_cells(mem: Seq<u8>, start: int, len: int, a: int, j: int) -> Seq<char>
    decreases j,
{
    if j <= 0 {
        Seq::empty()
    } else {
        let addr = a + (j - 1);
        spec_hex_cells(mem, start, len, a, j - 1) + if addr < start || start + len <= addr {
            "   "@
        } else if addr < mem.len() {
            spec_hex(mem[addr] as int, 2) + " "@
        } else {
            Seq::empty()
        }
    }
}

/// The first `j` ASCII cells of the row at `a`: a blank outside the window,
/// the character itself when printable, a dot otherwise.
pub open spec fn spec_ascii_cells(mem: Seq<u8>, start: int, len: int, a: int, j: int) -> Seq<char>
    decreases j,
{
    if j <= 0 {
        Seq::empty()
    } else {
        let addr = a + (j - 1);
        spec_ascii_cells(mem, start, len, a, j - 1) + if addr < start || start + len <= addr {
            " "@
        } else if addr < mem.len() {
            if spec_printable(mem[addr]) {
                seq![mem[addr] as char]
            } else {
                "."@
            }
        } else {
            Seq::empty()
        }
    }
}

/// The dump rows from aligned address `a` up past the end of the window.
pub open spec fn spec_dump_from(mem: Seq<u8>, start: int, len: int, a: int) -> Seq<char>
    decreases start + len + 16 - a,
{
    if a >= start + len || a < 0 {
        Seq::empty()
    } else {
        spec_dump_row(mem, start, len, a) + spec_dump_from(mem, start, len, a + 16)
    }
}

/// The whole memory dump of the window `[start, start + len)`: rows of 16
/// bytes, aligned to the 16-byte boundary at or below `start`.
pub open spec fn spec_memory_dump(mem: Seq<u8>, start: int, len: int) -> Seq<char> {
    spec_dump_from(mem, start, len, start - start % 16)
}

/// One step of a debugger run that keeps going: a console step reporting
/// more to do, landing outside the breakpoint set.
pub open spec fn run_step(bps: Seq<usize>, pre: VM<Normal>, post: VM<Normal>) -> bool {
    &&& VM::<Normal>::console_step_post(pre, post, Ok(false))
    &&& post.spec_program() == pre.spec_program()
    &&& !bps.contains(post.spec_ip() as usize)
}

/// The machine `post` is reachable from `pre` by exactly `k` continuing
/// steps, none of which lands on a breakpoint.
pub open spec fn run_reaches(bps: Seq<usize>, pre: VM<Normal>, post: VM<Normal>, k: nat) -> bool
    decreases k,
{
    if k == 0 {
        post == pre
    } else {
        exists|mid: VM<Normal>|
            run_reaches(bps, pre, mid, (k - 1) as nat) && run_step(bps, mid, post)
    }
}

impl Debugger {
    pub closed spec fn spec_vm(self) -> VM<Normal> {
        self.vm
    }

    pub closed spec fn spec_breakpoints(self) -> Seq<usize> {
        self.breakpoints@
    }

    /// A healthy debugger: a healthy console-backed machine and strictly
    /// ascending breakpoints.
    pub open spec fn wf(self) -> bool {
        &&& self.spec_vm().wf()
        &&& !self.spec_vm().input_is_text()
        &&& forall|a: int, b: int|
            0 <= a < b < self.spec_breakpoints().len() ==> self.spec_breakpoints()[a]
                < self.spec_breakpoints()[b]
    }

    /// Build a debugger over a console-backed machine with a prompt.
    pub fn new(code: &str, rle: bool, memory_size: usize) -> (r: Result<Self, EvalError>)
        requires
            memory_size >= 1,
        ensures
            match r {
                Ok(d) => {
                    &&& d.wf()
                    &&& d.spec_breakpoints() == Seq::<usize>::empty()
                    &&& d.spec_vm().spec_ip() == 0
                    &&& d.spec_vm().spec_data_ptr() == 0
                    &&& d.spec_vm().spec_mem() == Seq::new(memory_size as nat, |i: int| 0u8)
                    &&& d.spec_vm().spec_program().code@ == crate::program::Program::spec_tokens(
                        code@,
                        rle,
                    )
                    &&& crate::program::bracket_result(d.spec_vm().spec_program().code@) == Ok::<
                        Seq<Option<usize>>,
                        usize,
                    >(d.spec_vm().spec_program().jump_table@)
                    &&& d.spec_vm().spec_stdin() is Console
                    &&& d.spec_vm().spec_stdin().console_prompt() == Some("INPUT: "@)
                    &&& d.spec_vm().spec_stdout() is Console
                    &&& d.spec_vm().spec_stdout()@ == Seq::<char>::empty()
                },
                Err(e) => e matches EvalError::ProgramError(pe) && (pe matches
                    crate::program::ProgramError::MissingBracket(i)
                    && crate::program::bracket_result(
                    crate::program::Program::spec_tokens(code@, rle),
                ) == Err::<Seq<Option<usize>>, usize>(i)),
            },
    {
        let stdin = StdinConsole::new(Some(String::from_str("INPUT: ")));
        let stdout = StdoutConsole::new();
        let vm = match VM::<Normal>::new(
            code,
            StdinCap::Console(stdin),
            StdoutCap::Console(stdout),
            rle,
            memory_size,
        ) {
            Ok(vm) => vm,
            Err(e) => {
                return Err(e);
            },
        };
        Ok(Debugger { vm, breakpoints: Vec::new() })
    }

    /// The machine registers: `(ip, data_ptr)`.
    pub fn registers(&self) -> (r: (usize, usize))
        ensures
            r.0 == self.spec_vm().spec_ip(),
            r.1 == self.spec_vm().spec_data_ptr(),
    {
        (self.vm.ip(), self.vm.data_ptr())
    }

    /// Add a breakpoint; adding one twice changes nothing.
    pub fn breakpoints_add(&mut self, value: usize)
        requires
            old(self).wf(),
        ensures
            final(self).wf(),
            final(self).spec_vm() == old(self).spec_vm(),
            forall|x: usize|
                final(self).spec_breakpoints().contains(x) <==> (old(
                    self,
                ).spec_breakpoints().contains(x) || x == value),
    {
        let mut pos: usize = 0;
        while pos < self.breakpoints.len() && self.breakpoints[pos] < value
            invariant
                pos <= self.breakpoints@.len(),
                forall|k: int| 0 <= k < pos ==> (#[trigger] self.breakpoints@[k]) < value,
                *self == *old(self),
            decreases self.breakpoints@.len() - pos,
        {
            pos += 1;
        }
        if pos < self.breakpoints.len() && self.breakpoints[pos] == value {
            return ;
        }
        self.breakpoints.insert(pos, value);
        proof {
            let pre = old(self).spec_breakpoints();
            let post = self.breakpoints@;
            assert forall|x: usize| post.contains(x) implies (pre.contains(x) || x == value) by {
                let k = choose|k: int| 0 <= k < post.len() && post[k] == x;
                if k < pos {
                    assert(pre[k] == x);
                } else if k > pos {
                    assert(pre[k - 1] == x);
                }
            }
            assert forall|x: usize| pre.contains(x) || x == value implies post.contains(x) by {
                if x == value {
                    assert(post[pos as int] == x);
                } else {
                    let k = choose|k: int| 0 <= k < pre.len() && pre[k] == x;
                    if k < pos {
                        assert(post[k] == x);
                    } else {
                        assert(post[k + 1] == x);
                    }
                }
            }
        }
    }

    /// Remove a breakpoint; removing an absent one changes nothing.
    pub fn breakpoints_delete(&mut self, value: usize)
        requires
            old(self).wf(),
        ensures
            final(self).wf(),
            final(self).spec_vm() == old(self).spec_vm(),
            forall|x: usize|
                final(self).spec_breakpoints().contains(x) <==> (old(
                    self,
                ).spec_breakpoints().contains(x) && x != value),
    {
        let mut pos: usize = 0;
        while pos < self.breakpoints.len() && self.breakpoints[pos] != value
            invariant
                pos <= self.breakpoints@.len(),
                forall|k: int| 0 <= k < pos ==> (#[trigger] self.breakpoints@[k]) != value,
                *self == *old(self),
            decreases self.breakpoints@.len() - pos,
        {
            pos += 1;
        }
        if pos == self.breakpoints.len() {
            proof {
                assert forall|x: usize|
                    self.breakpoints@.contains(x) implies (old(self).spec_breakpoints().contains(x)
                    && x != value) by {
                    let k = choose|k: int|
                        0 <= k < self.breakpoints@.len() && self.breakpoints@[k] == x;
                }
            }
            return ;
        }
        self.breakpoints.remove(pos);
        proof {
            let pre = old(self).spec_breakpoints();
            let post = self.breakpoints@;
            assert forall|x: usize| post.contains(x) implies (pre.contains(x) && x != value) by {
                let k = choose|k: int| 0 <= k < post.len() && post[k] == x;
                if k < pos {
                    assert(pre[k] == x);
                    assert(pre[k] < pre[pos as int]);
                } else {
                    assert(pre[k + 1] == x);
                    assert(pre[pos as int] < pre[k + 1]);
                }
            }
            assert forall|x: usize| pre.contains(x) && x != value implies post.contains(x) by {
                let k = choose|k: int| 0 <= k < pre.len() && pre[k] == x;
                if k < pos {
                    assert(post[k] == x);
                } else if k > pos {
                    assert(post[k - 1] == x);
                }
            }
        }
    }

    /// The breakpoints, in ascending order.
    pub fn breakpoints_list(&self) -> (r: Vec<usize>)
        ensures
            r@ == self.spec_breakpoints(),
    {
        let mut out: Vec<usize> = Vec::new();
        let mut i: usize = 0;
        while i < self.breakpoints.len()
            invariant
                i <= self.breakpoints@.len(),
                out@ == self.breakpoints@.take(i as int),
            decreases self.breakpoints@.len() - i,
        {
            out.push(self.breakpoints[i]);
            proof {
                assert(out@ =~= self.breakpoints@.take(i + 1));
            }
            i += 1;
        }
        proof {
            assert(self.breakpoints@.take(self.breakpoints@.len() as int) =~= self.breakpoints@);
        }
        out
    }

    /// List the opcodes in a window of three instructions around `index`,
    /// or around the current instruction when none is given.
    pub fn program_list(&self, index: Option<usize>) -> (r: String)
        requires
            self.wf(),
        ensures
            ({
                let focus = if index is Some {
                    index->0 as int
                } else {
                    self.spec_vm().spec_ip()
                };
                let lo = if focus >= 3 {
                    focus - 3
                } else {
                    0
                };
                let hi = if focus + 3 <= self.spec_vm().spec_program().code@.len() {
                    focus + 3
                } else {
                    self.spec_vm().spec_program().code@.len() as int
                };
                r@ == spec_listing(
                    self.spec_vm().spec_program().code@,
                    self.spec_vm().spec_program().jump_table@,
                    self.spec_vm().spec_program().spec_gutter_width(),
                    self.spec_vm().spec_program().code@.len() as int,
                    Some(lo as usize),
                    Some(hi as usize),
                )
            }),
    {
        let border: usize = 3;
        let focus = match index {
            Some(i) => i,
            None => self.vm.ip(),
        };
        let start = if focus >= border {
            focus - border
        } else {
            0
        };
        let code_len = self.vm.program().code.len();
        let end = if focus <= code_len && code_len - focus >= border {
            focus + border
        } else {
            code_len
        };
        proof {
            assert(end as int == if focus + 3 <= self.spec_vm().spec_program().code@.len() {
                focus + 3
            } else {
                self.spec_vm().spec_program().code@.len() as int
            });
        }
        match self.vm.program().listing(Some(start), Some(end)) {
            Ok(data) => data,
            Err(_) => String::new(),
        }
    }

    /// Read one tape cell, if it is on the tape.
    pub fn memory(&self, index: usize) -> (r: Option<u8>)
        ensures
            index < self.spec_vm().spec_mem().len() ==> r == Some(
                self.spec_vm().spec_mem()[index as int],
            ),
            index >= self.spec_vm().spec_mem().len() ==> r is None,
    {
        if index < self.vm.memory().len() {
            Some(self.vm.memory()[index])
        } else {
            None
        }
    }

    /// Hex dump of the window `[start, start + len)`: 16 bytes per row,
    /// aligned to the 16-byte boundary at or below `start`, with an ASCII
    /// column where printable bytes show verbatim and others as a dot.
    pub fn memory_dump(&self, start: usize, len: usize) -> (r: String)
        requires
            start + len <= usize::MAX - 15,
        ensures
            r@ == spec_memory_dump(self.spec_vm().spec_mem(), start as int, len as int),
    {
        let ghost mem = self.spec_vm().spec_mem();
        let element_count: usize = 16;
        let mut aligned = start - start % 16;
        let mut dump = String::new();
        while aligned < start + len
            invariant
                start + len <= usize::MAX - 15,
                aligned % 16 == 0 || aligned == start - start % 16,
                mem == self.spec_vm().spec_mem(),
                element_count == 16,
                spec_memory_dump(mem, start as int, len as int) == dump@ + spec_dump_from(
                    mem,
                    start as int,
                    len as int,
                    aligned as int,
                ),
                aligned >= start - start % 16,
            decreases start + len + 16 - aligned,
        {
            let ghost pre = dump@;
            crate::text::push_hex(&mut dump, aligned, 4);
            dump.append(" | ");

            let mut offset: usize = 0;
            let ghost row_pre = dump@;
            while offset < element_count
                invariant
                    start + len <= usize::MAX - 15,
                    offset <= 16,
                    element_count == 16,
                    mem == self.spec_vm().spec_mem(),
                    aligned + 16 <= usize::MAX,
                    dump@ == row_pre + spec_hex_cells(
                        mem,
                        start as int,
                        len as int,
                        aligned as int,
                        offset as int,
                    ),
                decreases element_count - offset,
            {
                let address = aligned + offset;
                if address < start || start + len <= address {
                    dump.append("   ");
                } else if address < self.vm.memory().len() {
                    let value = self.vm.memory()[address];
                    crate::text::push_hex(&mut dump, value as usize, 2);
                    dump.append(" ");
                }
                proof {
                    assert(dump@ =~= row_pre + spec_hex_cells(
                        mem,
                        start as int,
                        len as int,
                        aligned as int,
                        offset + 1,
                    ));
                }
                offset += 1;
            }

            dump.append("| ");

            let mut offset2: usize = 0;
            let ghost ascii_pre = dump@;
            while offset2 < element_count
                invariant
                    start + len <= usize::MAX - 15,
                    offset2 <= 16,
                    element_count == 16,
                    mem == self.spec_vm().spec_mem(),
                    aligned + 16 <= usize::MAX,
                    dump@ == ascii_pre + spec_ascii_cells(
                        mem,
                        start as int,
                        len as int,
                        aligned as int,
                        offset2 as int,
                    ),
                decreases element_count - offset2,
            {
                let address = aligned + offset2;
                if address < start || start + len <= address {
                    dump.append(" ");
                } else if address < self.vm.memory().len() {
                    let value = self.vm.memory()[address];
                    if 33 <= value && value <= 126 {
                        string_push(&mut dump, value as char);
                    } else {
                        dump.append(".");
                    }
                }
                proof {
                    assert(dump@ =~= ascii_pre + spec_ascii_cells(
                        mem,
                        start as int,
                        len as int,
                        aligned as int,
                        offset2 + 1,
                    ));
                }
                offset2 += 1;
            }

            dump.append("\n");
            proof {
                assert(dump@ =~= pre + spec_dump_row(
                    mem,
                    start as int,
                    len as int,
                    aligned as int,
                ));
            }
            aligned += element_count;
        }
        proof {
            assert(spec_dump_from(mem, start as int, len as int, aligned as int)
                =~= Seq::<char>::empty());
            assert(dump@ =~= dump@ + Seq::<char>::empty());
        }
        dump
    }

    /// The console output written so far.
    pub fn output(&self) -> (r: String)
        ensures
            r@ == self.spec_vm().spec_stdout()@,
    {
        self.vm.stdout().to_string()
    }

    /// Execute exactly one step; `Ok(true)` means the program is done.
    pub fn step(&mut self) -> (r: Result<bool, EvalError>)
        requires
            old(self).wf(),
        ensures
            final(self).wf(),
            final(self).spec_breakpoints() == old(self).spec_breakpoints(),
            VM::<Normal>::step_frame(old(self).spec_vm(), final(self).spec_vm()),
            VM::<Normal>::console_step_post(old(self).spec_vm(), final(self).spec_vm(), r),
    {
        let r = self.vm.execute_step();
        proof {
            assert(self.spec_breakpoints() == old(self).spec_breakpoints());
        }
        r
    }

    /// Step until the program ends, a step lands on a breakpoint, a step
    /// fails, or the step budget runs out. Every outcome names its cause:
    /// `Finished` only after a step reported the program done, a breakpoint
    /// stop only on a breakpoint, an error only as a step reported it, and
    /// `OutOfSteps` only after exactly `max_steps` quiet steps.
    pub fn run(&mut self, max_steps: usize) -> (r: Result<DebugOutcome, EvalError>)
        requires
            old(self).wf(),
        ensures
            final(self).wf(),
            final(self).spec_breakpoints() == old(self).spec_breakpoints(),
            VM::<Normal>::step_frame(old(self).spec_vm(), final(self).spec_vm()),
            ({
                let bps = old(self).spec_breakpoints();
                match r {
                    Ok(DebugOutcome::Finished) => exists|k: nat, mid: VM<Normal>|
                        #![auto]
                        run_reaches(bps, old(self).spec_vm(), mid, k)
                            && VM::<Normal>::console_step_post(
                            mid,
                            final(self).spec_vm(),
                            Ok(true),
                        ),
                    Ok(DebugOutcome::AtBreakpoint) => (exists|k: nat, mid: VM<Normal>|
                        #![auto]
                        run_reaches(bps, old(self).spec_vm(), mid, k)
                            && VM::<Normal>::console_step_post(
                            mid,
                            final(self).spec_vm(),
                            Ok(false),
                        )) && bps.contains(final(self).spec_vm().spec_ip() as usize),
                    Ok(DebugOutcome::OutOfSteps) => run_reaches(
                        bps,
                        old(self).spec_vm(),
                        final(self).spec_vm(),
                        max_steps as nat,
                    ),
                    Err(e) => exists|k: nat, mid: VM<Normal>|
                        #![auto]
                        run_reaches(bps, old(self).spec_vm(), mid, k)
                            && VM::<Normal>::console_step_post(
                            mid,
                            final(self).spec_vm(),
                            Err(e),
                        ),
                }
            }),
    {
        let ghost bps = old(self).spec_breakpoints();
        let mut steps: usize = 0;
        while steps < max_steps
            invariant
                steps <= max_steps,
                self.wf(),
                self.spec_breakpoints() == old(self).spec_breakpoints(),
                bps == old(self).spec_breakpoints(),
                VM::<Normal>::step_frame(old(self).spec_vm(), self.spec_vm()),
                run_reaches(bps, old(self).spec_vm(), self.spec_vm(), steps as nat),
            decreases max_steps - steps,
        {
            let ghost pre_vm = self.spec_vm();
            let step_result = self.vm.execute_step();
            match step_result {
                Ok(true) => {
                    return Ok(DebugOutcome::Finished);
                },
                Ok(false) => {},
                Err(e) => {
                    return Err(e);
                },
            }
            let ip = self.vm.ip();
            if self.breakpoint_hit(ip) {
                return Ok(DebugOutcome::AtBreakpoint);
            }
            proof {
                assert(run_reaches(bps, old(self).spec_vm(), pre_vm, steps as nat) && run_step(
                    bps,
                    pre_vm,
                    self.spec_vm(),
                ));
                assert(run_reaches(bps, old(self).spec_vm(), self.spec_vm(), (steps + 1) as nat));
            }
            steps += 1;
        }
        Ok(DebugOutcome::OutOfSteps)
    }

    /// Whether `ip` is in the breakpoint set.
    fn breakpoint_hit(&self, ip: usize) -> (r: bool)
        ensures
            r == self.spec_breakpoints().contains(ip),
    {
        let mut i: usize = 0;
        while i < self.breakpoints.len()
            invariant
                i <= self.breakpoints@.len(),
                forall|k: int| 0 <= k < i ==> (#[trigger] self.breakpoints@[k]) != ip,
            decreases self.breakpoints@.len() - i,
        {
            if self.breakpoints[i] == ip {
                return true;
            }
            i += 1;
        }
        false
    }
}

} // verus!

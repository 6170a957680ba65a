//! Parsing of source text into an opcode stream with a matched-bracket
//! jump table, and the step lookup the interpreter runs on.

use vstd::prelude::*;

use vstd::string::StringExecFns;

use crate::opcode::{count_sum, rle_fold, rle_push, tokens, OpCode};

verus! {

/// An error found while constructing a [`Program`]: the index of an
/// unmatched bracket in the opcode stream.
#[derive(Debug, Clone, Copy, PartialEq, Eq, Structural)]
pub enum ProgramError {
    MissingBracket(usize),
}

/// A parsed program: the opcode stream and, for each bracket, the index of
/// its mate. Non-bracket positions hold `None`.
#[derive(Debug)]
pub struct Program {
    pub code: Vec<OpCode>,
    pub jump_table: Vec<Option<usize>>,
}

/// The lookup result at one instruction pointer: the opcode, its natural
/// successor, and, for brackets, the index past the matching bracket.
#[derive(Debug, Clone, Copy, PartialEq)]
pub struct Step {
    pub opcode: OpCode,
    pub then_ip: Option<usize>,
    pub else_ip: Option<usize>,
}

impl Step {
    pub fn new(opcode: OpCode, then_ip: Option<usize>, else_ip: Option<usize>) -> (r: Self)
        ensures
            r == (Step { opcode, then_ip, else_ip }),
    {
        Step { opcode, then_ip, else_ip }
    }
}

/// The state of the bracket scan after some prefix of the opcode stream:
/// the open brackets still waiting for a mate, the jump table built so far,
/// and the position of the first unmatched closing bracket, if one was seen.
pub struct ScanState {
    pub stack: Seq<usize>,
    pub jt: Seq<Option<usize>>,
    pub err: Option<usize>,
}

/// The bracket scan over the first `n` opcodes: push each `LoopStart`,
/// pop on `LoopEnd` and record the pair both ways, stop at the first
/// `LoopEnd` with nothing to pop.
pub open spec fn scan(code: Seq<OpCode>, n: int) -> ScanState
    decreases n,
{
    if n <= 0 {
        ScanState { stack: Seq::empty(), jt: Seq::new(code.len(), |i| None), err: None }
    } else {
        let pre = scan(code, n - 1);
        if pre.err is Some {
            pre
        } else {
            match code[n - 1] {
                OpCode::LoopStart => ScanState {
                    stack: pre.stack.push((n - 1) as usize),
                    jt: pre.jt,
                    err: None,
                },
                OpCode::LoopEnd => if pre.stack.len() == 0 {
                    ScanState { stack: pre.stack, jt: pre.jt, err: Some((n - 1) as usize) }
                } else {
                    ScanState {
                        stack: pre.stack.drop_last(),
                        jt: pre.jt.update(pre.stack.last() as int, Some((n - 1) as usize)).update(
                            n - 1,
                            Some(pre.stack.last()),
                        ),
                        err: None,
                    }
                },
                _ => pre,
            }
        }
    }
}

/// What bracket matching yields for a whole opcode stream: the finished jump
/// table, or the index of the unmatched bracket reported first — the first
/// stray `LoopEnd`, else the most deeply nested stray `LoopStart`.
pub open spec fn bracket_result(code: Seq<OpCode>) -> Result<Seq<Option<usize>>, usize> {
    let fin = scan(code, code.len() as int);
    if fin.err is Some {
        Err(fin.err->0)
    } else if fin.stack.len() > 0 {
        Err(fin.stack.last())
    } else {
        Ok(fin.jt)
    }
}

/// The mate of position `i` under jump table `jt`, as an index.
pub open spec fn mate(jt: Seq<Option<usize>>, i: int) -> int {
    jt[i]->0 as int
}

/// Position `i` opens a matched pair: it is a `LoopStart` with a mate.
pub open spec fn is_start_pair(code: Seq<OpCode>, jt: Seq<Option<usize>>, i: int) -> bool {
    0 <= i < jt.len() && jt[i] is Some && code[i] is LoopStart
}

/// The entry at `k` is one half of a coherent bracket pair.
pub open spec fn pair_ok(code: Seq<OpCode>, jt: Seq<Option<usize>>, k: int) -> bool {
    let m = mate(jt, k);
    &&& 0 <= m < jt.len()
    &&& m != k
    &&& jt[m] == Some(k as usize)
    &&& code[k].is_bracket()
    &&& (code[k] is LoopStart ==> k < m && code[m] is LoopEnd)
    &&& (code[k] is LoopEnd ==> m < k && code[m] is LoopStart)
}

/// A jump table is well formed for an opcode stream: exactly the brackets
/// have entries, every entry is half of a coherent pair, and pairs nest —
/// a pair opened inside another closes inside it.
pub open spec fn wf_jump_table(code: Seq<OpCode>, jt: Seq<Option<usize>>) -> bool {
    &&& jt.len() == code.len()
    &&& forall|i: int|
        0 <= i < jt.len() ==> ((#[trigger] jt[i]) is Some <==> code[i].is_bracket())
    &&& forall|i: int|
        0 <= i < jt.len() && (#[trigger] jt[i]) is Some ==> pair_ok(code, jt, i)
    &&& forall|i: int, k: int|
        #![trigger jt[i], jt[k]]
        is_start_pair(code, jt, i) && is_start_pair(code, jt, k) && i < k < mate(jt, i) ==> mate(
            jt,
            k,
        ) < mate(jt, i)
}

impl Program {
    /// A constructed program: the jump table matches the code, and the total
    /// fold count (the original source length in instruction characters)
    /// fits the machine.
    pub open spec fn wf(self) -> bool {
        &&& wf_jump_table(self.code@, self.jump_table@)
        &&& count_sum(self.code@) <= usize::MAX
        &&& forall|k: int| 0 <= k < self.code@.len() ==> 1 <= (#[trigger] self.code@[k]).spec_count()
    }

    /// The opcode stream a source parses to, before bracket matching.
    pub open spec fn spec_tokens(source: Seq<char>, rle: bool) -> Seq<OpCode> {
        if rle {
            rle_fold(tokens(source))
        } else {
            tokens(source)
        }
    }

    /// Parse a source text: keep the eight instruction characters, fold runs
    /// when `rle` is set, and match brackets. Returns the program, or the
    /// index of the first unmatched bracket as the scan reports it.
    pub fn new(program_string: &str, rle: bool) -> (r: Result<Program, ProgramError>)
        ensures
            match r {
                Ok(p) => {
                    &&& p.code@ == Self::spec_tokens(program_string@, rle)
                    &&& bracket_result(p.code@) == Ok::<_, usize>(p.jump_table@)
                    &&& p.wf()
                },
                Err(e) => {
                    &&& e matches ProgramError::MissingBracket(i) && bracket_result(
                        Self::spec_tokens(program_string@, rle),
                    ) == Err::<Seq<Option<usize>>, usize>(i)
                },
            },
    {
        let source_len = program_string.unicode_len();
        let mut code: Vec<OpCode> = Vec::new();

        // Tokenise: each instruction character becomes an opcode of count 1.
        let mut i: usize = 0;
        while i < source_len
            invariant
                i <= source_len,
                source_len == program_string@.len(),
                code@ == tokens(program_string@.take(i as int)),
            decreases source_len - i,
        {
            let c = program_string.get_char(i);
            proof {
                lemma_tokens_step(program_string@, i as int);
            }
            match OpCode::convert(c) {
                Some(op) => code.push(op),
                None => {},
            }
            i += 1;
        }
        proof {
            assert(program_string@.take(source_len as int) =~= program_string@);
            lemma_tokens_count_one(program_string@);
        }

        // Fold runs: merge a newcomer into an equal-kind top of the stream.
        if rle {
            let ghost toks = code@;
            let token_count = code.len();
            let mut acc: Vec<OpCode> = Vec::new();
            let mut j: usize = 0;
            while j < token_count
                invariant
                    j <= token_count,
                    token_count == toks.len(),
                    code@ == toks,
                    acc@ == rle_fold(toks.take(j as int)),
                    count_sum(acc@) == j,
                    forall|k: int|
                        0 <= k < acc@.len() ==> 1 <= (#[trigger] acc@[k]).spec_count() <= j,
                    forall|k: int|
                        0 <= k < toks.len() ==> (#[trigger] toks[k]).spec_count() == 1,
                decreases token_count - j,
            {
                let current = code[j];
                proof {
                    lemma_rle_fold_step(toks, j as int);
                    let pre = acc@;
                    if pre.len() > 0 {
                        lemma_count_sum_push(pre.drop_last(), pre.last());
                        assert(pre.drop_last().push(pre.last()) =~= pre);
                        lemma_count_sum_push(pre, current);
                        if crate::opcode::spec_merge(pre.last(), current) is Some {
                            lemma_count_sum_push(
                                pre.drop_last(),
                                crate::opcode::spec_merge(pre.last(), current)->0,
                            );
                        }
                    } else {
                        lemma_count_sum_push(pre, current);
                    }
                }
                if let Some(top) = acc.pop() {
                    match (top, current) {
                        (OpCode::DecDataPtr(count), OpCode::DecDataPtr(1)) => acc.push(
                            OpCode::DecDataPtr(count + 1),
                        ),
                        (OpCode::IncDataPtr(count), OpCode::IncDataPtr(1)) => acc.push(
                            OpCode::IncDataPtr(count + 1),
                        ),
                        (OpCode::DecValue(count), OpCode::DecValue(1)) => acc.push(
                            OpCode::DecValue(count + 1),
                        ),
                        (OpCode::IncValue(count), OpCode::IncValue(1)) => acc.push(
                            OpCode::IncValue(count + 1),
                        ),
                        (t, c) => {
                            acc.push(t);
                            acc.push(c);
                        },
                    }
                } else {
                    acc.push(current);
                }
                j += 1;
            }
            proof {
                assert(toks.take(token_count as int) =~= toks);
            }
            proof {
                assert(count_sum(acc@) <= usize::MAX);
            }
            code = acc;
        } else {
            let plain_len = code.len();
            proof {
                lemma_count_sum_ones(code@);
                assert(count_sum(code@) == plain_len);
            }
        }
        Self::match_brackets(code)
    }

    /// Bracket matching over a finished opcode stream.
    fn match_brackets(code: Vec<OpCode>) -> (r: Result<Program, ProgramError>)
        requires
            count_sum(code@) <= usize::MAX,
            forall|k: int| 0 <= k < code@.len() ==> 1 <= (#[trigger] code@[k]).spec_count(),
        ensures
            match r {
                Ok(p) => {
                    &&& p.code@ == code@
                    &&& bracket_result(code@) == Ok::<_, usize>(p.jump_table@)
                    &&& p.wf()
                },
                Err(e) => {
                    &&& e matches ProgramError::MissingBracket(i) && bracket_result(code@)
                        == Err::<Seq<Option<usize>>, usize>(i)
                },
            },
    {
        let code_len = code.len();
        let mut jump_table: Vec<Option<usize>> = Vec::new();
        let mut n: usize = 0;
        while n < code_len
            invariant
                n <= code_len,
                jump_table@ =~= Seq::new(n as nat, |i: int| None::<usize>),
            decreases code_len - n,
        {
            jump_table.push(None);
            n += 1;
        }
        proof {
            assert(jump_table@ =~= scan(code@, 0).jt);
        }

        let mut stack: Vec<usize> = Vec::new();
        let mut index: usize = 0;
        while index < code_len
            invariant
                index <= code_len,
                code_len == code@.len(),
                jump_table@.len() == code@.len(),
                scan(code@, index as int) == (ScanState {
                    stack: stack@,
                    jt: jump_table@,
                    err: None,
                }),
                forall|a: int, b: int| 0 <= a < b < stack@.len() ==> stack@[a] < stack@[b],
                forall|a: int|
                    0 <= a < stack@.len() ==> {
                        let e = (#[trigger] stack@[a]) as int;
                        &&& e < index
                        &&& code@[e] is LoopStart
                        &&& jump_table@[e] is None
                    },
                forall|k: int|
                    0 <= k < code@.len() && (#[trigger] jump_table@[k]) is Some ==> k < index
                        && mate(jump_table@, k) < index && pair_ok(code@, jump_table@, k),
                forall|k: int|
                    0 <= k < index && code@[k].is_bracket() && (#[trigger] jump_table@[k]) is None
                        ==> stack@.contains(k as usize),
                forall|i2: int, k2: int|
                    #![trigger jump_table@[i2], jump_table@[k2]]
                    is_start_pair(code@, jump_table@, i2) && is_start_pair(code@, jump_table@, k2)
                        && i2 < k2 < mate(jump_table@, i2) ==> mate(jump_table@, k2) < mate(
                        jump_table@,
                        i2,
                    ),
                forall|k: int, a: int|
                    #![trigger jump_table@[k], stack@[a]]
                    0 <= k < code@.len() && jump_table@[k] is Some && k < mate(jump_table@, k) && 0
                        <= a < stack@.len() ==> !(k <= stack@[a] <= mate(jump_table@, k)),
            decreases code_len - index,
        {
            let ghost pre_stack = stack@;
            let ghost pre_jt = jump_table@;
            match code[index] {
                OpCode::LoopStart => {
                    stack.push(index);
                    proof {
                        assert forall|k: int|
                            0 <= k < index + 1 && code@[k].is_bracket() && (#[trigger] jump_table@[k]) is None implies stack@.contains(
                            k as usize,
                        ) by {
                            if k < index {
                                let a = choose|a: int|
                                    0 <= a < pre_stack.len() && pre_stack[a] == k as usize;
                                assert(stack@[a] == k as usize);
                            } else {
                                assert(stack@[stack@.len() - 1] == k as usize);
                            }
                        }
                    }
                },
                OpCode::LoopEnd => {
                    if stack.len() == 0 {
                        proof {
                            lemma_scan_err_stable(code@, index + 1, code@.len() as int);
                        }
                        return Err(ProgramError::MissingBracket(index));
                    }
                    let start = stack.pop().unwrap();
                    jump_table.set(start, Some(index));
                    jump_table.set(index, Some(start));
                    proof {
                        let jt2 = jump_table@;
                        assert(stack@ =~= pre_stack.drop_last());
                        assert(pre_stack.last() == start);
                        assert forall|k: int|
                            0 <= k < index + 1 && code@[k].is_bracket() && (#[trigger] jt2[k]) is None implies stack@.contains(
                            k as usize,
                        ) by {
                            assert(k != start as int && k != index as int);
                            assert(pre_jt[k] is None);
                            let a = choose|a: int|
                                0 <= a < pre_stack.len() && pre_stack[a] == k as usize;
                            assert(a < pre_stack.len() - 1);
                            assert(stack@[a] == k as usize);
                        }
                        assert forall|k: int|
                            0 <= k < code@.len() && (#[trigger] jt2[k]) is Some implies k < index
                            + 1 && mate(jt2, k) < index + 1 && pair_ok(code@, jt2, k) by {
                            if k != start && k != index {
                                assert(pre_jt[k] == jt2[k]);
                                assert(pair_ok(code@, pre_jt, k));
                                let m = mate(pre_jt, k);
                                assert(m != start && m != index);
                            }
                        }
                        assert forall|i2: int, k2: int|
                            is_start_pair(code@, jt2, i2) && is_start_pair(code@, jt2, k2) && i2
                                < k2 < mate(jt2, i2) implies #[trigger] mate(jt2, k2) < #[trigger] mate(
                            jt2,
                            i2,
                        ) by {
                            if i2 != start as int && k2 != start as int {
                                assert(is_start_pair(code@, pre_jt, i2));
                                assert(is_start_pair(code@, pre_jt, k2));
                            } else if i2 == start as int && k2 != start as int {
                                assert(is_start_pair(code@, pre_jt, k2));
                                assert(!(k2 <= start as int <= mate(pre_jt, k2)));
                            } else if i2 != start as int && k2 == start as int {
                                assert(is_start_pair(code@, pre_jt, i2));
                                assert(!(i2 <= start as int <= mate(pre_jt, i2)));
                            }
                        }
                    }
                },
                _ => {},
            }
            index += 1;
        }
        if stack.len() > 0 {
            let last = stack[stack.len() - 1];
            return Err(ProgramError::MissingBracket(last));
        }
        proof {
            assert forall|k: int|
                0 <= k < jump_table@.len() implies ((#[trigger] jump_table@[k]) is Some
                <==> code@[k].is_bracket()) by {
            }
        }
        Ok(Program { code, jump_table })
    }

    /// The step the interpreter takes at `ip`: the opcode, the natural
    /// successor, and, at a bracket, the exit past the mate. `None` past the
    /// end of the program.
    pub open spec fn spec_step(self, ip: int) -> Option<Step> {
        let code = self.code@;
        let jt = self.jump_table@;
        if 0 <= ip < code.len() {
            let op = code[ip];
            let next = if ip + 1 < code.len() {
                Some((ip + 1) as usize)
            } else {
                None
            };
            let entry = if ip < jt.len() {
                jt[ip]
            } else {
                None
            };
            if op is LoopStart {
                match entry {
                    None => None,
                    Some(loop_end) => Some(
                        Step {
                            opcode: op,
                            then_ip: next,
                            else_ip: if loop_end + 1 < code.len() {
                                Some((loop_end + 1) as usize)
                            } else {
                                None
                            },
                        },
                    ),
                }
            } else if op is LoopEnd {
                match entry {
                    None => None,
                    Some(loop_start) => Some(
                        Step { opcode: op, then_ip: Some((loop_start + 1) as usize), else_ip: next },
                    ),
                }
            } else {
                Some(Step { opcode: op, then_ip: next, else_ip: None })
            }
        } else {
            None
        }
    }

    /// Look up the step at instruction pointer `ip`.
    pub fn get_step(&self, ip: usize) -> (r: Option<Step>)
        requires
            self.wf(),
        ensures
            r == self.spec_step(ip as int),
            r is Some <==> ip < self.code@.len(),
    {
        if ip >= self.code.len() {
            return None;
        }
        let code_len = self.code.len();
        let opcode = self.code[ip];
        let next_ip = if ip + 1 < code_len {
            Some(ip + 1)
        } else {
            None
        };
        match opcode {
            OpCode::LoopStart => {
                let loop_end_index = self.jump_table[ip].unwrap();
                Some(
                    Step::new(
                        opcode,
                        next_ip,
                        if loop_end_index + 1 < code_len {
                            Some(loop_end_index + 1)
                        } else {
                            None
                        },
                    ),
                )
            },
            OpCode::LoopEnd => {
                let loop_start_index = self.jump_table[ip].unwrap();
                Some(Step::new(opcode, Some(loop_start_index + 1), next_ip))
            },
            _ => Some(Step::new(opcode, next_ip, None)),
        }
    }

    /// The instruction characters of the program, in order.
    pub open spec fn spec_chars(self) -> Seq<char> {
        self.code@.map_values(|op: OpCode| op.spec_char())
    }

    /// Render the program back as its instruction characters.
    pub fn to_string(&self) -> (r: String)
        ensures
            r@ == self.spec_chars(),
    {
        let mut out = String::new();
        let mut i: usize = 0;
        while i < self.code.len()
            invariant
                i <= self.code@.len(),
                out@ =~= self.code@.take(i as int).map_values(|op: OpCode| op.spec_char()),
            decreases self.code@.len() - i,
        {
            crate::text::string_push(&mut out, self.code[i].to_char());
            proof {
                assert(out@ =~= self.code@.take(i + 1).map_values(
                    |op: OpCode| op.spec_char(),
                ));
            }
            i += 1;
        }
        proof {
            assert(self.code@.take(self.code@.len() as int) =~= self.code@);
        }
        out
    }
}

/// The loop depth after the first `n` opcodes: up at `[`, down at `]`,
/// never below zero.
pub open spec fn spec_depth(code: Seq<OpCode>, n: int) -> int
    decreases n,
{
    if n <= 0 {
        0
    } else {
        let d = spec_depth(code, n - 1);
        match code[n - 1] {
            OpCode::LoopStart => d + 1,
            OpCode::LoopEnd => if d > 0 {
                d - 1
            } else {
                0
            },
            _ => d,
        }
    }
}

/// The indentation of the listing line for index `i`: the depth of the
/// loop the opcode belongs to, brackets counted inside their own loop.
pub open spec fn spec_indent(code: Seq<OpCode>, i: int) -> int {
    match code[i] {
        OpCode::LoopStart => spec_depth(code, i) + 1,
        _ => spec_depth(code, i),
    }
}

/// The deepest indentation among the first `n` opcodes.
pub open spec fn spec_max_indent(code: Seq<OpCode>, n: int) -> int
    decreases n,
{
    if n <= 0 {
        0
    } else {
        let rest = spec_max_indent(code, n - 1);
        if spec_indent(code, n - 1) > rest {
            spec_indent(code, n - 1)
        } else {
            rest
        }
    }
}

/// The debug rendering of one opcode, as the listing prints it.
pub open spec fn spec_opcode_debug(op: OpCode) -> Seq<char> {
    match op {
        OpCode::IncDataPtr(n) => "IncDataPtr("@ + crate::text::spec_dec(n as int, 1) + ")"@,
        OpCode::DecDataPtr(n) => "DecDataPtr("@ + crate::text::spec_dec(n as int, 1) + ")"@,
        OpCode::IncValue(n) => "IncValue("@ + crate::text::spec_dec(n as int, 1) + ")"@,
        OpCode::DecValue(n) => "DecValue("@ + crate::text::spec_dec(n as int, 1) + ")"@,
        OpCode::Input => "Input"@,
        OpCode::Output => "Output"@,
        OpCode::LoopStart => "LoopStart"@,
        OpCode::LoopEnd => "LoopEnd"@,
    }
}

/// The gutter of one listing line: bars up to the indentation, then either
/// the bracket arrow or blanks out to the gutter width.
pub open spec fn spec_gutter(code: Seq<OpCode>, jt: Seq<Option<usize>>, width: int, i: int) -> Seq<
    char,
> {
    let ind = spec_indent(code, i);
    let entry = if 0 <= i < jt.len() {
        jt[i]
    } else {
        None::<usize>
    };
    if entry is Some {
        let bars = if ind > 0 {
            ind - 1
        } else {
            0
        };
        Seq::new(bars as nat, |k: int| '│') + (if code[i] is LoopStart {
            "╭─"@
        } else {
            "╰─"@
        }) + Seq::new((if width - 2 > ind { width - 2 - ind } else { 0 }) as nat, |k: int| '─')
            + ">"@
    } else {
        Seq::new((if ind > 0 { ind } else { 0 }) as nat, |k: int| '│') + Seq::new(
            (if width > ind { width - ind } else { 0 }) as nat,
            |k: int| ' ',
        )
    }
}

/// One listing line: the four-digit index, the gutter, the opcode's
/// character and its debug form.
pub open spec fn spec_line(code: Seq<OpCode>, jt: Seq<Option<usize>>, width: int, i: int) -> Seq<
    char,
> {
    crate::text::spec_dec(i, 4) + " "@ + spec_gutter(code, jt, width, i) + " "@ + seq![
        code[i].spec_char(),
    ] + " ("@ + spec_opcode_debug(code[i]) + ")\n"@
}

/// Whether index `i` falls inside the requested listing window.
pub open spec fn spec_in_window(i: int, start: Option<usize>, end: Option<usize>) -> bool {
    &&& (start is Some ==> start->0 <= i)
    &&& (end is Some ==> i <= end->0)
}

/// The listing of the first `n` opcodes that fall inside the window.
pub open spec fn spec_listing(
    code: Seq<OpCode>,
    jt: Seq<Option<usize>>,
    width: int,
    n: int,
    start: Option<usize>,
    end: Option<usize>,
) -> Seq<char>
    decreases n,
{
    if n <= 0 {
        Seq::empty()
    } else {
        spec_listing(code, jt, width, n - 1, start, end) + if spec_in_window(n - 1, start, end) {
            spec_line(code, jt, width, n - 1)
        } else {
            Seq::empty()
        }
    }
}

impl Program {
    /// The gutter width of this program's listing: the deepest loop
    /// nesting, plus room for the arrow.
    pub open spec fn spec_gutter_width(self) -> int {
        let deepest = spec_max_indent(self.code@, self.code@.len() as int);
        if deepest + 2 <= usize::MAX {
            deepest + 2
        } else {
            usize::MAX as int
        }
    }

    /// Render the disassembly listing of the opcodes between `start` and
    /// `end` (inclusive; each end open when absent): one line per opcode
    /// with its index, a gutter drawing the loop structure, and the opcode.
    #[verifier::rlimit(100)]
    pub fn listing(&self, start: Option<usize>, end: Option<usize>) -> (r: Result<
        String,
        crate::vm::EvalError,
    >)
        ensures
            r is Ok,
            r->Ok_0@ == spec_listing(
                self.code@,
                self.jump_table@,
                self.spec_gutter_width(),
                self.code@.len() as int,
                start,
                end,
            ),
    {
        let ghost code = self.code@;
        let code_len = self.code.len();

        // First pass: the indentation of every line and the gutter width.
        let mut indents: Vec<usize> = Vec::new();
        let mut depth: usize = 0;
        let mut max_indent: usize = 0;
        let mut i: usize = 0;
        while i < code_len
            invariant
                i <= code_len,
                code_len == code.len(),
                self.code@ == code,
                depth == spec_depth(code, i as int),
                depth <= i,
                max_indent == spec_max_indent(code, i as int),
                max_indent <= i,
                indents@.len() == i,
                forall|k: int| 0 <= k < i ==> (#[trigger] indents@[k]) == spec_indent(code, k),
            decreases code_len - i,
        {
            match self.code[i] {
                OpCode::LoopStart => {
                    depth += 1;
                    if depth > max_indent {
                        max_indent = depth;
                    }
                    indents.push(depth);
                },
                OpCode::LoopEnd => {
                    indents.push(depth);
                    if depth > 0 {
                        depth -= 1;
                    }
                },
                _ => {
                    indents.push(depth);
                },
            }
            i += 1;
        }
        let gutter_size = if max_indent <= usize::MAX - 2 {
            max_indent + 2
        } else {
            usize::MAX
        };

        // Second pass: one line per opcode inside the window.
        let mut output = String::new();
        let mut index: usize = 0;
        while index < code_len
            invariant
                index <= code_len,
                code_len == code.len(),
                self.code@ == code,
                gutter_size as int == self.spec_gutter_width(),
                gutter_size >= 2,
                indents@.len() == code_len,
                forall|k: int|
                    0 <= k < code_len ==> (#[trigger] indents@[k]) == spec_indent(code, k),
                output@ == spec_listing(
                    code,
                    self.jump_table@,
                    gutter_size as int,
                    index as int,
                    start,
                    end,
                ),
            decreases code_len - index,
        {
            let ghost pre = output@;
            let mut skip = false;
            if let Some(start_line) = start {
                if index < start_line {
                    skip = true;
                }
            }
            if let Some(end_line) = end {
                if end_line < index {
                    skip = true;
                }
            }
            if !skip {
                crate::text::push_dec(&mut output, index, 4);
                output.append(" ");
                let indent = indents[index];
                let has_mate = index < self.jump_table.len() && self.jump_table[index].is_some();
                if has_mate {
                    crate::text::push_repeat(
                        &mut output,
                        '│',
                        if indent > 0 {
                            indent - 1
                        } else {
                            0
                        },
                    );
                    if matches!(self.code[index], OpCode::LoopStart) {
                        output.append("╭─");
                    } else {
                        output.append("╰─");
                    }
                    crate::text::push_repeat(
                        &mut output,
                        '─',
                        if gutter_size - 2 > indent {
                            gutter_size - 2 - indent
                        } else {
                            0
                        },
                    );
                    output.append(">");
                } else {
                    crate::text::push_repeat(&mut output, '│', indent);
                    crate::text::push_repeat(
                        &mut output,
                        ' ',
                        if gutter_size > indent {
                            gutter_size - indent
                        } else {
                            0
                        },
                    );
                }
                output.append(" ");
                crate::text::string_push(&mut output, self.code[index].to_char());
                output.append(" (");
                push_opcode_debug(&mut output, self.code[index]);
                output.append(")\n");
                proof {
                    assert(spec_in_window(index as int, start, end));
                    assert(output@ =~= pre + spec_line(
                        code,
                        self.jump_table@,
                        gutter_size as int,
                        index as int,
                    ));
                }
            } else {
                proof {
                    assert(!spec_in_window(index as int, start, end));
                    assert(output@ =~= pre + Seq::<char>::empty());
                }
            }
            index += 1;
        }
        Ok(output)
    }
}

/// Append the debug rendering of one opcode.
fn push_opcode_debug(s: &mut String, op: OpCode)
    ensures
        final(s)@ == old(s)@ + spec_opcode_debug(op),
{
    match op {
        OpCode::IncDataPtr(n) => {
            s.append("IncDataPtr(");
            crate::text::push_dec(s, n, 1);
            s.append(")");
        },
        OpCode::DecDataPtr(n) => {
            s.append("DecDataPtr(");
            crate::text::push_dec(s, n, 1);
            s.append(")");
        },
        OpCode::IncValue(n) => {
            s.append("IncValue(");
            crate::text::push_dec(s, n, 1);
            s.append(")");
        },
        OpCode::DecValue(n) => {
            s.append("DecValue(");
            crate::text::push_dec(s, n, 1);
            s.append(")");
        },
        OpCode::Input => {
            s.append("Input");
        },
        OpCode::Output => {
            s.append("Output");
        },
        OpCode::LoopStart => {
            s.append("LoopStart");
        },
        OpCode::LoopEnd => {
            s.append("LoopEnd");
        },
    }
    proof {
        assert(s@ =~= old(s)@ + spec_opcode_debug(op));
    }
}

/// Bracket well-formedness: in a constructed program the jump table is an
/// involution — following an entry twice leads back to where one started,
/// so every bracket and its mate point at each other.
pub proof fn lemma_jump_table_involution(p: Program)
    requires
        p.wf(),
    ensures
        forall|i: int|
            0 <= i < p.jump_table@.len() && (#[trigger] p.jump_table@[i]) is Some
                ==> p.jump_table@[mate(p.jump_table@, i)] == Some(i as usize),
{
}

/// Tokenising one more character appends its opcode, if it has one.
pub proof fn lemma_tokens_step(s: Seq<char>, i: int)
    requires
        0 <= i < s.len(),
    ensures
        tokens(s.take(i + 1)) == tokens(s.take(i)) + match OpCode::spec_convert(s[i]) {
            Some(op) => seq![op],
            None => Seq::empty(),
        },
    decreases s.len(),
{
    assert(s.take(i + 1).drop_last() =~= s.take(i));
    assert(s.take(i + 1).last() == s[i]);
}

/// Every tokenised opcode has count 1.
pub proof fn lemma_tokens_count_one(s: Seq<char>)
    ensures
        forall|k: int| 0 <= k < tokens(s).len() ==> (#[trigger] tokens(s)[k]).spec_count() == 1,
    decreases s.len(),
{
    if s.len() > 0 {
        lemma_tokens_count_one(s.drop_last());
        let pre = tokens(s.drop_last());
        let t = tokens(s);
        assert forall|k: int| 0 <= k < t.len() implies (#[trigger] t[k]).spec_count() == 1 by {
            if k < pre.len() {
                assert(t[k] == pre[k]);
            } else {
                assert(t[k] == OpCode::spec_convert(s.last())->0);
            }
        }
    }
}

/// A stream of count-1 opcodes stands for as many characters as it is long.
pub proof fn lemma_count_sum_ones(t: Seq<OpCode>)
    requires
        forall|k: int| 0 <= k < t.len() ==> (#[trigger] t[k]).spec_count() == 1,
    ensures
        count_sum(t) == t.len(),
    decreases t.len(),
{
    if t.len() > 0 {
        lemma_count_sum_ones(t.drop_last());
    }
}

/// Taking one more opcode adds its count to the prefix total.
pub proof fn lemma_count_sum_take_step(t: Seq<OpCode>, i: int)
    requires
        0 <= i < t.len(),
    ensures
        count_sum(t.take(i + 1)) == count_sum(t.take(i)) + t[i].spec_count(),
{
    assert(t.take(i + 1).drop_last() =~= t.take(i));
    assert(t.take(i + 1).last() == t[i]);
}

/// Appending one opcode adds its count to the stream's total.
pub proof fn lemma_count_sum_push(t: Seq<OpCode>, op: OpCode)
    ensures
        count_sum(t.push(op)) == count_sum(t) + op.spec_count(),
{
    assert(t.push(op).drop_last() =~= t);
}


/// Folding one more opcode is one `rle_push` on the fold of the prefix.
pub proof fn lemma_rle_fold_step(t: Seq<OpCode>, j: int)
    requires
        0 <= j < t.len(),
    ensures
        rle_fold(t.take(j + 1)) == rle_push(rle_fold(t.take(j)), t[j]),
{
    assert(t.take(j + 1).drop_last() =~= t.take(j));
    assert(t.take(j + 1).last() == t[j]);
}

/// Once the scan has found a stray closing bracket, the later states keep it.
pub proof fn lemma_scan_err_stable(code: Seq<OpCode>, n: int, m: int)
    requires
        0 <= n <= m,
        scan(code, n).err is Some,
    ensures
        scan(code, m) == scan(code, n),
    decreases m - n,
{
    if n < m {
        lemma_scan_err_stable(code, n, m - 1);
    }
}

} // verus!

//! How a folded opcode stream and its count-1 expansion relate: they are
//! the same program character for character, their bracket scans march in
//! step, and bracket matching succeeds on one exactly when it succeeds on
//! the other, with mates at corresponding positions.

use vstd::prelude::*;

use crate::opcode::{count_sum, expand, expand_op, rle_fold, tokens, OpCode};
use crate::program::{lemma_count_sum_take_step, scan, Program, ScanState};
use crate::vm::{
    cell_add, cell_sub, iter_cell_add, iter_cell_sub, run_model, step_model, steps_model,
    MachineView, ModelOutcome, RunEnd,
};

verus! {

/// The unit form of an opcode: the count-1 opcode its expansion repeats.
pub open spec fn unit_of(op: OpCode) -> OpCode {
    match op {
        OpCode::IncDataPtr(_) => OpCode::IncDataPtr(1),
        OpCode::DecDataPtr(_) => OpCode::DecDataPtr(1),
        OpCode::IncValue(_) => OpCode::IncValue(1),
        OpCode::DecValue(_) => OpCode::DecValue(1),
        _ => op,
    }
}

/// The position the `i`-th opcode expands to: the total count before it.
pub open spec fn pos_of(s: Seq<OpCode>, i: int) -> int {
    count_sum(s.take(i))
}

/// An expansion is as long as the total count of its stream.
pub proof fn lemma_expand_len(s: Seq<OpCode>)
    ensures
        expand(s).len() == count_sum(s),
    decreases s.len(),
{
    if s.len() > 0 {
        lemma_expand_len(s.drop_last());
    }
}

/// What stands at an expanded position: the unit form of the opcode whose
/// counter range the position falls in.
pub proof fn lemma_expand_index(s: Seq<OpCode>, i: int, j: int)
    requires
        forall|k: int| 0 <= k < s.len() ==> 1 <= (#[trigger] s[k]).spec_count(),
        0 <= i < s.len(),
        0 <= j < s[i].spec_count(),
    ensures
        0 <= pos_of(s, i) + j < expand(s).len(),
        expand(s)[pos_of(s, i) + j] == unit_of(s[i]),
    decreases s.len(),
{
    lemma_expand_len(s);
    crate::vm::lemma_count_sum_nonneg(s.take(i));
    lemma_count_sum_take_step(s, i);
    crate::vm::lemma_count_sum_take_le(s, i + 1);
    if i < s.len() - 1 {
        let shorter = s.drop_last();
        assert(forall|k: int|
            0 <= k < shorter.len() ==> 1 <= (#[trigger] shorter[k]).spec_count());
        assert(shorter.take(i) =~= s.take(i));
        lemma_expand_index(shorter, i, j);
        lemma_expand_len(shorter);
        crate::vm::lemma_count_sum_take_le(shorter, i + 1);
        assert(shorter.take(i + 1) =~= s.take(i + 1));
        assert(expand(s)[pos_of(s, i) + j] == expand(shorter)[pos_of(shorter, i) + j]);
    } else {
        let shorter = s.drop_last();
        lemma_expand_len(shorter);
        assert(s.take(i) =~= shorter);
        assert(expand(s)[pos_of(s, i) + j] == expand_op(s[i])[j]);
    }
}

/// Distinct opcodes own disjoint expanded positions.
pub proof fn lemma_pos_disjoint(s: Seq<OpCode>, a: int, b: int)
    requires
        forall|k: int| 0 <= k < s.len() ==> 1 <= (#[trigger] s[k]).spec_count(),
        0 <= a < b < s.len(),
    ensures
        pos_of(s, a) + s[a].spec_count() <= pos_of(s, b),
{
    crate::vm::lemma_prefix_gap(s, a, b);
}

/// A stream of positive counts is no longer than its total count.
pub proof fn lemma_count_sum_ge_len(s: Seq<OpCode>)
    requires
        forall|k: int| 0 <= k < s.len() ==> 1 <= (#[trigger] s[k]).spec_count(),
    ensures
        count_sum(s) >= s.len(),
    decreases s.len(),
{
    if s.len() > 0 {
        assert(forall|k: int|
            0 <= k < s.drop_last().len() ==> 1 <= (#[trigger] s.drop_last()[k]).spec_count());
        lemma_count_sum_ge_len(s.drop_last());
    }
}

/// The scan states of a stream and of its expansion, after the first `n`
/// opcodes and their expansion: errors strike together, the stacks hold
/// the same open brackets at corresponding positions, and so do the jump
/// tables.
pub open spec fn scan_corresponds(code: Seq<OpCode>, n: int, s2: ScanState, s1: ScanState) -> bool {
    &&& (s1.err is Some <==> s2.err is Some)
    &&& s1.jt.len() == expand(code).len()
    &&& s2.jt.len() == code.len()
    &&& (s2.err is None ==> {
        &&& s1.stack.len() == s2.stack.len()
        &&& forall|a: int|
            0 <= a < s2.stack.len() ==> 0 <= (#[trigger] s2.stack[a]) < n && s2.stack[a]
                < code.len() && s1.stack[a] == pos_of(code, s2.stack[a] as int)
        &&& forall|i: int, j: int|
            #![trigger s2.jt[i], s1.jt[pos_of(code, i) + j]]
            0 <= i < code.len() && 0 <= j < code[i].spec_count() ==> s1.jt[pos_of(code, i) + j]
                == (if j == 0 && s2.jt[i] is Some {
                Some(pos_of(code, s2.jt[i]->0 as int) as usize)
            } else {
                None
            })
        &&& forall|i: int|
            0 <= i < code.len() && (#[trigger] s2.jt[i]) is Some ==> 0 <= s2.jt[i]->0 < code.len()
    })
}

/// Scanning a stretch of non-bracket opcodes moves the cursor and nothing
/// else.
pub proof fn lemma_scan_stretch(code1: Seq<OpCode>, p: int, c: int)
    requires
        0 <= p,
        0 <= c,
        p + c <= code1.len(),
        forall|k: int| p <= k < p + c ==> !(#[trigger] code1[k]).is_bracket(),
        scan(code1, p).err is None,
    ensures
        scan(code1, p + c) == scan(code1, p),
    decreases c,
{
    if c > 0 {
        lemma_scan_stretch(code1, p, c - 1);
        assert(scan(code1, p + c - 1) == scan(code1, p));
        assert(!code1[p + c - 1].is_bracket());
    }
}

/// The bracket scans of a stream and of its expansion march in step.
#[verifier::rlimit(100)]
pub proof fn lemma_scan_corresponds(code: Seq<OpCode>, n: int)
    requires
        forall|k: int| 0 <= k < code.len() ==> 1 <= (#[trigger] code[k]).spec_count(),
        count_sum(code) <= usize::MAX,
        0 <= n <= code.len(),
    ensures
        scan_corresponds(code, n, scan(code, n), scan(expand(code), pos_of(code, n))),
    decreases n,
{
    let code1 = expand(code);
    lemma_expand_len(code);
    lemma_count_sum_ge_len(code);
    if n == 0 {
        assert(code.take(0) =~= Seq::<OpCode>::empty());
        assert(pos_of(code, 0) == 0);
        let b2 = scan(code, 0);
        let b1 = scan(code1, 0);
        assert(b1.jt.len() == code1.len());
        assert forall|i: int, j: int|
            #![trigger b2.jt[i], b1.jt[pos_of(code, i) + j]]
            0 <= i < code.len() && 0 <= j < code[i].spec_count() implies b1.jt[pos_of(code, i)
            + j] == (if j == 0 && b2.jt[i] is Some {
            Some(pos_of(code, b2.jt[i]->0 as int) as usize)
        } else {
            None
        }) by {
            lemma_expand_index(code, i, j);
            assert(b2.jt[i] is None);
            assert(b1.jt[pos_of(code, i) + j] is None);
        }
    } else {
        lemma_scan_corresponds(code, n - 1);
        let s2 = scan(code, n - 1);
        let s1 = scan(code1, pos_of(code, n - 1));
        let i = n - 1;
        let op = code[i];
        let c = op.spec_count() as int;
        let p = pos_of(code, i);
        lemma_count_sum_take_step(code, i);
        crate::vm::lemma_count_sum_nonneg(code.take(i));
        crate::vm::lemma_count_sum_take_le(code, n);
        assert(pos_of(code, n) == p + c);
        assert forall|j: int| 0 <= j < c implies (#[trigger] code1[p + j]) == unit_of(op) by {
            lemma_expand_index(code, i, j);
        }
        if s2.err is Some {
            crate::program::lemma_scan_err_stable(code, n - 1, n);
            crate::program::lemma_scan_err_stable(code1, p, p + c);
            assert(scan(code1, p + c).jt.len() == code1.len());
        } else if !op.is_bracket() {
            assert forall|k: int| p <= k < p + c implies !(#[trigger] code1[k]).is_bracket() by {
                assert(code1[p + (k - p)] == unit_of(op));
            }
            lemma_scan_stretch(code1, p, c);
            assert(scan(code, n) == s2);
            assert(scan(code1, p + c).jt.len() == code1.len());
        } else if op is LoopStart {
            assert(c == 1);
            assert(code1[p + 0] == unit_of(op));
            assert(code1[p] == op);
            assert(scan(code, n).stack == s2.stack.push(i as usize));
            assert(scan(code1, p + 1).stack == s1.stack.push(p as usize));
            assert(scan(code1, p + c).jt.len() == code1.len());
            assert(p <= usize::MAX);
            assert forall|i2: int, j2: int|
                #![trigger scan(code, n).jt[i2], scan(code1, p + c).jt[pos_of(code, i2) + j2]]
                0 <= i2 < code.len() && 0 <= j2 < code[i2].spec_count() implies scan(
                code1,
                p + c,
            ).jt[pos_of(code, i2) + j2] == (if j2 == 0 && scan(code, n).jt[i2] is Some {
                Some(pos_of(code, scan(code, n).jt[i2]->0 as int) as usize)
            } else {
                None
            }) by {
                assert(scan(code, n).jt[i2] == s2.jt[i2]);
                assert(scan(code1, p + c).jt[pos_of(code, i2) + j2] == s1.jt[pos_of(code, i2)
                    + j2]);
            }
        } else {
            assert(c == 1);
            assert(code1[p + 0] == unit_of(op));
            assert(code1[p] == op);
            if s2.stack.len() == 0 {
                assert(scan(code, n).err == Some(i as usize));
                assert(s1.stack.len() == 0);
                assert(scan(code1, p + 1).err == Some(p as usize));
                assert(scan(code1, p + 1).jt == s1.jt);
                assert(scan(code, n).jt == s2.jt);
                assert(scan(code1, p + c).jt.len() == code1.len());
            } else {
                let top2 = s2.stack.last() as int;
                let top1 = s1.stack.last() as int;
                assert(s1.stack[s1.stack.len() - 1] == pos_of(code, top2));
                assert(top1 == pos_of(code, top2));
                assert(scan(code, n).stack == s2.stack.drop_last());
                assert(scan(code1, p + 1).stack == s1.stack.drop_last());
                let jt2 = scan(code, n).jt;
                let jt1 = scan(code1, p + 1).jt;
                assert(jt2 == s2.jt.update(top2, Some(i as usize)).update(i, Some(
                    top2 as usize,
                )));
                assert(jt1 == s1.jt.update(top1, Some(p as usize)).update(p, Some(
                    top1 as usize,
                )));
                assert(0 <= top2 < code.len());
                lemma_expand_index(code, top2, 0);
                lemma_expand_index(code, i, 0);
                assert(0 <= top1 < code1.len() && 0 <= p < code1.len());
                assert(scan(code1, p + c).jt.len() == code1.len());
                assert(code[top2].spec_count() >= 1);
                assert forall|i2: int, j2: int|
                    #![trigger jt2[i2], jt1[pos_of(code, i2) + j2]]
                    0 <= i2 < code.len() && 0 <= j2 < code[i2].spec_count() implies jt1[pos_of(
                    code,
                    i2,
                ) + j2] == (if j2 == 0 && jt2[i2] is Some {
                    Some(pos_of(code, jt2[i2]->0 as int) as usize)
                } else {
                    None
                }) by {
                    lemma_expand_index(code, i2, j2);
                    lemma_expand_index(code, top2, 0);
                    lemma_expand_index(code, i, 0);
                    if i2 != top2 && i2 != i {
                        if top2 < i2 {
                            lemma_pos_disjoint(code, top2, i2);
                        } else {
                            lemma_pos_disjoint(code, i2, top2);
                        }
                        if i2 < i {
                            lemma_pos_disjoint(code, i2, i);
                        } else {
                            lemma_pos_disjoint(code, i, i2);
                        }
                        assert(jt2[i2] == s2.jt[i2]);
                        assert(pos_of(code, i2) + j2 != top1 && pos_of(code, i2) + j2 != p);
                        assert(jt1[pos_of(code, i2) + j2] == s1.jt[pos_of(code, i2) + j2]);
                    } else if i2 == top2 {
                        assert(jt2[i2] == Some(i as usize));
                        assert(top2 < i);
                        lemma_pos_disjoint(code, top2, i);
                        if j2 == 0 {
                            assert(jt1[pos_of(code, i2) + j2] == Some(p as usize));
                        } else {
                            assert(s2.jt[i2] == s2.jt[i2]);
                            assert(pos_of(code, i2) + j2 != top1 && pos_of(code, i2) + j2 != p);
                            assert(jt1[pos_of(code, i2) + j2] == s1.jt[pos_of(code, i2) + j2]);
                            assert(s1.jt[pos_of(code, i2) + j2] is None);
                        }
                    } else {
                        assert(jt2[i2] == Some(top2 as usize));
                        assert(op.spec_count() == 1);
                        assert(jt1[pos_of(code, i2) + j2] == Some(top1 as usize));
                    }
                }
            }
        }
    }
}

/// Bracket matching succeeds on a folded stream exactly when it succeeds
/// on its expansion, and matched pairs sit at corresponding positions: the
/// folded table sends `i` to `m` exactly when the expanded table sends the
/// expanded position of `i` to the expanded position of `m`.
pub proof fn lemma_bracket_result_corresponds(code: Seq<OpCode>)
    requires
        forall|k: int| 0 <= k < code.len() ==> 1 <= (#[trigger] code[k]).spec_count(),
        count_sum(code) <= usize::MAX,
    ensures
        crate::program::bracket_result(code) is Ok <==> crate::program::bracket_result(
            expand(code),
        ) is Ok,
        crate::program::bracket_result(code) is Ok ==> forall|i: int|
            0 <= i < code.len() && (#[trigger] crate::program::bracket_result(code)->Ok_0[i])
                is Some ==> crate::program::bracket_result(expand(code))->Ok_0[pos_of(code, i)]
                == Some(
                pos_of(
                    code,
                    crate::program::bracket_result(code)->Ok_0[i]->0 as int,
                ) as usize,
            ),
{
    lemma_scan_corresponds(code, code.len() as int);
    lemma_expand_len(code);
    assert(code.take(code.len() as int) =~= code);
    assert(pos_of(code, code.len() as int) == count_sum(code));
    let s2 = scan(code, code.len() as int);
    let s1 = scan(expand(code), count_sum(code));
    if s2.err is None && s2.stack.len() == 0 {
        assert forall|i: int|
            0 <= i < code.len() && (#[trigger] s2.jt[i]) is Some implies s1.jt[pos_of(code, i)]
            == Some(pos_of(code, s2.jt[i]->0 as int) as usize) by {
            assert(s1.jt[pos_of(code, i) + 0] == Some(pos_of(code, s2.jt[i]->0 as int) as usize));
        }
    }
}

/// A source text never tokenises to more opcodes than it has characters.
pub proof fn lemma_tokens_len_le(s: Seq<char>)
    ensures
        tokens(s).len() <= s.len(),
    decreases s.len(),
{
    if s.len() > 0 {
        lemma_tokens_len_le(s.drop_last());
    }
}

/// Folding never changes whether a source parses: bracket matching on the
/// folded opcode stream of a source succeeds exactly when it succeeds on
/// the plain stream — the two parsing modes accept the same sources.
pub proof fn lemma_parse_agrees_under_fold(source: Seq<char>)
    requires
        source.len() <= usize::MAX,
    ensures
        crate::program::bracket_result(tokens(source)) is Ok
            <==> crate::program::bracket_result(rle_fold(tokens(source))) is Ok,
{
    let t = tokens(source);
    let folded = rle_fold(t);
    crate::program::lemma_tokens_count_one(source);
    lemma_tokens_len_le(source);
    crate::opcode::lemma_rle_fold_counts(t);
    crate::opcode::lemma_rle_fold_expands(t);
    lemma_expand_len(folded);
    lemma_bracket_result_corresponds(folded);
}

/// Running `k` count-1 value opcodes in a row does to the machine exactly
/// what the single folded opcode of count `k` does: the current cell takes
/// `k` increments (or decrements), the instruction pointer moves past the
/// run, and nothing else changes. Together with the fold of the cell
/// arithmetic this is the per-opcode half of the equivalence of the folded
/// and the plain opcode streams.
/// One step on a count-1 value opcode: the cell moves by one, the cursor
/// by one, and the machine halts when the opcode was the last.
proof fn lemma_unit_value_one_step(p: Program, m: MachineView, add: bool)
    requires
        p.wf(),
        0 <= m.data_ptr < m.mem.len(),
        0 <= m.ip < p.code@.len(),
        p.code@[m.ip] == (if add {
            OpCode::IncValue(1)
        } else {
            OpCode::DecValue(1)
        }),
    ensures
        ({
            let m2 = MachineView {
                ip: m.ip + 1,
                mem: m.mem.update(
                    m.data_ptr,
                    if add {
                        cell_add(m.mem[m.data_ptr], 1)
                    } else {
                        cell_sub(m.mem[m.data_ptr], 1)
                    },
                ),
                ..m
            };
            if m.ip + 1 < p.code@.len() {
                step_model(p, m) == ModelOutcome::Step(m2)
            } else {
                step_model(p, m) == ModelOutcome::Halt(MachineView { ip: m.ip, ..m2 })
            }
        }),
{
    lemma_count_sum_ge_len(p.code@);
}

/// Starting one farther along shifts the iterated cell change by one.
proof fn lemma_iter_shift(c: u8, add: bool, k: nat)
    requires
        k >= 1,
    ensures
        add ==> iter_cell_add(cell_add(c, 1), (k - 1) as nat) == iter_cell_add(c, k),
        !add ==> iter_cell_sub(cell_sub(c, 1), (k - 1) as nat) == iter_cell_sub(c, k),
    decreases k,
{
    if k == 1 {
        assert(iter_cell_add(cell_add(c, 1), 0nat) == cell_add(c, 1));
        assert(iter_cell_add(c, 1nat) == cell_add(iter_cell_add(c, 0nat), 1));
        assert(iter_cell_sub(cell_sub(c, 1), 0nat) == cell_sub(c, 1));
        assert(iter_cell_sub(c, 1nat) == cell_sub(iter_cell_sub(c, 0nat), 1));
    } else {
        lemma_iter_shift(c, add, (k - 1) as nat);
        assert(iter_cell_add(cell_add(c, 1), (k - 1) as nat) == cell_add(
            iter_cell_add(cell_add(c, 1), (k - 2) as nat),
            1,
        ));
        assert(iter_cell_sub(cell_sub(c, 1), (k - 1) as nat) == cell_sub(
            iter_cell_sub(cell_sub(c, 1), (k - 2) as nat),
            1,
        ));
    }
}

#[verifier::rlimit(100)]
pub proof fn lemma_unit_value_steps(p: Program, m: MachineView, add: bool, k: nat)
    requires
        p.wf(),
        0 <= m.data_ptr < m.mem.len(),
        0 <= m.ip,
        m.ip + k <= p.code@.len(),
        k >= 1,
        forall|j: int|
            0 <= j < k ==> (#[trigger] p.code@[m.ip + j]) == (if add {
                OpCode::IncValue(1)
            } else {
                OpCode::DecValue(1)
            }),
    ensures
        ({
            let done = MachineView {
                ip: m.ip + k,
                mem: m.mem.update(
                    m.data_ptr,
                    if add {
                        iter_cell_add(m.mem[m.data_ptr], k)
                    } else {
                        iter_cell_sub(m.mem[m.data_ptr], k)
                    },
                ),
                ..m
            };
            if m.ip + k < p.code@.len() {
                steps_model(p, m, k) == Some(done)
            } else {
                run_model(p, m, k) == Some(RunEnd::Halted(MachineView { ip: m.ip + k - 1, ..done }))
            }
        }),
    decreases k,
{
    let dp = m.data_ptr;
    let cell = m.mem[dp];
    let op = if add {
        OpCode::IncValue(1)
    } else {
        OpCode::DecValue(1)
    };
    assert(p.code@[m.ip + 0] == op);
    lemma_unit_value_one_step(p, m, add);
    let bumped = if add {
        cell_add(cell, 1)
    } else {
        cell_sub(cell, 1)
    };
    let m2 = MachineView { ip: m.ip + 1, mem: m.mem.update(dp, bumped), ..m };
    assert(iter_cell_add(cell, 1) == cell_add(iter_cell_add(cell, 0), 1));
    assert(iter_cell_sub(cell, 1) == cell_sub(iter_cell_sub(cell, 0), 1));
    if k == 1 {
        let done = MachineView {
            ip: m.ip + 1,
            mem: m.mem.update(
                dp,
                if add {
                    iter_cell_add(cell, 1)
                } else {
                    iter_cell_sub(cell, 1)
                },
            ),
            ..m
        };
        assert(done == m2);
        if m.ip + 1 < p.code@.len() {
            assert(steps_model(p, m2, 0nat) == Some(m2));
            assert(steps_model(p, m, 1nat) == steps_model(p, m2, 0nat));
        } else {
            assert(run_model(p, m, 1nat) == Some(
                RunEnd::Halted(MachineView { ip: m.ip, ..m2 }),
            ));
        }
    } else {
        assert(m.ip + 1 < p.code@.len());
        assert forall|j: int|
            0 <= j < k - 1 implies (#[trigger] p.code@[m2.ip + j]) == (if add {
            OpCode::IncValue(1)
        } else {
            OpCode::DecValue(1)
        }) by {
            assert(p.code@[m.ip + (j + 1)] == (if add {
                OpCode::IncValue(1)
            } else {
                OpCode::DecValue(1)
            }));
        }
        lemma_unit_value_steps(p, m2, add, (k - 1) as nat);
        lemma_iter_shift(cell, add, k);
        let done2 = MachineView {
            ip: m2.ip + (k - 1),
            mem: m2.mem.update(
                dp,
                if add {
                    iter_cell_add(m2.mem[dp], (k - 1) as nat)
                } else {
                    iter_cell_sub(m2.mem[dp], (k - 1) as nat)
                },
            ),
            ..m2
        };
        let done = MachineView {
            ip: m.ip + k,
            mem: m.mem.update(
                dp,
                if add {
                    iter_cell_add(cell, k)
                } else {
                    iter_cell_sub(cell, k)
                },
            ),
            ..m
        };
        assert(m2.mem[dp] == bumped);
        assert(done2.mem =~= done.mem);
        assert(done2 == done);
        if m.ip + k < p.code@.len() {
            assert(steps_model(p, m, k) == steps_model(p, m2, (k - 1) as nat));
        } else {
            assert(run_model(p, m, k) == run_model(p, m2, (k - 1) as nat));
        }
    }
}

/// One step on a count-1 pointer opcode that stays on the tape: the data
/// pointer moves by one, the cursor by one, and the machine halts when the
/// opcode was the last.
proof fn lemma_unit_ptr_one_step(p: Program, m: MachineView, right: bool)
    requires
        p.wf(),
        0 <= m.data_ptr < m.mem.len(),
        0 <= m.ip < p.code@.len(),
        p.code@[m.ip] == (if right {
            OpCode::IncDataPtr(1)
        } else {
            OpCode::DecDataPtr(1)
        }),
        right ==> m.data_ptr + 1 < m.mem.len(),
        !right ==> m.data_ptr >= 1,
    ensures
        ({
            let m2 = MachineView {
                ip: m.ip + 1,
                data_ptr: if right {
                    m.data_ptr + 1
                } else {
                    m.data_ptr - 1
                },
                ..m
            };
            if m.ip + 1 < p.code@.len() {
                step_model(p, m) == ModelOutcome::Step(m2)
            } else {
                step_model(p, m) == ModelOutcome::Halt(MachineView { ip: m.ip, ..m2 })
            }
        }),
{
    lemma_count_sum_ge_len(p.code@);
}

/// Running `k` count-1 pointer opcodes in a row, all of them staying on
/// the tape, does to the machine exactly what the single folded pointer
/// opcode of count `k` does: the data pointer moves by `k`, the cursor
/// moves past the run, and nothing else changes.
#[verifier::rlimit(100)]
pub proof fn lemma_unit_ptr_steps(p: Program, m: MachineView, right: bool, k: nat)
    requires
        p.wf(),
        0 <= m.data_ptr < m.mem.len(),
        0 <= m.ip,
        m.ip + k <= p.code@.len(),
        k >= 1,
        forall|j: int|
            0 <= j < k ==> (#[trigger] p.code@[m.ip + j]) == (if right {
                OpCode::IncDataPtr(1)
            } else {
                OpCode::DecDataPtr(1)
            }),
        right ==> m.data_ptr + k < m.mem.len(),
        !right ==> m.data_ptr >= k,
    ensures
        ({
            let done = MachineView {
                ip: m.ip + k,
                data_ptr: if right {
                    m.data_ptr + k
                } else {
                    m.data_ptr - k
                },
                ..m
            };
            if m.ip + k < p.code@.len() {
                steps_model(p, m, k) == Some(done)
            } else {
                run_model(p, m, k) == Some(RunEnd::Halted(MachineView { ip: m.ip + k - 1, ..done }))
            }
        }),
    decreases k,
{
    assert(p.code@[m.ip + 0] == (if right {
        OpCode::IncDataPtr(1)
    } else {
        OpCode::DecDataPtr(1)
    }));
    lemma_unit_ptr_one_step(p, m, right);
    let m2 = MachineView {
        ip: m.ip + 1,
        data_ptr: if right {
            m.data_ptr + 1
        } else {
            m.data_ptr - 1
        },
        ..m
    };
    if k == 1 {
        if m.ip + 1 < p.code@.len() {
            assert(steps_model(p, m2, 0nat) == Some(m2));
            assert(steps_model(p, m, 1nat) == steps_model(p, m2, 0nat));
        } else {
            assert(run_model(p, m, 1nat) == Some(RunEnd::Halted(MachineView { ip: m.ip, ..m2 })));
        }
    } else {
        assert(m.ip + 1 < p.code@.len());
        assert forall|j: int|
            0 <= j < k - 1 implies (#[trigger] p.code@[m2.ip + j]) == (if right {
            OpCode::IncDataPtr(1)
        } else {
            OpCode::DecDataPtr(1)
        }) by {
            assert(p.code@[m.ip + (j + 1)] == (if right {
                OpCode::IncDataPtr(1)
            } else {
                OpCode::DecDataPtr(1)
            }));
        }
        lemma_unit_ptr_steps(p, m2, right, (k - 1) as nat);
        if m.ip + k < p.code@.len() {
            assert(steps_model(p, m, k) == steps_model(p, m2, (k - 1) as nat));
        } else {
            assert(run_model(p, m, k) == run_model(p, m2, (k - 1) as nat));
        }
    }
}

/// A finished bounded run stays finished after a successful stretch of
/// steps is prefixed to it.
pub proof fn lemma_run_compose(p: Program, m: MachineView, k: nat, f: nat, end: RunEnd)
    requires
        steps_model(p, m, k) is Some,
        run_model(p, steps_model(p, m, k)->0, f) == Some(end),
    ensures
        run_model(p, m, k + f) == Some(end),
    decreases k,
{
    if k == 0 {
        assert(steps_model(p, m, 0nat)->0 == m);
    } else {
        match step_model(p, m) {
            ModelOutcome::Step(m2) => {
                assert(steps_model(p, m, k) == steps_model(p, m2, (k - 1) as nat));
                lemma_run_compose(p, m2, (k - 1) as nat, f, end);
                assert(f >= 1) by {
                    if f == 0 {
                        assert(run_model(p, steps_model(p, m, k)->0, 0nat) is None);
                    }
                }
                assert(run_model(p, m, k + f) == run_model(p, m2, ((k + f) - 1) as nat));
                assert(((k + f) - 1) as nat == ((k - 1) as nat) + f);
            },
            _ => {
                assert(steps_model(p, m, k) is None);
            },
        }
    }
}

/// Running count-1 pointer opcodes toward an edge of the tape fails part
/// way through: after the moves that fit, the next one reports the same
/// error the folded opcode would, leaving output, tape and input as they
/// were.
#[verifier::rlimit(100)]
proof fn lemma_unit_ptr_fail(p: Program, m: MachineView, right: bool, k: nat)
    requires
        p.wf(),
        0 <= m.data_ptr < m.mem.len(),
        0 <= m.ip,
        m.ip + k <= p.code@.len(),
        k >= 1,
        forall|j: int|
            0 <= j < k ==> (#[trigger] p.code@[m.ip + j]) == (if right {
                OpCode::IncDataPtr(1)
            } else {
                OpCode::DecDataPtr(1)
            }),
        right ==> m.data_ptr + k >= m.mem.len(),
        !right ==> m.data_ptr < k,
    ensures
        exists|f: nat|
            match #[trigger] run_model(p, m, f) {
                Some(RunEnd::Failed(e, fs)) => e == (if right {
                    crate::vm::EvalError::InvalidInstructionPointer
                } else {
                    crate::vm::EvalError::MemoryOutOfBounds
                }) && fs.mem == m.mem && fs.input == m.input && fs.output == m.output,
                _ => false,
            },
    decreases k,
{
    lemma_count_sum_ge_len(p.code@);
    assert(p.code@[m.ip + 0] == (if right {
        OpCode::IncDataPtr(1)
    } else {
        OpCode::DecDataPtr(1)
    }));
    let stuck = if right {
        m.data_ptr + 1 >= m.mem.len()
    } else {
        m.data_ptr < 1
    };
    if stuck {
        let e = if right {
            crate::vm::EvalError::InvalidInstructionPointer
        } else {
            crate::vm::EvalError::MemoryOutOfBounds
        };
        assert(step_model(p, m) == ModelOutcome::Fail(e));
        assert(run_model(p, m, 1nat) == Some(RunEnd::Failed(e, m)));
        assert(match run_model(p, m, 1nat) {
            Some(RunEnd::Failed(e2, fs)) => e2 == e && fs.mem == m.mem && fs.input == m.input
                && fs.output == m.output,
            _ => false,
        });
    } else {
        assert(k >= 2);
        lemma_unit_ptr_one_step(p, m, right);
        let m2 = MachineView {
            ip: m.ip + 1,
            data_ptr: if right {
                m.data_ptr + 1
            } else {
                m.data_ptr - 1
            },
            ..m
        };
        assert(m.ip + 1 < p.code@.len());
        assert(step_model(p, m) == ModelOutcome::Step(m2));
        assert forall|j: int|
            0 <= j < k - 1 implies (#[trigger] p.code@[m2.ip + j]) == (if right {
            OpCode::IncDataPtr(1)
        } else {
            OpCode::DecDataPtr(1)
        }) by {
            assert(p.code@[m.ip + (j + 1)] == (if right {
                OpCode::IncDataPtr(1)
            } else {
                OpCode::DecDataPtr(1)
            }));
        }
        lemma_unit_ptr_fail(p, m2, right, (k - 1) as nat);
        let f = choose|f: nat|
            match #[trigger] run_model(p, m2, f) {
                Some(RunEnd::Failed(e, fs)) => e == (if right {
                    crate::vm::EvalError::InvalidInstructionPointer
                } else {
                    crate::vm::EvalError::MemoryOutOfBounds
                }) && fs.mem == m2.mem && fs.input == m2.input && fs.output == m2.output,
                _ => false,
            };
        assert(run_model(p, m, f + 1) == run_model(p, m2, f));
        assert(match run_model(p, m, f + 1) {
            Some(RunEnd::Failed(e, fs)) => e == (if right {
                crate::vm::EvalError::InvalidInstructionPointer
            } else {
                crate::vm::EvalError::MemoryOutOfBounds
            }) && fs.mem == m.mem && fs.input == m.input && fs.output == m.output,
            _ => false,
        });
    }
}

/// The folded program and the plain program correspond: the plain code is
/// the expansion of the folded code, and the jump tables pair brackets at
/// corresponding positions.
pub open spec fn programs_correspond(p2: Program, p1: Program) -> bool {
    &&& p2.wf()
    &&& p1.wf()
    &&& p1.code@ == expand(p2.code@)
    &&& forall|i: int|
        0 <= i < p2.code@.len() && (#[trigger] p2.jump_table@[i]) is Some
            ==> p1.jump_table@[pos_of(p2.code@, i)] == Some(
            pos_of(p2.code@, p2.jump_table@[i]->0 as int) as usize,
        )
}

/// The two machines correspond: same tape, pointer, input and output, with
/// the plain cursor at the expanded position of the folded cursor.
pub open spec fn machines_correspond(p2: Program, m2: MachineView, m1: MachineView) -> bool {
    &&& m1.mem == m2.mem
    &&& m1.data_ptr == m2.data_ptr
    &&& m1.input == m2.input
    &&& m1.output == m2.output
    &&& 0 <= m2.data_ptr < m2.mem.len()
    &&& 0 <= m2.ip <= p2.code@.len()
    &&& m1.ip == pos_of(p2.code@, m2.ip)
}

/// Expanded positions grow strictly with the index, up to the full length.
pub proof fn lemma_pos_strict(code: Seq<OpCode>, a: int, b: int)
    requires
        forall|k: int| 0 <= k < code.len() ==> 1 <= (#[trigger] code[k]).spec_count(),
        0 <= a <= b <= code.len(),
    ensures
        a < b ==> pos_of(code, a) < pos_of(code, b),
        a == b ==> pos_of(code, a) == pos_of(code, b),
        pos_of(code, b) <= count_sum(code),
    decreases b - a,
{
    if a < b {
        lemma_count_sum_take_step(code, a);
        lemma_pos_strict(code, a + 1, b);
    } else {
        crate::vm::lemma_count_sum_take_le(code, b);
    }
}

/// One step of a folded program on a count-1 opcode — a bracket or an I/O
/// opcode — is matched by one step of the plain program.
#[verifier::rlimit(100)]
proof fn lemma_unit_op_step(p2: Program, p1: Program, m2: MachineView, m1: MachineView)
    requires
        programs_correspond(p2, p1),
        machines_correspond(p2, m2, m1),
        0 <= m2.ip < p2.code@.len(),
        p2.code@[m2.ip].spec_count() == 1,
    ensures
        match step_model(p2, m2) {
            ModelOutcome::Step(m2b) => match step_model(p1, m1) {
                ModelOutcome::Step(m1b) => machines_correspond(p2, m2b, m1b),
                _ => false,
            },
            ModelOutcome::Halt(h2) => match step_model(p1, m1) {
                ModelOutcome::Halt(h1) => h1.mem == h2.mem && h1.input == h2.input && h1.output
                    == h2.output,
                _ => false,
            },
            ModelOutcome::Fail(e) => step_model(p1, m1) == ModelOutcome::Fail(e) && m1.output
                == m2.output,
        },
{
    let code2 = p2.code@;
    let code1 = p1.code@;
    let i = m2.ip;
    let p = pos_of(code2, i);
    lemma_expand_len(code2);
    lemma_count_sum_ge_len(code2);
    lemma_count_sum_take_step(code2, i);
    lemma_pos_strict(code2, i + 1, code2.len() as int);
    lemma_expand_index(code2, i, 0);
    assert(code1[p + 0] == unit_of(code2[i]));
    assert(pos_of(code2, i + 1) == p + 1);
    let op = code2[i];
    assert(code2.take(code2.len() as int) =~= code2);
    if op is LoopStart || op is LoopEnd {
        assert(p2.jump_table@[i] is Some);
        let mate2 = p2.jump_table@[i]->0 as int;
        assert(crate::program::pair_ok(code2, p2.jump_table@, i));
        assert(code2.take(0) =~= Seq::<OpCode>::empty());
        assert(pos_of(code2, 0) == 0);
        lemma_pos_strict(code2, 0, mate2);
        assert(0 <= pos_of(code2, mate2) <= count_sum(code2));
        assert(p1.jump_table@[p] == Some(pos_of(code2, mate2) as usize));
        let mate1 = pos_of(code2, mate2);
        lemma_count_sum_take_step(code2, mate2);
        lemma_pos_strict(code2, mate2 + 1, code2.len() as int);
        assert(code2[mate2].spec_count() == 1);
        assert(pos_of(code2, mate2 + 1) == mate1 + 1);
        assert(p1.jump_table@.len() == code1.len());
        assert(mate2 + 1 < code2.len() <==> mate1 + 1 < code1.len()) by {
            if mate2 + 1 < code2.len() {
                lemma_pos_strict(code2, mate2 + 1, code2.len() as int);
            }
            if mate2 + 1 == code2.len() {
                assert(pos_of(code2, mate2 + 1) == count_sum(code2));
            }
        }
        assert(i + 1 < code2.len() <==> p + 1 < code1.len()) by {
            if i + 1 == code2.len() {
                assert(pos_of(code2, i + 1) == count_sum(code2));
            }
        }
    } else {
        assert(p2.jump_table@[i] is None);
        assert(p1.jump_table@[p] is None) by {
            assert(crate::program::wf_jump_table(code1, p1.jump_table@));
            assert(!code1[p].is_bracket());
        }
        assert(i + 1 < code2.len() <==> p + 1 < code1.len()) by {
            if i + 1 == code2.len() {
                assert(pos_of(code2, i + 1) == count_sum(code2));
            }
        }
    }
}

/// One step of the folded program is matched by a short run of the plain
/// program: a `Step` by some corresponding steps, a `Halt` by a halting
/// run over the same tape, input and output.
#[verifier::rlimit(100)]
proof fn lemma_sim_step(p2: Program, p1: Program, m2: MachineView, m1: MachineView)
    requires
        programs_correspond(p2, p1),
        machines_correspond(p2, m2, m1),
    ensures
        match step_model(p2, m2) {
            ModelOutcome::Step(m2b) => exists|k: nat|
                1 <= k && #[trigger] steps_model(p1, m1, k) is Some && machines_correspond(
                    p2,
                    m2b,
                    steps_model(p1, m1, k)->0,
                ),
            ModelOutcome::Halt(h2) => exists|k: nat|
                match #[trigger] run_model(p1, m1, k) {
                    Some(RunEnd::Halted(h1)) => h1.mem == h2.mem && h1.input == h2.input
                        && h1.output == h2.output,
                    _ => false,
                },
            ModelOutcome::Fail(e) => exists|k: nat|
                match #[trigger] run_model(p1, m1, k) {
                    Some(RunEnd::Failed(e1, f1)) => e1 == e && f1.mem == m2.mem && f1.input
                        == m2.input && f1.output == m2.output,
                    _ => false,
                },
        },
{
    let code2 = p2.code@;
    let code1 = p1.code@;
    let i = m2.ip;
    lemma_expand_len(code2);
    lemma_count_sum_ge_len(code2);
    if i == code2.len() {
        assert(pos_of(code2, i) == count_sum(code2)) by {
            assert(code2.take(i) =~= code2);
        }
        assert(step_model(p2, m2) == ModelOutcome::Halt(m2));
        assert(step_model(p1, m1) == ModelOutcome::Halt(m1));
        assert(run_model(p1, m1, 1nat) == Some(RunEnd::Halted(m1)));
    } else {
        let op = code2[i];
        let c = op.spec_count() as int;
        let p = pos_of(code2, i);
        lemma_count_sum_take_step(code2, i);
        lemma_pos_strict(code2, 0, i);
        assert(code2.take(0) =~= Seq::<OpCode>::empty());
        lemma_pos_strict(code2, i + 1, code2.len() as int);
        assert(pos_of(code2, code2.len() as int) == count_sum(code2)) by {
            assert(code2.take(code2.len() as int) =~= code2);
        }
        assert forall|j: int| 0 <= j < c implies (#[trigger] code1[p + j]) == unit_of(op) by {
            lemma_expand_index(code2, i, j);
        }
        match op {
            OpCode::IncValue(count) => {
                lemma_value_sim(p2, p1, m2, m1, true, count);
            },
            OpCode::DecValue(count) => {
                lemma_value_sim(p2, p1, m2, m1, false, count);
            },
            OpCode::IncDataPtr(count) => {
                lemma_ptr_sim(p2, p1, m2, m1, true, count);
            },
            OpCode::DecDataPtr(count) => {
                lemma_ptr_sim(p2, p1, m2, m1, false, count);
            },
            _ => {
                lemma_unit_op_step(p2, p1, m2, m1);
                match step_model(p2, m2) {
                    ModelOutcome::Step(m2b) => {
                        let m1b = step_model(p1, m1)->Step_0;
                        assert(steps_model(p1, m1, 1nat) == steps_model(p1, m1b, 0nat));
                        assert(steps_model(p1, m1, 1nat) is Some && machines_correspond(
                            p2,
                            m2b,
                            steps_model(p1, m1, 1nat)->0,
                        ));
                    },
                    ModelOutcome::Halt(h2) => {
                        let h1 = step_model(p1, m1)->Halt_0;
                        assert(run_model(p1, m1, 1nat) == Some(RunEnd::Halted(h1)));
                    },
                    ModelOutcome::Fail(e) => {
                        assert(step_model(p1, m1) == ModelOutcome::Fail(e));
                        assert(run_model(p1, m1, 1nat) == Some(RunEnd::Failed(e, m1)));
                        assert(match run_model(p1, m1, 1nat) {
                            Some(RunEnd::Failed(e1, f1)) => e1 == e && f1.mem == m2.mem
                                && f1.input == m2.input && f1.output == m2.output,
                            _ => false,
                        });
                    },
                }
            },
        }
    }
}

/// The simulation case of a folded value opcode.
#[verifier::rlimit(100)]
proof fn lemma_value_sim(
    p2: Program,
    p1: Program,
    m2: MachineView,
    m1: MachineView,
    add: bool,
    count: usize,
)
    requires
        programs_correspond(p2, p1),
        machines_correspond(p2, m2, m1),
        0 <= m2.ip < p2.code@.len(),
        p2.code@[m2.ip] == (if add {
            OpCode::IncValue(count)
        } else {
            OpCode::DecValue(count)
        }),
        count >= 1,
    ensures
        match step_model(p2, m2) {
            ModelOutcome::Step(m2b) => exists|k: nat|
                1 <= k && #[trigger] steps_model(p1, m1, k) is Some && machines_correspond(
                    p2,
                    m2b,
                    steps_model(p1, m1, k)->0,
                ),
            ModelOutcome::Halt(h2) => exists|k: nat|
                match #[trigger] run_model(p1, m1, k) {
                    Some(RunEnd::Halted(h1)) => h1.mem == h2.mem && h1.input == h2.input
                        && h1.output == h2.output,
                    _ => false,
                },
            ModelOutcome::Fail(e) => false,
        },
{
    let code2 = p2.code@;
    let code1 = p1.code@;
    let i = m2.ip;
    let p = pos_of(code2, i);
    lemma_expand_len(code2);
    lemma_count_sum_ge_len(code2);
    lemma_count_sum_take_step(code2, i);
    lemma_pos_strict(code2, 0, i);
    assert(code2.take(0) =~= Seq::<OpCode>::empty());
    lemma_pos_strict(code2, i + 1, code2.len() as int);
    assert(pos_of(code2, code2.len() as int) == count_sum(code2)) by {
        assert(code2.take(code2.len() as int) =~= code2);
    }
    assert forall|j: int|
        0 <= j < count implies (#[trigger] code1[p + j]) == (if add {
        OpCode::IncValue(1)
    } else {
        OpCode::DecValue(1)
    }) by {
        lemma_expand_index(code2, i, j);
    }
    assert(p2.jump_table@[i] is None);
    lemma_unit_value_steps(p1, m1, add, count as nat);
    crate::vm::lemma_cell_fold_equivalence(m1.mem[m1.data_ptr], count);
    let cell = m2.mem[m2.data_ptr];
    let folded = if add {
        cell_add(cell, count)
    } else {
        cell_sub(cell, count)
    };
    assert(pos_of(code2, i + 1) == p + count);
    if i + 1 < code2.len() {
        let m2b = MachineView {
            ip: i + 1,
            mem: m2.mem.update(m2.data_ptr, folded),
            ..m2
        };
        assert(step_model(p2, m2) == ModelOutcome::Step(m2b));
        assert(p + count < code1.len());
        assert(steps_model(p1, m1, count as nat) is Some);
        assert(machines_correspond(p2, m2b, steps_model(p1, m1, count as nat)->0));
    } else {
        let h2 = MachineView { mem: m2.mem.update(m2.data_ptr, folded), ..m2 };
        assert(step_model(p2, m2) == ModelOutcome::Halt(h2));
        assert(p + count == code1.len());
        assert(match run_model(p1, m1, count as nat) {
            Some(RunEnd::Halted(h1)) => h1.mem == h2.mem && h1.input == h2.input && h1.output
                == h2.output,
            _ => false,
        });
    }
}

/// The simulation case of a folded pointer opcode.
#[verifier::rlimit(100)]
proof fn lemma_ptr_sim(
    p2: Program,
    p1: Program,
    m2: MachineView,
    m1: MachineView,
    right: bool,
    count: usize,
)
    requires
        programs_correspond(p2, p1),
        machines_correspond(p2, m2, m1),
        0 <= m2.ip < p2.code@.len(),
        p2.code@[m2.ip] == (if right {
            OpCode::IncDataPtr(count)
        } else {
            OpCode::DecDataPtr(count)
        }),
        count >= 1,
    ensures
        match step_model(p2, m2) {
            ModelOutcome::Step(m2b) => exists|k: nat|
                1 <= k && #[trigger] steps_model(p1, m1, k) is Some && machines_correspond(
                    p2,
                    m2b,
                    steps_model(p1, m1, k)->0,
                ),
            ModelOutcome::Halt(h2) => exists|k: nat|
                match #[trigger] run_model(p1, m1, k) {
                    Some(RunEnd::Halted(h1)) => h1.mem == h2.mem && h1.input == h2.input
                        && h1.output == h2.output,
                    _ => false,
                },
            ModelOutcome::Fail(e) => exists|k: nat|
                match #[trigger] run_model(p1, m1, k) {
                    Some(RunEnd::Failed(e1, f1)) => e1 == e && f1.mem == m2.mem && f1.input
                        == m2.input && f1.output == m2.output,
                    _ => false,
                },
        },
{
    let code2 = p2.code@;
    let code1 = p1.code@;
    let i = m2.ip;
    let p = pos_of(code2, i);
    lemma_expand_len(code2);
    lemma_count_sum_ge_len(code2);
    lemma_count_sum_take_step(code2, i);
    lemma_pos_strict(code2, 0, i);
    assert(code2.take(0) =~= Seq::<OpCode>::empty());
    lemma_pos_strict(code2, i + 1, code2.len() as int);
    assert(pos_of(code2, code2.len() as int) == count_sum(code2)) by {
        assert(code2.take(code2.len() as int) =~= code2);
    }
    assert forall|j: int|
        0 <= j < count implies (#[trigger] code1[p + j]) == (if right {
        OpCode::IncDataPtr(1)
    } else {
        OpCode::DecDataPtr(1)
    }) by {
        lemma_expand_index(code2, i, j);
    }
    assert(p2.jump_table@[i] is None);
    let failing = if right {
        m2.data_ptr + count >= m2.mem.len()
    } else {
        m2.data_ptr < count
    };
    if !failing {
        lemma_unit_ptr_steps(p1, m1, right, count as nat);
        assert(pos_of(code2, i + 1) == p + count);
        let moved = if right {
            m2.data_ptr + count
        } else {
            m2.data_ptr - count
        };
        if i + 1 < code2.len() {
            let m2b = MachineView { ip: i + 1, data_ptr: moved, ..m2 };
            assert(step_model(p2, m2) == ModelOutcome::Step(m2b));
            assert(p + count < code1.len());
            assert(steps_model(p1, m1, count as nat) is Some);
            assert(machines_correspond(p2, m2b, steps_model(p1, m1, count as nat)->0));
        } else {
            let h2 = MachineView { data_ptr: moved, ..m2 };
            assert(step_model(p2, m2) == ModelOutcome::Halt(h2));
            assert(p + count == code1.len());
            assert(match run_model(p1, m1, count as nat) {
                Some(RunEnd::Halted(h1)) => h1.mem == h2.mem && h1.input == h2.input && h1.output
                    == h2.output,
                _ => false,
            });
        }
    } else {
        let e = if right {
            crate::vm::EvalError::InvalidInstructionPointer
        } else {
            crate::vm::EvalError::MemoryOutOfBounds
        };
        assert(step_model(p2, m2) == ModelOutcome::Fail(e));
        assert(pos_of(code2, i + 1) == p + count);
        lemma_unit_ptr_fail(p1, m1, right, count as nat);
    }
}

/// The plain run's ending matches the folded run's ending: both halt or
/// both fail with the same error, over the same final tape, the same
/// remaining input and the same output.
pub open spec fn ends_correspond(end2: RunEnd, r: Option<RunEnd>) -> bool {
    match end2 {
        RunEnd::Halted(h2) => match r {
            Some(RunEnd::Halted(h1)) => h1.mem == h2.mem && h1.input == h2.input && h1.output
                == h2.output,
            _ => false,
        },
        RunEnd::Failed(e2, f2) => match r {
            Some(RunEnd::Failed(e1, f1)) => e1 == e2 && f1.mem == f2.mem && f1.input == f2.input
                && f1.output == f2.output,
            _ => false,
        },
    }
}

/// Run-length equivalence of finished runs: whenever the folded program's
/// run comes to an end — halting or failing — the plain program's run
/// comes to the matching end, with identical output, tape, remaining
/// input, and, on failure, the same error.
pub proof fn lemma_rle_run_equivalence(
    p2: Program,
    p1: Program,
    m2: MachineView,
    m1: MachineView,
    fuel: nat,
    end2: RunEnd,
)
    requires
        programs_correspond(p2, p1),
        machines_correspond(p2, m2, m1),
        run_model(p2, m2, fuel) == Some(end2),
    ensures
        exists|fuel1: nat| ends_correspond(end2, #[trigger] run_model(p1, m1, fuel1)),
    decreases fuel,
{
    assert(fuel >= 1);
    lemma_sim_step(p2, p1, m2, m1);
    match step_model(p2, m2) {
        ModelOutcome::Halt(hh) => {
            assert(end2 == RunEnd::Halted(hh));
            let k = choose|k: nat|
                match #[trigger] run_model(p1, m1, k) {
                    Some(RunEnd::Halted(h1)) => h1.mem == hh.mem && h1.input == hh.input
                        && h1.output == hh.output,
                    _ => false,
                };
            assert(ends_correspond(end2, run_model(p1, m1, k)));
        },
        ModelOutcome::Fail(e) => {
            assert(end2 == RunEnd::Failed(e, m2));
            let k = choose|k: nat|
                match #[trigger] run_model(p1, m1, k) {
                    Some(RunEnd::Failed(e1, f1)) => e1 == e && f1.mem == m2.mem && f1.input
                        == m2.input && f1.output == m2.output,
                    _ => false,
                };
            assert(ends_correspond(end2, run_model(p1, m1, k)));
        },
        ModelOutcome::Step(m2b) => {
            assert(run_model(p2, m2b, (fuel - 1) as nat) == Some(end2));
            let k = choose|k: nat|
                1 <= k && #[trigger] steps_model(p1, m1, k) is Some && machines_correspond(
                    p2,
                    m2b,
                    steps_model(p1, m1, k)->0,
                );
            let m1b = steps_model(p1, m1, k)->0;
            lemma_rle_run_equivalence(p2, p1, m2b, m1b, (fuel - 1) as nat, end2);
            let fuel1 = choose|fuel1: nat|
                ends_correspond(end2, #[trigger] run_model(p1, m1b, fuel1));
            if let Some(end1) = run_model(p1, m1b, fuel1) {
                lemma_run_compose(p1, m1, k, fuel1, end1);
                assert(ends_correspond(end2, run_model(p1, m1, k + fuel1)));
            }
        },
    }
}

/// Run-length equivalence at the source: parse one source both ways; when
/// the folded program's run from a fresh machine comes to an end, the
/// plain program's run comes to the matching end — the same output above
/// all.
pub proof fn lemma_rle_source_equivalence(
    source: Seq<char>,
    p_plain: Program,
    p_folded: Program,
    m: MachineView,
    fuel: nat,
    end2: RunEnd,
)
    requires
        source.len() <= usize::MAX,
        p_plain.wf(),
        p_plain.code@ == tokens(source),
        crate::program::bracket_result(p_plain.code@) == Ok::<_, usize>(p_plain.jump_table@),
        p_folded.wf(),
        p_folded.code@ == rle_fold(tokens(source)),
        crate::program::bracket_result(p_folded.code@) == Ok::<_, usize>(p_folded.jump_table@),
        m.ip == 0,
        0 <= m.data_ptr < m.mem.len(),
        run_model(p_folded, m, fuel) == Some(end2),
    ensures
        exists|fuel1: nat| ends_correspond(end2, #[trigger] run_model(p_plain, m, fuel1)),
{
    let t = tokens(source);
    let folded = rle_fold(t);
    crate::program::lemma_tokens_count_one(source);
    lemma_tokens_len_le(source);
    crate::opcode::lemma_rle_fold_counts(t);
    crate::opcode::lemma_rle_fold_expands(t);
    lemma_expand_len(folded);
    lemma_bracket_result_corresponds(folded);
    assert(programs_correspond(p_folded, p_plain));
    assert(pos_of(folded, 0) == 0) by {
        assert(folded.take(0) =~= Seq::<OpCode>::empty());
    }
    assert(machines_correspond(p_folded, m, m));
    lemma_rle_run_equivalence(p_folded, p_plain, m, m, fuel, end2);
}

/// A finished bounded run decomposes: after any successful stretch of its
/// steps, the rest of the fuel still finishes it the same way.
pub proof fn lemma_run_decompose(p: Program, m: MachineView, k: nat, fuel: nat, end: RunEnd)
    requires
        steps_model(p, m, k) is Some,
        run_model(p, m, fuel) == Some(end),
    ensures
        k < fuel,
        run_model(p, steps_model(p, m, k)->0, (fuel - k) as nat) == Some(end),
    decreases k,
{
    if k == 0 {
        assert(steps_model(p, m, 0nat)->0 == m);
    } else {
        match step_model(p, m) {
            ModelOutcome::Step(m2) => {
                assert(steps_model(p, m, k) == steps_model(p, m2, (k - 1) as nat));
                assert(fuel >= 1);
                assert(run_model(p, m, fuel) == run_model(p, m2, (fuel - 1) as nat));
                lemma_run_decompose(p, m2, (k - 1) as nat, (fuel - 1) as nat, end);
            },
            _ => {
                assert(steps_model(p, m, k) is None);
            },
        }
    }
}

/// The folded run finishes whenever the plain run does: a finished plain
/// run bounds the folded run, which therefore reaches its own end.
pub proof fn lemma_folded_run_finishes(
    p2: Program,
    p1: Program,
    m2: MachineView,
    m1: MachineView,
    fuel: nat,
    end1: RunEnd,
)
    requires
        programs_correspond(p2, p1),
        machines_correspond(p2, m2, m1),
        run_model(p1, m1, fuel) == Some(end1),
    ensures
        exists|fuel2: nat| (#[trigger] run_model(p2, m2, fuel2)) is Some,
    decreases fuel,
{
    lemma_sim_step(p2, p1, m2, m1);
    match step_model(p2, m2) {
        ModelOutcome::Halt(h2) => {
            assert(run_model(p2, m2, 1nat) == Some(RunEnd::Halted(h2)));
        },
        ModelOutcome::Fail(e) => {
            assert(run_model(p2, m2, 1nat) == Some(RunEnd::Failed(e, m2)));
        },
        ModelOutcome::Step(m2b) => {
            let k = choose|k: nat|
                1 <= k && #[trigger] steps_model(p1, m1, k) is Some && machines_correspond(
                    p2,
                    m2b,
                    steps_model(p1, m1, k)->0,
                );
            let m1b = steps_model(p1, m1, k)->0;
            lemma_run_decompose(p1, m1, k, fuel, end1);
            lemma_folded_run_finishes(p2, p1, m2b, m1b, (fuel - k) as nat, end1);
            let fuel2 = choose|fuel2: nat| (#[trigger] run_model(p2, m2b, fuel2)) is Some;
            assert(run_model(p2, m2, fuel2 + 1) == run_model(p2, m2b, fuel2));
        },
    }
}

/// The converse direction of the run equivalence at the source: when the
/// plain program's run from a fresh machine comes to an end, the folded
/// program's run comes to an end too — and then, by
/// [`lemma_rle_source_equivalence`], to the matching one.
pub proof fn lemma_rle_source_equivalence_converse(
    source: Seq<char>,
    p_plain: Program,
    p_folded: Program,
    m: MachineView,
    fuel: nat,
    end1: RunEnd,
)
    requires
        source.len() <= usize::MAX,
        p_plain.wf(),
        p_plain.code@ == tokens(source),
        crate::program::bracket_result(p_plain.code@) == Ok::<_, usize>(p_plain.jump_table@),
        p_folded.wf(),
        p_folded.code@ == rle_fold(tokens(source)),
        crate::program::bracket_result(p_folded.code@) == Ok::<_, usize>(p_folded.jump_table@),
        m.ip == 0,
        0 <= m.data_ptr < m.mem.len(),
        run_model(p_plain, m, fuel) == Some(end1),
    ensures
        exists|fuel2: nat| (#[trigger] run_model(p_folded, m, fuel2)) is Some,
{
    let t = tokens(source);
    let folded = rle_fold(t);
    crate::program::lemma_tokens_count_one(source);
    lemma_tokens_len_le(source);
    crate::opcode::lemma_rle_fold_counts(t);
    crate::opcode::lemma_rle_fold_expands(t);
    lemma_expand_len(folded);
    lemma_bracket_result_corresponds(folded);
    assert(programs_correspond(p_folded, p_plain));
    assert(pos_of(folded, 0) == 0) by {
        assert(folded.take(0) =~= Seq::<OpCode>::empty());
    }
    assert(machines_correspond(p_folded, m, m));
    lemma_folded_run_finishes(p_folded, p_plain, m, m, fuel, end1);
}

} // verus!

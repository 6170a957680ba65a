//! A small-step meaning for program trees, and the proofs that the five
//! peephole rewrites preserve it: whenever the plain loop form terminates,
//! the rewritten node reaches exactly the same state.

use vstd::prelude::*;

use crate::ast::{
    range_closed, spec_lower, spec_optimize, spec_optimize_seq, spec_rewrite_loop, AstView,
};
use crate::opcode::OpCode;
use crate::program::Program;
use crate::vm::{
    cell_add, cell_sub, run_model, spec_char_cell, step_model, steps_model, MachineView,
    ModelOutcome, RunEnd,
};

verus! {

/// The state a tree executes on: the tape, the data pointer, the input not
/// yet read, and the output written so far.
pub struct AstState {
    pub mem: Seq<u8>,
    pub data_ptr: int,
    pub input: Seq<char>,
    pub output: Seq<char>,
}

/// Run one tree node on a state for at most `fuel` loop iterations per
/// loop: the final state, or `None` when the pointer leaves the tape, a
/// copy target is off the tape, or the fuel runs out.
pub open spec fn ast_eval(n: AstView, s: AstState, fuel: nat) -> Option<AstState>
    decreases fuel, n,
{
    if s.data_ptr < 0 || s.data_ptr >= s.mem.len() {
        None
    } else {
        match n {
            AstView::DecDataPtr(c) => if s.data_ptr < c {
                None
            } else {
                Some(AstState { data_ptr: s.data_ptr - c, ..s })
            },
            AstView::IncDataPtr(c) => if s.data_ptr + c >= s.mem.len() {
                None
            } else {
                Some(AstState { data_ptr: s.data_ptr + c, ..s })
            },
            AstView::DecValue(c) => Some(
                AstState {
                    mem: s.mem.update(s.data_ptr, cell_sub(s.mem[s.data_ptr], c)),
                    ..s
                },
            ),
            AstView::IncValue(c) => Some(
                AstState {
                    mem: s.mem.update(s.data_ptr, cell_add(s.mem[s.data_ptr], c)),
                    ..s
                },
            ),
            AstView::Input => if s.input.len() > 0 {
                Some(
                    AstState {
                        mem: s.mem.update(s.data_ptr, spec_char_cell(s.input[0])),
                        input: s.input.skip(1),
                        ..s
                    },
                )
            } else {
                Some(s)
            },
            AstView::Output => Some(
                AstState { output: s.output.push(s.mem[s.data_ptr] as char), ..s },
            ),
            AstView::SetValue(v) => Some(AstState { mem: s.mem.update(s.data_ptr, v), ..s }),
            AstView::AddTo(off) => {
                let target = s.data_ptr + off;
                if s.mem[s.data_ptr] == 0 {
                    Some(s)
                } else if 0 <= target < s.mem.len() {
                    Some(
                        AstState {
                            mem: s.mem.update(
                                target,
                                cell_add(s.mem[target], s.mem[s.data_ptr] as usize),
                            ).update(s.data_ptr, 0),
                            ..s
                        },
                    )
                } else {
                    None
                }
            },
            AstView::Loop(cs) => if s.mem[s.data_ptr] == 0 {
                Some(s)
            } else {
                match ast_eval_seq(cs, s, fuel) {
                    None => None,
                    Some(s2) => if fuel == 0 {
                        None
                    } else {
                        ast_eval(n, s2, (fuel - 1) as nat)
                    },
                }
            },
            AstView::Program(cs) => ast_eval_seq(cs, s, fuel),
        }
    }
}

/// Run a sequence of nodes left to right.
pub open spec fn ast_eval_seq(cs: Seq<AstView>, s: AstState, fuel: nat) -> Option<AstState>
    decreases fuel, cs,
{
    if cs.len() == 0 {
        Some(s)
    } else {
        match ast_eval(cs[0], s, fuel) {
            None => None,
            Some(s2) => ast_eval_seq(cs.subrange(1, cs.len() as int), s2, fuel),
        }
    }
}

/// The clear-loop rewrite is sound: whenever the loop around a lone value
/// change terminates, it leaves exactly what writing zero to the current
/// cell leaves.
pub proof fn lemma_rewrite_clear(op: AstView, s: AstState, fuel: nat)
    requires
        op is DecValue || op is IncValue,
        ast_eval(AstView::Loop(seq![op]), s, fuel) is Some,
    ensures
        ast_eval(AstView::Loop(seq![op]), s, fuel) == ast_eval(AstView::SetValue(0), s, fuel),
    decreases fuel,
{
    reveal_with_fuel(ast_eval_seq, 3);
    reveal_with_fuel(ast_eval, 3);
    let node = AstView::Loop(seq![op]);
    let dp = s.data_ptr;
    if s.mem[dp] == 0 {
        assert(s.mem.update(dp, 0u8) =~= s.mem);
        assert((AstState { mem: s.mem.update(dp, 0u8), ..s }) == s);
    } else {
        let body = seq![op];
        assert(body.subrange(1, 1) =~= Seq::<AstView>::empty());
        let s1 = ast_eval(op, s, fuel)->0;
        assert(ast_eval_seq(body, s, fuel) == Some(s1));
        assert(fuel > 0);
        assert(ast_eval(node, s, fuel) == ast_eval(node, s1, (fuel - 1) as nat));
        lemma_rewrite_clear(op, s1, (fuel - 1) as nat);
        assert(s1.mem.update(dp, 0u8) =~= s.mem.update(dp, 0u8));
        assert((AstState { mem: s1.mem.update(dp, 0u8), ..s1 }) == (AstState {
            mem: s.mem.update(dp, 0u8),
            ..s
        }));
    }
}

/// What one pass of a copy-loop body does, whichever of the four shapes it
/// has: decrement the current cell, bump the cell at distance `off`.
#[verifier::rlimit(100)]
proof fn lemma_copy_body_step(first_dec: bool, right: bool, a: usize, s: AstState, fuel: nat)
    requires
        0 <= s.data_ptr < s.mem.len(),
        s.mem[s.data_ptr] != 0,
        0 <= s.data_ptr + (if right { a as int } else { -(a as int) }) < s.mem.len(),
        a != 0,
    ensures
        ({
            let target = s.data_ptr + (if right { a as int } else { -(a as int) });
            let body = copy_body(first_dec, right, a);
            ast_eval_seq(body, s, fuel) == Some(
                AstState {
                    mem: s.mem.update(s.data_ptr, cell_sub(s.mem[s.data_ptr], 1)).update(
                        target,
                        cell_add(s.mem[target], 1),
                    ),
                    ..s
                },
            )
        }),
{
    let dp = s.data_ptr;
    let target = dp + (if right {
        a as int
    } else {
        -(a as int)
    });
    let body = copy_body(first_dec, right, a);
    let b1 = body.subrange(1, 4);
    let b2 = b1.subrange(1, 3);
    let b3 = b2.subrange(1, 2);
    let b4 = b3.subrange(1, 1);
    assert(body.len() == 4 && b1[0] == body[1] && b2[0] == body[2] && b3[0] == body[3]
        && b4.len() == 0);
    if first_dec {
        let s1 = AstState { mem: s.mem.update(dp, cell_sub(s.mem[dp], 1)), ..s };
        let s2 = AstState { data_ptr: target, ..s1 };
        let s3 = AstState { mem: s1.mem.update(target, cell_add(s1.mem[target], 1)), ..s2 };
        let s4 = AstState { data_ptr: dp, ..s3 };
        assert(ast_eval(body[0], s, fuel) == Some(s1));
        assert(ast_eval_seq(body, s, fuel) == ast_eval_seq(b1, s1, fuel));
        assert(ast_eval(body[1], s1, fuel) == Some(s2));
        assert(ast_eval_seq(b1, s1, fuel) == ast_eval_seq(b2, s2, fuel));
        assert(ast_eval(body[2], s2, fuel) == Some(s3));
        assert(ast_eval_seq(b2, s2, fuel) == ast_eval_seq(b3, s3, fuel));
        assert(ast_eval(body[3], s3, fuel) == Some(s4));
        assert(ast_eval_seq(b3, s3, fuel) == ast_eval_seq(b4, s4, fuel));
        assert(ast_eval_seq(b4, s4, fuel) == Some(s4));
        assert(s1.mem[target] == s.mem[target]);
        assert(s4.mem =~= s.mem.update(dp, cell_sub(s.mem[dp], 1)).update(
            target,
            cell_add(s.mem[target], 1),
        ));
    } else {
        let s1 = AstState { data_ptr: target, ..s };
        let s2 = AstState { mem: s.mem.update(target, cell_add(s.mem[target], 1)), ..s1 };
        let s3 = AstState { data_ptr: dp, ..s2 };
        let s4 = AstState { mem: s2.mem.update(dp, cell_sub(s2.mem[dp], 1)), ..s3 };
        assert(ast_eval(body[0], s, fuel) == Some(s1));
        assert(ast_eval_seq(body, s, fuel) == ast_eval_seq(b1, s1, fuel));
        assert(ast_eval(body[1], s1, fuel) == Some(s2));
        assert(ast_eval_seq(b1, s1, fuel) == ast_eval_seq(b2, s2, fuel));
        assert(ast_eval(body[2], s2, fuel) == Some(s3));
        assert(ast_eval_seq(b2, s2, fuel) == ast_eval_seq(b3, s3, fuel));
        assert(ast_eval(body[3], s3, fuel) == Some(s4));
        assert(ast_eval_seq(b3, s3, fuel) == ast_eval_seq(b4, s4, fuel));
        assert(ast_eval_seq(b4, s4, fuel) == Some(s4));
        assert(s2.mem[dp] == s.mem[dp]);
        assert(s4.mem =~= s.mem.update(dp, cell_sub(s.mem[dp], 1)).update(
            target,
            cell_add(s.mem[target], 1),
        ));
    }
}

/// The four copy-loop bodies: decrement first or last, move right or left.
pub open spec fn copy_body(first_dec: bool, right: bool, a: usize) -> Seq<AstView> {
    let there = if right {
        AstView::IncDataPtr(a)
    } else {
        AstView::DecDataPtr(a)
    };
    let back = if right {
        AstView::DecDataPtr(a)
    } else {
        AstView::IncDataPtr(a)
    };
    if first_dec {
        seq![AstView::DecValue(1), there, AstView::IncValue(1), back]
    } else {
        seq![there, AstView::IncValue(1), back, AstView::DecValue(1)]
    }
}

/// The copy-loop rewrites are sound: whenever one of the four copy-loop
/// shapes terminates, it leaves exactly what the `AddTo` of its signed
/// distance leaves — the current cell's value added into the cell at the
/// distance, the current cell cleared.
#[verifier::rlimit(100)]
pub proof fn lemma_rewrite_add_to(
    first_dec: bool,
    right: bool,
    a: usize,
    off: isize,
    s: AstState,
    fuel: nat,
)
    requires
        a <= isize::MAX,
        off == (if right { a as int } else { -(a as int) }),
        ast_eval(AstView::Loop(copy_body(first_dec, right, a)), s, fuel) is Some,
    ensures
        ast_eval(AstView::Loop(copy_body(first_dec, right, a)), s, fuel) == ast_eval(
            AstView::AddTo(off),
            s,
            fuel,
        ),
    decreases fuel,
{
    let node = AstView::Loop(copy_body(first_dec, right, a));
    let dp = s.data_ptr;
    let target = dp + off;
    if s.mem[dp] == 0 {
        assert(ast_eval(AstView::AddTo(off), s, fuel) == Some(s));
    } else if !(0 <= target < s.mem.len()) {
        lemma_copy_body_stuck(first_dec, right, a, s, fuel);
        assert(false);
    } else {
        if a == 0 {
            assert(ast_eval_seq(copy_body(first_dec, right, a), s, fuel) is Some
                ==> ast_eval_seq(copy_body(first_dec, right, a), s, fuel)->0 == s) by {
                lemma_copy_body_zero(first_dec, right, s, fuel);
            }
            assert(fuel > 0);
            lemma_rewrite_add_to(first_dec, right, a, off, s, (fuel - 1) as nat);
        } else {
            lemma_copy_body_step(first_dec, right, a, s, fuel);
            let s4 = AstState {
                mem: s.mem.update(dp, cell_sub(s.mem[dp], 1)).update(
                    target,
                    cell_add(s.mem[target], 1),
                ),
                ..s
            };
            assert(fuel > 0);
            assert(ast_eval(node, s, fuel) == ast_eval(node, s4, (fuel - 1) as nat));
            lemma_rewrite_add_to(first_dec, right, a, off, s4, (fuel - 1) as nat);
            let after_rec = AstState {
                mem: s4.mem.update(target, cell_add(s4.mem[target], s4.mem[dp] as usize)).update(
                    dp,
                    0u8,
                ),
                ..s4
            };
            let direct = AstState {
                mem: s.mem.update(target, cell_add(s.mem[target], s.mem[dp] as usize)).update(
                    dp,
                    0u8,
                ),
                ..s
            };
            assert(s4.mem[dp] == cell_sub(s.mem[dp], 1));
            assert(s4.mem[target] == cell_add(s.mem[target], 1));
            if s4.mem[dp] == 0 {
                assert(ast_eval(AstView::AddTo(off), s4, (fuel - 1) as nat) == Some(s4));
                assert(s.mem[dp] == 1);
                assert(cell_add(s.mem[target], 1usize) == cell_add(
                    s.mem[target],
                    s.mem[dp] as usize,
                ));
                assert(s4.mem =~= direct.mem);
                assert(s4 == direct);
            } else {
                assert(cell_add(s4.mem[target], s4.mem[dp] as usize) == cell_add(
                    s.mem[target],
                    s.mem[dp] as usize,
                ));
                assert(after_rec.mem =~= direct.mem);
                assert(after_rec == direct);
            }
        }
    }
}

/// A copy body with distance zero brings the state back where it started.
#[verifier::rlimit(100)]
proof fn lemma_copy_body_zero(first_dec: bool, right: bool, s: AstState, fuel: nat)
    requires
        0 <= s.data_ptr < s.mem.len(),
        s.mem[s.data_ptr] != 0,
    ensures
        ast_eval_seq(copy_body(first_dec, right, 0), s, fuel) is Some ==> ast_eval_seq(
            copy_body(first_dec, right, 0),
            s,
            fuel,
        )->0 == s,
{
    let dp = s.data_ptr;
    let body = copy_body(first_dec, right, 0);
    let b1 = body.subrange(1, 4);
    let b2 = b1.subrange(1, 3);
    let b3 = b2.subrange(1, 2);
    let b4 = b3.subrange(1, 1);
    assert(body.len() == 4 && b1[0] == body[1] && b2[0] == body[2] && b3[0] == body[3]
        && b4.len() == 0);
    if first_dec {
        let s1 = AstState { mem: s.mem.update(dp, cell_sub(s.mem[dp], 1)), ..s };
        let s3 = AstState { mem: s1.mem.update(dp, cell_add(s1.mem[dp], 1)), ..s1 };
        assert(ast_eval(body[0], s, fuel) == Some(s1));
        assert(ast_eval_seq(body, s, fuel) == ast_eval_seq(b1, s1, fuel));
        assert(ast_eval(body[1], s1, fuel) == Some(s1));
        assert(ast_eval_seq(b1, s1, fuel) == ast_eval_seq(b2, s1, fuel));
        assert(ast_eval(body[2], s1, fuel) == Some(s3));
        assert(ast_eval_seq(b2, s1, fuel) == ast_eval_seq(b3, s3, fuel));
        assert(ast_eval(body[3], s3, fuel) == Some(s3));
        assert(ast_eval_seq(b3, s3, fuel) == ast_eval_seq(b4, s3, fuel));
        assert(ast_eval_seq(b4, s3, fuel) == Some(s3));
        assert(cell_add(cell_sub(s.mem[dp], 1), 1) == s.mem[dp]);
        assert(s3.mem =~= s.mem);
        assert(s3 == s);
    } else {
        let s2 = AstState { mem: s.mem.update(dp, cell_add(s.mem[dp], 1)), ..s };
        let s4 = AstState { mem: s2.mem.update(dp, cell_sub(s2.mem[dp], 1)), ..s2 };
        assert(ast_eval(body[0], s, fuel) == Some(s));
        assert(ast_eval_seq(body, s, fuel) == ast_eval_seq(b1, s, fuel));
        assert(ast_eval(body[1], s, fuel) == Some(s2));
        assert(ast_eval_seq(b1, s, fuel) == ast_eval_seq(b2, s2, fuel));
        assert(ast_eval(body[2], s2, fuel) == Some(s2));
        assert(ast_eval_seq(b2, s2, fuel) == ast_eval_seq(b3, s2, fuel));
        assert(ast_eval(body[3], s2, fuel) == Some(s4));
        assert(ast_eval_seq(b3, s2, fuel) == ast_eval_seq(b4, s4, fuel));
        assert(ast_eval_seq(b4, s4, fuel) == Some(s4));
        assert(cell_sub(cell_add(s.mem[dp], 1), 1) == s.mem[dp]);
        assert(s4.mem =~= s.mem);
        assert(s4 == s);
    }
}

/// A copy-loop body whose far cell lies off the tape gets stuck at its
/// pointer move, so the surrounding loop cannot finish on a non-zero cell.
#[verifier::rlimit(100)]
proof fn lemma_copy_body_stuck(first_dec: bool, right: bool, a: usize, s: AstState, fuel: nat)
    requires
        0 <= s.data_ptr < s.mem.len(),
        s.mem[s.data_ptr] != 0,
        !(0 <= s.data_ptr + (if right { a as int } else { -(a as int) }) < s.mem.len()),
    ensures
        ast_eval_seq(copy_body(first_dec, right, a), s, fuel) is None,
        ast_eval(AstView::Loop(copy_body(first_dec, right, a)), s, fuel) is None,
{
    let dp = s.data_ptr;
    let body = copy_body(first_dec, right, a);
    let b1 = body.subrange(1, 4);
    assert(body.len() == 4 && b1[0] == body[1]);
    if first_dec {
        let s1 = AstState { mem: s.mem.update(dp, cell_sub(s.mem[dp], 1)), ..s };
        assert(ast_eval(body[0], s, fuel) == Some(s1));
        assert(ast_eval_seq(body, s, fuel) == ast_eval_seq(b1, s1, fuel));
        assert(ast_eval(body[1], s1, fuel) is None);
        assert(ast_eval_seq(b1, s1, fuel) is None);
    } else {
        assert(ast_eval(body[0], s, fuel) is None);
        assert(ast_eval_seq(body, s, fuel) is None);
    }
}

/// Every pointer move in the tree stays expressible as a signed distance.
pub open spec fn ptr_counts_bounded(n: AstView) -> bool
    decreases n,
{
    match n {
        AstView::IncDataPtr(c) => c <= isize::MAX,
        AstView::DecDataPtr(c) => c <= isize::MAX,
        AstView::Loop(cs) => ptr_counts_bounded_seq(cs),
        AstView::Program(cs) => ptr_counts_bounded_seq(cs),
        _ => true,
    }
}

pub open spec fn ptr_counts_bounded_seq(cs: Seq<AstView>) -> bool
    decreases cs,
{
    if cs.len() == 0 {
        true
    } else {
        ptr_counts_bounded(cs[0]) && ptr_counts_bounded_seq(cs.subrange(1, cs.len() as int))
    }
}

/// Every node of a bounded sequence is bounded.
proof fn lemma_bounded_index(cs: Seq<AstView>, i: int)
    requires
        ptr_counts_bounded_seq(cs),
        0 <= i < cs.len(),
    ensures
        ptr_counts_bounded(cs[i]),
    decreases cs.len(),
{
    if i > 0 {
        lemma_bounded_index(cs.subrange(1, cs.len() as int), i - 1);
    }
}

/// The optimised sequence holds the optimised nodes, in place.
proof fn lemma_optimize_seq_index(cs: Seq<AstView>, i: int)
    ensures
        spec_optimize_seq(cs).len() == cs.len(),
        0 <= i < cs.len() ==> spec_optimize_seq(cs)[i] == spec_optimize(cs[i]),
    decreases cs.len(),
{
    if cs.len() > 0 {
        lemma_optimize_seq_index(cs.subrange(1, cs.len() as int), i - 1);
    }
}

/// A node that optimises to a plain pointer move was that pointer move:
/// the rewrites only ever produce `SetValue`, `AddTo` or a loop.
proof fn lemma_opt_ptr_leaf(m: AstView, c: usize, right: bool)
    requires
        ptr_counts_bounded(m),
        spec_optimize(m) == (if right {
            AstView::IncDataPtr(c)
        } else {
            AstView::DecDataPtr(c)
        }),
    ensures
        c <= isize::MAX,
{
    match m {
        AstView::Loop(cs) => {
            assert(!(spec_rewrite_loop(spec_optimize_seq(cs)) is IncDataPtr)
                && !(spec_rewrite_loop(spec_optimize_seq(cs)) is DecDataPtr));
        },
        _ => {},
    }
}

/// Two loop bodies that agree wherever the first one finishes give the
/// same meaning to the loops around them.
proof fn lemma_loop_congruence(cs: Seq<AstView>, cs2: Seq<AstView>, s: AstState, fuel: nat)
    requires
        forall|s2: AstState, f2: nat|
            (#[trigger] ast_eval_seq(cs, s2, f2)) is Some ==> ast_eval_seq(cs2, s2, f2)
                == ast_eval_seq(cs, s2, f2),
        ast_eval(AstView::Loop(cs), s, fuel) is Some,
    ensures
        ast_eval(AstView::Loop(cs2), s, fuel) == ast_eval(AstView::Loop(cs), s, fuel),
    decreases fuel,
{
    if s.mem[s.data_ptr] != 0 {
        let s2 = ast_eval_seq(cs, s, fuel)->0;
        assert(ast_eval_seq(cs2, s, fuel) == Some(s2));
        assert(fuel > 0);
        lemma_loop_congruence(cs, cs2, s2, (fuel - 1) as nat);
    }
}

/// The optimiser is sound for whole trees: wherever the original tree runs
/// to completion, the optimised tree runs to exactly the same state — the
/// same tape, output and remaining input.
pub proof fn lemma_optimize_preserves_eval(n: AstView, s: AstState, fuel: nat)
    requires
        ptr_counts_bounded(n),
        ast_eval(n, s, fuel) is Some,
    ensures
        ast_eval(spec_optimize(n), s, fuel) == ast_eval(n, s, fuel),
    decreases n,
{
    match n {
        AstView::Program(cs) => {
            lemma_optimize_preserves_eval_seq(cs, s, fuel);
        },
        AstView::Loop(cs) => {
            let optcs = spec_optimize_seq(cs);
            assert forall|s2: AstState, f2: nat|
                (#[trigger] ast_eval_seq(cs, s2, f2)) is Some implies ast_eval_seq(optcs, s2, f2)
                == ast_eval_seq(cs, s2, f2) by {
                lemma_optimize_preserves_eval_seq(cs, s2, f2);
            }
            lemma_loop_congruence(cs, optcs, s, fuel);
            lemma_optimize_seq_index(cs, 0);
            lemma_optimize_seq_index(cs, 1);
            if optcs.len() == 1 && (optcs[0] is DecValue || optcs[0] is IncValue) {
                assert(seq![optcs[0]] =~= optcs);
                lemma_rewrite_clear(optcs[0], s, fuel);
            } else if optcs.len() == 4 && optcs =~= seq![
                AstView::DecValue(1),
                AstView::IncDataPtr(optcs[1]->IncDataPtr_0),
                AstView::IncValue(1),
                AstView::DecDataPtr(optcs[1]->IncDataPtr_0),
            ] {
                let a = optcs[1]->IncDataPtr_0;
                lemma_bounded_index(cs, 1);
                lemma_opt_ptr_leaf(cs[1], a, true);
                assert(copy_body(true, true, a) =~= optcs);
                lemma_rewrite_add_to(true, true, a, a as isize, s, fuel);
            } else if optcs.len() == 4 && optcs =~= seq![
                AstView::DecValue(1),
                AstView::DecDataPtr(optcs[1]->DecDataPtr_0),
                AstView::IncValue(1),
                AstView::IncDataPtr(optcs[1]->DecDataPtr_0),
            ] {
                let a = optcs[1]->DecDataPtr_0;
                lemma_bounded_index(cs, 1);
                lemma_opt_ptr_leaf(cs[1], a, false);
                assert(copy_body(true, false, a) =~= optcs);
                lemma_rewrite_add_to(true, false, a, crate::ast::spec_neg(a as isize), s, fuel);
            } else if optcs.len() == 4 && optcs =~= seq![
                AstView::DecDataPtr(optcs[0]->DecDataPtr_0),
                AstView::IncValue(1),
                AstView::IncDataPtr(optcs[0]->DecDataPtr_0),
                AstView::DecValue(1),
            ] {
                let a = optcs[0]->DecDataPtr_0;
                lemma_bounded_index(cs, 0);
                lemma_opt_ptr_leaf(cs[0], a, false);
                assert(copy_body(false, false, a) =~= optcs);
                lemma_rewrite_add_to(false, false, a, crate::ast::spec_neg(a as isize), s, fuel);
            } else if optcs.len() == 4 && optcs =~= seq![
                AstView::IncDataPtr(optcs[0]->IncDataPtr_0),
                AstView::IncValue(1),
                AstView::DecDataPtr(optcs[0]->IncDataPtr_0),
                AstView::DecValue(1),
            ] {
                let a = optcs[0]->IncDataPtr_0;
                lemma_bounded_index(cs, 0);
                lemma_opt_ptr_leaf(cs[0], a, true);
                assert(copy_body(false, true, a) =~= optcs);
                lemma_rewrite_add_to(false, true, a, a as isize, s, fuel);
            } else {
                assert(spec_rewrite_loop(optcs) == AstView::Loop(optcs));
            }
        },
        _ => {},
    }
}

/// The optimiser is sound for sequences of trees.
pub proof fn lemma_optimize_preserves_eval_seq(cs: Seq<AstView>, s: AstState, fuel: nat)
    requires
        ptr_counts_bounded_seq(cs),
        ast_eval_seq(cs, s, fuel) is Some,
    ensures
        ast_eval_seq(spec_optimize_seq(cs), s, fuel) == ast_eval_seq(cs, s, fuel),
    decreases cs,
{
    if cs.len() > 0 {
        let optcs = spec_optimize_seq(cs);
        lemma_optimize_seq_index(cs, 0);
        assert(optcs.subrange(1, optcs.len() as int) =~= spec_optimize_seq(
            cs.subrange(1, cs.len() as int),
        ));
        lemma_optimize_preserves_eval(cs[0], s, fuel);
        let s2 = ast_eval(cs[0], s, fuel)->0;
        lemma_optimize_preserves_eval_seq(cs.subrange(1, cs.len() as int), s2, fuel);
    }
}

/// A tree state placed at an instruction pointer of the interpreter.
pub open spec fn as_machine(ip: int, s: AstState) -> MachineView {
    MachineView {
        ip: ip,
        data_ptr: s.data_ptr,
        mem: s.mem,
        input: s.input,
        output: s.output,
    }
}

/// The interpreter carries state `s` at `i` to state `s2` at `j`: by some
/// number of steps when `j` is an instruction, by a halting run when `j`
/// is the end of the program (the halted cursor stays on the last
/// instruction executed, so only the data is compared there).
pub open spec fn interp_reaches(p: Program, i: int, s: AstState, j: int, s2: AstState) -> bool {
    if j < p.code@.len() {
        exists|k: nat| #[trigger] steps_model(p, as_machine(i, s), k) == Some(as_machine(j, s2))
    } else {
        exists|k: nat|
            match #[trigger] run_model(p, as_machine(i, s), k) {
                Some(RunEnd::Halted(h)) => h.data_ptr == s2.data_ptr && h.mem == s2.mem && h.input
                    == s2.input && h.output == s2.output,
                _ => false,
            }
    }
}

/// Stretches of steps compose.
proof fn lemma_steps_compose(p: Program, m: MachineView, k1: nat, k2: nat, mm: MachineView)
    requires
        steps_model(p, m, k1) == Some(mm),
    ensures
        steps_model(p, m, k1 + k2) == steps_model(p, mm, k2),
    decreases k1,
{
    if k1 == 0 {
        assert(mm == m);
    } else {
        match step_model(p, m) {
            ModelOutcome::Step(m2) => {
                assert(steps_model(p, m, k1) == steps_model(p, m2, (k1 - 1) as nat));
                lemma_steps_compose(p, m2, (k1 - 1) as nat, k2, mm);
                assert(steps_model(p, m, k1 + k2) == steps_model(p, m2, ((k1 + k2) - 1) as nat));
                assert(((k1 + k2) - 1) as nat == ((k1 - 1) as nat) + k2);
            },
            _ => {
                assert(steps_model(p, m, k1) is None);
            },
        }
    }
}

/// Reaching through an intermediate instruction composes.
proof fn lemma_reaches_trans(
    p: Program,
    i: int,
    s: AstState,
    j: int,
    s2: AstState,
    l: int,
    s3: AstState,
)
    requires
        0 <= j < p.code@.len(),
        interp_reaches(p, i, s, j, s2),
        interp_reaches(p, j, s2, l, s3),
    ensures
        interp_reaches(p, i, s, l, s3),
{
    let k1 = choose|k: nat| steps_model(p, as_machine(i, s), k) == Some(as_machine(j, s2));
    if l < p.code@.len() {
        let k2 = choose|k: nat|
            steps_model(p, as_machine(j, s2), k) == Some(as_machine(l, s3));
        lemma_steps_compose(p, as_machine(i, s), k1, k2, as_machine(j, s2));
        assert(steps_model(p, as_machine(i, s), k1 + k2) == Some(as_machine(l, s3)));
    } else {
        let k2 = choose|k: nat|
            match #[trigger] run_model(p, as_machine(j, s2), k) {
                Some(RunEnd::Halted(h)) => h.data_ptr == s3.data_ptr && h.mem == s3.mem
                    && h.input == s3.input && h.output == s3.output,
                _ => false,
            };
        if let Some(end) = run_model(p, as_machine(j, s2), k2) {
            crate::equivalence::lemma_run_compose(p, as_machine(i, s), k1, k2, end);
            assert(match run_model(p, as_machine(i, s), k1 + k2) {
                Some(RunEnd::Halted(h)) => h.data_ptr == s3.data_ptr && h.mem == s3.mem
                    && h.input == s3.input && h.output == s3.output,
                _ => false,
            });
        }
    }
}

/// Reaching a state already at the end of the program.
proof fn lemma_reaches_self(p: Program, i: int, s: AstState)
    requires
        0 <= i <= p.code@.len(),
    ensures
        interp_reaches(p, i, s, i, s),
{
    if i < p.code@.len() {
        assert(steps_model(p, as_machine(i, s), 0nat) == Some(as_machine(i, s)));
    } else {
        assert(step_model(p, as_machine(i, s)) == ModelOutcome::Halt(as_machine(i, s)));
        assert(run_model(p, as_machine(i, s), 1nat) == Some(
            RunEnd::Halted(as_machine(i, s)),
        ));
        assert(match run_model(p, as_machine(i, s), 1nat) {
            Some(RunEnd::Halted(h)) => h.data_ptr == s.data_ptr && h.mem == s.mem && h.input
                == s.input && h.output == s.output,
            _ => false,
        });
    }
}

/// One interpreter step at an open bracket over a zero cell: straight past
/// the loop.
proof fn interp_step_loop_exit(p: Program, i: int, m: int, s: AstState)
    requires
        p.wf(),
        0 <= i < m < p.code@.len(),
        p.jump_table@[i] == Some(m as usize),
        s.mem[s.data_ptr] == 0,
    ensures
        interp_reaches(p, i, s, m + 1, s),
{
    crate::equivalence::lemma_count_sum_ge_len(p.code@);
    assert(crate::program::pair_ok(p.code@, p.jump_table@, i));
    assert(p.code@[i] is LoopStart);
    let mk = as_machine(i, s);
    if m + 1 < p.code@.len() {
        assert(step_model(p, mk) == ModelOutcome::Step(as_machine(m + 1, s)));
        assert(steps_model(p, mk, 1nat) == steps_model(p, as_machine(m + 1, s), 0nat));
        assert(steps_model(p, as_machine(m + 1, s), 0nat) == Some(as_machine(m + 1, s)));
    } else {
        assert(step_model(p, mk) == ModelOutcome::Halt(mk));
        assert(run_model(p, mk, 1nat) == Some(RunEnd::Halted(mk)));
        assert(match run_model(p, mk, 1nat) {
            Some(RunEnd::Halted(h)) => h.data_ptr == s.data_ptr && h.mem == s.mem && h.input
                == s.input && h.output == s.output,
            _ => false,
        });
    }
}

/// One interpreter step at an open bracket over a non-zero cell: into the
/// body.
proof fn interp_step_enter_body(p: Program, i: int, m: int, s: AstState)
    requires
        p.wf(),
        0 <= i < m < p.code@.len(),
        p.jump_table@[i] == Some(m as usize),
        s.mem[s.data_ptr] != 0,
    ensures
        interp_reaches(p, i, s, i + 1, s),
{
    crate::equivalence::lemma_count_sum_ge_len(p.code@);
    assert(crate::program::pair_ok(p.code@, p.jump_table@, i));
    assert(p.code@[i] is LoopStart);
    let mk = as_machine(i, s);
    assert(step_model(p, mk) == ModelOutcome::Step(as_machine(i + 1, s)));
    assert(steps_model(p, mk, 1nat) == steps_model(p, as_machine(i + 1, s), 0nat));
    assert(steps_model(p, as_machine(i + 1, s), 0nat) == Some(as_machine(i + 1, s)));
}

/// One interpreter step at a closing bracket over a zero cell: out of the
/// loop.
proof fn interp_step_loop_close_exit(p: Program, i: int, m: int, s: AstState)
    requires
        p.wf(),
        0 <= i < m < p.code@.len(),
        p.jump_table@[i] == Some(m as usize),
        s.mem[s.data_ptr] == 0,
    ensures
        interp_reaches(p, m, s, m + 1, s),
{
    crate::equivalence::lemma_count_sum_ge_len(p.code@);
    assert(crate::program::pair_ok(p.code@, p.jump_table@, i));
    assert(p.code@[i] is LoopStart && p.code@[m] is LoopEnd);
    assert(p.jump_table@[m] == Some(i as usize));
    let mk = as_machine(m, s);
    if m + 1 < p.code@.len() {
        assert(step_model(p, mk) == ModelOutcome::Step(as_machine(m + 1, s)));
        assert(steps_model(p, mk, 1nat) == steps_model(p, as_machine(m + 1, s), 0nat));
        assert(steps_model(p, as_machine(m + 1, s), 0nat) == Some(as_machine(m + 1, s)));
    } else {
        assert(step_model(p, mk) == ModelOutcome::Halt(mk));
        assert(run_model(p, mk, 1nat) == Some(RunEnd::Halted(mk)));
        assert(match run_model(p, mk, 1nat) {
            Some(RunEnd::Halted(h)) => h.data_ptr == s.data_ptr && h.mem == s.mem && h.input
                == s.input && h.output == s.output,
            _ => false,
        });
    }
}

/// One interpreter step at a closing bracket over a non-zero cell: back to
/// the body head.
proof fn interp_step_loop_repeat(p: Program, i: int, m: int, s: AstState)
    requires
        p.wf(),
        0 <= i < m < p.code@.len(),
        p.jump_table@[i] == Some(m as usize),
        s.mem[s.data_ptr] != 0,
    ensures
        interp_reaches(p, m, s, i + 1, s),
{
    crate::equivalence::lemma_count_sum_ge_len(p.code@);
    assert(crate::program::pair_ok(p.code@, p.jump_table@, i));
    assert(p.code@[i] is LoopStart && p.code@[m] is LoopEnd);
    assert(p.jump_table@[m] == Some(i as usize));
    let mk = as_machine(m, s);
    assert(step_model(p, mk) == ModelOutcome::Step(as_machine(i + 1, s)));
    assert(steps_model(p, mk, 1nat) == steps_model(p, as_machine(i + 1, s), 0nat));
    assert(steps_model(p, as_machine(i + 1, s), 0nat) == Some(as_machine(i + 1, s)));
}

/// One interpreter step at a plain opcode matches the lowered node's
/// evaluation, step for step.
#[verifier::rlimit(100)]
proof fn interp_step_plain(p: Program, i: int, s: AstState, s_a: AstState, node: AstView, fuel: nat)
    requires
        p.wf(),
        0 <= i < p.code@.len(),
        !p.code@[i].is_bracket(),
        (match p.code@[i] {
            OpCode::IncDataPtr(n) => node == AstView::IncDataPtr(n),
            OpCode::DecDataPtr(n) => node == AstView::DecDataPtr(n),
            OpCode::IncValue(n) => node == AstView::IncValue(n),
            OpCode::DecValue(n) => node == AstView::DecValue(n),
            OpCode::Input => node == AstView::Input,
            OpCode::Output => node == AstView::Output,
            _ => false,
        }),
        0 <= s.data_ptr < s.mem.len(),
        ast_eval(node, s, fuel) is Some,
        s_a == ast_eval(node, s, fuel)->0,
    ensures
        s_a.mem.len() == s.mem.len(),
        0 <= s_a.data_ptr < s_a.mem.len(),
        interp_reaches(p, i, s, i + 1, s_a),
{
    crate::equivalence::lemma_count_sum_ge_len(p.code@);
    assert(p.jump_table@[i] is None);
    let mk = as_machine(i, s);
    if i + 1 < p.code@.len() {
        assert(step_model(p, mk) == ModelOutcome::Step(as_machine(i + 1, s_a)));
        assert(steps_model(p, mk, 1nat) == steps_model(p, as_machine(i + 1, s_a), 0nat));
        assert(steps_model(p, as_machine(i + 1, s_a), 0nat) == Some(as_machine(i + 1, s_a)));
    } else {
        assert(step_model(p, mk) == ModelOutcome::Halt(as_machine(i, s_a)));
        assert(run_model(p, mk, 1nat) == Some(RunEnd::Halted(as_machine(i, s_a))));
        assert(match run_model(p, mk, 1nat) {
            Some(RunEnd::Halted(h)) => h.data_ptr == s_a.data_ptr && h.mem == s_a.mem && h.input
                == s_a.input && h.output == s_a.output,
            _ => false,
        });
    }
}

/// Evaluating the lowering of a closed range is matched by the
/// interpreter: whenever the lowered trees of `[i, j)` run to completion,
/// the interpreter carries the same state from `i` to `j`.
#[verifier::rlimit(100)]
proof fn lemma_lower_sim(p: Program, i: int, j: int, s: AstState, fuel: nat)
    requires
        p.wf(),
        range_closed(p.code@, p.jump_table@, i, j),
        0 <= s.data_ptr < s.mem.len(),
        ast_eval_seq(spec_lower(p.code@, p.jump_table@, i, j), s, fuel) is Some,
    ensures
        ({
            let s2 = ast_eval_seq(spec_lower(p.code@, p.jump_table@, i, j), s, fuel)->0;
            &&& s2.mem.len() == s.mem.len()
            &&& 0 <= s2.data_ptr < s2.mem.len()
            &&& interp_reaches(p, i, s, j, s2)
        }),
    decreases fuel, j - i, 1int,
{
    let code = p.code@;
    let jt = p.jump_table@;
    let lowered = spec_lower(code, jt, i, j);
    crate::equivalence::lemma_count_sum_ge_len(code);
    if i >= j {
        lemma_reaches_self(p, i, s);
    } else {
        crate::ast::lemma_walk_no_end(code, jt, i, j);
        if code[i] is LoopStart {
            crate::ast::lemma_walk_start(code, jt, i, j);
            let m = crate::program::mate(jt, i);
            let body = spec_lower(code, jt, i + 1, m);
            let rest = spec_lower(code, jt, m + 1, j);
            assert(lowered == seq![AstView::Loop(body)] + rest);
            assert(lowered[0] == AstView::Loop(body));
            assert(lowered.subrange(1, lowered.len() as int) =~= rest);
            let s_b = ast_eval(AstView::Loop(body), s, fuel)->0;
            assert(ast_eval_seq(lowered, s, fuel) == ast_eval_seq(rest, s_b, fuel));
            assert(crate::program::pair_ok(code, jt, i));
            // the loop node itself is matched from `i` to `m + 1`
            if s.mem[s.data_ptr] == 0 {
                assert(s_b == s);
                interp_step_loop_exit(p, i, m, s);
            } else {
                let s_m = ast_eval_seq(body, s, fuel)->0;
                assert(ast_eval(AstView::Loop(body), s, fuel) == ast_eval(
                    AstView::Loop(body),
                    s_m,
                    (fuel - 1) as nat,
                ));
                lemma_lower_sim(p, i + 1, m, s, fuel);
                lemma_loop_end_sim(p, i, m, s_m, (fuel - 1) as nat);
                interp_step_enter_body(p, i, m, s);
                lemma_reaches_trans(p, i, s, i + 1, s, m, s_m);
                lemma_reaches_trans(p, i, s, m, s_m, m + 1, s_b);
            }
            assert(interp_reaches(p, i, s, m + 1, s_b));
            assert(0 <= s_b.data_ptr < s_b.mem.len());
            if m + 1 < j {
                lemma_lower_sim(p, m + 1, j, s_b, fuel);
                let s2 = ast_eval_seq(rest, s_b, fuel)->0;
                lemma_reaches_trans(p, i, s, m + 1, s_b, j, s2);
            } else {
                assert(rest =~= Seq::<AstView>::empty());
                assert(ast_eval_seq(rest, s_b, fuel) == Some(s_b));
            }
        } else {
            let op = code[i];
            let node = lowered[0];
            let rest = spec_lower(code, jt, i + 1, j);
            assert(lowered =~= seq![node] + rest);
            assert(lowered.subrange(1, lowered.len() as int) =~= rest);
            let s_a = ast_eval(node, s, fuel)->0;
            assert(ast_eval_seq(lowered, s, fuel) == ast_eval_seq(rest, s_a, fuel));
            crate::ast::lemma_walk_other(code, jt, i, j);
            interp_step_plain(p, i, s, s_a, node, fuel);
            assert(0 <= s_a.data_ptr < s_a.mem.len());
            if i + 1 < j {
                lemma_lower_sim(p, i + 1, j, s_a, fuel);
                let s2 = ast_eval_seq(rest, s_a, fuel)->0;
                lemma_reaches_trans(p, i, s, i + 1, s_a, j, s2);
            } else {
                assert(rest =~= Seq::<AstView>::empty());
                assert(ast_eval_seq(rest, s_a, fuel) == Some(s_a));
            }
        }
    }
}

/// Iterating a loop from its closing bracket: whenever the loop around the
/// lowered body finishes from here, the interpreter carries the state from
/// the `]` past it.
#[verifier::rlimit(100)]
proof fn lemma_loop_end_sim(p: Program, i: int, m: int, s: AstState, fuel: nat)
    requires
        p.wf(),
        0 <= i < m < p.code@.len(),
        p.jump_table@[i] == Some(m as usize),
        range_closed(p.code@, p.jump_table@, i + 1, m),
        0 <= s.data_ptr < s.mem.len(),
        ast_eval(
            AstView::Loop(spec_lower(p.code@, p.jump_table@, i + 1, m)),
            s,
            fuel,
        ) is Some,
    ensures
        ({
            let s2 = ast_eval(
                AstView::Loop(spec_lower(p.code@, p.jump_table@, i + 1, m)),
                s,
                fuel,
            )->0;
            &&& s2.mem.len() == s.mem.len()
            &&& 0 <= s2.data_ptr < s2.mem.len()
            &&& interp_reaches(p, m, s, m + 1, s2)
        }),
    decreases fuel, m - i, 0int,
{
    let code = p.code@;
    let jt = p.jump_table@;
    let body = spec_lower(code, jt, i + 1, m);
    crate::equivalence::lemma_count_sum_ge_len(code);
    assert(jt[i] is Some);
    assert(crate::program::pair_ok(code, jt, i));
    if s.mem[s.data_ptr] == 0 {
        interp_step_loop_close_exit(p, i, m, s);
    } else {
        let s_m = ast_eval_seq(body, s, fuel)->0;
        assert(ast_eval(AstView::Loop(body), s, fuel) == ast_eval(
            AstView::Loop(body),
            s_m,
            (fuel - 1) as nat,
        ));
        lemma_lower_sim(p, i + 1, m, s, fuel);
        lemma_loop_end_sim(p, i, m, s_m, (fuel - 1) as nat);
        let s2 = ast_eval(AstView::Loop(body), s_m, (fuel - 1) as nat)->0;
        interp_step_loop_repeat(p, i, m, s);
        lemma_reaches_trans(p, m, s, i + 1, s, m, s_m);
        lemma_reaches_trans(p, m, s, m, s_m, m + 1, s2);
    }
}

/// The lowered program tree means what the interpreter does: whenever the
/// tree of a well-formed program runs to completion, the interpreter's run
/// on that program halts with the same tape, data pointer, remaining input
/// and output.
pub proof fn lemma_lowered_program_matches_interpreter(p: Program, s: AstState, fuel: nat)
    requires
        p.wf(),
        0 <= s.data_ptr < s.mem.len(),
        ast_eval(
            AstView::Program(spec_lower(p.code@, p.jump_table@, 0, p.code@.len() as int)),
            s,
            fuel,
        ) is Some,
    ensures
        ({
            let s2 = ast_eval(
                AstView::Program(spec_lower(p.code@, p.jump_table@, 0, p.code@.len() as int)),
                s,
                fuel,
            )->0;
            exists|k: nat|
                match #[trigger] run_model(p, as_machine(0, s), k) {
                    Some(RunEnd::Halted(h)) => h.data_ptr == s2.data_ptr && h.mem == s2.mem
                        && h.input == s2.input && h.output == s2.output,
                    _ => false,
                }
        }),
{
    let code = p.code@;
    let jt = p.jump_table@;
    let len = code.len() as int;
    assert(range_closed(code, jt, 0, len)) by {
        assert forall|k: int| 0 <= k < len && (#[trigger] jt[k]) is Some implies 0 <= crate::program::mate(
            jt,
            k,
        ) < len by {
            assert(crate::program::pair_ok(code, jt, k));
        }
    }
    let lowered = spec_lower(code, jt, 0, len);
    assert(ast_eval(AstView::Program(lowered), s, fuel) == ast_eval_seq(lowered, s, fuel));
    lemma_lower_sim(p, 0, len, s, fuel);
}

/// The statable half of the equivalence of the two back ends: whenever the
/// plain lowered tree of a program runs to completion, the optimised tree
/// the code generator compiles runs to exactly the same state, and the
/// interpreter's run on the program halts with that state's tape, data
/// pointer, remaining input and output.
pub proof fn lemma_jit_tree_matches_interpreter(p: Program, s: AstState, fuel: nat)
    requires
        p.wf(),
        0 <= s.data_ptr < s.mem.len(),
        ptr_counts_bounded(
            AstView::Program(spec_lower(p.code@, p.jump_table@, 0, p.code@.len() as int)),
        ),
        ast_eval(
            AstView::Program(spec_lower(p.code@, p.jump_table@, 0, p.code@.len() as int)),
            s,
            fuel,
        ) is Some,
    ensures
        ({
            let lowered = AstView::Program(
                spec_lower(p.code@, p.jump_table@, 0, p.code@.len() as int),
            );
            let s2 = ast_eval(lowered, s, fuel)->0;
            &&& ast_eval(spec_optimize(lowered), s, fuel) == ast_eval(lowered, s, fuel)
            &&& exists|k: nat|
                match #[trigger] run_model(p, as_machine(0, s), k) {
                    Some(RunEnd::Halted(h)) => h.data_ptr == s2.data_ptr && h.mem == s2.mem
                        && h.input == s2.input && h.output == s2.output,
                    _ => false,
                }
        }),
{
    let lowered = AstView::Program(spec_lower(p.code@, p.jump_table@, 0, p.code@.len() as int));
    lemma_optimize_preserves_eval(lowered, s, fuel);
    lemma_lowered_program_matches_interpreter(p, s, fuel);
}

} // verus!
//! The JIT driver: parse a source, lower it to the optimised tree, and
//! emit the ARM64 code for it. Running the emitted code needs executable
//! memory and a native call, which live outside the library.

use vstd::prelude::*;

use crate::ast::{ast_view, spec_lower, spec_optimize, spec_pretty_nodes, AstView, AST};
use crate::codegen::{
    emit_ok, emit_ok_seq, spec_emit, spec_emit_seq, spec_ptr_moves, ARM64CodeGenerator,
};
use crate::program::{bracket_result, Program, ProgramError};
use crate::vm::EvalError;

verus! {

/// A compiled program: the optimised tree and the tape size to run with.
pub struct JIT {
    program_ast: AST,
    memory_size: usize,
}

impl JIT {
    /// The tree the code is generated from.
    pub closed spec fn spec_ast(self) -> AstView {
        ast_view(self.program_ast)
    }

    pub closed spec fn spec_memory_size(self) -> usize {
        self.memory_size
    }

    /// Parse a source and lower it to the optimised tree.
    pub fn new(code: &str, rle: bool, memory_size: usize) -> (r: Result<JIT, EvalError>)
        ensures
            match r {
                Ok(jit) => {
                    &&& bracket_result(Program::spec_tokens(code@, rle)) is Ok
                    &&& jit.spec_ast() == spec_optimize(
                        AstView::Program(
                            spec_lower(
                                Program::spec_tokens(code@, rle),
                                bracket_result(Program::spec_tokens(code@, rle))->Ok_0,
                                0,
                                Program::spec_tokens(code@, rle).len() as int,
                            ),
                        ),
                    )
                    &&& jit.spec_memory_size() == memory_size
                },
                Err(e) => e matches EvalError::ProgramError(pe) && (pe matches
                    ProgramError::MissingBracket(i) && bracket_result(
                    Program::spec_tokens(code@, rle),
                ) == Err::<Seq<Option<usize>>, usize>(i)),
            },
    {
        let program = match Program::new(code, rle) {
            Ok(p) => p,
            Err(e) => {
                return Err(EvalError::ProgramError(e));
            },
        };
        let program_ast = AST::new(program);
        Ok(JIT { program_ast, memory_size })
    }

    /// The tape size the program is meant to run with.
    pub fn memory_size(&self) -> (r: usize)
        ensures
            r == self.spec_memory_size(),
    {
        self.memory_size
    }

    /// The pretty-printed tree.
    pub fn disassemble(&self) -> (r: String)
        ensures
            r@ == (match self.spec_ast() {
                AstView::Program(cs) => spec_pretty_nodes(cs, Seq::<char>::empty()),
                _ => Seq::<char>::empty(),
            }),
    {
        self.program_ast.pretty_print()
    }

    /// Emit the machine code for the tree: the exact instruction words of
    /// [`spec_emit`], or `None` when the tree does not fit the encodings —
    /// a copy loop reaching further than 255 cells, or a loop body too
    /// long for its forward branch.
    pub fn generate_code(&self) -> (r: Option<Vec<u32>>)
        ensures
            r is Some <==> emit_ok(self.spec_ast()),
            r is Some ==> r->0@ == spec_emit(self.spec_ast()),
    {
        self.program_ast.generate_code()
    }
}

impl AST {
    /// Emit the machine code for this tree: the exact instruction words of
    /// [`spec_emit`], or `None` when the tree does not fit the encodings.
    pub fn generate_code(&self) -> (r: Option<Vec<u32>>)
        ensures
            r is Some <==> emit_ok(ast_view(*self)),
            r is Some ==> r->0@ == spec_emit(ast_view(*self)),
    {
        if node_len(self).is_none() {
            return None;
        }
        let mut generator = ARM64CodeGenerator::new();
        generate_node(&mut generator, self);
        Some(generator.finalize())
    }
}

/// The number of instructions the pointer move for `count` takes.
fn ptr_moves_len(count: usize) -> (r: usize)
    ensures
        r == spec_ptr_moves(true, count as int).len(),
        r == spec_ptr_moves(false, count as int).len(),
        r <= count,
{
    let mut len: usize = 0;
    let mut remaining = count;
    while remaining > 0
        invariant
            len <= count - remaining,
            remaining <= count,
            spec_ptr_moves(true, count as int).len() == len + spec_ptr_moves(
                true,
                remaining as int,
            ).len(),
            spec_ptr_moves(false, count as int).len() == len + spec_ptr_moves(
                false,
                remaining as int,
            ).len(),
        decreases remaining,
    {
        if remaining > 4095 {
            remaining = remaining - 4095;
        } else {
            remaining = 0;
        }
        len = len + 1;
    }
    len
}

/// The number of instructions a node emits, when the node fits the
/// encodings and that number stays moderate; `None` otherwise.
fn node_len(node: &AST) -> (r: Option<usize>)
    ensures
        r is Some <==> emit_ok(ast_view(*node)),
        r is Some ==> r->0 == spec_emit(ast_view(*node)).len() && r->0 <= 0x7FFFFFFF,
    decreases *node,
{
    match node {
        AST::IncDataPtr(c) => {
            let l = ptr_moves_len(*c);
            if l <= 0x7FFFFFFF {
                Some(l)
            } else {
                None
            }
        },
        AST::DecDataPtr(c) => {
            let l = ptr_moves_len(*c);
            if l <= 0x7FFFFFFF {
                Some(l)
            } else {
                None
            }
        },
        AST::IncValue(_) => Some(3),
        AST::DecValue(_) => Some(3),
        AST::Input => Some(2),
        AST::Output => Some(3),
        AST::SetValue(v) => if *v == 0 {
            Some(1)
        } else {
            Some(2)
        },
        AST::AddTo(off) => if -256 <= *off && *off < 256 {
            Some(6)
        } else {
            None
        },
        AST::Loop(children) => {
            match node_len_seq(children) {
                None => None,
                Some(body) => if body + 2 < 0x40000 {
                    Some(body + 3)
                } else {
                    None
                },
            }
        },
        AST::Program(children) => {
            match node_len_seq(children) {
                None => None,
                Some(body) => if body <= 0x7FFFFFFF - 12 {
                    Some(body + 12)
                } else {
                    None
                },
            }
        },
    }
}

/// The total length of a sequence of nodes, `None` when a node does not
/// fit or the total grows past the budget.
fn node_len_seq(nodes: &Vec<AST>) -> (r: Option<usize>)
    ensures
        r is Some ==> emit_ok_seq(crate::ast::ast_views(nodes@)) && r->0 == spec_emit_seq(
            crate::ast::ast_views(nodes@),
        ).len() && r->0 <= 0x7FFFFFFF,
        r is None ==> !emit_ok_seq(crate::ast::ast_views(nodes@)) || spec_emit_seq(
            crate::ast::ast_views(nodes@),
        ).len() > 0x7FFFFFFF,
    decreases *nodes,
{
    let ghost views = crate::ast::ast_views(nodes@);
    let mut total: usize = 0;
    let mut i: usize = 0;
    while i < nodes.len()
        invariant
            i <= nodes@.len(),
            views == crate::ast::ast_views(nodes@),
            emit_ok_seq(crate::ast::ast_views(nodes@.take(i as int))),
            total == spec_emit_seq(crate::ast::ast_views(nodes@.take(i as int))).len(),
            total <= 0x7FFFFFFF,
        decreases nodes@.len() - i,
    {
        proof {
            assert(decreases_to!(*nodes => nodes@[i as int]));
            crate::ast::lemma_ast_views_index(nodes@, i as int);
        }
        let piece = match node_len(&nodes[i]) {
            None => {
                proof {
                    lemma_emit_seq_prefix_bad(nodes@, i as int);
                }
                return None;
            },
            Some(p) => p,
        };
        proof {
            crate::ast::lemma_views_take_step(nodes@, i as int);
            lemma_emit_seq_push(
                crate::ast::ast_views(nodes@.take(i as int)),
                ast_view(nodes@[i as int]),
            );
            lemma_emit_ok_seq_push(
                crate::ast::ast_views(nodes@.take(i as int)),
                ast_view(nodes@[i as int]),
            );
        }
        if total > 0x7FFFFFFF - piece {
            proof {
                lemma_emit_seq_prefix_long(nodes@, i + 1);
            }
            return None;
        }
        total = total + piece;
        i += 1;
    }
    proof {
        assert(nodes@.take(nodes@.len() as int) =~= nodes@);
    }
    Some(total)
}

/// Emit the code for one node.
fn generate_node(generator: &mut ARM64CodeGenerator, node: &AST)
    requires
        emit_ok(ast_view(*node)),
        old(generator).spec_code().len() + spec_emit(ast_view(*node)).len() <= usize::MAX,
    ensures
        final(generator).spec_code() == old(generator).spec_code() + spec_emit(ast_view(*node)),
    decreases *node,
{
    match node {
        AST::IncValue(count) => generator.update_value((*count % 256) as i32),
        AST::DecValue(count) => {
            let m = (*count % 256) as i32;
            generator.update_value(-m);
        },
        AST::IncDataPtr(count) => generate_ptr_moves(generator, true, *count),
        AST::DecDataPtr(count) => generate_ptr_moves(generator, false, *count),
        AST::Output => generator.output(),
        AST::Input => generator.input(),
        AST::SetValue(value) => generator.set(*value),
        AST::AddTo(offset) => generator.add_to(*offset as i32),
        AST::Loop(codeblock) => {
            let (loop_start, loop_end) = generator.loop_start();
            let ghost after_head = generator.spec_code();
            generate_vec(generator, codeblock);
            generator.loop_end(loop_start, loop_end);
            proof {
                assert(final(generator).spec_code() =~= old(generator).spec_code() + spec_emit(
                    ast_view(*node),
                ));
            }
        },
        AST::Program(codeblock) => {
            generator.function_prolog();
            generate_vec(generator, codeblock);
            generator.function_epilog();
            proof {
                assert(final(generator).spec_code() =~= old(generator).spec_code() + spec_emit(
                    ast_view(*node),
                ));
            }
        },
    }
}

/// Emit the code for a sequence of nodes.
fn generate_vec(generator: &mut ARM64CodeGenerator, nodes: &Vec<AST>)
    requires
        emit_ok_seq(crate::ast::ast_views(nodes@)),
        old(generator).spec_code().len() + spec_emit_seq(crate::ast::ast_views(nodes@)).len()
            <= usize::MAX,
    ensures
        final(generator).spec_code() == old(generator).spec_code() + spec_emit_seq(
            crate::ast::ast_views(nodes@),
        ),
    decreases *nodes,
{
    let ghost base = old(generator).spec_code();
    let ghost views = crate::ast::ast_views(nodes@);
    let mut i: usize = 0;
    while i < nodes.len()
        invariant
            i <= nodes@.len(),
            views == crate::ast::ast_views(nodes@),
            emit_ok_seq(views),
            base.len() + spec_emit_seq(views).len() <= usize::MAX,
            generator.spec_code() == base + spec_emit_seq(
                crate::ast::ast_views(nodes@.take(i as int)),
            ),
        decreases nodes@.len() - i,
    {
        proof {
            assert(decreases_to!(*nodes => nodes@[i as int]));
            crate::ast::lemma_ast_views_index(nodes@, i as int);
            lemma_emit_ok_index(views, i as int);
            crate::ast::lemma_views_take_step(nodes@, i as int);
            lemma_emit_seq_push(
                crate::ast::ast_views(nodes@.take(i as int)),
                ast_view(nodes@[i as int]),
            );
            crate::ast::lemma_ast_views_take(nodes@, i as int);
            crate::ast::lemma_ast_views_take(nodes@, i + 1);
            lemma_emit_seq_take_le(views, i + 1);
        }
        generate_node(generator, &nodes[i]);
        i += 1;
    }
    proof {
        assert(nodes@.take(nodes@.len() as int) =~= nodes@);
    }
}

/// Emit the split pointer move for `count`.
fn generate_ptr_moves(generator: &mut ARM64CodeGenerator, add: bool, count: usize)
    requires
        old(generator).spec_code().len() + spec_ptr_moves(add, count as int).len() <= usize::MAX,
    ensures
        final(generator).spec_code() == old(generator).spec_code() + spec_ptr_moves(
            add,
            count as int,
        ),
{
    let mut remaining = count;
    while remaining > 0
        invariant
            remaining <= count,
            old(generator).spec_code().len() + spec_ptr_moves(add, count as int).len()
                <= usize::MAX,
            old(generator).spec_code() + spec_ptr_moves(add, count as int) == generator.spec_code()
                + spec_ptr_moves(add, remaining as int),
        decreases remaining,
    {
        let ghost pre = generator.spec_code();
        let step: usize = if remaining > 4095 {
            4095
        } else {
            remaining
        };
        proof {
            assert(spec_ptr_moves(add, remaining as int) =~= seq![
                crate::codegen::word_ptr(add, step as int),
            ] + spec_ptr_moves(add, remaining - step));
            assert((old(generator).spec_code() + spec_ptr_moves(add, count as int)).len() == (pre
                + spec_ptr_moves(add, remaining as int)).len());
            assert(pre.len() + spec_ptr_moves(add, remaining as int).len() <= usize::MAX);
        }
        if add {
            generator.update_memory_ptr(step as i32);
        } else {
            generator.update_memory_ptr(-(step as i32));
        }
        proof {
            assert(pre + spec_ptr_moves(add, remaining as int) =~= generator.spec_code()
                + spec_ptr_moves(add, remaining - step));
        }
        remaining = remaining - step;
    }
    proof {
        assert(spec_ptr_moves(add, 0) =~= Seq::<u32>::empty());
        assert(generator.spec_code() =~= generator.spec_code() + spec_ptr_moves(add, 0));
    }
}

/// Emitting one more node appends its code.
pub proof fn lemma_emit_seq_push(cs: Seq<AstView>, n: AstView)
    ensures
        spec_emit_seq(cs.push(n)) == spec_emit_seq(cs) + spec_emit(n),
    decreases cs.len(),
{
    let whole = cs.push(n);
    if cs.len() == 0 {
        assert(whole.subrange(1, whole.len() as int) =~= Seq::<AstView>::empty());
        assert(whole.len() == 1 && whole[0] == n);
        assert(spec_emit_seq(whole) == spec_emit(whole[0]) + spec_emit_seq(
            whole.subrange(1, whole.len() as int),
        ));
        assert(spec_emit_seq(whole.subrange(1, whole.len() as int)) == Seq::<u32>::empty());
        assert(spec_emit_seq(cs) == Seq::<u32>::empty());
        assert(spec_emit_seq(whole) =~= spec_emit_seq(cs) + spec_emit(n));
    } else {
        assert(whole.subrange(1, whole.len() as int) =~= cs.subrange(1, cs.len() as int).push(n));
        lemma_emit_seq_push(cs.subrange(1, cs.len() as int), n);
        assert(whole.len() == cs.len() + 1 && whole[0] == cs[0]);
        assert(spec_emit_seq(whole) == spec_emit(whole[0]) + spec_emit_seq(
            whole.subrange(1, whole.len() as int),
        ));
        assert(spec_emit_seq(cs) == spec_emit(cs[0]) + spec_emit_seq(
            cs.subrange(1, cs.len() as int),
        ));
        assert(spec_emit_seq(whole) =~= spec_emit_seq(cs) + spec_emit(n));
    }
}

/// A sequence is emittable exactly when its first part and newcomer are.
pub proof fn lemma_emit_ok_seq_push(cs: Seq<AstView>, n: AstView)
    ensures
        emit_ok_seq(cs.push(n)) == (emit_ok_seq(cs) && emit_ok(n)),
    decreases cs.len(),
{
    let whole = cs.push(n);
    if cs.len() == 0 {
        assert(whole.subrange(1, whole.len() as int) =~= Seq::<AstView>::empty());
        assert(whole.len() == 1 && whole[0] == n);
        assert(emit_ok_seq(whole.subrange(1, whole.len() as int)));
    } else {
        assert(whole.subrange(1, whole.len() as int) =~= cs.subrange(1, cs.len() as int).push(n));
        lemma_emit_ok_seq_push(cs.subrange(1, cs.len() as int), n);
        assert(whole.len() == cs.len() + 1 && whole[0] == cs[0]);
    }
}

/// Every node of an emittable sequence is emittable.
pub proof fn lemma_emit_ok_index(cs: Seq<AstView>, i: int)
    requires
        emit_ok_seq(cs),
        0 <= i < cs.len(),
    ensures
        emit_ok(cs[i]),
    decreases cs.len(),
{
    if i > 0 {
        lemma_emit_ok_index(cs.subrange(1, cs.len() as int), i - 1);
    }
}

/// A prefix emits no more instructions than the whole.
pub proof fn lemma_emit_seq_take_le(cs: Seq<AstView>, n: int)
    requires
        0 <= n <= cs.len(),
    ensures
        spec_emit_seq(cs.take(n)).len() <= spec_emit_seq(cs).len(),
    decreases cs.len() - n,
{
    if n < cs.len() {
        lemma_take_step_emit(cs, n);
        lemma_emit_seq_take_le(cs, n + 1);
    } else {
        assert(cs.take(n) =~= cs);
    }
}

/// Taking one more node appends its code to the prefix.
pub proof fn lemma_take_step_emit(cs: Seq<AstView>, i: int)
    requires
        0 <= i < cs.len(),
    ensures
        spec_emit_seq(cs.take(i + 1)) == spec_emit_seq(cs.take(i)) + spec_emit(cs[i]),
{
    assert(cs.take(i + 1) =~= cs.take(i).push(cs[i]));
    lemma_emit_seq_push(cs.take(i), cs[i]);
}

/// A sequence with an unemittable node at `i` is unemittable.
pub proof fn lemma_emit_seq_prefix_bad(nodes: Seq<AST>, i: int)
    requires
        0 <= i < nodes.len(),
        emit_ok_seq(crate::ast::ast_views(nodes.take(i))),
        !emit_ok(ast_view(nodes[i])),
    ensures
        !emit_ok_seq(crate::ast::ast_views(nodes)),
{
    if emit_ok_seq(crate::ast::ast_views(nodes)) {
        crate::ast::lemma_ast_views_index(nodes, i);
        lemma_emit_ok_views_index(nodes, i);
    }
}

/// Every node of an emittable vector is emittable.
pub proof fn lemma_emit_ok_views_index(nodes: Seq<AST>, i: int)
    requires
        0 <= i < nodes.len(),
        emit_ok_seq(crate::ast::ast_views(nodes)),
    ensures
        emit_ok(ast_view(nodes[i])),
{
    crate::ast::lemma_ast_views_index(nodes, i);
    lemma_emit_ok_index(crate::ast::ast_views(nodes), i);
}

/// When some prefix already emits too much, so does the whole.
pub proof fn lemma_emit_seq_prefix_long(nodes: Seq<AST>, n: int)
    requires
        0 <= n <= nodes.len(),
    ensures
        spec_emit_seq(crate::ast::ast_views(nodes.take(n))).len() <= spec_emit_seq(
            crate::ast::ast_views(nodes),
        ).len(),
{
    crate::ast::lemma_ast_views_index(nodes, 0);
    crate::ast::lemma_ast_views_take(nodes, n);
    lemma_emit_seq_take_le(crate::ast::ast_views(nodes), n);
}

} // verus!

//! The tree form of a program used by the code generator, its lowering from
//! the opcode stream, and the peephole rewrites of clear and copy loops.

use vstd::prelude::*;
use vstd::string::StringExecFns;

use crate::opcode::OpCode;
use crate::program::{is_start_pair, mate, pair_ok, wf_jump_table, Program};

verus! {

/// A node of the program tree. `SetValue` and `AddTo` are introduced only
/// by the optimiser.
#[derive(Debug, PartialEq)]
pub enum AST {
    DecDataPtr(usize),
    DecValue(usize),
    IncDataPtr(usize),
    IncValue(usize),
    Input,
    Loop(Vec<AST>),
    Output,
    Program(Vec<AST>),
    SetValue(u8),
    AddTo(isize),
}

/// The mathematical form of a tree node, with sequences for children.
pub enum AstView {
    DecDataPtr(usize),
    DecValue(usize),
    IncDataPtr(usize),
    IncValue(usize),
    Input,
    Loop(Seq<AstView>),
    Output,
    Program(Seq<AstView>),
    SetValue(u8),
    AddTo(isize),
}

/// The view of one tree node.
pub open spec fn ast_view(a: AST) -> AstView
    decreases a,
{
    match a {
        AST::DecDataPtr(n) => AstView::DecDataPtr(n),
        AST::DecValue(n) => AstView::DecValue(n),
        AST::IncDataPtr(n) => AstView::IncDataPtr(n),
        AST::IncValue(n) => AstView::IncValue(n),
        AST::Input => AstView::Input,
        AST::Loop(children) => AstView::Loop(ast_views(children@)),
        AST::Output => AstView::Output,
        AST::Program(children) => AstView::Program(ast_views(children@)),
        AST::SetValue(v) => AstView::SetValue(v),
        AST::AddTo(off) => AstView::AddTo(off),
    }
}

/// The views of a sequence of tree nodes.
pub open spec fn ast_views(s: Seq<AST>) -> Seq<AstView>
    decreases s,
{
    if s.len() == 0 {
        Seq::empty()
    } else {
        seq![ast_view(s[0])] + ast_views(s.subrange(1, s.len() as int))
    }
}

/// A range of the opcode stream is closed: every bracket inside it has its
/// mate inside it.
pub open spec fn range_closed(
    code: Seq<OpCode>,
    jt: Seq<Option<usize>>,
    start: int,
    end: int,
) -> bool {
    &&& 0 <= start <= end <= code.len()
    &&& forall|k: int|
        start <= k < end && (#[trigger] jt[k]) is Some ==> start <= mate(jt, k) < end
}

/// The tree a closed range of opcodes lowers to: counted opcodes and I/O
/// map one to one, a bracket pair becomes a `Loop` of its body.
pub open spec fn spec_lower(
    code: Seq<OpCode>,
    jt: Seq<Option<usize>>,
    start: int,
    end: int,
) -> Seq<AstView>
    decreases end - start,
{
    if start < 0 || start >= end || end > code.len() {
        Seq::empty()
    } else {
        match code[start] {
            OpCode::DecDataPtr(n) => seq![AstView::DecDataPtr(n)] + spec_lower(
                code,
                jt,
                start + 1,
                end,
            ),
            OpCode::IncDataPtr(n) => seq![AstView::IncDataPtr(n)] + spec_lower(
                code,
                jt,
                start + 1,
                end,
            ),
            OpCode::DecValue(n) => seq![AstView::DecValue(n)] + spec_lower(
                code,
                jt,
                start + 1,
                end,
            ),
            OpCode::IncValue(n) => seq![AstView::IncValue(n)] + spec_lower(
                code,
                jt,
                start + 1,
                end,
            ),
            OpCode::Input => seq![AstView::Input] + spec_lower(code, jt, start + 1, end),
            OpCode::Output => seq![AstView::Output] + spec_lower(code, jt, start + 1, end),
            OpCode::LoopStart => {
                let m = mate(jt, start);
                if start < m < end {
                    seq![AstView::Loop(spec_lower(code, jt, start + 1, m))] + spec_lower(
                        code,
                        jt,
                        m + 1,
                        end,
                    )
                } else {
                    Seq::empty()
                }
            },
            OpCode::LoopEnd => Seq::empty(),
        }
    }
}

/// Negation that leaves the one unnegatable value alone.
pub open spec fn spec_neg(x: isize) -> isize {
    if x == isize::MIN {
        x
    } else {
        (-x) as isize
    }
}

/// The rewrite of one optimised loop body: a lone counted value change
/// becomes `SetValue(0)`; the four copy-loop shapes become `AddTo`; anything
/// else stays a loop.
pub open spec fn spec_rewrite_loop(u: Seq<AstView>) -> AstView {
    if u.len() == 1 && (u[0] is DecValue || u[0] is IncValue) {
        AstView::SetValue(0)
    } else if u.len() == 4 && u =~= seq![
        AstView::DecValue(1),
        AstView::IncDataPtr(u[1]->IncDataPtr_0),
        AstView::IncValue(1),
        AstView::DecDataPtr(u[1]->IncDataPtr_0),
    ] {
        AstView::AddTo(u[1]->IncDataPtr_0 as isize)
    } else if u.len() == 4 && u =~= seq![
        AstView::DecValue(1),
        AstView::DecDataPtr(u[1]->DecDataPtr_0),
        AstView::IncValue(1),
        AstView::IncDataPtr(u[1]->DecDataPtr_0),
    ] {
        AstView::AddTo(spec_neg(u[1]->DecDataPtr_0 as isize))
    } else if u.len() == 4 && u =~= seq![
        AstView::DecDataPtr(u[0]->DecDataPtr_0),
        AstView::IncValue(1),
        AstView::IncDataPtr(u[0]->DecDataPtr_0),
        AstView::DecValue(1),
    ] {
        AstView::AddTo(spec_neg(u[0]->DecDataPtr_0 as isize))
    } else if u.len() == 4 && u =~= seq![
        AstView::IncDataPtr(u[0]->IncDataPtr_0),
        AstView::IncValue(1),
        AstView::DecDataPtr(u[0]->IncDataPtr_0),
        AstView::DecValue(1),
    ] {
        AstView::AddTo(u[0]->IncDataPtr_0 as isize)
    } else {
        AstView::Loop(u)
    }
}

/// The optimised form of a tree: rewrites applied bottom-up to every loop.
pub open spec fn spec_optimize(n: AstView) -> AstView
    decreases n,
{
    match n {
        AstView::Program(cs) => AstView::Program(spec_optimize_seq(cs)),
        AstView::Loop(cs) => spec_rewrite_loop(spec_optimize_seq(cs)),
        _ => n,
    }
}

/// The optimised forms of a sequence of trees.
pub open spec fn spec_optimize_seq(cs: Seq<AstView>) -> Seq<AstView>
    decreases cs,
{
    if cs.len() == 0 {
        Seq::empty()
    } else {
        seq![spec_optimize(cs[0])] + spec_optimize_seq(cs.subrange(1, cs.len() as int))
    }
}

impl AST {
    /// Lower a program to its optimised tree.
    pub fn new(program: Program) -> (r: AST)
        requires
            program.wf(),
        ensures
            ast_view(r) == spec_optimize(
                AstView::Program(
                    spec_lower(
                        program.code@,
                        program.jump_table@,
                        0,
                        program.code@.len() as int,
                    ),
                ),
            ),
    {
        let end = program.code.len();
        let nodes = AST::convert_opcodes(&program, 0, end);
        AST::Program(nodes).optimize()
    }

    /// Lower the closed range `[start, end)` of the opcode stream.
    fn convert_opcodes(program: &Program, start: usize, end: usize) -> (r: Vec<AST>)
        requires
            wf_jump_table(program.code@, program.jump_table@),
            range_closed(program.code@, program.jump_table@, start as int, end as int),
            program.code@.len() <= usize::MAX,
        ensures
            ast_views(r@) == spec_lower(
                program.code@,
                program.jump_table@,
                start as int,
                end as int,
            ),
        decreases end - start,
    {
        let ghost code = program.code@;
        let ghost jt = program.jump_table@;
        let mut nodes: Vec<AST> = Vec::new();
        let mut index = start;
        while index < end
            invariant
                wf_jump_table(code, jt),
                code.len() <= usize::MAX,
                program.code@ == code,
                program.jump_table@ == jt,
                start <= index <= end,
                range_closed(code, jt, index as int, end as int),
                spec_lower(code, jt, start as int, end as int) == ast_views(nodes@) + spec_lower(
                    code,
                    jt,
                    index as int,
                    end as int,
                ),
            decreases end - index,
        {
            let opcode = program.code[index];
            let ghost pre_nodes = nodes@;
            let ghost at = index as int;
            let ast_node = match opcode {
                OpCode::DecDataPtr(count) => {
                    index += 1;
                    AST::DecDataPtr(count)
                },
                OpCode::IncDataPtr(count) => {
                    index += 1;
                    AST::IncDataPtr(count)
                },
                OpCode::DecValue(count) => {
                    index += 1;
                    AST::DecValue(count)
                },
                OpCode::IncValue(count) => {
                    index += 1;
                    AST::IncValue(count)
                },
                OpCode::Input => {
                    index += 1;
                    AST::Input
                },
                OpCode::Output => {
                    index += 1;
                    AST::Output
                },
                OpCode::LoopStart => {
                    proof {
                        lemma_walk_start(code, jt, at, end as int);
                    }
                    let loop_end = program.jump_table[index].unwrap();
                    let code_block = AST::convert_opcodes(program, index + 1, loop_end);
                    index = loop_end + 1;
                    AST::Loop(code_block)
                },
                OpCode::LoopEnd => {
                    proof {
                        lemma_walk_no_end(code, jt, at, end as int);
                        assert(false);
                    }
                    AST::Output
                },
            };
            nodes.push(ast_node);
            proof {
                if !(code[at] is LoopStart) {
                    lemma_walk_other(code, jt, at, end as int);
                }
                lemma_ast_views_push(pre_nodes, ast_node);
            }
        }
        nodes
    }

    /// Rewrite this tree bottom-up: clear loops become `SetValue(0)`, the four
    /// copy-loop shapes become `AddTo`, everything else stays as it is.
    pub fn optimize(self) -> (r: Self)
        ensures
            ast_view(r) == spec_optimize(ast_view(self)),
    {
        self.optimize_ref()
    }

    fn optimize_ref(&self) -> (r: AST)
        ensures
            ast_view(r) == spec_optimize(ast_view(*self)),
        decreases *self,
    {
        match self {
            AST::Program(codeblock) => {
                let out = Self::optimize_vec(codeblock);
                let node = AST::Program(out);
                proof {
                    assert(ast_view(node) == AstView::Program(
                        spec_optimize_seq(ast_views(codeblock@)),
                    ));
                }
                node
            },
            AST::Loop(codeblock) => {
                let u = Self::optimize_vec(codeblock);
                let ghost uv = ast_views(u@);
                proof {
                    lemma_ast_views_index(u@, 0);
                    lemma_ast_views_index(u@, 1);
                    lemma_ast_views_index(u@, 2);
                    lemma_ast_views_index(u@, 3);
                    assert(spec_optimize(ast_view(*self)) == spec_rewrite_loop(uv));
                }
                if u.len() == 1 && matches!(&u[0], AST::DecValue(_) | AST::IncValue(_)) {
                    proof {
                        assert(uv[0] == ast_view(u@[0]));
                        assert(spec_rewrite_loop(uv) == AstView::SetValue(0));
                    }
                    AST::SetValue(0)
                } else if u.len() == 4 {
                    match (&u[0], &u[1], &u[2], &u[3]) {
                        (
                            AST::DecValue(1),
                            AST::IncDataPtr(a),
                            AST::IncValue(1),
                            AST::DecDataPtr(b),
                        ) if *a == *b => {
                            proof {
                                assert(uv =~= seq![
                                    AstView::DecValue(1),
                                    AstView::IncDataPtr(uv[1]->IncDataPtr_0),
                                    AstView::IncValue(1),
                                    AstView::DecDataPtr(uv[1]->IncDataPtr_0),
                                ]);
                            }
                            AST::AddTo(#[verifier::truncate] (*b as isize))
                        },
                        (
                            AST::DecValue(1),
                            AST::DecDataPtr(b),
                            AST::IncValue(1),
                            AST::IncDataPtr(a),
                        ) if *a == *b => {
                            proof {
                                assert(!(uv =~= seq![
                                    AstView::DecValue(1),
                                    AstView::IncDataPtr(uv[1]->IncDataPtr_0),
                                    AstView::IncValue(1),
                                    AstView::DecDataPtr(uv[1]->IncDataPtr_0),
                                ]));
                                assert(uv =~= seq![
                                    AstView::DecValue(1),
                                    AstView::DecDataPtr(uv[1]->DecDataPtr_0),
                                    AstView::IncValue(1),
                                    AstView::IncDataPtr(uv[1]->DecDataPtr_0),
                                ]);
                            }
                            let off = #[verifier::truncate] (*b as isize);
                            AST::AddTo(
                                if off == isize::MIN {
                                    off
                                } else {
                                    -off
                                },
                            )
                        },
                        (
                            AST::DecDataPtr(b),
                            AST::IncValue(1),
                            AST::IncDataPtr(a),
                            AST::DecValue(1),
                        ) if *a == *b => {
                            proof {
                                assert(!(uv =~= seq![
                                    AstView::DecValue(1),
                                    AstView::IncDataPtr(uv[1]->IncDataPtr_0),
                                    AstView::IncValue(1),
                                    AstView::DecDataPtr(uv[1]->IncDataPtr_0),
                                ]));
                                assert(!(uv =~= seq![
                                    AstView::DecValue(1),
                                    AstView::DecDataPtr(uv[1]->DecDataPtr_0),
                                    AstView::IncValue(1),
                                    AstView::IncDataPtr(uv[1]->DecDataPtr_0),
                                ]));
                                assert(uv =~= seq![
                                    AstView::DecDataPtr(uv[0]->DecDataPtr_0),
                                    AstView::IncValue(1),
                                    AstView::IncDataPtr(uv[0]->DecDataPtr_0),
                                    AstView::DecValue(1),
                                ]);
                            }
                            let off = #[verifier::truncate] (*b as isize);
                            AST::AddTo(
                                if off == isize::MIN {
                                    off
                                } else {
                                    -off
                                },
                            )
                        },
                        (
                            AST::IncDataPtr(a),
                            AST::IncValue(1),
                            AST::DecDataPtr(b),
                            AST::DecValue(1),
                        ) if *a == *b => {
                            proof {
                                assert(!(uv =~= seq![
                                    AstView::DecValue(1),
                                    AstView::IncDataPtr(uv[1]->IncDataPtr_0),
                                    AstView::IncValue(1),
                                    AstView::DecDataPtr(uv[1]->IncDataPtr_0),
                                ]));
                                assert(!(uv =~= seq![
                                    AstView::DecValue(1),
                                    AstView::DecDataPtr(uv[1]->DecDataPtr_0),
                                    AstView::IncValue(1),
                                    AstView::IncDataPtr(uv[1]->DecDataPtr_0),
                                ]));
                                assert(!(uv =~= seq![
                                    AstView::DecDataPtr(uv[0]->DecDataPtr_0),
                                    AstView::IncValue(1),
                                    AstView::IncDataPtr(uv[0]->DecDataPtr_0),
                                    AstView::DecValue(1),
                                ]));
                                assert(uv =~= seq![
                                    AstView::IncDataPtr(uv[0]->IncDataPtr_0),
                                    AstView::IncValue(1),
                                    AstView::DecDataPtr(uv[0]->IncDataPtr_0),
                                    AstView::DecValue(1),
                                ]);
                            }
                            AST::AddTo(#[verifier::truncate] (*a as isize))
                        },
                        _ => {
                            proof {
                                assert(spec_rewrite_loop(uv) == AstView::Loop(uv));
                            }
                            AST::Loop(u)
                        },
                    }
                } else {
                    proof {
                        assert(spec_rewrite_loop(uv) == AstView::Loop(uv));
                    }
                    AST::Loop(u)
                }
            },
            AST::DecDataPtr(n) => AST::DecDataPtr(*n),
            AST::DecValue(n) => AST::DecValue(*n),
            AST::IncDataPtr(n) => AST::IncDataPtr(*n),
            AST::IncValue(n) => AST::IncValue(*n),
            AST::Input => AST::Input,
            AST::Output => AST::Output,
            AST::SetValue(v) => AST::SetValue(*v),
            AST::AddTo(off) => AST::AddTo(*off),
        }
    }

    /// Render the tree, one node per line, loop bodies indented four spaces.
    pub fn pretty_print(&self) -> (r: String)
        ensures
            r@ == (match ast_view(*self) {
                AstView::Program(cs) => spec_pretty_nodes(cs, Seq::<char>::empty()),
                _ => Seq::<char>::empty(),
            }),
    {
        match self {
            AST::Program(block) => Self::pretty_print_with_indent(block, String::new()),
            _ => String::new(),
        }
    }

    fn pretty_print_with_indent(nodes: &Vec<AST>, indent: String) -> (r: String)
        ensures
            r@ == spec_pretty_nodes(ast_views(nodes@), indent@),
        decreases *nodes,
    {
        let mut out = String::new();
        let mut i: usize = 0;
        while i < nodes.len()
            invariant
                i <= nodes@.len(),
                out@ == spec_pretty_nodes(ast_views(nodes@.take(i as int)), indent@),
            decreases nodes@.len() - i,
        {
            let ghost pre = out@;
            proof {
                assert(decreases_to!(*nodes => nodes@[i as int]));
                lemma_ast_views_index(nodes@, i as int);
            }
            match &nodes[i] {
                AST::DecDataPtr(count) => {
                    out.append(indent.as_str());
                    out.append("< (");
                    crate::text::push_dec(&mut out, *count, 1);
                    out.append(")\n");
                },
                AST::IncDataPtr(count) => {
                    out.append(indent.as_str());
                    out.append("> (");
                    crate::text::push_dec(&mut out, *count, 1);
                    out.append(")\n");
                },
                AST::DecValue(count) => {
                    out.append(indent.as_str());
                    out.append("- (");
                    crate::text::push_dec(&mut out, *count, 1);
                    out.append(")\n");
                },
                AST::IncValue(count) => {
                    out.append(indent.as_str());
                    out.append("+ (");
                    crate::text::push_dec(&mut out, *count, 1);
                    out.append(")\n");
                },
                AST::Output => {
                    out.append(indent.as_str());
                    out.append(".\n");
                },
                AST::Input => {
                    out.append(indent.as_str());
                    out.append(",\n");
                },
                AST::Loop(codeblock) => {
                    let mut sub_indent = indent.clone();
                    sub_indent.append("    ");
                    let inner = Self::pretty_print_with_indent(codeblock, sub_indent);
                    out.append(indent.as_str());
                    out.append("[\n");
                    out.append(inner.as_str());
                    out.append(indent.as_str());
                    out.append("]\n");
                },
                AST::SetValue(value) => {
                    out.append(indent.as_str());
                    out.append("set(");
                    crate::text::push_dec(&mut out, *value as usize, 1);
                    out.append(")\n");
                },
                AST::AddTo(offset) => {
                    out.append(indent.as_str());
                    out.append("addto(");
                    let off = *offset;
                    if off < 0 {
                        out.append("-");
                        let magnitude = ((-(off + 1)) as usize) + 1;
                        crate::text::push_dec(&mut out, magnitude, 1);
                    } else {
                        crate::text::push_dec(&mut out, off as usize, 1);
                    }
                    out.append(")\n");
                },
                AST::Program(_) => {},
            }
            proof {
                lemma_views_take_step(nodes@, i as int);
                lemma_pretty_push(
                    ast_views(nodes@.take(i as int)),
                    ast_view(nodes@[i as int]),
                    indent@,
                );
                assert(out@ =~= pre + spec_pretty_node(ast_view(nodes@[i as int]), indent@));
            }
            i += 1;
        }
        proof {
            assert(nodes@.take(nodes@.len() as int) =~= nodes@);
        }
        out
    }

    fn optimize_vec(codeblock: &Vec<AST>) -> (r: Vec<AST>)
        ensures
            ast_views(r@) == spec_optimize_seq(ast_views(codeblock@)),
        decreases *codeblock,
    {
        let mut out: Vec<AST> = Vec::new();
        let mut i: usize = 0;
        while i < codeblock.len()
            invariant
                i <= codeblock@.len(),
                ast_views(out@) == spec_optimize_seq(ast_views(codeblock@.take(i as int))),
            decreases codeblock@.len() - i,
        {
            let ghost pre = out@;
            proof {
                assert(decreases_to!(*codeblock => codeblock@[i as int]));
            }
            let node = codeblock[i].optimize_ref();
            out.push(node);
            proof {
                lemma_ast_views_push(pre, node);
                lemma_views_take_step(codeblock@, i as int);
                lemma_optimize_seq_push(
                    ast_views(codeblock@.take(i as int)),
                    ast_view(codeblock@[i as int]),
                );
            }
            i += 1;
        }
        proof {
            assert(codeblock@.take(codeblock@.len() as int) =~= codeblock@);
        }
        out
    }
}

/// One node of the pretty listing: its line at this indentation, with loop
/// bodies indented one level deeper.
pub open spec fn spec_pretty_node(n: AstView, indent: Seq<char>) -> Seq<char>
    decreases n,
{
    match n {
        AstView::DecDataPtr(count) => indent + "< ("@ + crate::text::spec_dec(count as int, 1)
            + ")\n"@,
        AstView::IncDataPtr(count) => indent + "> ("@ + crate::text::spec_dec(count as int, 1)
            + ")\n"@,
        AstView::DecValue(count) => indent + "- ("@ + crate::text::spec_dec(count as int, 1)
            + ")\n"@,
        AstView::IncValue(count) => indent + "+ ("@ + crate::text::spec_dec(count as int, 1)
            + ")\n"@,
        AstView::Output => indent + ".\n"@,
        AstView::Input => indent + ",\n"@,
        AstView::Loop(cs) => indent + "[\n"@ + spec_pretty_nodes(cs, indent + "    "@) + indent
            + "]\n"@,
        AstView::SetValue(value) => indent + "set("@ + crate::text::spec_dec(value as int, 1)
            + ")\n"@,
        AstView::AddTo(offset) => indent + "addto("@ + (if offset < 0 {
            "-"@ + crate::text::spec_dec(-offset as int, 1)
        } else {
            crate::text::spec_dec(offset as int, 1)
        }) + ")\n"@,
        AstView::Program(_) => Seq::empty(),
    }
}

/// The pretty listing of a sequence of nodes.
pub open spec fn spec_pretty_nodes(ns: Seq<AstView>, indent: Seq<char>) -> Seq<char>
    decreases ns,
{
    if ns.len() == 0 {
        Seq::empty()
    } else {
        spec_pretty_node(ns[0], indent) + spec_pretty_nodes(ns.subrange(1, ns.len() as int), indent)
    }
}

/// Listing one more node appends its lines.
pub proof fn lemma_pretty_push(ns: Seq<AstView>, n: AstView, indent: Seq<char>)
    ensures
        spec_pretty_nodes(ns.push(n), indent) == spec_pretty_nodes(ns, indent) + spec_pretty_node(
            n,
            indent,
        ),
    decreases ns.len(),
{
    let whole = ns.push(n);
    if ns.len() == 0 {
        assert(whole.subrange(1, whole.len() as int) =~= Seq::<AstView>::empty());
        assert(whole.len() == 1 && whole[0] == n);
        assert(spec_pretty_nodes(whole, indent) == spec_pretty_node(whole[0], indent)
            + spec_pretty_nodes(whole.subrange(1, whole.len() as int), indent));
        assert(spec_pretty_nodes(whole.subrange(1, whole.len() as int), indent)
            == Seq::<char>::empty());
        assert(spec_pretty_nodes(ns, indent) == Seq::<char>::empty());
        assert(spec_pretty_nodes(whole, indent) =~= spec_pretty_nodes(ns, indent)
            + spec_pretty_node(n, indent));
    } else {
        assert(whole.subrange(1, whole.len() as int) =~= ns.subrange(1, ns.len() as int).push(n));
        lemma_pretty_push(ns.subrange(1, ns.len() as int), n, indent);
        assert(whole.len() == ns.len() + 1 && whole[0] == ns[0]);
        assert(spec_pretty_nodes(whole, indent) == spec_pretty_node(whole[0], indent)
            + spec_pretty_nodes(whole.subrange(1, whole.len() as int), indent));
        assert(spec_pretty_nodes(ns, indent) == spec_pretty_node(ns[0], indent)
            + spec_pretty_nodes(ns.subrange(1, ns.len() as int), indent));
        assert(spec_pretty_nodes(whole, indent) =~= spec_pretty_nodes(ns, indent)
            + spec_pretty_node(n, indent));
    }
}

/// Optimising a sequence with one more node optimises the node and appends.
pub proof fn lemma_optimize_seq_push(cs: Seq<AstView>, n: AstView)
    ensures
        spec_optimize_seq(cs.push(n)) == spec_optimize_seq(cs).push(spec_optimize(n)),
    decreases cs.len(),
{
    let whole = cs.push(n);
    if cs.len() == 0 {
        assert(whole.subrange(1, whole.len() as int) =~= Seq::<AstView>::empty());
        assert(whole.len() == 1 && whole[0] == n);
        assert(spec_optimize_seq(whole) == seq![spec_optimize(whole[0])] + spec_optimize_seq(
            whole.subrange(1, whole.len() as int),
        ));
        assert(spec_optimize_seq(whole.subrange(1, whole.len() as int))
            == Seq::<AstView>::empty());
        assert(spec_optimize_seq(whole) =~= seq![spec_optimize(n)]);
        assert(spec_optimize_seq(cs).push(spec_optimize(n)) =~= seq![spec_optimize(n)]);
    } else {
        assert(whole.subrange(1, whole.len() as int) =~= cs.subrange(1, cs.len() as int).push(n));
        lemma_optimize_seq_push(cs.subrange(1, cs.len() as int), n);
        assert(whole.len() == cs.len() + 1 && whole[0] == cs[0]);
        assert(spec_optimize_seq(whole) == seq![spec_optimize(whole[0])] + spec_optimize_seq(
            whole.subrange(1, whole.len() as int),
        ));
        assert(spec_optimize_seq(cs) == seq![spec_optimize(cs[0])] + spec_optimize_seq(
            cs.subrange(1, cs.len() as int),
        ));
        assert(spec_optimize_seq(whole) =~= spec_optimize_seq(cs).push(spec_optimize(n)));
    }
}

/// The views of one more node extend the views of the prefix.
pub proof fn lemma_views_take_step(nodes: Seq<AST>, i: int)
    requires
        0 <= i < nodes.len(),
    ensures
        ast_views(nodes.take(i + 1)) == ast_views(nodes.take(i)).push(ast_view(nodes[i])),
{
    lemma_ast_views_push(nodes.take(i), nodes[i]);
    assert(nodes.take(i + 1) =~= nodes.take(i).push(nodes[i]));
}

/// Pushing a node onto a vector pushes its view onto the view sequence.
pub proof fn lemma_ast_views_push(s: Seq<AST>, n: AST)
    ensures
        ast_views(s.push(n)) == ast_views(s).push(ast_view(n)),
    decreases s.len(),
{
    let whole = s.push(n);
    if s.len() == 0 {
        assert(whole.subrange(1, whole.len() as int) =~= Seq::<AST>::empty());
        assert(whole.len() == 1 && whole[0] == n);
        assert(ast_views(whole) == seq![ast_view(whole[0])] + ast_views(
            whole.subrange(1, whole.len() as int),
        ));
        assert(ast_views(whole.subrange(1, whole.len() as int)) == Seq::<AstView>::empty());
        assert(ast_views(s) == Seq::<AstView>::empty());
        assert(ast_views(whole) =~= ast_views(s).push(ast_view(n)));
    } else {
        assert(whole.subrange(1, whole.len() as int) =~= s.subrange(1, s.len() as int).push(n));
        lemma_ast_views_push(s.subrange(1, s.len() as int), n);
        assert(whole.len() == s.len() + 1 && whole[0] == s[0]);
        assert(ast_views(whole) == seq![ast_view(whole[0])] + ast_views(
            whole.subrange(1, whole.len() as int),
        ));
        assert(ast_views(s) == seq![ast_view(s[0])] + ast_views(s.subrange(1, s.len() as int)));
        assert(ast_views(whole) =~= ast_views(s).push(ast_view(n)));
    }
}

/// Views of a prefix are the prefix of the views.
pub proof fn lemma_ast_views_take(s: Seq<AST>, n: int)
    requires
        0 <= n <= s.len(),
    ensures
        ast_views(s.take(n)) == ast_views(s).take(n),
    decreases n,
{
    lemma_ast_views_index(s, 0);
    if n == 0 {
        assert(s.take(0) =~= Seq::<AST>::empty());
        assert(ast_views(s.take(0)) =~= ast_views(s).take(0));
    } else {
        lemma_ast_views_take(s, n - 1);
        lemma_views_take_step(s, n - 1);
        lemma_ast_views_index(s, n - 1);
        assert(ast_views(s).take(n) =~= ast_views(s).take(n - 1).push(ast_views(s)[n - 1]));
    }
}

/// The view sequence is as long as the vector and holds the views pointwise.
pub proof fn lemma_ast_views_index(s: Seq<AST>, i: int)
    ensures
        ast_views(s).len() == s.len(),
        0 <= i < s.len() ==> ast_views(s)[i] == ast_view(s[i]),
    decreases s.len(),
{
    if s.len() > 0 {
        lemma_ast_views_index(s.subrange(1, s.len() as int), i - 1);
    }
}

/// At a `LoopStart` inside a closed range, the mate closes inside the
/// range, the body is itself closed, and so is what follows the pair.
pub proof fn lemma_walk_start(code: Seq<OpCode>, jt: Seq<Option<usize>>, i: int, end: int)
    requires
        wf_jump_table(code, jt),
        range_closed(code, jt, i, end),
        code.len() <= usize::MAX,
        i < end,
        code[i] is LoopStart,
    ensures
        jt[i] is Some,
        i < mate(jt, i) < end,
        range_closed(code, jt, i + 1, mate(jt, i)),
        range_closed(code, jt, mate(jt, i) + 1, end),
{
    let m = mate(jt, i);
    assert(jt[i] is Some);
    assert(pair_ok(code, jt, i));
    assert forall|k: int|
        i + 1 <= k < m && (#[trigger] jt[k]) is Some implies i + 1 <= mate(jt, k) < m by {
        let l = mate(jt, k);
        assert(pair_ok(code, jt, k));
        assert(i <= l < end);
        if code[k] is LoopStart {
            assert(is_start_pair(code, jt, i) && is_start_pair(code, jt, k));
            assert(mate(jt, k) < mate(jt, i));
        } else {
            assert(l < k);
            if l == i {
                assert(jt[l] == Some(k as usize));
                assert(jt[i] == Some(m as usize));
                assert(false);
            }
        }
    }
    assert forall|k: int|
        m + 1 <= k < end && (#[trigger] jt[k]) is Some implies m + 1 <= mate(jt, k) < end by {
        let l = mate(jt, k);
        assert(pair_ok(code, jt, k));
        assert(i <= l < end);
        if l <= m {
            if l == i {
                assert(jt[l] == Some(k as usize));
                assert(jt[i] == Some(m as usize));
                assert(false);
            } else if l == m {
                assert(jt[l] == Some(k as usize));
                assert(jt[m] == Some(i as usize));
                assert(false);
            } else {
                if code[k] is LoopEnd {
                    assert(code[l] is LoopStart && jt[l] == Some(k as usize));
                    assert(is_start_pair(code, jt, i) && is_start_pair(code, jt, l));
                    assert(mate(jt, l) < mate(jt, i));
                    assert(false);
                } else {
                    assert(k < l);
                    assert(false);
                }
            }
        }
    }
}

/// A closed range never begins with a closing bracket.
pub proof fn lemma_walk_no_end(code: Seq<OpCode>, jt: Seq<Option<usize>>, i: int, end: int)
    requires
        wf_jump_table(code, jt),
        range_closed(code, jt, i, end),
        i < end,
    ensures
        !(code[i] is LoopEnd),
{
    if code[i] is LoopEnd {
        assert(jt[i] is Some);
        assert(pair_ok(code, jt, i));
        assert(mate(jt, i) < i);
        assert(i <= mate(jt, i));
    }
}

/// Stepping over a non-bracket opcode keeps the range closed.
pub proof fn lemma_walk_other(code: Seq<OpCode>, jt: Seq<Option<usize>>, i: int, end: int)
    requires
        wf_jump_table(code, jt),
        range_closed(code, jt, i, end),
        i < end,
        !code[i].is_bracket(),
    ensures
        range_closed(code, jt, i + 1, end),
{
    assert(jt[i] is None);
    assert forall|k: int|
        i + 1 <= k < end && (#[trigger] jt[k]) is Some implies i + 1 <= mate(jt, k) < end by {
        let l = mate(jt, k);
        assert(pair_ok(code, jt, k));
        if l == i {
            assert(jt[l] is Some);
        }
    }
}

} // verus!

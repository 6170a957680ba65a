//! The ARM64 back-end: emits fixed instruction encodings into a word
//! buffer, with verified backpatching of loop branches, and lays the
//! result out as little-endian bytes.

use vstd::prelude::*;

use crate::ast::AstView;

verus! {

/// `ldrb w13, [x21]` — load the current cell into the scratch byte.
pub open spec fn word_ldrb_w13() -> u32 {
    0x394002ADu32
}

/// `strb w13, [x21]` — store the scratch byte into the current cell.
pub open spec fn word_strb_w13() -> u32 {
    0x390002ADu32
}

/// The eight-instruction prolog: save the frame and callee-saved pairs,
/// adopt the three arguments, zero the scratch base.
pub open spec fn prolog_words() -> Seq<u32> {
    seq![
        0xA9BD7BFDu32,  // stp x29, x30, [sp, #-0x30]!
        0xA90153F3u32,  // stp x19, x20, [sp, #0x10]
        0xA9025BF5u32,  // stp x21, x22, [sp, #0x20]
        0x910003FDu32,  // mov x29, sp
        0xAA0003F3u32,  // mov x19, x0
        0xAA0103F4u32,  // mov x20, x1
        0xAA0203F5u32,  // mov x21, x2
        0xAA1F03F6u32,  // mov x22, xzr
    ]
}

/// The four-instruction epilog: restore the saved pairs and return.
pub open spec fn epilog_words() -> Seq<u32> {
    seq![
        0xA94153F3u32,  // ldp x19, x20, [sp, #0x10]
        0xA9425BF5u32,  // ldp x21, x22, [sp, #0x20]
        0xA8C37BFDu32,  // ldp x29, x30, [sp], #0x30
        0xD65F03C0u32,  // ret
    ]
}

/// `add x21, x21, #imm` or `sub x21, x21, #imm` — move the tape cursor.
pub open spec fn word_ptr(add: bool, imm: int) -> u32 {
    if add {
        (0x91000000u32 | (((imm % 4096) as u32) << 10) | 0x2B5u32)
    } else {
        (0xD1000000u32 | (((imm % 4096) as u32) << 10) | 0x2B5u32)
    }
}

/// `add w13, w13, #imm` or `sub w13, w13, #imm` — change the scratch byte.
pub open spec fn word_val(add: bool, imm: int) -> u32 {
    if add {
        (0x11000000u32 | (((imm % 4096) as u32) << 10) | 0x1ADu32)
    } else {
        (0x51000000u32 | (((imm % 4096) as u32) << 10) | 0x1ADu32)
    }
}

/// `mov w13, #v` — materialise a cell value.
pub open spec fn word_mov_w13(v: int) -> u32 {
    (0x52800000u32 | (((v % 65536) as u32) << 5) | 0xDu32)
}

/// `cbz w13, #delta` — forward branch past the loop, in instructions.
pub open spec fn word_cbz(delta: int) -> u32 {
    (0x34000000u32 | (((delta % 0x80000) as u32) << 5) | 0xDu32)
}

/// `b #-delta` — backward branch to the loop head, in instructions.
pub open spec fn word_b_back(delta: int) -> u32 {
    (0x14000000u32 | ((0x4000000 - delta % 0x4000000) as u32))
}

/// `ldurb w14, [x21, #off]` / `sturb w14, [x21, #off]` — the cell at a
/// signed offset, for the copy loop.
pub open spec fn word_ldurb_w14(off: int) -> u32 {
    (0x38400000u32 | ((((off % 512 + 512) % 512) as u32) << 12) | 0x2AEu32)
}

pub open spec fn word_sturb_w14(off: int) -> u32 {
    (0x38000000u32 | ((((off % 512 + 512) % 512) as u32) << 12) | 0x2AEu32)
}

/// The pointer move `count`, split into immediates of at most 4095.
pub open spec fn spec_ptr_moves(add: bool, count: int) -> Seq<u32>
    decreases count,
{
    if count <= 0 {
        Seq::empty()
    } else if count <= 4095 {
        seq![word_ptr(add, count)]
    } else {
        seq![word_ptr(add, 4095)] + spec_ptr_moves(add, count - 4095)
    }
}

/// The instructions one tree node emits. Branch deltas are relative
/// instruction counts, so the layout needs no absolute positions.
pub open spec fn spec_emit(n: AstView) -> Seq<u32>
    decreases n,
{
    match n {
        AstView::IncDataPtr(c) => spec_ptr_moves(true, c as int),
        AstView::DecDataPtr(c) => spec_ptr_moves(false, c as int),
        AstView::IncValue(c) => seq![
            word_ldrb_w13(),
            word_val(true, c as int % 256),
            word_strb_w13(),
        ],
        AstView::DecValue(c) => if c as int % 256 == 0 {
            seq![word_ldrb_w13(), word_val(true, 0), word_strb_w13()]
        } else {
            seq![word_ldrb_w13(), word_val(false, c as int % 256), word_strb_w13()]
        },
        AstView::Output => seq![
            0xAA1F03E0u32,  // mov x0, xzr
            0x394002A0u32,  // ldrb w0, [x21]
            0xD63F0260u32,  // blr x19
        ],
        AstView::Input => seq![
            0xD63F0280u32,  // blr x20
            0x390002A0u32,  // strb w0, [x21]
        ],
        AstView::SetValue(v) => if v == 0 {
            seq![0x390002BFu32]  // strb wzr, [x21]

        } else {
            seq![word_mov_w13(v as int), word_strb_w13()]
        },
        AstView::AddTo(off) => seq![
            word_ldrb_w13(),
            word_ldurb_w14(off as int),
            0x0B0D01CEu32,  // add w14, w14, w13
            word_sturb_w14(off as int),
            0xD280000Du32,  // mov x13, #0
            word_strb_w13(),
        ],
        AstView::Loop(cs) => {
            let body = spec_emit_seq(cs);
            seq![word_ldrb_w13(), word_cbz(body.len() + 2int)] + body + seq![
                word_b_back(body.len() + 2int),
            ]
        },
        AstView::Program(cs) => prolog_words() + spec_emit_seq(cs) + epilog_words(),
    }
}

/// The instructions a sequence of nodes emits.
pub open spec fn spec_emit_seq(cs: Seq<AstView>) -> Seq<u32>
    decreases cs,
{
    if cs.len() == 0 {
        Seq::empty()
    } else {
        spec_emit(cs[0]) + spec_emit_seq(cs.subrange(1, cs.len() as int))
    }
}

/// The machine has room for this tree: copy-loop offsets fit the nine-bit
/// signed immediate, and every loop body is short enough for its forward
/// branch. Trees lowered from realistic sources always satisfy this.
pub open spec fn emit_ok(n: AstView) -> bool
    decreases n,
{
    match n {
        AstView::AddTo(off) => -256 <= off < 256,
        AstView::Loop(cs) => emit_ok_seq(cs) && spec_emit_seq(cs).len() + 2 < 0x40000,
        AstView::Program(cs) => emit_ok_seq(cs) && spec_emit_seq(cs).len() + 12 <= 0x7FFFFFFF,
        AstView::IncDataPtr(c) => spec_ptr_moves(true, c as int).len() <= 0x7FFFFFFF,
        AstView::DecDataPtr(c) => spec_ptr_moves(false, c as int).len() <= 0x7FFFFFFF,
        _ => true,
    }
}

pub open spec fn emit_ok_seq(cs: Seq<AstView>) -> bool
    decreases cs,
{
    if cs.len() == 0 {
        true
    } else {
        emit_ok(cs[0]) && emit_ok_seq(cs.subrange(1, cs.len() as int))
    }
}

/// The emitted words laid out as bytes, least-significant first.
pub open spec fn le_bytes(words: Seq<u32>) -> Seq<u8> {
    Seq::new((words.len() * 4) as nat, |i: int| (words[i / 4] >> ((i % 4) * 8)) as u8)
}

/// The ARM64 emitter: a growing buffer of instruction words.
pub struct ARM64CodeGenerator {
    code: Vec<u32>,
}

impl ARM64CodeGenerator {
    /// The words emitted so far.
    pub closed spec fn spec_code(self) -> Seq<u32> {
        self.code@
    }

    pub fn new() -> (r: Self)
        ensures
            r.spec_code() == Seq::<u32>::empty(),
    {
        ARM64CodeGenerator { code: Vec::new() }
    }

    /// Emit the function prolog.
    pub fn function_prolog(&mut self)
        ensures
            final(self).spec_code() == old(self).spec_code() + prolog_words(),
    {
        self.code.push(0xA9BD7BFD);
        self.code.push(0xA90153F3);
        self.code.push(0xA9025BF5);
        self.code.push(0x910003FD);
        self.code.push(0xAA0003F3);
        self.code.push(0xAA0103F4);
        self.code.push(0xAA0203F5);
        self.code.push(0xAA1F03F6);
        proof {
            assert(self.code@ =~= old(self).code@ + prolog_words());
        }
    }

    /// Emit the function epilog.
    pub fn function_epilog(&mut self)
        ensures
            final(self).spec_code() == old(self).spec_code() + epilog_words(),
    {
        self.code.push(0xA94153F3);
        self.code.push(0xA9425BF5);
        self.code.push(0xA8C37BFD);
        self.code.push(0xD65F03C0);
        proof {
            assert(self.code@ =~= old(self).code@ + epilog_words());
        }
    }

    /// Set the current cell to `value`.
    pub fn set(&mut self, value: u8)
        ensures
            final(self).spec_code() == old(self).spec_code() + spec_emit(AstView::SetValue(value)),
    {
        if value == 0 {
            self.code.push(0x390002BF);
        } else {
            self.code.push(0x52800000u32 | ((value as u32) << 5) | 0xDu32);
            self.code.push(0x390002AD);
        }
        proof {
            assert(self.code@ =~= old(self).code@ + spec_emit(AstView::SetValue(value)));
        }
    }

    /// Add the current cell into the cell `offset` bytes away, then clear
    /// the current cell.
    pub fn add_to(&mut self, offset: i32)
        requires
            -256 <= offset < 256,
        ensures
            final(self).spec_code() == old(self).spec_code() + spec_emit(
                AstView::AddTo(offset as isize),
            ),
    {
        let imm9: u32 = if offset >= 0 {
            offset as u32
        } else {
            (offset + 512) as u32
        };
        self.code.push(0x394002AD);
        self.code.push(0x38400000u32 | (imm9 << 12) | 0x2AEu32);
        self.code.push(0x0B0D01CE);
        self.code.push(0x38000000u32 | (imm9 << 12) | 0x2AEu32);
        self.code.push(0xD280000D);
        self.code.push(0x390002AD);
        proof {
            assert(imm9 == (offset as int % 512 + 512) % 512);
            assert(self.code@ =~= old(self).code@ + spec_emit(AstView::AddTo(offset as isize)));
        }
    }

    /// Add `update` to the current cell (negative values subtract).
    pub fn update_value(&mut self, update: i32)
        requires
            -4095 <= update <= 4095,
        ensures
            update >= 0 ==> final(self).spec_code() == old(self).spec_code() + seq![
                word_ldrb_w13(),
                word_val(true, update as int),
                word_strb_w13(),
            ],
            update < 0 ==> final(self).spec_code() == old(self).spec_code() + seq![
                word_ldrb_w13(),
                word_val(false, -update as int),
                word_strb_w13(),
            ],
    {
        self.code.push(0x394002AD);
        if update < 0 {
            self.code.push(0x51000000u32 | (((-update) as u32) << 10) | 0x1ADu32);
        } else {
            self.code.push(0x11000000u32 | ((update as u32) << 10) | 0x1ADu32);
        }
        self.code.push(0x390002AD);
        proof {
            if update >= 0 {
                assert(self.code@ =~= old(self).code@ + seq![
                    word_ldrb_w13(),
                    word_val(true, update as int),
                    word_strb_w13(),
                ]);
            } else {
                assert(self.code@ =~= old(self).code@ + seq![
                    word_ldrb_w13(),
                    word_val(false, -update as int),
                    word_strb_w13(),
                ]);
            }
        }
    }

    /// Move the tape cursor by `update` cells (negative values move left).
    pub fn update_memory_ptr(&mut self, update: i32)
        requires
            -4095 <= update <= 4095,
        ensures
            update >= 0 ==> final(self).spec_code() == old(self).spec_code() + spec_ptr_moves(
                true,
                update as int,
            ),
            update < 0 ==> final(self).spec_code() == old(self).spec_code() + spec_ptr_moves(
                false,
                -update as int,
            ),
    {
        if update < 0 {
            self.code.push(0xD1000000u32 | (((-update) as u32) << 10) | 0x2B5u32);
            proof {
                assert(self.code@ =~= old(self).code@ + spec_ptr_moves(false, -update as int));
            }
        } else if update > 0 {
            self.code.push(0x91000000u32 | ((update as u32) << 10) | 0x2B5u32);
            proof {
                assert(self.code@ =~= old(self).code@ + spec_ptr_moves(true, update as int));
            }
        } else {
            proof {
                assert(self.code@ =~= old(self).code@ + spec_ptr_moves(true, 0));
            }
        }
    }

    /// Call the output thunk with the current cell.
    pub fn output(&mut self)
        ensures
            final(self).spec_code() == old(self).spec_code() + spec_emit(AstView::Output),
    {
        self.code.push(0xAA1F03E0);
        self.code.push(0x394002A0);
        self.code.push(0xD63F0260);
        proof {
            assert(self.code@ =~= old(self).code@ + spec_emit(AstView::Output));
        }
    }

    /// Call the input thunk and store its result in the current cell.
    pub fn input(&mut self)
        ensures
            final(self).spec_code() == old(self).spec_code() + spec_emit(AstView::Input),
    {
        self.code.push(0xD63F0280);
        self.code.push(0x390002A0);
        proof {
            assert(self.code@ =~= old(self).code@ + spec_emit(AstView::Input));
        }
    }

    /// Open a loop: test the current cell and branch past the loop when it
    /// is zero, with the branch target patched by [`Self::loop_end`].
    /// Returns the labels `(loop head, branch to patch)`.
    pub fn loop_start(&mut self) -> (r: (usize, usize))
        requires
            old(self).spec_code().len() + 2 <= usize::MAX,
        ensures
            final(self).spec_code() == old(self).spec_code() + seq![word_ldrb_w13(), word_cbz(0)],
            r.0 == old(self).spec_code().len(),
            r.1 == old(self).spec_code().len() + 1,
    {
        let start = self.code.len();
        self.code.push(0x394002AD);
        self.code.push(0x34000000u32 | ((0u32) << 5) | 0xDu32);
        proof {
            assert(self.code@ =~= old(self).code@ + seq![word_ldrb_w13(), word_cbz(0)]);
        }
        (start, start + 1)
    }

    /// Close a loop: branch back to the loop head and patch the opening
    /// branch to land here.
    pub fn loop_end(&mut self, loop_start: usize, loop_end: usize)
        requires
            loop_end == loop_start + 1,
            loop_start + 2 <= old(self).spec_code().len(),
            old(self).spec_code().len() - loop_start < 0x40000,
            old(self).spec_code()[loop_end as int] == word_cbz(0),
        ensures
            ({
                let d = old(self).spec_code().len() - loop_start;
                final(self).spec_code() == old(self).spec_code().update(
                    loop_end as int,
                    word_cbz(d),
                ).push(word_b_back(d))
            }),
    {
        let here = self.code.len();
        let delta: usize = here - loop_start;
        self.code.push(0x14000000u32 | (0x4000000u32 - delta as u32));
        let patched: u32 = 0x34000000u32 | ((delta as u32) << 5) | 0xDu32;
        self.code.set(loop_end, patched);
        proof {
            assert(patched == word_cbz(here - loop_start));
            assert((0x14000000u32 | (0x4000000u32 - delta as u32) as u32) == word_b_back(
                here - loop_start,
            ));
            assert(self.code@ =~= old(self).code@.update(
                loop_end as int,
                word_cbz(here - loop_start),
            ).push(word_b_back(here - loop_start)));
        }
    }

    /// Hand the emitted words out.
    pub fn finalize(self) -> (r: Vec<u32>)
        ensures
            r@ == self.spec_code(),
    {
        self.code
    }
}

/// Lay instruction words out as their little-endian bytes.
pub fn code_bytes(words: &Vec<u32>) -> (r: Vec<u8>)
    ensures
        r@ == le_bytes(words@),
{
    let mut out: Vec<u8> = Vec::new();
    let mut i: usize = 0;
    while i < words.len()
        invariant
            i <= words@.len(),
            out@.len() == 4 * i,
            out@ =~= le_bytes(words@.take(i as int)),
        decreases words@.len() - i,
    {
        let w = words[i];
        out.push((w & 0xFF) as u8);
        out.push(((w >> 8) & 0xFF) as u8);
        out.push(((w >> 16) & 0xFF) as u8);
        out.push(((w >> 24) & 0xFF) as u8);
        proof {
            lemma_le_bytes_step(words@, i as int);
            assert((w & 0xFF) as u8 == (w >> 0) as u8 && ((w >> 8) & 0xFF) as u8 == (w >> 8) as u8
                && ((w >> 16) & 0xFF) as u8 == (w >> 16) as u8 && ((w >> 24) & 0xFF) as u8 == (w
                >> 24) as u8) by (bit_vector);
            assert(out@ =~= le_bytes(words@.take(i + 1)));
        }
        i += 1;
    }
    proof {
        assert(words@.take(words@.len() as int) =~= words@);
    }
    out
}

/// One more word appends its four bytes.
pub proof fn lemma_le_bytes_step(words: Seq<u32>, i: int)
    requires
        0 <= i < words.len(),
    ensures
        le_bytes(words.take(i + 1)) =~= le_bytes(words.take(i)) + seq![
            (words[i] >> 0) as u8,
            (words[i] >> 8) as u8,
            (words[i] >> 16) as u8,
            (words[i] >> 24) as u8,
        ],
{
    let lhs = le_bytes(words.take(i + 1));
    let rhs = le_bytes(words.take(i)) + seq![
        (words[i] >> 0) as u8,
        (words[i] >> 8) as u8,
        (words[i] >> 16) as u8,
        (words[i] >> 24) as u8,
    ];
    assert forall|k: int| 0 <= k < lhs.len() implies lhs[k] == rhs[k] by {
        assert(words.take(i + 1)[k / 4] == if k < 4 * i {
            words.take(i)[k / 4]
        } else {
            words[i]
        });
        if k >= 4 * i {
            assert(k / 4 == i && (k == 4 * i || k == 4 * i + 1 || k == 4 * i + 2 || k == 4 * i
                + 3));
        }
    }
}

} // verus!

//! The instruction set: eight opcodes, four of which carry a fold count.

use vstd::prelude::*;

verus! {

/// One Brainfuck instruction. The four counted variants carry the number of
/// consecutive source characters folded into them; `LoopStart` and `LoopEnd`
/// are never folded, so their count is always 1.
#[derive(Clone, Copy, Debug, PartialEq, Eq, Structural)]
pub enum OpCode {
    IncDataPtr(usize),
    DecDataPtr(usize),
    IncValue(usize),
    DecValue(usize),
    Input,
    Output,
    LoopStart,
    LoopEnd,
}

impl OpCode {
    /// Which opcode, if any, a source character denotes (count 1).
    pub open spec fn spec_convert(c: char) -> Option<OpCode> {
        match c {
            '>' => Some(OpCode::IncDataPtr(1)),
            '<' => Some(OpCode::DecDataPtr(1)),
            '+' => Some(OpCode::IncValue(1)),
            '-' => Some(OpCode::DecValue(1)),
            ',' => Some(OpCode::Input),
            '.' => Some(OpCode::Output),
            '[' => Some(OpCode::LoopStart),
            ']' => Some(OpCode::LoopEnd),
            _ => None,
        }
    }

    /// Map a source character to its opcode; any other character is ignored.
    pub fn convert(c: char) -> (r: Option<OpCode>)
        ensures
            r == Self::spec_convert(c),
    {
        match c {
            '>' => Some(OpCode::IncDataPtr(1)),
            '<' => Some(OpCode::DecDataPtr(1)),
            '+' => Some(OpCode::IncValue(1)),
            '-' => Some(OpCode::DecValue(1)),
            ',' => Some(OpCode::Input),
            '.' => Some(OpCode::Output),
            '[' => Some(OpCode::LoopStart),
            ']' => Some(OpCode::LoopEnd),
            _ => None,
        }
    }

    /// The source character this opcode prints as.
    pub open spec fn spec_char(self) -> char {
        match self {
            OpCode::IncDataPtr(_) => '>',
            OpCode::DecDataPtr(_) => '<',
            OpCode::IncValue(_) => '+',
            OpCode::DecValue(_) => '-',
            OpCode::Input => ',',
            OpCode::Output => '.',
            OpCode::LoopStart => '[',
            OpCode::LoopEnd => ']',
        }
    }

    pub fn to_char(&self) -> (c: char)
        ensures
            c == self.spec_char(),
    {
        match self {
            OpCode::IncDataPtr(_) => '>',
            OpCode::DecDataPtr(_) => '<',
            OpCode::IncValue(_) => '+',
            OpCode::DecValue(_) => '-',
            OpCode::Input => ',',
            OpCode::Output => '.',
            OpCode::LoopStart => '[',
            OpCode::LoopEnd => ']',
        }
    }

    /// The fold count: `n` for the counted variants, 1 for the rest.
    pub open spec fn spec_count(self) -> usize {
        match self {
            OpCode::IncDataPtr(n) => n,
            OpCode::DecDataPtr(n) => n,
            OpCode::IncValue(n) => n,
            OpCode::DecValue(n) => n,
            _ => 1,
        }
    }

    pub fn count(&self) -> (n: usize)
        ensures
            n == self.spec_count(),
    {
        match self {
            OpCode::IncDataPtr(n) => *n,
            OpCode::DecDataPtr(n) => *n,
            OpCode::IncValue(n) => *n,
            OpCode::DecValue(n) => *n,
            _ => 1,
        }
    }

    /// Whether this opcode is a loop bracket.
    pub open spec fn is_bracket(self) -> bool {
        self is LoopStart || self is LoopEnd
    }
}

/// The opcode stream a source text tokenises to: the eight instruction
/// characters in order, every other character dropped, each with count 1.
pub open spec fn tokens(s: Seq<char>) -> Seq<OpCode>
    decreases s.len(),
{
    if s.len() == 0 {
        Seq::empty()
    } else {
        tokens(s.drop_last()) + match OpCode::spec_convert(s.last()) {
            Some(op) => seq![op],
            None => Seq::empty(),
        }
    }
}

/// The two opcodes fold into one when the newcomer has count 1 and is of the
/// same counted kind as the accumulated top.
pub open spec fn spec_merge(top: OpCode, cur: OpCode) -> Option<OpCode> {
    match (top, cur) {
        (OpCode::DecDataPtr(count), OpCode::DecDataPtr(1)) => Some(
            OpCode::DecDataPtr((count + 1) as usize),
        ),
        (OpCode::IncDataPtr(count), OpCode::IncDataPtr(1)) => Some(
            OpCode::IncDataPtr((count + 1) as usize),
        ),
        (OpCode::DecValue(count), OpCode::DecValue(1)) => Some(
            OpCode::DecValue((count + 1) as usize),
        ),
        (OpCode::IncValue(count), OpCode::IncValue(1)) => Some(
            OpCode::IncValue((count + 1) as usize),
        ),
        _ => None,
    }
}

/// One step of the run-length fold: merge with the top of the accumulator
/// when possible, otherwise push.
pub open spec fn rle_push(acc: Seq<OpCode>, cur: OpCode) -> Seq<OpCode> {
    if acc.len() > 0 && spec_merge(acc.last(), cur) is Some {
        acc.drop_last().push(spec_merge(acc.last(), cur)->Some_0)
    } else {
        acc.push(cur)
    }
}

/// The run-length folded form of an opcode stream.
pub open spec fn rle_fold(s: Seq<OpCode>) -> Seq<OpCode>
    decreases s.len(),
{
    if s.len() == 0 {
        Seq::empty()
    } else {
        rle_push(rle_fold(s.drop_last()), s.last())
    }
}

/// The total number of source characters an opcode stream stands for.
pub open spec fn count_sum(s: Seq<OpCode>) -> int
    decreases s.len(),
{
    if s.len() == 0 {
        0int
    } else {
        count_sum(s.drop_last()) + s.last().spec_count()
    }
}

/// The count-1 opcodes one opcode stands for: a counted opcode unfolds to
/// `count` copies of its unit form, any other stays itself.
pub open spec fn expand_op(op: OpCode) -> Seq<OpCode> {
    match op {
        OpCode::IncDataPtr(n) => Seq::new(n as nat, |i: int| OpCode::IncDataPtr(1)),
        OpCode::DecDataPtr(n) => Seq::new(n as nat, |i: int| OpCode::DecDataPtr(1)),
        OpCode::IncValue(n) => Seq::new(n as nat, |i: int| OpCode::IncValue(1)),
        OpCode::DecValue(n) => Seq::new(n as nat, |i: int| OpCode::DecValue(1)),
        _ => seq![op],
    }
}

/// A folded stream unfolded back to count-1 opcodes.
pub open spec fn expand(s: Seq<OpCode>) -> Seq<OpCode>
    decreases s.len(),
{
    if s.len() == 0 {
        Seq::empty()
    } else {
        expand(s.drop_last()) + expand_op(s.last())
    }
}

/// Every count in a fold of a count-1 stream is at least 1 and no larger
/// than the stream's length.
pub proof fn lemma_rle_fold_counts(t: Seq<OpCode>)
    requires
        forall|k: int| 0 <= k < t.len() ==> (#[trigger] t[k]).spec_count() == 1,
        t.len() <= usize::MAX,
    ensures
        forall|k: int|
            0 <= k < rle_fold(t).len() ==> 1 <= (#[trigger] rle_fold(t)[k]).spec_count()
                <= t.len(),
    decreases t.len(),
{
    if t.len() > 0 {
        assert(forall|k: int|
            0 <= k < t.drop_last().len() ==> (#[trigger] t.drop_last()[k]).spec_count() == 1);
        lemma_rle_fold_counts(t.drop_last());
        let f = rle_fold(t.drop_last());
        let last = t.last();
        assert(rle_fold(t) == rle_push(f, last));
        assert forall|k: int|
            0 <= k < rle_fold(t).len() implies 1 <= (#[trigger] rle_fold(t)[k]).spec_count()
            <= t.len() by {
            if f.len() > 0 && spec_merge(f.last(), last) is Some {
                if k < f.len() - 1 {
                    assert(rle_fold(t)[k] == f[k]);
                } else {
                    assert(f.last().spec_count() + 1 <= t.len());
                    assert(rle_fold(t)[k] == spec_merge(f.last(), last)->0);
                    assert(rle_fold(t)[k].spec_count() == f.last().spec_count() + 1);
                }
            } else {
                if k < f.len() {
                    assert(rle_fold(t)[k] == f[k]);
                } else {
                    assert(rle_fold(t)[k] == last);
                }
            }
        }
    }
}

/// Run-length folding is lossless: unfolding the folded stream gives back
/// the original stream of count-1 opcodes, so the two forms stand for the
/// same program.
pub proof fn lemma_rle_fold_expands(t: Seq<OpCode>)
    requires
        forall|k: int| 0 <= k < t.len() ==> (#[trigger] t[k]).spec_count() == 1,
        t.len() <= usize::MAX,
    ensures
        expand(rle_fold(t)) == t,
    decreases t.len(),
{
    if t.len() > 0 {
        assert(forall|k: int|
            0 <= k < t.drop_last().len() ==> (#[trigger] t.drop_last()[k]).spec_count() == 1);
        lemma_rle_fold_expands(t.drop_last());
        lemma_rle_fold_counts(t.drop_last());
        let f = rle_fold(t.drop_last());
        let last = t.last();
        assert(rle_fold(t) == rle_push(f, last));
        if f.len() > 0 && spec_merge(f.last(), last) is Some {
            let merged = spec_merge(f.last(), last)->0;
            let shorter = f.drop_last();
            assert(expand(f) == expand(shorter) + expand_op(f.last()));
            assert(rle_push(f, last) == shorter.push(merged));
            assert((shorter.push(merged)).drop_last() =~= shorter);
            assert((shorter.push(merged)).last() == merged);
            assert(expand(shorter.push(merged)) == expand(shorter) + expand_op(merged));
            assert(f.last().spec_count() <= t.len() - 1);
            assert(merged.spec_count() == f.last().spec_count() + 1);
            assert(expand_op(merged) =~= expand_op(f.last()) + expand_op(last));
            assert(expand(rle_fold(t)) =~= t.drop_last() + expand_op(last));
            assert(expand_op(last) =~= seq![last]);
            assert(expand(rle_fold(t)) =~= t);
        } else {
            assert(rle_push(f, last) == f.push(last));
            assert((f.push(last)).drop_last() =~= f);
            assert((f.push(last)).last() == last);
            assert(expand(f.push(last)) == expand(f) + expand_op(last));
            assert(expand_op(last) =~= seq![last]);
            assert(expand(rle_fold(t)) =~= t);
        }
    }
}

} // verus!

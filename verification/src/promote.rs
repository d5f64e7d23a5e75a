//! Float temporaries: a temporary that always holds a Double keeps it unboxed.

use std::collections::HashMap;
use vstd::prelude::*;
use crate::boxes::{const_doubles, find_const_doubles, lits_ok};
use crate::ir::{
    blocks_view, code_view, BlockView, Ir, IrBlock, IrMethod, IrView, MethodView, PoolEntry,
    PoolLit, VReg, VRegInfo,
};
use crate::passes::{
    all_entries, all_named, all_reads, below, block_below, blocks_below, code_reads, compact,
    compacted, contains_reg, count_regs, countable, counts_of, lemma_block_parts_below,
    lemma_countable_prefix, lemma_occurrences_push, occurrences, take_census, write_below, Census,
};
use crate::world::VmState;

verus! {

broadcast use vstd::std_specs::hash::group_hash_axioms;

/// The operations that can run the collector or leave compiled code.
pub open spec fn safepoint_op(op: IrView) -> bool {
    match op {
        Ir::CallSend { .. } => true,
        Ir::CallRuntime { .. } => true,
        Ir::Alloc { .. } => true,
        Ir::FBox { .. } => true,
        Ir::VecArith { .. } => true,
        Ir::UncommonTrap { .. } => true,
        Ir::Poll => true,
        _ => false,
    }
}

pub(crate) fn is_safepoint_op(op: &Ir) -> (r: bool)
    ensures
        r == safepoint_op(op@),
{
    matches!(
        op,
        Ir::CallSend { .. }
            | Ir::CallRuntime { .. }
            | Ir::Alloc { .. }
            | Ir::FBox { .. }
            | Ir::VecArith { .. }
            | Ir::UncommonTrap { .. }
            | Ir::Poll
    )
}

/// Kinds of writes that promotion tells apart.
#[derive(Clone, Copy)]
pub enum DefKind {
    Copy,
    /// The mandatory initialization with `nil`.
    Nil(PoolLit),
    /// Anything else, given the `nil` literal.
    Other(PoolLit),
}

/// The register that `op` writes, if that is a write of this kind.
pub open spec fn def_of(kind: DefKind, op: IrView) -> Option<VReg> {
    match kind {
        DefKind::Copy => match op {
            Ir::Move { dst, .. } => Some(dst),
            _ => None,
        },
        DefKind::Nil(nil) => match op {
            Ir::ConstPool { dst, lit } => if lit == nil {
                Some(dst)
            } else {
                None
            },
            _ => None,
        },
        DefKind::Other(nil) => match op {
            Ir::Move { .. } => None,
            Ir::ConstPool { dst, lit } => if lit == nil {
                None
            } else {
                Some(dst)
            },
            _ => op.write(),
        },
    }
}

/// The registers written by the code, once per write of this kind.
pub open spec fn code_defs(kind: DefKind, c: Seq<IrView>) -> Seq<VReg>
    decreases c.len(),
{
    if c.len() == 0 {
        seq![]
    } else {
        match def_of(kind, c.last()) {
            Some(d) => code_defs(kind, c.drop_last()).push(d),
            None => code_defs(kind, c.drop_last()),
        }
    }
}

pub open spec fn all_defs(kind: DefKind, bs: Seq<BlockView>) -> Seq<VReg>
    decreases bs.len(),
{
    if bs.len() == 0 {
        seq![]
    } else {
        all_defs(kind, bs.drop_last()) + code_defs(kind, bs.last().code)
    }
}

/// How often `v` is written in this way.
pub open spec fn defs(kind: DefKind, bs: Seq<BlockView>, v: VReg) -> nat {
    occurrences(all_defs(kind, bs), v)
}

/// What the boxes that the first `n` operations make hold, on top of `known`.
pub open spec fn boxes_in(code: Seq<IrView>, n: int, known: Map<u32, VReg>) -> Map<u32, VReg>
    decreases n,
{
    if n <= 0 {
        known
    } else {
        let k = boxes_in(code, n - 1, known);
        match code[n - 1] {
            Ir::FBox { dst, src } => k.insert(dst.0, src),
            _ => k,
        }
    }
}

/// What the boxes of the first `k` blocks hold.
pub open spec fn box_sources(bs: Seq<BlockView>, k: int) -> Map<u32, VReg>
    decreases k,
{
    if k <= 0 {
        Map::empty()
    } else {
        boxes_in(bs[k - 1].code, bs[k - 1].code.len() as int, box_sources(bs, k - 1))
    }
}

/// A tally counts to two.
pub open spec fn tally_of(t: Seq<u8>, s: Seq<VReg>) -> bool {
    forall|v: int|
        0 <= v < t.len() ==> #[trigger] t[v] == (if occurrences(s, VReg(v as u32)) >= 2 {
            2
        } else {
            occurrences(s, VReg(v as u32)) as int
        })
}

fn def_reg(kind: DefKind, op: &Ir) -> (r: Option<VReg>)
    ensures
        r == def_of(kind, op@),
{
    match kind {
        DefKind::Copy => match op {
            Ir::Move { dst, .. } => Some(*dst),
            _ => None,
        },
        DefKind::Nil(nil) => match op {
            Ir::ConstPool { dst, lit } => if *lit == nil {
                Some(*dst)
            } else {
                None
            },
            _ => None,
        },
        DefKind::Other(nil) => match op {
            Ir::Move { .. } => None,
            Ir::ConstPool { dst, lit } => if *lit == nil {
                None
            } else {
                Some(*dst)
            },
            _ => op.defs(),
        },
    }
}

/// Tallies the writes of one kind.
pub(crate) fn tally_defs(kind: DefKind, blocks: &Vec<IrBlock>, n: usize) -> (r: Vec<u8>)
    requires
        n <= u32::MAX + 1,
        blocks_below(blocks_view(blocks@), n as nat),
    ensures
        r@.len() == n,
        tally_of(r@, all_defs(kind, blocks_view(blocks@))),
{
    let mut t: Vec<u8> = Vec::new();
    for i in 0..n
        invariant
            t@.len() == i,
            forall|j: int| 0 <= j < i ==> #[trigger] t@[j] == 0,
    {
        t.push(0);
    }
    let ghost bs = blocks_view(blocks@);
    assert(bs.take(0) =~= seq![]);
    for k in 0..blocks.len()
        invariant
            bs == blocks_view(blocks@),
            n <= u32::MAX + 1,
            blocks_below(bs, n as nat),
            t@.len() == n,
            tally_of(t@, all_defs(kind, bs.take(k as int))),
    {
        let ghost before = all_defs(kind, bs.take(k as int));
        let ghost code = bs[k as int].code;
        proof {
            assert(bs.take(k + 1).drop_last() =~= bs.take(k as int));
            assert(bs.take(k + 1).last() == blocks@[k as int]@);
            assert(block_below(bs[k as int], n as nat));
            assert(code.take(0) =~= seq![]);
            assert(before + code_defs(kind, code.take(0)) =~= before);
        }
        let len: usize = blocks[k].code.len();
        for i in 0..len
            invariant
                k < blocks@.len(),
                code == blocks@[k as int]@.code,
                len == code.len(),
                n <= u32::MAX + 1,
                t@.len() == n,
                tally_of(t@, before + code_defs(kind, code.take(i as int))),
                forall|j: int| 0 <= j < len ==> write_below(#[trigger] code[j], n as nat),
        {
            let ghost s0 = before + code_defs(kind, code.take(i as int));
            proof {
                assert(code.take(i + 1).drop_last() =~= code.take(i as int));
                assert(code.take(i + 1).last() == blocks@[k as int].code@[i as int]@);
                assert(write_below(code[i as int], n as nat));
            }
            if let Some(d) = def_reg(kind, &blocks[k].code[i]) {
                proof {
                    assert(before + code_defs(kind, code.take(i + 1)) =~= s0.push(d));
                    assert forall|v: int| 0 <= v < n implies #[trigger] occurrences(
                        s0.push(d),
                        VReg(v as u32),
                    ) == occurrences(s0, VReg(v as u32)) + (if v == d.0 {
                        1nat
                    } else {
                        0
                    }) by {
                        lemma_occurrences_push(s0, d, VReg(v as u32));
                    }
                }
                let c: u8 = t[d.0 as usize];
                if c < 2 {
                    t[d.0 as usize] = c + 1;
                }
            }
        }
        assert(code.take(len as int) =~= code);
    }
    assert(bs.take(bs.len() as int) =~= bs);
    t
}

/// What each box holds.
pub(crate) fn find_box_sources(blocks: &Vec<IrBlock>) -> (r: HashMap<u32, VReg>)
    ensures
        r@ == box_sources(blocks_view(blocks@), blocks@.len() as int),
{
    let mut known: HashMap<u32, VReg> = HashMap::new();
    let ghost bs = blocks_view(blocks@);
    for k in 0..blocks.len()
        invariant
            bs == blocks_view(blocks@),
            known@ == box_sources(bs, k as int),
    {
        let ghost before = known@;
        assert(bs[k as int] == blocks@[k as int]@);
        let len: usize = blocks[k].code.len();
        for i in 0..len
            invariant
                k < blocks@.len(),
                bs[k as int] == blocks@[k as int]@,
                len == bs[k as int].code.len(),
                known@ == boxes_in(bs[k as int].code, i as int, before),
        {
            assert(bs[k as int].code[i as int] == blocks@[k as int].code@[i as int]@);
            if let Ir::FBox { dst, src } = &blocks[k].code[i] {
                known.insert(dst.0, *src);
            }
        }
    }
    known
}

/// How often each register is read.
pub(crate) fn count_reads(blocks: &Vec<IrBlock>, n: usize) -> (r: Vec<u32>)
    requires
        n <= u32::MAX + 1,
        blocks_below(blocks_view(blocks@), n as nat),
        countable(all_reads(blocks_view(blocks@)), n as nat),
    ensures
        r@.len() == n,
        counts_of(r@, all_reads(blocks_view(blocks@))),
{
    let mut counts: Vec<u32> = Vec::new();
    for i in 0..n
        invariant
            counts@.len() == i,
            forall|j: int| 0 <= j < i ==> #[trigger] counts@[j] == 0,
    {
        counts.push(0);
    }
    let ghost bs = blocks_view(blocks@);
    assert(bs.take(0) =~= seq![]);
    for k in 0..blocks.len()
        invariant
            bs == blocks_view(blocks@),
            n <= u32::MAX + 1,
            blocks_below(bs, n as nat),
            countable(all_reads(bs), n as nat),
            counts@.len() == n,
            counts_of(counts@, all_reads(bs.take(k as int))),
    {
        let regs = blocks[k].code_refs();
        proof {
            assert(bs.take(k + 1).drop_last() =~= bs.take(k as int));
            assert(bs.take(k + 1).last() == blocks@[k as int]@);
            assert(block_below(bs[k as int], n as nat));
            lemma_block_parts_below(bs[k as int], n as nat);
            lemma_reads_countable(bs, k + 1, n as nat);
        }
        count_regs(&mut counts, &regs, Ghost(all_reads(bs.take(k as int))));
    }
    assert(bs.take(bs.len() as int) =~= bs);
    counts
}

proof fn lemma_reads_countable(bs: Seq<BlockView>, k: int, n: nat)
    requires
        0 <= k <= bs.len(),
        countable(all_reads(bs), n),
    ensures
        countable(all_reads(bs.take(k)), n),
    decreases bs.len() - k,
{
    if k == bs.len() {
        assert(bs.take(k) =~= bs);
    } else {
        lemma_reads_countable(bs, k + 1, n);
        assert(bs.take(k + 1).drop_last() =~= bs.take(k));
        lemma_countable_prefix(all_reads(bs.take(k)), code_reads(bs.take(k + 1).last().code), n);
    }
}

pub(crate) fn reads_reg(op: &Ir, v: VReg) -> (r: bool)
    ensures
        r == op@.reads().contains(v),
{
    let u = op.uses();
    contains_reg(&u, v)
}

/// How often operations from `from` to `to` read `u`.
pub open spec fn readers(code: Seq<IrView>, u: VReg, from: int, to: int) -> nat
    decreases to - from,
{
    if to <= from {
        0
    } else {
        readers(code, u, from, to - 1) + occurrences(code[to - 1].reads(), u)
    }
}

proof fn lemma_readers_grow(code: Seq<IrView>, u: VReg, from: int, a: int, b: int)
    requires
        a <= b,
    ensures
        readers(code, u, from, a) <= readers(code, u, from, b),
    decreases b - a,
{
    if a < b {
        lemma_readers_grow(code, u, from, a, b - 1);
    }
}

/// How often `v` occurs in the list.
fn count_reg(s: &Vec<VReg>, v: VReg) -> (r: usize)
    ensures
        r == occurrences(s@, v),
{
    let mut r: usize = 0;
    let n: usize = s.len();
    assert(s@.take(0) =~= seq![]);
    for k in 0..n
        invariant
            n == s@.len(),
            r == occurrences(s@.take(k as int), v),
            r <= k,
    {
        proof {
            assert(s@.take(k + 1).drop_last() =~= s@.take(k as int));
            assert(s@.take(k + 1).last() == s@[k as int]);
        }
        if s[k] == v {
            r = r + 1;
        }
    }
    assert(s@.take(n as int) =~= s@);
    r
}

/// The unboxing at `i` of `v` into `u` can go away: every read of `u` comes later in the same block,
/// none after `v` is written again, and no deoptimization site names `u`.
pub open spec fn cancellable(bs: Seq<BlockView>, code: Seq<IrView>, i: int, u: VReg, v: VReg) -> bool {
    &&& !all_named(bs).contains(u)
    &&& forall|j: int, k: int|
        #![trigger code[j], code[k]]
        i < j < k < code.len() && code[j].write() == Some(v) ==> !code[k].reads().contains(u)
    &&& readers(code, u, i + 1, code.len() as int) == occurrences(all_reads(bs), u)
}

/// `op` makes `v` of a register that is a Double by construction: a box or a literal.
pub open spec fn known_double(op: IrView, v: VReg, boxes: Map<u32, VReg>, doubles: Map<u32, u64>) -> bool {
    op matches Ir::Move { dst, src } ==> (dst == v ==> boxes.dom().contains(src.0)
        || doubles.dom().contains(src.0))
}

/// A copy that only deoptimization sees.
pub open spec fn silent_copy(bs: Seq<BlockView>, nil: PoolLit, c: VReg) -> bool {
    &&& !all_reads(bs).contains(c)
    &&& !all_entries(bs).contains(c)
    &&& defs(DefKind::Copy, bs, c) == 1
    &&& defs(DefKind::Nil(nil), bs, c) == 0
    &&& !all_defs(DefKind::Other(nil), bs).contains(c)
}

/// What `op`, at position `i` of `code`, must be for `t` to be promoted: reads of `t` unbox it or
/// copy it for deoptimization alone, and writes of `t` are Doubles.
pub open spec fn op_allows(
    bs: Seq<BlockView>,
    nil: PoolLit,
    boxes: Map<u32, VReg>,
    doubles: Map<u32, u64>,
    code: Seq<IrView>,
    i: int,
    t: VReg,
) -> bool {
    let op = code[i];
    &&& op.reads().contains(t) ==> op is FUnbox || op is Move
    &&& known_double(op, t, boxes, doubles)
    &&& op matches Ir::Move { dst, src } ==> (src == t ==> silent_copy(bs, nil, dst))
    &&& op matches Ir::FUnbox { dst, src, .. } ==> (src == t ==> cancellable(bs, code, i, dst, t))
}

/// The entry block gives `t` a value before anything can look at it.
pub open spec fn early_value(code: Seq<IrView>, t: VReg) -> bool {
    exists|k: int|
        0 <= k < code.len() && (#[trigger] code[k] matches Ir::Move { dst, .. } && dst == t)
            && forall|j: int|
            0 <= j <= k ==> !safepoint_op(#[trigger] code[j]) && !code[j].reads().contains(t)
}

/// Register `t` provably holds a Double whenever it is looked at.
pub open spec fn promotable(
    bs: Seq<BlockView>,
    vregs: Seq<VRegInfo>,
    nil: PoolLit,
    boxes: Map<u32, VReg>,
    doubles: Map<u32, u64>,
    t: VReg,
) -> bool {
    &&& 1 <= t.0 < vregs.len()
    &&& !vregs[t.0 as int].is_fp
    &&& defs(DefKind::Copy, bs, t) > 0
    &&& !all_defs(DefKind::Other(nil), bs).contains(t)
    &&& !all_entries(bs).contains(t)
    &&& defs(DefKind::Nil(nil), bs, t) <= 1
    &&& forall|b: int, i: int|
        #![trigger bs[b].code[i]]
        0 <= b < bs.len() && 0 <= i < bs[b].code.len() ==> op_allows(
            bs,
            nil,
            boxes,
            doubles,
            bs[b].code,
            i,
            t,
        )
    &&& early_value(bs[0].code, t)
}

/// `op` with reads of `from` replaced in the positions of unboxed values.
pub open spec fn reread(op: IrView, from: VReg, to: VReg) -> IrView {
    let f = |v: VReg|
        if v == from {
            to
        } else {
            v
        };
    match op {
        Ir::FArith { op, dst, a, b } => Ir::FArith { op, dst, a: f(a), b: f(b) },
        Ir::FCmpVal { op, dst, a, b } => Ir::FCmpVal { op, dst, a: f(a), b: f(b) },
        Ir::FCmpBr { op, a, b, if_true, if_false } => Ir::FCmpBr {
            op,
            a: f(a),
            b: f(b),
            if_true,
            if_false,
        },
        Ir::FBox { dst, src } => Ir::FBox { dst, src: f(src) },
        Ir::FUnbox { dst, src, fail } => Ir::FUnbox { dst, src: f(src), fail },
        Ir::Move { dst, src } => Ir::Move { dst, src: f(src) },
        _ => op,
    }
}

/// Replaces reads after position `i`.
pub open spec fn reread_after(code: Seq<IrView>, i: int, from: VReg, to: VReg) -> Seq<IrView> {
    Seq::new(
        code.len(),
        |j: int|
            if j > i {
                reread(code[j], from, to)
            } else {
                code[j]
            },
    )
}

/// Rewrites operation `i` for the promoted registers: initializations and Double values become
/// unboxed values, and unboxing goes away (its flag is then false).
pub open spec fn promote_op(
    code: Seq<IrView>,
    i: int,
    promoted: Seq<bool>,
    boxes: Map<u32, VReg>,
    doubles: Map<u32, u64>,
) -> Option<(Seq<IrView>, bool)> {
    match code[i] {
        Ir::ConstPool { dst, .. } => if promoted[dst.0 as int] {
            Some((code.update(i, Ir::FConst { dst, bits: 0 }), true))
        } else {
            Some((code, true))
        },
        Ir::Move { dst, src } => if promoted[dst.0 as int] {
            if boxes.dom().contains(src.0) {
                Some((code.update(i, Ir::Move { dst, src: boxes[src.0] }), true))
            } else if doubles.dom().contains(src.0) {
                Some((code.update(i, Ir::FConst { dst, bits: doubles[src.0] }), true))
            } else {
                None
            }
        } else {
            Some((code, true))
        },
        Ir::FUnbox { dst, src, .. } => if promoted[src.0 as int] {
            Some((reread_after(code, i, dst, src), false))
        } else {
            Some((code, true))
        },
        _ => Some((code, true)),
    }
}

/// The first `n` operations rewritten.
pub open spec fn promote_code(
    code: Seq<IrView>,
    n: int,
    promoted: Seq<bool>,
    boxes: Map<u32, VReg>,
    doubles: Map<u32, u64>,
) -> Option<(Seq<IrView>, Seq<bool>)>
    decreases n,
{
    if n <= 0 {
        Some((code, seq![]))
    } else {
        match promote_code(code, n - 1, promoted, boxes, doubles) {
            None => None,
            Some((c, keep)) => match promote_op(c, n - 1, promoted, boxes, doubles) {
                None => None,
                Some((c1, k)) => Some((c1, keep.push(k))),
            },
        }
    }
}

pub open spec fn promote_block(
    b: BlockView,
    promoted: Seq<bool>,
    boxes: Map<u32, VReg>,
    doubles: Map<u32, u64>,
) -> Option<BlockView> {
    match promote_code(b.code, b.code.len() as int, promoted, boxes, doubles) {
        None => None,
        Some((code, keep)) => compacted(BlockView { code, ..b }, keep),
    }
}

/// The flags of the promoted registers.
pub open spec fn promoted_flags(
    bs: Seq<BlockView>,
    vregs: Seq<VRegInfo>,
    nil: PoolLit,
    boxes: Map<u32, VReg>,
    doubles: Map<u32, u64>,
) -> Seq<bool> {
    Seq::new(vregs.len(), |v: int| promotable(bs, vregs, nil, boxes, doubles, VReg(v as u32)))
}

/// `v` is a copy of a promoted register.
pub open spec fn copy_of_promoted(bs: Seq<BlockView>, promoted: Seq<bool>, v: VReg) -> bool {
    exists|b: int, i: int|
        0 <= b < bs.len() && 0 <= i < bs[b].code.len() && (#[trigger] bs[b].code[i] matches Ir::Move {
            dst,
            src,
        } && dst == v && promoted[src.0 as int])
}

/// Promoted registers and their copies hold unboxed doubles.
pub open spec fn promoted_regs(
    bs: Seq<BlockView>,
    vregs: Seq<VRegInfo>,
    promoted: Seq<bool>,
) -> Seq<VRegInfo> {
    Seq::new(
        vregs.len(),
        |v: int|
            if promoted[v] || copy_of_promoted(bs, promoted, VReg(v as u32)) {
                VRegInfo { is_oop: false, is_fp: true }
            } else {
                vregs[v]
            },
    )
}

/// The method with its float temporaries unboxed.
pub open spec fn with_float_temps(vm: VmState, m: MethodView) -> Option<MethodView> {
    let bs = m.blocks;
    let n = m.vregs.len();
    if n > u32::MAX + 1 || !blocks_below(bs, n) || !lits_ok(bs, m.pool) || !countable(
        all_reads(bs),
        n,
    ) {
        None
    } else {
        let boxes = box_sources(bs, bs.len() as int);
        let doubles = const_doubles(vm, m.pool, bs, bs.len() as int);
        let promoted = promoted_flags(bs, m.vregs, m.nil_lit, boxes, doubles);
        match crate::boxes::map_blocks(
            bs,
            |b: BlockView| promote_block(b, promoted, boxes, doubles),
            bs.len() as int,
        ) {
            None => None,
            Some(blocks) => Some(
                MethodView { blocks, vregs: promoted_regs(bs, m.vregs, promoted), ..m },
            ),
        }
    }
}

/// What promotion looks at, gathered once.
pub struct Facts {
    pub boxes: HashMap<u32, VReg>,
    pub doubles: HashMap<u32, u64>,
    pub census: Census,
    pub reads: Vec<u32>,
    pub copies: Vec<u8>,
    pub nils: Vec<u8>,
    pub others: Vec<u8>,
    pub nil: PoolLit,
}

impl Facts {
    pub open spec fn of(self, vm: VmState, pool: Seq<PoolEntry>, bs: Seq<BlockView>, n: nat) -> bool {
        &&& self.boxes@ == box_sources(bs, bs.len() as int)
        &&& self.doubles@ == const_doubles(vm, pool, bs, bs.len() as int)
        &&& self.census.of(bs, n)
        &&& self.reads@.len() == n
        &&& counts_of(self.reads@, all_reads(bs))
        &&& self.copies@.len() == n
        &&& tally_of(self.copies@, all_defs(DefKind::Copy, bs))
        &&& self.nils@.len() == n
        &&& tally_of(self.nils@, all_defs(DefKind::Nil(self.nil), bs))
        &&& self.others@.len() == n
        &&& tally_of(self.others@, all_defs(DefKind::Other(self.nil), bs))
        &&& blocks_below(bs, n)
        &&& n <= u32::MAX + 1
    }

    pub(crate) fn gather(
        vm: &VmState,
        pool: &Vec<PoolEntry>,
        blocks: &Vec<IrBlock>,
        n: usize,
        nil: PoolLit,
    ) -> (r: Facts)
        requires
            n <= u32::MAX + 1,
            blocks_below(blocks_view(blocks@), n as nat),
            lits_ok(blocks_view(blocks@), pool@),
            countable(all_reads(blocks_view(blocks@)), n as nat),
        ensures
            r.of(*vm, pool@, blocks_view(blocks@), n as nat),
            r.nil == nil,
    {
        Facts {
            boxes: find_box_sources(blocks),
            doubles: find_const_doubles(vm, pool, blocks),
            census: take_census(blocks, n),
            reads: count_reads(blocks, n),
            copies: tally_defs(DefKind::Copy, blocks, n),
            nils: tally_defs(DefKind::Nil(nil), blocks, n),
            others: tally_defs(DefKind::Other(nil), blocks, n),
            nil,
        }
    }

    /// Can the unboxing at `i` of `v` into `u` go away?
    pub(crate) fn is_cancellable(
        &self,
        code: &Vec<Ir>,
        i: usize,
        u: VReg,
        v: VReg,
        Ghost(vm): Ghost<VmState>,
        Ghost(pool): Ghost<Seq<PoolEntry>>,
        Ghost(bs): Ghost<Seq<BlockView>>,
        Ghost(n): Ghost<nat>,
    ) -> (r: bool)
        requires
            self.of(vm, pool, bs, n),
            i < code@.len(),
            u.0 < n,
        ensures
            r == cancellable(bs, code_view(code@), i as int, u, v),
    {
        let ghost cv = code_view(code@);
        assert(VReg(u.0 as int as u32) == u);
        if self.census.named[u.0 as usize] {
            return false;
        }
        let total: usize = self.reads[u.0 as usize] as usize;
        let mut count: usize = 0;
        let mut rewritten = false;
        let len: usize = code.len();
        let mut k: usize = i + 1;
        while k < len
            invariant
                cv == code_view(code@),
                len == cv.len(),
                i < k <= len,
                count == readers(cv, u, i + 1, k as int),
                count <= total,
                total == occurrences(all_reads(bs), u),
                rewritten == (exists|j: int|
                    i < j < k && (#[trigger] cv[j]).write() == Some(v)),
                forall|j: int, h: int|
                    #![trigger cv[j], cv[h]]
                    i < j < h < k && cv[j].write() == Some(v) ==> !cv[h].reads().contains(u),
            decreases len - k,
        {
            assert(cv[k as int] == code@[k as int]@);
            if reads_reg(&code[k], u) {
                if rewritten {
                    proof {
                        let j = choose|j: int|
                            i < j < k && (#[trigger] cv[j]).write() == Some(v);
                        assert(cv[k as int].reads().contains(u));
                        assert(!cancellable(bs, cv, i as int, u, v));
                    }
                    return false;
                }
            }
            let uses = code[k].uses();
            let here: usize = count_reg(&uses, u);
            proof {
                lemma_readers_grow(cv, u, i + 1, k + 1, len as int);
            }
            if here > total - count {
                return false;
            }
            count = count + here;
            if let Some(d) = code[k].defs() {
                if d == v {
                    rewritten = true;
                    assert(cv[k as int].write() == Some(v));
                }
            }
            k = k + 1;
        }
        count == total
    }

    fn is_silent_copy(
        &self,
        c: VReg,
        Ghost(vm): Ghost<VmState>,
        Ghost(pool): Ghost<Seq<PoolEntry>>,
        Ghost(bs): Ghost<Seq<BlockView>>,
        Ghost(n): Ghost<nat>,
    ) -> (r: bool)
        requires
            self.of(vm, pool, bs, n),
            c.0 < n,
        ensures
            r == silent_copy(bs, self.nil, c),
    {
        let k: usize = c.0 as usize;
        proof {
            assert(VReg(k as int as u32) == c);
            crate::passes::lemma_occurrences_bound(all_defs(DefKind::Other(self.nil), bs), c);
        }
        !self.census.read[k] && !self.census.entry[k] && self.copies[k] == 1 && self.nils[k] == 0
            && self.others[k] == 0
    }

    /// Does operation `i` of `code` allow the promotion of `t`?
    fn allows(
        &self,
        code: &Vec<Ir>,
        i: usize,
        t: VReg,
        Ghost(vm): Ghost<VmState>,
        Ghost(pool): Ghost<Seq<PoolEntry>>,
        Ghost(bs): Ghost<Seq<BlockView>>,
        Ghost(n): Ghost<nat>,
    ) -> (r: bool)
        requires
            self.of(vm, pool, bs, n),
            i < code@.len(),
            write_below(code@[i as int]@, n),
        ensures
            r == op_allows(
                bs,
                self.nil,
                self.boxes@,
                self.doubles@,
                code_view(code@),
                i as int,
                t,
            ),
    {
        assert(code_view(code@)[i as int] == code@[i as int]@);
        let reads = reads_reg(&code[i], t);
        match &code[i] {
            Ir::Move { dst, src } => {
                if *dst == t && !self.boxes.contains_key(&src.0) && !self.doubles.contains_key(
                    &src.0,
                ) {
                    return false;
                }
                *src != t || self.is_silent_copy(
                    *dst,
                    Ghost(vm),
                    Ghost(pool),
                    Ghost(bs),
                    Ghost(n),
                )
            },
            Ir::FUnbox { dst, src, .. } => *src != t || self.is_cancellable(
                code,
                i,
                *dst,
                t,
                Ghost(vm),
                Ghost(pool),
                Ghost(bs),
                Ghost(n),
            ),
            _ => !reads,
        }
    }
}

/// Every register that the operation mentions is one of the first `n`.
pub open spec fn op_below(op: IrView, n: nat) -> bool {
    write_below(op, n) && below(op.reads(), n)
}

pub(crate) proof fn lemma_ops_below(b: BlockView, n: nat)
    requires
        block_below(b, n),
    ensures
        forall|i: int| 0 <= i < b.code.len() ==> op_below(#[trigger] b.code[i], n),
{
    lemma_block_parts_below(b, n);
    assert forall|i: int| 0 <= i < b.code.len() implies op_below(#[trigger] b.code[i], n) by {
        lemma_reads_in_code(b.code, i);
        let r = b.code[i].reads();
        assert forall|k: int| 0 <= k < r.len() implies (#[trigger] r[k]).0 < n by {
            assert(code_reads(b.code).contains(r[k]));
        }
        assert(write_below(b.code[i], n));
    }
}

/// What an operation reads is among what the code reads.
pub(crate) proof fn lemma_reads_in_code(code: Seq<IrView>, i: int)
    requires
        0 <= i < code.len(),
    ensures
        forall|k: int|
            0 <= k < code[i].reads().len() ==> code_reads(code).contains(
                #[trigger] code[i].reads()[k],
            ),
    decreases code.len(),
{
    let r = code[i].reads();
    let a = code_reads(code.drop_last());
    let l = code.last().reads();
    if i == code.len() - 1 {
        assert forall|k: int| 0 <= k < r.len() implies code_reads(code).contains(
            #[trigger] r[k],
        ) by {
            assert((a + l)[a.len() + k] == r[k]);
        }
    } else {
        lemma_reads_in_code(code.drop_last(), i);
        assert(code.drop_last()[i] == code[i]);
        assert forall|k: int| 0 <= k < r.len() implies code_reads(code).contains(
            #[trigger] r[k],
        ) by {
            assert(a.contains(r[k]));
            let q = choose|q: int| 0 <= q < a.len() && a[q] == r[k];
            assert((a + l)[q] == r[k]);
        }
    }
}

/// Has the entry block given `t` a value before anything can look at it?
fn has_early_value(code: &Vec<Ir>, t: VReg) -> (r: bool)
    ensures
        r == early_value(code_view(code@), t),
{
    let ghost cv = code_view(code@);
    for k in 0..code.len()
        invariant
            cv == code_view(code@),
            forall|j: int|
                0 <= j < k ==> !safepoint_op(#[trigger] cv[j]) && !cv[j].reads().contains(t),
            forall|j: int|
                0 <= j < k ==> !(#[trigger] cv[j] matches Ir::Move { dst, .. } && dst == t),
    {
        assert(cv[k as int] == code@[k as int]@);
        if is_safepoint_op(&code[k]) || reads_reg(&code[k], t) {
            return false;
        }
        if let Ir::Move { dst, .. } = &code[k] {
            if *dst == t {
                return true;
            }
        }
    }
    false
}

impl Facts {
    /// Does register `t` hold a Double whenever it is looked at?
    fn is_promotable(
        &self,
        blocks: &Vec<IrBlock>,
        vregs: &Vec<VRegInfo>,
        t: VReg,
        Ghost(vm): Ghost<VmState>,
        Ghost(pool): Ghost<Seq<PoolEntry>>,
    ) -> (r: bool)
        requires
            self.of(vm, pool, blocks_view(blocks@), vregs@.len()),
            t.0 < vregs@.len(),
        ensures
            r == promotable(
                blocks_view(blocks@),
                vregs@,
                self.nil,
                self.boxes@,
                self.doubles@,
                t,
            ),
    {
        let ghost bs = blocks_view(blocks@);
        let k: usize = t.0 as usize;
        proof {
            assert(VReg(k as int as u32) == t);
            crate::passes::lemma_occurrences_bound(all_defs(DefKind::Other(self.nil), bs), t);
        }
        if k == 0 || vregs[k].is_fp || self.copies[k] == 0 || self.others[k] != 0
            || self.census.entry[k] || self.nils[k] > 1 {
            return false;
        }
        for b in 0..blocks.len()
            invariant
                bs == blocks_view(blocks@),
                self.of(vm, pool, bs, vregs@.len()),
                forall|j: int, i: int|
                    #![trigger bs[j].code[i]]
                    0 <= j < b && 0 <= i < bs[j].code.len() ==> op_allows(
                        bs,
                        self.nil,
                        self.boxes@,
                        self.doubles@,
                        bs[j].code,
                        i,
                        t,
                    ),
        {
            assert(bs[b as int] == blocks@[b as int]@);
            assert(block_below(bs[b as int], vregs@.len()));
            let len: usize = blocks[b].code.len();
            for i in 0..len
                invariant
                    b < blocks@.len(),
                    bs == blocks_view(blocks@),
                    bs[b as int] == blocks@[b as int]@,
                    len == bs[b as int].code.len(),
                    self.of(vm, pool, bs, vregs@.len()),
                    block_below(bs[b as int], vregs@.len()),
                    forall|j: int|
                        #![trigger bs[b as int].code[j]]
                        0 <= j < i ==> op_allows(
                            bs,
                            self.nil,
                            self.boxes@,
                            self.doubles@,
                            bs[b as int].code,
                            j,
                            t,
                        ),
            {
                assert(write_below(bs[b as int].code[i as int], vregs@.len()));
                assert(bs[b as int].code[i as int] == blocks@[b as int].code@[i as int]@);
                if !self.allows(
                    &blocks[b].code,
                    i,
                    t,
                    Ghost(vm),
                    Ghost(pool),
                    Ghost(bs),
                    Ghost(vregs@.len()),
                ) {
                    return false;
                }
            }
        }
        if blocks.len() == 0 {
            proof {
                assert(bs =~= seq![]);
                assert(all_defs(DefKind::Copy, bs) =~= seq![]);
            }
            return false;
        }
        assert(bs[0] == blocks@[0]@);
        has_early_value(&blocks[0].code, t)
    }
}

/// Replaces reads of `from` in the positions of unboxed values.
pub(crate) fn rewrite_uses(op: &mut Ir, from: VReg, to: VReg)
    ensures
        final(op)@ == reread(old(op)@, from, to),
{
    match op {
        Ir::FArith { a, b, .. } => {
            if *a == from {
                *a = to;
            }
            if *b == from {
                *b = to;
            }
        },
        Ir::FCmpVal { a, b, .. } => {
            if *a == from {
                *a = to;
            }
            if *b == from {
                *b = to;
            }
        },
        Ir::FCmpBr { a, b, .. } => {
            if *a == from {
                *a = to;
            }
            if *b == from {
                *b = to;
            }
        },
        Ir::FBox { src, .. } => {
            if *src == from {
                *src = to;
            }
        },
        Ir::FUnbox { src, .. } => {
            if *src == from {
                *src = to;
            }
        },
        Ir::Move { src, .. } => {
            if *src == from {
                *src = to;
            }
        },
        _ => {},
    }
}

/// Replaces reads after position `i`.
pub(crate) fn rewrite_after(code: &mut Vec<Ir>, i: usize, from: VReg, to: VReg)
    requires
        i < old(code)@.len(),
    ensures
        code_view(final(code)@) == reread_after(code_view(old(code)@), i as int, from, to),
{
    let len: usize = code.len();
    let ghost c0 = code_view(code@);
    let mut j: usize = i + 1;
    while j < len
        invariant
            len == c0.len(),
            code@.len() == len,
            i < j <= len,
            forall|k: int|
                0 <= k < j ==> #[trigger] code_view(code@)[k] == reread_after(
                    c0,
                    i as int,
                    from,
                    to,
                )[k],
            forall|k: int| j <= k < len ==> #[trigger] code_view(code@)[k] == c0[k],
        decreases len - j,
    {
        let ghost c1 = code_view(code@);
        assert(c1[j as int] == code@[j as int]@);
        rewrite_uses(&mut code[j], from, to);
        assert(code_view(code@) =~= c1.update(j as int, reread(c0[j as int], from, to)));
        j = j + 1;
    }
    assert(code_view(code@) =~= reread_after(c0, i as int, from, to));
}

proof fn lemma_promote_code_some(
    code: Seq<IrView>,
    k: int,
    n: int,
    promoted: Seq<bool>,
    boxes: Map<u32, VReg>,
    doubles: Map<u32, u64>,
)
    requires
        0 <= k <= n,
        promote_code(code, n, promoted, boxes, doubles) is Some,
    ensures
        promote_code(code, k, promoted, boxes, doubles) is Some,
    decreases n - k,
{
    if k < n {
        lemma_promote_code_some(code, k, n - 1, promoted, boxes, doubles);
    }
}

/// Rewrites one block for the promoted registers.
fn promote_in_block(
    b: &mut IrBlock,
    promoted: &Vec<bool>,
    boxes: &HashMap<u32, VReg>,
    doubles: &HashMap<u32, u64>,
)
    requires
        block_below(old(b)@, promoted@.len()),
        promote_block(old(b)@, promoted@, boxes@, doubles@) is Some,
    ensures
        promote_block(old(b)@, promoted@, boxes@, doubles@) == Some(final(b)@),
{
    let len: usize = b.code.len();
    let mut keep: Vec<bool> = Vec::new();
    let ghost b0 = b@;
    proof {
        lemma_ops_below(b0, promoted@.len());
    }
    for i in 0..len
        invariant
            len == b0.code.len(),
            b@ == (BlockView { code: b@.code, ..b0 }),
            b@.code.len() == len,
            keep@.len() == i,
            promote_code(b0.code, len as int, promoted@, boxes@, doubles@) is Some,
            promote_code(b0.code, i as int, promoted@, boxes@, doubles@) == Some(
                (b@.code, keep@),
            ),
            forall|j: int|
                i <= j < len ==> op_below(#[trigger] b@.code[j], promoted@.len()),
    {
        let ghost c0 = b@.code;
        proof {
            lemma_promote_code_some(
                b0.code,
                i + 1,
                len as int,
                promoted@,
                boxes@,
                doubles@,
            );
            assert(c0[i as int] == b.code@[i as int]@);
            assert(op_below(c0[i as int], promoted@.len()));
            assert(c0[i as int] matches Ir::FUnbox { src, .. } ==> c0[i as int].reads()[0]
                == src);
        }
        let mut stays = true;
        let mut new_op: Option<Ir> = None;
        let mut gone: Option<(VReg, VReg)> = None;
        match &b.code[i] {
            Ir::ConstPool { dst, .. } => {
                if promoted[dst.0 as usize] {
                    new_op = Some(Ir::FConst { dst: *dst, bits: 0 });
                }
            },
            Ir::Move { dst, src } => {
                if promoted[dst.0 as usize] {
                    match boxes.get(&src.0) {
                        Some(fp) => {
                            new_op = Some(Ir::Move { dst: *dst, src: *fp });
                        },
                        None => {
                            if let Some(bits) = doubles.get(&src.0) {
                                new_op = Some(Ir::FConst { dst: *dst, bits: *bits });
                            }
                        },
                    }
                }
            },
            Ir::FUnbox { dst, src, .. } => {
                if promoted[src.0 as usize] {
                    gone = Some((*dst, *src));
                }
            },
            _ => {},
        }
        if let Some(op) = new_op {
            b.code[i] = op;
            assert(b@.code =~= c0.update(i as int, op@));
        }
        if let Some((u, t)) = gone {
            rewrite_after(&mut b.code, i, u, t);
            stays = false;
        }
        keep.push(stays);
        assert forall|j: int| i + 1 <= j < len implies op_below(
            #[trigger] b@.code[j],
            promoted@.len(),
        ) by {
            assert(op_below(c0[j], promoted@.len()));
            if let Some((u, t)) = gone {
                lemma_reread_below(c0[j], u, t, promoted@.len());
            }
        }
    }
    compact(b, &keep);
}

pub(crate) proof fn lemma_reread_below(op: IrView, from: VReg, to: VReg, n: nat)
    requires
        op_below(op, n),
        to.0 < n,
    ensures
        op_below(reread(op, from, to), n),
{
    let r = op.reads();
    let q = reread(op, from, to).reads();
    assert(q.len() == r.len());
    assert forall|k: int| 0 <= k < q.len() implies (#[trigger] q[k]).0 < n by {
        assert(r[k].0 < n);
        assert(q[k] == r[k] || q[k] == to);
    }
}

/// Unboxes the float temporaries of a method.
pub fn promote_float_temps(vm: &VmState, m: &mut IrMethod)
    requires
        with_float_temps(*vm, old(m)@) is Some,
    ensures
        with_float_temps(*vm, old(m)@) == Some(final(m)@),
{
    let n: usize = m.vregs.len();
    let nb: usize = m.blocks.len();
    let ghost bs = m@.blocks;
    let facts = Facts::gather(vm, &m.pool, &m.blocks, n, m.nil_lit);
    let ghost want = promoted_flags(bs, m@.vregs, m.nil_lit, facts.boxes@, facts.doubles@);
    let mut promoted: Vec<bool> = Vec::new();
    for v in 0..n
        invariant
            n == m.vregs@.len(),
            n <= u32::MAX + 1,
            m@ == old(m)@,
            bs == m@.blocks,
            facts.nil == m.nil_lit,
            facts.of(*vm, m.pool@, bs, n as nat),
            want == promoted_flags(bs, m@.vregs, m.nil_lit, facts.boxes@, facts.doubles@),
            promoted@.len() == v,
            forall|j: int| 0 <= j < v ==> #[trigger] promoted@[j] == want[j],
    {
        promoted.push(
            facts.is_promotable(
                &m.blocks,
                &m.vregs,
                VReg(v as u32),
                Ghost(*vm),
                Ghost(m.pool@),
            ),
        );
    }
    assert(promoted@ =~= want);
    mark_promoted(&m.blocks, &mut m.vregs, &promoted);
    let ghost f = |b: BlockView| promote_block(b, want, facts.boxes@, facts.doubles@);
    for k in 0..nb
        invariant
            nb == m.blocks@.len(),
            nb == bs.len(),
            promoted@ == want,
            want.len() == n,
            blocks_below(bs, n as nat),
            f == (|b: BlockView| promote_block(b, want, facts.boxes@, facts.doubles@)),
            crate::boxes::map_blocks(bs, f, nb as int) is Some,
            crate::boxes::map_blocks(bs, f, k as int) == Some(blocks_view(m.blocks@)),
            m@ == (MethodView {
                blocks: blocks_view(m.blocks@),
                vregs: promoted_regs(bs, old(m)@.vregs, want),
                ..old(m)@
            }),
    {
        let ghost done = blocks_view(m.blocks@);
        proof {
            crate::boxes::lemma_map_blocks(bs, f, k as int, nb as int);
            crate::boxes::lemma_map_blocks(bs, f, k + 1, nb as int);
            assert(done[k as int] == bs[k as int]);
            assert(done[k as int] == m.blocks@[k as int]@);
            assert(f(done[k as int]) is Some);
            assert(block_below(bs[k as int], n as nat));
        }
        promote_in_block(&mut m.blocks[k], &promoted, &facts.boxes, &facts.doubles);
        assert(blocks_view(m.blocks@) =~= done.update(k as int, m.blocks@[k as int]@));
    }
}

/// Marks the promoted registers and their copies as unboxed doubles.
fn mark_promoted(blocks: &Vec<IrBlock>, vregs: &mut Vec<VRegInfo>, promoted: &Vec<bool>)
    requires
        promoted@.len() == old(vregs)@.len(),
        promoted@.len() <= u32::MAX + 1,
        blocks_below(blocks_view(blocks@), promoted@.len()),
    ensures
        final(vregs)@ == promoted_regs(blocks_view(blocks@), old(vregs)@, promoted@),
{
    let ghost bs = blocks_view(blocks@);
    let n: usize = vregs.len();
    let mut marks: Vec<bool> = Vec::new();
    for v in 0..n
        invariant
            promoted@.len() == n,
            marks@.len() == v,
            forall|j: int| 0 <= j < v ==> #[trigger] marks@[j] == promoted@[j],
    {
        marks.push(promoted[v]);
    }
    for b in 0..blocks.len()
        invariant
            bs == blocks_view(blocks@),
            promoted@.len() == n,
            marks@.len() == n,
            n <= u32::MAX + 1,
            blocks_below(bs, n as nat),
            forall|j: int|
                0 <= j < n ==> #[trigger] marks@[j] == (promoted@[j] || copy_of_promoted(
                    bs.take(b as int),
                    promoted@,
                    VReg(j as u32),
                )),
    {
        let ghost code = bs[b as int].code;
        assert(bs[b as int] == blocks@[b as int]@);
        assert(block_below(bs[b as int], n as nat));
        proof {
            lemma_ops_below(bs[b as int], n as nat);
        }
        let len: usize = blocks[b].code.len();
        let ghost marks0 = marks@;
        for i in 0..len
            invariant
                b < blocks@.len(),
                code == blocks@[b as int]@.code,
                len == code.len(),
                promoted@.len() == n,
                marks@.len() == n,
                marks0.len() == n,
                n <= u32::MAX + 1,
                forall|j: int| 0 <= j < len ==> op_below(#[trigger] code[j], n as nat),
                forall|j: int|
                    0 <= j < n ==> #[trigger] marks@[j] == (marks0[j] || copied_in(
                        code,
                        i as int,
                        promoted@,
                        VReg(j as u32),
                    )),
        {
            assert(code[i as int] == blocks@[b as int].code@[i as int]@);
            assert(op_below(code[i as int], n as nat));
            let ghost m1 = marks@;
            if let Ir::Move { dst, src } = &blocks[b].code[i] {
                assert(code[i as int].reads()[0] == *src);
                if promoted[src.0 as usize] {
                    marks[dst.0 as usize] = true;
                }
            }
            assert forall|j: int| 0 <= j < n implies #[trigger] marks@[j] == (marks0[j]
                || copied_in(code, i + 1, promoted@, VReg(j as u32))) by {
                assert(m1[j] == (marks0[j] || copied_in(
                    code,
                    i as int,
                    promoted@,
                    VReg(j as u32),
                )));
                if copied_in(code, i as int, promoted@, VReg(j as u32)) {
                    let k = choose|k: int|
                        0 <= k < i && (#[trigger] code[k] matches Ir::Move { dst, src } && dst
                            == VReg(j as u32) && promoted@[src.0 as int]);
                    assert(code[k] == code[k]);
                }
                if copied_in(code, i + 1, promoted@, VReg(j as u32)) && !copied_in(
                    code,
                    i as int,
                    promoted@,
                    VReg(j as u32),
                ) {
                    let k = choose|k: int|
                        0 <= k < i + 1 && (#[trigger] code[k] matches Ir::Move { dst, src } && dst
                            == VReg(j as u32) && promoted@[src.0 as int]);
                    assert(k == i);
                }
            }
        }
        assert forall|j: int| 0 <= j < n implies #[trigger] marks@[j] == (promoted@[j]
            || copy_of_promoted(bs.take(b + 1), promoted@, VReg(j as u32))) by {
            let v = VReg(j as u32);
            assert(marks0[j] == (promoted@[j] || copy_of_promoted(
                bs.take(b as int),
                promoted@,
                v,
            )));
            if copy_of_promoted(bs.take(b as int), promoted@, v) {
                let (x, y) = choose|x: int, y: int|
                    0 <= x < b && 0 <= y < bs.take(b as int)[x].code.len() && (
                    #[trigger] bs.take(b as int)[x].code[y] matches Ir::Move { dst, src } && dst
                        == v && promoted@[src.0 as int]);
                assert(bs.take(b + 1)[x].code[y] == bs.take(b as int)[x].code[y]);
            }
            if copied_in(code, len as int, promoted@, v) {
                let y = choose|y: int|
                    0 <= y < len && (#[trigger] code[y] matches Ir::Move { dst, src } && dst == v
                        && promoted@[src.0 as int]);
                assert(bs.take(b + 1)[b as int].code[y] == code[y]);
            }
            if copy_of_promoted(bs.take(b + 1), promoted@, v) {
                let (x, y) = choose|x: int, y: int|
                    0 <= x < b + 1 && 0 <= y < bs.take(b + 1)[x].code.len() && (
                    #[trigger] bs.take(b + 1)[x].code[y] matches Ir::Move { dst, src } && dst == v
                        && promoted@[src.0 as int]);
                if x == b {
                    assert(code[y] == bs.take(b + 1)[x].code[y]);
                    assert(copied_in(code, len as int, promoted@, v));
                } else {
                    assert(bs.take(b as int)[x].code[y] == bs.take(b + 1)[x].code[y]);
                }
            }
        }
    }
    assert(bs.take(bs.len() as int) =~= bs);
    for v in 0..n
        invariant
            marks@.len() == n,
            vregs@.len() == n,
            old(vregs)@.len() == n,
            forall|j: int|
                0 <= j < n ==> #[trigger] marks@[j] == (promoted@[j] || copy_of_promoted(
                    bs,
                    promoted@,
                    VReg(j as u32),
                )),
            forall|j: int|
                0 <= j < v ==> #[trigger] vregs@[j] == promoted_regs(
                    bs,
                    old(vregs)@,
                    promoted@,
                )[j],
            forall|j: int| v <= j < n ==> #[trigger] vregs@[j] == old(vregs)@[j],
    {
        if marks[v] {
            vregs[v] = VRegInfo { is_oop: false, is_fp: true };
        }
    }
    assert(vregs@ =~= promoted_regs(bs, old(vregs)@, promoted@));
}

/// One of the first `n` operations copies a promoted register into `v`.
spec fn copied_in(code: Seq<IrView>, n: int, promoted: Seq<bool>, v: VReg) -> bool {
    exists|k: int|
        0 <= k < n && (#[trigger] code[k] matches Ir::Move { dst, src } && dst == v
            && promoted[src.0 as int])
}

} // verus!

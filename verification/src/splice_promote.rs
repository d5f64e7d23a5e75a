//! Float promotion that follows a value through the copies that splicing leaves behind: a register
//! and everything copied from it keep the Double unboxed together.

use std::collections::HashMap;
use vstd::prelude::*;
use crate::boxes::{const_doubles, lits_ok};
use crate::ir::{
    blocks_view, code_view, BlockId, BlockView, DeoptView, Ir, IrBlock, IrMethod, IrView,
    MethodView, PoolEntry, PoolLit, VReg, VRegInfo,
};
use crate::passes::{
    all_entries, all_named, all_reads, below, block_below, blocks_below, compact, compacted,
    contains_reg, countable, mark_regs, no_marks, raw_refs, write_below,
};
use crate::promote::{
    all_defs, box_sources, cancellable, code_defs, defs, def_of, is_safepoint_op, lemma_ops_below,
    lemma_reread_below, op_below, reread_after, rewrite_after, safepoint_op, DefKind, Facts,
};
use crate::reach::{lists_view, reach, reachable};
use crate::order::{successors, targets};
use crate::world::VmState;

verus! {

broadcast use vstd::std_specs::hash::group_hash_axioms;

/// What the candidates are judged by.
pub ghost struct Web {
    pub bs: Seq<BlockView>,
    pub vregs: Seq<VRegInfo>,
    pub nil: PoolLit,
    pub boxes: Map<u32, VReg>,
    pub doubles: Map<u32, u64>,
    /// The bytecode at which an on-stack-replacement compilation is entered.
    pub osr_bci: Option<u16>,
}

/// The registers that `v` is copied to by the first `n` operations, as numbers.
pub open spec fn copies_in(code: Seq<IrView>, n: int, v: VReg) -> Seq<usize>
    decreases n,
{
    if n <= 0 {
        seq![]
    } else {
        let rest = copies_in(code, n - 1, v);
        match code[n - 1] {
            Ir::Move { dst, src } => if src == v {
                rest.push(dst.0 as usize)
            } else {
                rest
            },
            _ => rest,
        }
    }
}

/// The registers that `v` is copied to in the first `k` blocks.
pub open spec fn copies_of(bs: Seq<BlockView>, k: int, v: VReg) -> Seq<usize>
    decreases k,
{
    if k <= 0 {
        seq![]
    } else {
        copies_of(bs, k - 1, v) + copies_in(bs[k - 1].code, bs[k - 1].code.len() as int, v)
    }
}

/// The copies of each register.
pub open spec fn copy_graph(bs: Seq<BlockView>, n: nat) -> Seq<Seq<usize>> {
    Seq::new(n, |v: int| copies_of(bs, bs.len() as int, VReg(v as u32)))
}

pub open spec fn all_open(n: nat) -> Seq<bool> {
    Seq::new(n, |i: int| true)
}

/// `v` is `t` or holds a copy of it, directly or through other copies.
pub open spec fn in_tree(w: Web, t: VReg, v: VReg) -> bool {
    let n = w.vregs.len();
    reachable(copy_graph(w.bs, n), all_open(n), seq![t.0 as usize], v.0 as int)
}

/// What the copies made by the first `n` operations were made of, on top of `known`.
pub open spec fn sources_in(code: Seq<IrView>, n: int, known: Map<u32, VReg>) -> Map<u32, VReg>
    decreases n,
{
    if n <= 0 {
        known
    } else {
        let k = sources_in(code, n - 1, known);
        match code[n - 1] {
            Ir::Move { dst, src } => k.insert(dst.0, src),
            _ => k,
        }
    }
}

pub open spec fn copy_sources(bs: Seq<BlockView>, k: int) -> Map<u32, VReg>
    decreases k,
{
    if k <= 0 {
        Map::empty()
    } else {
        sources_in(bs[k - 1].code, bs[k - 1].code.len() as int, copy_sources(bs, k - 1))
    }
}

/// `v` is written by one copy and nothing else.
pub open spec fn only_copied(w: Web, v: VReg) -> bool {
    &&& defs(DefKind::Copy, w.bs, v) == 1
    &&& defs(DefKind::Nil(w.nil), w.bs, v) == 0
    &&& !all_defs(DefKind::Other(w.nil), w.bs).contains(v)
}

/// Where a value comes from.
pub enum Root {
    /// A box of this register.
    Fp(VReg),
    /// A literal.
    Bits(u64),
}

/// Follows plain copies, at most `fuel` of them, back to a box or a literal.
pub open spec fn chase(w: Web, v: VReg, fuel: nat) -> Option<Root>
    decreases fuel,
{
    if fuel == 0 {
        None
    } else if w.boxes.dom().contains(v.0) {
        Some(Root::Fp(w.boxes[v.0]))
    } else if w.doubles.dom().contains(v.0) {
        Some(Root::Bits(w.doubles[v.0]))
    } else if only_copied(w, v) {
        chase(w, copy_sources(w.bs, w.bs.len() as int)[v.0], (fuel - 1) as nat)
    } else {
        None
    }
}

/// The copies that the chase passes.
pub open spec fn hops(w: Web, v: VReg, fuel: nat) -> Seq<VReg>
    decreases fuel,
{
    if fuel == 0 || w.boxes.dom().contains(v.0) || w.doubles.dom().contains(v.0) || !only_copied(
        w,
        v,
    ) {
        seq![]
    } else {
        seq![v] + hops(w, copy_sources(w.bs, w.bs.len() as int)[v.0], (fuel - 1) as nat)
    }
}

/// The initialization of `v` with `nil` stands in the entry block: `v` is a temporary of the method
/// itself, visible at every safepoint.
pub open spec fn root_temp(w: Web, v: VReg) -> bool {
    w.bs.len() > 0 && code_defs(DefKind::Nil(w.nil), w.bs[0].code).contains(v)
}

/// Operation `op` copies into `t`.
pub open spec fn copies_into(op: IrView, t: VReg) -> bool {
    op matches Ir::Move { dst, .. } && dst == t
}

/// Something looks at the tree of `t` at position `o` of block `b`: an operation reads it, a
/// deoptimization site names it, or a safepoint shows a temporary of the method.
pub open spec fn observed(w: Web, t: VReg, b: BlockView, o: int) -> bool {
    ||| 0 <= o < b.code.len() && ((exists|k: int|
        0 <= k < b.code[o].reads().len() && in_tree(w, t, #[trigger] b.code[o].reads()[k])) || (
    defs(DefKind::Nil(w.nil), w.bs, t) == 1 && root_temp(w, t) && safepoint_op(b.code[o])))
    ||| exists|s: int, k: int|
        0 <= s < b.deopt_sites.len() && b.deopt_sites[s].0 == o && 0 <= k < raw_refs(
            b.deopt_sites[s].1,
        ).len() && in_tree(w, t, #[trigger] raw_refs(b.deopt_sites[s].1)[k])
}

/// The block looks at the tree of `t` before it gives `t` a value.
pub open spec fn observes_early(w: Web, t: VReg, b: BlockView) -> bool {
    exists|o: int|
        0 <= o && #[trigger] observed(w, t, b, o) && forall|i: int|
            0 <= i < o && i < b.code.len() ==> !copies_into(#[trigger] b.code[i], t)
}

/// The block never gives `t` a value.
pub open spec fn leaves_unset(b: BlockView, t: VReg) -> bool {
    forall|i: int| 0 <= i < b.code.len() ==> !copies_into(#[trigger] b.code[i], t)
}

/// The index of the last block named `id` among the first `k`, or the number of blocks.
pub open spec fn last_block(bs: Seq<BlockView>, id: BlockId, k: int) -> usize
    decreases k,
{
    if k <= 0 {
        bs.len() as usize
    } else if bs[k - 1].id == id {
        (k - 1) as usize
    } else {
        last_block(bs, id, k - 1)
    }
}

/// Where control goes, by block index.
pub open spec fn flow_graph(bs: Seq<BlockView>) -> Seq<Seq<usize>> {
    Seq::new(
        bs.len(),
        |b: int|
            targets(bs[b].code).map_values(|id: BlockId| last_block(bs, id, bs.len() as int)),
    )
}

/// The index of the first block from `from` on that starts at `bci`, or the number of blocks.
pub open spec fn block_at(bs: Seq<BlockView>, bci: u16, from: int) -> usize
    decreases bs.len() - from,
{
    if from < 0 || from >= bs.len() {
        bs.len() as usize
    } else if bs[from].bci == bci {
        from as usize
    } else {
        block_at(bs, bci, from + 1)
    }
}

/// Where control enters the method.
pub open spec fn entries(w: Web) -> Seq<usize> {
    match w.osr_bci {
        Some(bci) => seq![0usize, block_at(w.bs, bci, 0)],
        None => seq![0usize],
    }
}

/// Control can reach block `b` while `t` has no value yet.
pub open spec fn reached_unset(w: Web, t: VReg, b: int) -> bool {
    reachable(
        flow_graph(w.bs),
        Seq::new(w.bs.len(), |i: int| leaves_unset(w.bs[i], t)),
        entries(w),
        b,
    )
}

/// What an operation must be for the tree of `t` to be promoted: reads of the tree unbox it, copy
/// it or return it, and `t` is given values of the tree or Doubles.
pub open spec fn tree_allows(w: Web, t: VReg, code: Seq<IrView>, i: int) -> bool {
    let op = code[i];
    &&& (exists|k: int| 0 <= k < op.reads().len() && in_tree(w, t, #[trigger] op.reads()[k]))
        ==> op is FUnbox || op is Move || op is Ret
    &&& op matches Ir::FUnbox { dst, src, .. } ==> (in_tree(w, t, src) ==> cancellable(
        w.bs,
        code,
        i,
        dst,
        src,
    ))
    &&& op matches Ir::Move { dst, src } ==> (dst == t && !in_tree(w, t, src) ==> chase(
        w,
        src,
        16,
    ) is Some)
}

/// A register that can belong to a tree besides its root.
pub open spec fn tree_member(w: Web, claimed: Seq<bool>, v: VReg) -> bool {
    &&& only_copied(w, v)
    &&& !all_entries(w.bs).contains(v)
    &&& !claimed[v.0 as int]
    &&& !w.vregs[v.0 as int].is_fp
}

/// A register that can be the root of a tree.
pub open spec fn tree_root(w: Web, claimed: Seq<bool>, t: VReg) -> bool {
    &&& 1 <= t.0 < w.vregs.len()
    &&& !(w.osr_bci is Some && root_temp(w, t))
    &&& !w.vregs[t.0 as int].is_fp
    &&& !claimed[t.0 as int]
    &&& defs(DefKind::Copy, w.bs, t) > 0
    &&& !all_defs(DefKind::Other(w.nil), w.bs).contains(t)
    &&& !all_entries(w.bs).contains(t)
    &&& defs(DefKind::Nil(w.nil), w.bs, t) <= 1
}

/// The tree of `t` holds a Double wherever it is looked at. `claimed` tells the members of trees
/// that were promoted before.
pub open spec fn tree_promotable(w: Web, claimed: Seq<bool>, t: VReg) -> bool {
    &&& tree_root(w, claimed, t)
    &&& forall|v: int|
        0 <= v < w.vregs.len() && #[trigger] in_tree(w, t, VReg(v as u32)) && v != t.0 ==> tree_member(
            w,
            claimed,
            VReg(v as u32),
        )
    &&& forall|b: int, i: int|
        #![trigger w.bs[b].code[i]]
        0 <= b < w.bs.len() && 0 <= i < w.bs[b].code.len() ==> tree_allows(w, t, w.bs[b].code, i)
    &&& forall|b: int|
        #![trigger w.bs[b]]
        0 <= b < w.bs.len() && reached_unset(w, t, b) ==> !observes_early(w, t, w.bs[b])
}

/// The roots of promoted trees among registers `0..k`, and the members of their trees.
pub open spec fn promoted_trees(w: Web, k: int) -> (Seq<VReg>, Seq<bool>)
    decreases k,
{
    if k <= 0 {
        (seq![], Seq::new(w.vregs.len(), |v: int| false))
    } else {
        let (roots, claimed) = promoted_trees(w, k - 1);
        let t = VReg((k - 1) as u32);
        if tree_promotable(w, claimed, t) {
            (
                roots.push(t),
                Seq::new(
                    w.vregs.len(),
                    |v: int| claimed[v] || in_tree(w, t, VReg(v as u32)),
                ),
            )
        } else {
            (roots, claimed)
        }
    }
}

/// What becomes of a write of a root from outside its tree.
pub open spec fn planned(w: Web, roots: Seq<VReg>, op: IrView) -> Option<IrView> {
    match (op, outside_source(w, roots, op)) {
        (Ir::Move { dst, .. }, Some(src)) => match chase(w, src, 16) {
            Some(Root::Fp(fp)) => Some(Ir::Move { dst, src: fp }),
            Some(Root::Bits(bits)) => Some(Ir::FConst { dst, bits }),
            None => None,
        },
        _ => None,
    }
}

/// Rewrites operation `i`; `orig` is the operation as it was before any rewriting.
pub open spec fn retarget_op(
    w: Web,
    roots: Seq<VReg>,
    promoted: Seq<bool>,
    orig: IrView,
    code: Seq<IrView>,
    i: int,
) -> Option<(Seq<IrView>, bool)> {
    match planned(w, roots, orig) {
        Some(op) => Some((code.update(i, op), true)),
        None => match code[i] {
            Ir::ConstPool { dst, .. } => if promoted[dst.0 as int] {
                Some((code.update(i, Ir::FConst { dst, bits: 0 }), true))
            } else {
                Some((code, true))
            },
            Ir::Move { dst, src } => if promoted[dst.0 as int] && !promoted[src.0 as int] {
                None
            } else {
                Some((code, true))
            },
            Ir::FUnbox { dst, src, .. } => if promoted[src.0 as int] {
                Some((reread_after(code, i, dst, src), false))
            } else {
                Some((code, true))
            },
            _ => Some((code, true)),
        },
    }
}

pub open spec fn retarget_code(
    w: Web,
    roots: Seq<VReg>,
    promoted: Seq<bool>,
    orig: Seq<IrView>,
    n: int,
) -> Option<(Seq<IrView>, Seq<bool>)>
    decreases n,
{
    if n <= 0 {
        Some((orig, seq![]))
    } else {
        match retarget_code(w, roots, promoted, orig, n - 1) {
            None => None,
            Some((c, keep)) => match retarget_op(w, roots, promoted, orig[n - 1], c, n - 1) {
                None => None,
                Some((c1, k)) => Some((c1, keep.push(k))),
            },
        }
    }
}

pub open spec fn retarget_block(
    w: Web,
    roots: Seq<VReg>,
    promoted: Seq<bool>,
    b: BlockView,
) -> Option<BlockView> {
    match retarget_code(w, roots, promoted, b.code, b.code.len() as int) {
        None => None,
        Some((code, keep)) => compacted(BlockView { code, ..b }, keep),
    }
}

/// The source of a write of a root from outside its tree.
pub open spec fn outside_source(w: Web, roots: Seq<VReg>, op: IrView) -> Option<VReg> {
    match op {
        Ir::Move { dst, src } => if roots.contains(dst) && !in_tree(w, dst, src) {
            Some(src)
        } else {
            None
        },
        _ => None,
    }
}

/// The copies that the chases from the first `n` operations passed.
pub open spec fn hops_in(w: Web, roots: Seq<VReg>, code: Seq<IrView>, n: int) -> Seq<VReg>
    decreases n,
{
    if n <= 0 {
        seq![]
    } else {
        hops_in(w, roots, code, n - 1) + (match outside_source(w, roots, code[n - 1]) {
            Some(src) => hops(w, src, 16),
            None => seq![],
        })
    }
}

/// The copies that the chases from the first `k` blocks passed.
pub open spec fn all_hops(w: Web, roots: Seq<VReg>, k: int) -> Seq<VReg>
    decreases k,
{
    if k <= 0 {
        seq![]
    } else {
        all_hops(w, roots, k - 1) + hops_in(
            w,
            roots,
            w.bs[k - 1].code,
            w.bs[k - 1].code.len() as int,
        )
    }
}

pub open spec fn hop_flags(w: Web, roots: Seq<VReg>) -> Seq<bool> {
    Seq::new(
        w.vregs.len(),
        |v: int| all_hops(w, roots, w.bs.len() as int).contains(VReg(v as u32)),
    )
}

/// The hops that nothing refers to any more.
pub open spec fn dead_hops(w: Web, bs: Seq<BlockView>, left: Seq<bool>) -> Seq<bool> {
    Seq::new(
        left.len(),
        |v: int|
            left[v] && !all_reads(bs).contains(VReg(v as u32)) && !all_named(w.bs).contains(
                VReg(v as u32),
            ) && !all_entries(w.bs).contains(VReg(v as u32)),
    )
}

pub open spec fn without_copies_to(dead: Seq<bool>, b: BlockView) -> Option<BlockView> {
    compacted(
        b,
        Seq::new(
            b.code.len(),
            |i: int|
                match b.code[i] {
                    Ir::Move { dst, .. } => !dead[dst.0 as int],
                    _ => true,
                },
        ),
    )
}

/// Removes dead hops round by round, each removal possibly freeing the hop before it; `fuel` bounds
/// the rounds.
pub open spec fn swept(w: Web, bs: Seq<BlockView>, left: Seq<bool>, fuel: nat) -> Option<
    Seq<BlockView>,
>
    decreases fuel,
{
    let dead = dead_hops(w, bs, left);
    if fuel == 0 || !left.contains(true) {
        Some(bs)
    } else if !blocks_below(bs, left.len()) {
        None
    } else if !dead.contains(true) {
        Some(bs)
    } else {
        match crate::boxes::map_blocks(
            bs,
            |b: BlockView| without_copies_to(dead, b),
            bs.len() as int,
        ) {
            None => None,
            Some(bs1) => swept(
                w,
                bs1,
                Seq::new(left.len(), |v: int| left[v] && !dead[v]),
                (fuel - 1) as nat,
            ),
        }
    }
}

/// A promoted value that the method answers is boxed once, at the return: the first `k` blocks.
pub open spec fn reboxed(
    promoted: Seq<bool>,
    bs: Seq<BlockView>,
    vregs: Seq<VRegInfo>,
    k: int,
) -> (Seq<BlockView>, Seq<VRegInfo>)
    decreases k,
{
    if k <= 0 {
        (bs, vregs)
    } else {
        let (done, regs) = reboxed(promoted, bs, vregs, k - 1);
        let b = done[k - 1];
        if b.code.len() == 0 {
            (done, regs)
        } else {
            match b.code.last() {
                Ir::Ret { val } => if promoted[val.0 as int] {
                    let d = VReg(regs.len() as u32);
                    (
                        done.update(
                            k - 1,
                            BlockView {
                                code: b.code.drop_last().push(Ir::FBox { dst: d, src: val }).push(
                                    Ir::Ret { val: d },
                                ),
                                ..b
                            },
                        ),
                        regs.push(VRegInfo { is_oop: true, is_fp: false }),
                    )
                } else {
                    (done, regs)
                },
                _ => (done, regs),
            }
        }
    }
}

pub open spec fn web_of(vm: VmState, m: MethodView, osr_bci: Option<u16>) -> Web {
    Web {
        bs: m.blocks,
        vregs: m.vregs,
        nil: m.nil_lit,
        boxes: box_sources(m.blocks, m.blocks.len() as int),
        doubles: const_doubles(vm, m.pool, m.blocks, m.blocks.len() as int),
        osr_bci,
    }
}

/// The method with the trees of its float values unboxed.
pub open spec fn with_float_trees(vm: VmState, m: MethodView, osr_bci: Option<u16>) -> Option<
    MethodView,
> {
    let w = web_of(vm, m, osr_bci);
    let n = m.vregs.len();
    if n > u32::MAX + 1 || !blocks_below(m.blocks, n) || !lits_ok(m.blocks, m.pool) || !countable(
        all_reads(m.blocks),
        n,
    ) {
        None
    } else {
        let (roots, promoted) = promoted_trees(w, n as int);
        match crate::boxes::map_blocks(
            m.blocks,
            |b: BlockView| retarget_block(w, roots, promoted, b),
            m.blocks.len() as int,
        ) {
            None => None,
            Some(bs1) => match swept(w, bs1, hop_flags(w, roots), n) {
                None => None,
                Some(bs2) => if !blocks_below(bs2, n) {
                    None
                } else {
                    let (bs3, vregs) = reboxed(
                        promoted,
                        bs2,
                        Seq::new(
                            n,
                            |v: int|
                                if promoted[v] {
                                    VRegInfo { is_oop: false, is_fp: true }
                                } else {
                                    m.vregs[v]
                                },
                        ),
                        bs2.len() as int,
                    );
                    Some(MethodView { blocks: bs3, vregs, ..m })
                },
            },
        }
    }
}

/// The copies of each register.
fn build_copy_graph(blocks: &Vec<IrBlock>, n: usize) -> (r: Vec<Vec<usize>>)
    requires
        n <= u32::MAX + 1,
        blocks_below(blocks_view(blocks@), n as nat),
    ensures
        lists_view(r@) == copy_graph(blocks_view(blocks@), n as nat),
{
    let ghost bs = blocks_view(blocks@);
    let mut r: Vec<Vec<usize>> = Vec::new();
    for v in 0..n
        invariant
            r@.len() == v,
            forall|j: int| 0 <= j < v ==> (#[trigger] r@[j])@.len() == 0,
    {
        r.push(Vec::new());
    }
    assert forall|v: int| 0 <= v < n implies (#[trigger] r@[v])@ == copies_of(
        bs,
        0,
        VReg(v as u32),
    ) by {
        assert(r@[v]@ =~= seq![]);
    }
    for b in 0..blocks.len()
        invariant
            bs == blocks_view(blocks@),
            n <= u32::MAX + 1,
            blocks_below(bs, n as nat),
            r@.len() == n,
            forall|v: int|
                0 <= v < n ==> (#[trigger] r@[v])@ == copies_of(bs, b as int, VReg(v as u32)),
    {
        let ghost r0 = r@;
        let ghost code = bs[b as int].code;
        assert(bs[b as int] == blocks@[b as int]@);
        assert(block_below(bs[b as int], n as nat));
        proof {
            lemma_ops_below(bs[b as int], n as nat);
            assert forall|v: int| 0 <= v < n implies (#[trigger] r@[v])@ == r0[v]@ + copies_in(
                code,
                0,
                VReg(v as u32),
            ) by {
                assert(r@[v]@ =~= r0[v]@ + copies_in(code, 0, VReg(v as u32)));
            }
        }
        let len: usize = blocks[b].code.len();
        for i in 0..len
            invariant
                b < blocks@.len(),
                code == blocks@[b as int]@.code,
                len == code.len(),
                n <= u32::MAX + 1,
                r@.len() == n,
                r0.len() == n,
                forall|j: int| 0 <= j < len ==> op_below(#[trigger] code[j], n as nat),
                forall|v: int|
                    0 <= v < n ==> (#[trigger] r@[v])@ == r0[v]@ + copies_in(
                        code,
                        i as int,
                        VReg(v as u32),
                    ),
        {
            assert(code[i as int] == blocks@[b as int].code@[i as int]@);
            assert(op_below(code[i as int], n as nat));
            let ghost r1 = r@;
            if let Ir::Move { dst, src } = &blocks[b].code[i] {
                assert(code[i as int].reads()[0] == *src);
                r[src.0 as usize].push(dst.0 as usize);
            }
            assert forall|v: int| 0 <= v < n implies (#[trigger] r@[v])@ == r0[v]@ + copies_in(
                code,
                i + 1,
                VReg(v as u32),
            ) by {
                assert(r1[v]@ == r0[v]@ + copies_in(code, i as int, VReg(v as u32)));
                assert(r@[v]@ =~= r0[v]@ + copies_in(code, i + 1, VReg(v as u32)));
            }
        }
    }
    assert(lists_view(r@) =~= copy_graph(bs, n as nat));
    r
}

/// What each copy was made of.
fn find_copy_sources(blocks: &Vec<IrBlock>) -> (r: HashMap<u32, VReg>)
    ensures
        r@ == copy_sources(blocks_view(blocks@), blocks@.len() as int),
{
    let mut known: HashMap<u32, VReg> = HashMap::new();
    let ghost bs = blocks_view(blocks@);
    for k in 0..blocks.len()
        invariant
            bs == blocks_view(blocks@),
            known@ == copy_sources(bs, k as int),
    {
        let ghost before = known@;
        assert(bs[k as int] == blocks@[k as int]@);
        let len: usize = blocks[k].code.len();
        for i in 0..len
            invariant
                k < blocks@.len(),
                bs[k as int] == blocks@[k as int]@,
                len == bs[k as int].code.len(),
                known@ == sources_in(bs[k as int].code, i as int, before),
        {
            assert(bs[k as int].code[i as int] == blocks@[k as int].code@[i as int]@);
            if let Ir::Move { dst, src } = &blocks[k].code[i] {
                known.insert(dst.0, *src);
            }
        }
    }
    known
}

fn find_last_block(blocks: &Vec<IrBlock>, id: BlockId) -> (r: usize)
    ensures
        r == last_block(blocks_view(blocks@), id, blocks@.len() as int),
{
    let ghost bs = blocks_view(blocks@);
    let n: usize = blocks.len();
    let mut k: usize = n;
    while k > 0
        invariant
            bs == blocks_view(blocks@),
            n == bs.len(),
            k <= n,
            last_block(bs, id, n as int) == last_block(bs, id, k as int),
        decreases k,
    {
        assert(bs[k - 1] == blocks@[k - 1]@);
        if blocks[k - 1].id == id {
            return k - 1;
        }
        k = k - 1;
    }
    n
}

/// Where control goes, by block index.
fn build_flow_graph(blocks: &Vec<IrBlock>) -> (r: Vec<Vec<usize>>)
    ensures
        lists_view(r@) == flow_graph(blocks_view(blocks@)),
{
    let ghost bs = blocks_view(blocks@);
    let mut r: Vec<Vec<usize>> = Vec::new();
    for b in 0..blocks.len()
        invariant
            bs == blocks_view(blocks@),
            r@.len() == b,
            forall|j: int| 0 <= j < b ==> (#[trigger] r@[j])@ == flow_graph(bs)[j],
    {
        assert(bs[b as int] == blocks@[b as int]@);
        let succs = successors(&blocks[b]);
        let mut l: Vec<usize> = Vec::new();
        for k in 0..succs.len()
            invariant
                bs == blocks_view(blocks@),
                l@.len() == k,
                forall|j: int|
                    0 <= j < k ==> #[trigger] l@[j] == last_block(bs, succs@[j], bs.len() as int),
        {
            l.push(find_last_block(blocks, succs[k]));
        }
        assert(l@ =~= flow_graph(bs)[b as int]);
        r.push(l);
    }
    assert(lists_view(r@) =~= flow_graph(bs));
    r
}

/// What the candidates are judged by, gathered once.
struct Weave {
    facts: Facts,
    copies: Vec<Vec<usize>>,
    sources: HashMap<u32, VReg>,
    flow: Vec<Vec<usize>>,
    root_temps: Vec<bool>,
    open: Vec<bool>,
    entries: Vec<usize>,
    osr_bci: Option<u16>,
}

impl Weave {
    spec fn of(self, vm: VmState, pool: Seq<PoolEntry>, w: Web) -> bool {
        let n = w.vregs.len();
        &&& self.facts.of(vm, pool, w.bs, n)
        &&& self.facts.nil == w.nil
        &&& self.facts.boxes@ == w.boxes
        &&& self.facts.doubles@ == w.doubles
        &&& lists_view(self.copies@) == copy_graph(w.bs, n)
        &&& self.sources@ == copy_sources(w.bs, w.bs.len() as int)
        &&& lists_view(self.flow@) == flow_graph(w.bs)
        &&& self.root_temps@.len() == n
        &&& forall|v: int|
            0 <= v < n ==> #[trigger] self.root_temps@[v] == root_temp(w, VReg(v as u32))
        &&& self.open@ == all_open(n)
        &&& self.entries@ == entries(w)
        &&& self.osr_bci == w.osr_bci
    }

    /// Is `v` written by one copy and nothing else?
    fn is_only_copied(
        &self,
        v: VReg,
        Ghost(vm): Ghost<VmState>,
        Ghost(pool): Ghost<Seq<PoolEntry>>,
        Ghost(w): Ghost<Web>,
    ) -> (r: bool)
        requires
            self.of(vm, pool, w),
            v.0 < w.vregs.len(),
        ensures
            r == only_copied(w, v),
    {
        let k: usize = v.0 as usize;
        proof {
            assert(VReg(k as int as u32) == v);
            crate::passes::lemma_occurrences_bound(all_defs(DefKind::Other(w.nil), w.bs), v);
        }
        self.facts.copies[k] == 1 && self.facts.nils[k] == 0 && self.facts.others[k] == 0
    }

    /// Follows plain copies back to a box or a literal; collects the copies passed.
    fn chase_root(
        &self,
        start: VReg,
        passed: &mut Vec<VReg>,
        Ghost(vm): Ghost<VmState>,
        Ghost(pool): Ghost<Seq<PoolEntry>>,
        Ghost(w): Ghost<Web>,
    ) -> (r: Option<Root>)
        requires
            self.of(vm, pool, w),
            start.0 < w.vregs.len(),
            below(old(passed)@, w.vregs.len()),
        ensures
            below(final(passed)@, w.vregs.len()),
            r == chase(w, start, 16),
            final(passed)@ == old(passed)@ + hops(w, start, 16),
    {
        let mut v: VReg = start;
        let mut fuel: u32 = 16;
        while fuel > 0
            invariant
                fuel <= 16,
                self.of(vm, pool, w),
                v.0 < w.vregs.len(),
                below(passed@, w.vregs.len()),
                chase(w, start, 16) == chase(w, v, fuel as nat),
                old(passed)@ + hops(w, start, 16) == passed@ + hops(w, v, fuel as nat),
            decreases fuel,
        {
            if let Some(fp) = self.facts.boxes.get(&v.0) {
                assert(passed@ + hops(w, v, fuel as nat) =~= passed@);
                return Some(Root::Fp(*fp));
            }
            if let Some(bits) = self.facts.doubles.get(&v.0) {
                assert(passed@ + hops(w, v, fuel as nat) =~= passed@);
                return Some(Root::Bits(*bits));
            }
            if !self.is_only_copied(v, Ghost(vm), Ghost(pool), Ghost(w)) {
                assert(passed@ + hops(w, v, fuel as nat) =~= passed@);
                return None;
            }
            proof {
                lemma_only_copied_source(w, v);
            }
            let next: VReg = match self.sources.get(&v.0) {
                Some(x) => *x,
                None => v,
            };
            let ghost p0 = passed@;
            passed.push(v);
            assert(p0 + hops(w, v, fuel as nat) =~= passed@ + hops(w, next, (fuel - 1) as nat));
            v = next;
            fuel = fuel - 1;
        }
        assert(passed@ + hops(w, v, 0) =~= passed@);
        None
    }
}

/// A copied register has a source, which is in range.
proof fn lemma_only_copied_source(w: Web, v: VReg)
    requires
        blocks_below(w.bs, w.vregs.len()),
        defs(DefKind::Copy, w.bs, v) == 1,
    ensures
        copy_sources(w.bs, w.bs.len() as int).dom().contains(v.0),
        copy_sources(w.bs, w.bs.len() as int)[v.0].0 < w.vregs.len(),
{
    crate::passes::lemma_occurrences_bound(all_defs(DefKind::Copy, w.bs), v);
    lemma_sources(w.bs, w.bs.len() as int, w.vregs.len(), v);
    assert(w.bs.take(w.bs.len() as int) =~= w.bs);
}

proof fn lemma_sources(bs: Seq<BlockView>, k: int, n: nat, v: VReg)
    requires
        0 <= k <= bs.len(),
        blocks_below(bs, n),
    ensures
        all_defs(DefKind::Copy, bs.take(k)).contains(v) ==> copy_sources(bs, k).dom().contains(v.0),
        copy_sources(bs, k).dom().contains(v.0) ==> copy_sources(bs, k)[v.0].0 < n,
    decreases k,
{
    if k > 0 {
        lemma_sources(bs, k - 1, n, v);
        assert(bs.take(k).drop_last() =~= bs.take(k - 1));
        assert(block_below(bs[k - 1], n));
        lemma_ops_below(bs[k - 1], n);
        let code = bs[k - 1].code;
        lemma_sources_in(code, code.len() as int, copy_sources(bs, k - 1), n, v);
        assert(code.take(code.len() as int) =~= code);
        crate::passes::lemma_contains_concat(
            all_defs(DefKind::Copy, bs.take(k - 1)),
            code_defs(DefKind::Copy, code),
            v,
        );
    } else {
        assert(bs.take(0) =~= seq![]);
    }
}

proof fn lemma_sources_in(code: Seq<IrView>, i: int, known: Map<u32, VReg>, n: nat, v: VReg)
    requires
        0 <= i <= code.len(),
        forall|j: int| 0 <= j < code.len() ==> op_below(#[trigger] code[j], n),
        known.dom().contains(v.0) ==> known[v.0].0 < n,
    ensures
        known.dom().contains(v.0) || code_defs(DefKind::Copy, code.take(i)).contains(v)
            ==> sources_in(code, i, known).dom().contains(v.0),
        sources_in(code, i, known).dom().contains(v.0) ==> sources_in(code, i, known)[v.0].0 < n,
    decreases i,
{
    if i > 0 {
        lemma_sources_in(code, i - 1, known, n, v);
        assert(code.take(i).drop_last() =~= code.take(i - 1));
        assert(code.take(i).last() == code[i - 1]);
        assert(op_below(code[i - 1], n));
        assert(code[i - 1] matches Ir::Move { src, .. } ==> code[i - 1].reads()[0] == src);
        let a = code_defs(DefKind::Copy, code.take(i - 1));
        if code_defs(DefKind::Copy, code.take(i)).contains(v) && !a.contains(v) {
            let d = def_of(DefKind::Copy, code[i - 1])->0;
            let k = choose|k: int| 0 <= k < a.push(d).len() && a.push(d)[k] == v;
            assert(k == a.len());
        }
    } else {
        assert(code.take(0) =~= seq![]);
    }
}

/// `tree[v]` tells whether register `v` belongs to the tree of `t`.
spec fn tree_flags(w: Web, t: VReg, tree: Seq<bool>) -> bool {
    &&& tree.len() == w.vregs.len()
    &&& forall|v: int| 0 <= v < tree.len() ==> #[trigger] tree[v] == in_tree(w, t, VReg(v as u32))
}

/// Is one of `regs` in the tree?
fn any_in_tree(tree: &Vec<bool>, regs: &Vec<VReg>, Ghost(w): Ghost<Web>, Ghost(t): Ghost<VReg>) -> (r:
    bool)
    requires
        tree_flags(w, t, tree@),
        w.vregs.len() <= u32::MAX + 1,
        below(regs@, w.vregs.len()),
    ensures
        r == (exists|k: int| 0 <= k < regs@.len() && in_tree(w, t, #[trigger] regs@[k])),
{
    for k in 0..regs.len()
        invariant
            tree_flags(w, t, tree@),
            w.vregs.len() <= u32::MAX + 1,
            below(regs@, w.vregs.len()),
            forall|j: int| 0 <= j < k ==> !in_tree(w, t, #[trigger] regs@[j]),
    {
        let v = regs[k];
        assert(VReg(v.0 as int as u32) == v);
        if tree[v.0 as usize] {
            assert(in_tree(w, t, regs@[k as int]));
            return true;
        }
    }
    false
}

impl Weave {
    fn gather(
        vm: &VmState,
        pool: &Vec<PoolEntry>,
        blocks: &Vec<IrBlock>,
        n: usize,
        nil: PoolLit,
        osr_bci: Option<u16>,
        Ghost(w): Ghost<Web>,
    ) -> (r: Weave)
        requires
            n <= u32::MAX + 1,
            blocks_below(blocks_view(blocks@), n as nat),
            lits_ok(blocks_view(blocks@), pool@),
            countable(all_reads(blocks_view(blocks@)), n as nat),
            w.bs == blocks_view(blocks@),
            w.vregs.len() == n,
            w.nil == nil,
            w.boxes == box_sources(w.bs, w.bs.len() as int),
            w.doubles == const_doubles(*vm, pool@, w.bs, w.bs.len() as int),
            w.osr_bci == osr_bci,
        ensures
            r.of(*vm, pool@, w),
    {
        let facts = Facts::gather(vm, pool, blocks, n, nil);
        let copies = build_copy_graph(blocks, n);
        let sources = find_copy_sources(blocks);
        let flow = build_flow_graph(blocks);
        let mut root_temps = no_marks(n);
        if blocks.len() > 0 {
            let regs = nil_defs(&blocks[0], nil);
            proof {
                assert(w.bs[0] == blocks@[0]@);
                assert(block_below(w.bs[0], n as nat));
                lemma_code_defs_below(DefKind::Nil(nil), w.bs[0].code, n as nat);
                assert(seq![] + regs@ =~= regs@);
            }
            mark_regs(&mut root_temps, &regs, Ghost(Seq::empty()));
        }
        let mut open: Vec<bool> = Vec::new();
        for i in 0..n
            invariant
                open@.len() == i,
                forall|j: int| 0 <= j < i ==> #[trigger] open@[j],
        {
            open.push(true);
        }
        assert(open@ =~= all_open(n as nat));
        let mut entries: Vec<usize> = Vec::new();
        entries.push(0);
        if let Some(bci) = osr_bci {
            entries.push(find_block_at(blocks, bci));
        }
        assert(entries@ =~= self::entries(w));
        Weave { facts, copies, sources, flow, root_temps, open, entries, osr_bci }
    }

    /// The members of the tree of `t`.
    fn tree_of(
        &self,
        t: VReg,
        Ghost(vm): Ghost<VmState>,
        Ghost(pool): Ghost<Seq<PoolEntry>>,
        Ghost(w): Ghost<Web>,
    ) -> (r: Vec<bool>)
        requires
            self.of(vm, pool, w),
        ensures
            tree_flags(w, t, r@),
    {
        let mut starts: Vec<usize> = Vec::new();
        starts.push(t.0 as usize);
        assert(starts@ =~= seq![t.0 as usize]);
        assert(self.copies@.len() == lists_view(self.copies@).len());
        let r = reach(&self.copies, &self.open, &starts);
        assert forall|v: int| 0 <= v < r@.len() implies #[trigger] r@[v] == in_tree(
            w,
            t,
            VReg(v as u32),
        ) by {
            assert(VReg(v as u32).0 as int == v);
        }
        r
    }

    /// Does the block look at the tree before it gives `t` a value?
    fn block_observes_early(
        &self,
        tree: &Vec<bool>,
        t: VReg,
        b: &IrBlock,
        Ghost(vm): Ghost<VmState>,
        Ghost(pool): Ghost<Seq<PoolEntry>>,
        Ghost(w): Ghost<Web>,
    ) -> (r: bool)
        requires
            self.of(vm, pool, w),
            t.0 < w.vregs.len(),
            tree_flags(w, t, tree@),
            block_below(b@, w.vregs.len()),
        ensures
            r == observes_early(w, t, b@),
    {
        let k: usize = t.0 as usize;
        assert(VReg(k as int as u32) == t);
        let temp: bool = self.facts.nils[k] == 1 && self.root_temps[k];
        assert(temp == (defs(DefKind::Nil(w.nil), w.bs, t) == 1 && root_temp(w, t)));
        let len: usize = b.code.len();
        let mut first: Option<usize> = None;
        let mut i: usize = 0;
        proof {
            lemma_ops_below(b@, w.vregs.len());
        }
        while i < len && first.is_none()
            invariant
                self.of(vm, pool, w),
                tree_flags(w, t, tree@),
                len == b@.code.len(),
                i <= len,
                temp == (defs(DefKind::Nil(w.nil), w.bs, t) == 1 && root_temp(w, t)),
                forall|j: int| 0 <= j < len ==> op_below(#[trigger] b@.code[j], w.vregs.len()),
                first is None ==> forall|j: int|
                    0 <= j < i ==> !copies_into(#[trigger] b@.code[j], t),
                first is Some ==> first->0 == i - 1 && i > 0 && copies_into(b@.code[i - 1], t)
                    && forall|j: int| 0 <= j < i - 1 ==> !copies_into(#[trigger] b@.code[j], t),
                forall|j: int| 0 <= j < i ==> !op_observed(w, t, #[trigger] b@.code[j]),
            decreases len - i,
        {
            assert(b@.code[i as int] == b.code@[i as int]@);
            assert(op_below(b@.code[i as int], w.vregs.len()));
            let regs = b.code[i].uses();
            if any_in_tree(tree, &regs, Ghost(w), Ghost(t)) || (temp && is_safepoint_op(
                &b.code[i],
            )) {
                assert(op_observed(w, t, b@.code[i as int]));
                assert(observed(w, t, b@, i as int));
                return true;
            }
            if let Ir::Move { dst, .. } = &b.code[i] {
                if *dst == t {
                    first = Some(i);
                }
            }
            i = i + 1;
        }
        proof {
            crate::passes::lemma_block_parts_below(b@, w.vregs.len());
        }
        for s in 0..b.deopt_sites.len()
            invariant
                self.of(vm, pool, w),
                tree_flags(w, t, tree@),
                len == b@.code.len(),
                below(crate::passes::sites_refs(b@.deopt_sites), w.vregs.len()),
                first is None ==> forall|j: int|
                    0 <= j < len ==> !copies_into(#[trigger] b@.code[j], t),
                first is Some ==> first->0 < len && copies_into(b@.code[first->0 as int], t)
                    && forall|j: int|
                    0 <= j < first->0 ==> !copies_into(#[trigger] b@.code[j], t),
                forall|q: int|
                    0 <= q < s && site_in_tree(w, t, (#[trigger] b@.deopt_sites[q]).1)
                        ==> first is Some && first->0 < b@.deopt_sites[q].0,
        {
            assert(b@.deopt_sites[s as int] == crate::ir::site_view(b.deopt_sites@[s as int]));
            let refs = b.deopt_sites[s].1.refs();
            proof {
                lemma_site_refs_below(b@.deopt_sites, s as int, w.vregs.len());
            }
            if any_in_tree(tree, &refs, Ghost(w), Ghost(t)) {
                assert(site_in_tree(w, t, b@.deopt_sites[s as int].1));
                let ci: usize = b.deopt_sites[s].0 as usize;
                let early = match first {
                    None => true,
                    Some(d) => ci <= d,
                };
                if early {
                    assert(observed(w, t, b@, ci as int));
                    return true;
                }
            }
        }
        proof {
            if observes_early(w, t, b@) {
                let o = choose|o: int|
                    0 <= o && #[trigger] observed(w, t, b@, o) && forall|i: int|
                        0 <= i < o && i < b@.code.len() ==> !copies_into(
                            #[trigger] b@.code[i],
                            t,
                        );
                if 0 <= o < len && op_observed(w, t, b@.code[o]) {
                    if first is Some {
                        assert(copies_into(b@.code[first->0 as int], t));
                    }
                    assert(false);
                } else {
                    let (s, k) = choose|s: int, k: int|
                        0 <= s < b@.deopt_sites.len() && b@.deopt_sites[s].0 == o && 0 <= k
                            < raw_refs(b@.deopt_sites[s].1).len() && in_tree(
                            w,
                            t,
                            #[trigger] raw_refs(b@.deopt_sites[s].1)[k],
                        );
                    assert(site_in_tree(w, t, b@.deopt_sites[s].1));
                    assert(copies_into(b@.code[first->0 as int], t));
                    assert(false);
                }
            }
        }
        false
    }
}

spec fn op_observed(w: Web, t: VReg, op: IrView) -> bool {
    (exists|k: int| 0 <= k < op.reads().len() && in_tree(w, t, #[trigger] op.reads()[k])) || (defs(
        DefKind::Nil(w.nil),
        w.bs,
        t,
    ) == 1 && root_temp(w, t) && safepoint_op(op))
}

spec fn site_in_tree(w: Web, t: VReg, raw: DeoptView) -> bool {
    exists|k: int| 0 <= k < raw_refs(raw).len() && in_tree(w, t, #[trigger] raw_refs(raw)[k])
}

proof fn lemma_site_refs_below(sites: Seq<(u32, DeoptView)>, s: int, n: nat)
    requires
        0 <= s < sites.len(),
        below(crate::passes::sites_refs(sites), n),
    ensures
        below(raw_refs(sites[s].1), n),
    decreases sites.len(),
{
    let a = crate::passes::sites_refs(sites.drop_last());
    let l = raw_refs(sites.last().1);
    let all = crate::passes::sites_refs(sites);
    assert(all == a + l);
    if s == sites.len() - 1 {
        assert forall|k: int| 0 <= k < l.len() implies (#[trigger] l[k]).0 < n by {
            assert(all[a.len() + k] == l[k]);
        }
    } else {
        assert forall|k: int| 0 <= k < a.len() implies (#[trigger] a[k]).0 < n by {
            assert(all[k] == a[k]);
        }
        lemma_site_refs_below(sites.drop_last(), s, n);
    }
}

proof fn lemma_code_defs_below(kind: DefKind, c: Seq<IrView>, n: nat)
    requires
        forall|i: int| 0 <= i < c.len() ==> write_below(#[trigger] c[i], n),
    ensures
        below(code_defs(kind, c), n),
    decreases c.len(),
{
    if c.len() > 0 {
        assert forall|i: int| 0 <= i < c.len() - 1 implies write_below(
            #[trigger] c.drop_last()[i],
            n,
        ) by {
            assert(write_below(c[i], n));
        }
        lemma_code_defs_below(kind, c.drop_last(), n);
        assert(write_below(c[c.len() - 1], n));
    }
}

/// The registers that a block sets to `nil`.
fn nil_defs(b: &IrBlock, nil: PoolLit) -> (r: Vec<VReg>)
    ensures
        r@ == code_defs(DefKind::Nil(nil), b@.code),
{
    let mut r: Vec<VReg> = Vec::new();
    assert(b@.code.take(0) =~= seq![]);
    for i in 0..b.code.len()
        invariant
            r@ == code_defs(DefKind::Nil(nil), b@.code.take(i as int)),
    {
        assert(b@.code.take(i + 1).drop_last() =~= b@.code.take(i as int));
        assert(b@.code.take(i + 1).last() == b.code@[i as int]@);
        if let Ir::ConstPool { dst, lit } = &b.code[i] {
            if *lit == nil {
                r.push(*dst);
            }
        }
    }
    assert(b@.code.take(b@.code.len() as int) =~= b@.code);
    r
}

fn find_block_at(blocks: &Vec<IrBlock>, bci: u16) -> (r: usize)
    ensures
        r == block_at(blocks_view(blocks@), bci, 0),
{
    let ghost bs = blocks_view(blocks@);
    for k in 0..blocks.len()
        invariant
            bs == blocks_view(blocks@),
            block_at(bs, bci, 0) == block_at(bs, bci, k as int),
    {
        assert(bs[k as int] == blocks@[k as int]@);
        if blocks[k].bci == bci as usize {
            return k;
        }
    }
    blocks.len()
}

impl Weave {
    /// Can `v` belong to a tree besides its root?
    fn is_tree_member(
        &self,
        vregs: &Vec<VRegInfo>,
        claimed: &Vec<bool>,
        v: VReg,
        Ghost(vm): Ghost<VmState>,
        Ghost(pool): Ghost<Seq<PoolEntry>>,
        Ghost(w): Ghost<Web>,
    ) -> (r: bool)
        requires
            self.of(vm, pool, w),
            v.0 < w.vregs.len(),
            vregs@ == w.vregs,
            claimed@.len() == w.vregs.len(),
        ensures
            r == tree_member(w, claimed@, v),
    {
        let k: usize = v.0 as usize;
        assert(VReg(k as int as u32) == v);
        self.is_only_copied(v, Ghost(vm), Ghost(pool), Ghost(w)) && !self.facts.census.entry[k]
            && !claimed[k] && !vregs[k].is_fp
    }

    /// Can `t` be the root of a tree?
    fn is_tree_root(
        &self,
        vregs: &Vec<VRegInfo>,
        claimed: &Vec<bool>,
        t: VReg,
        Ghost(vm): Ghost<VmState>,
        Ghost(pool): Ghost<Seq<PoolEntry>>,
        Ghost(w): Ghost<Web>,
    ) -> (r: bool)
        requires
            self.of(vm, pool, w),
            t.0 < w.vregs.len(),
            vregs@ == w.vregs,
            claimed@.len() == w.vregs.len(),
        ensures
            r == tree_root(w, claimed@, t),
    {
        let k: usize = t.0 as usize;
        proof {
            assert(VReg(k as int as u32) == t);
            crate::passes::lemma_occurrences_bound(all_defs(DefKind::Other(w.nil), w.bs), t);
        }
        k >= 1 && !(self.osr_bci.is_some() && self.root_temps[k]) && !vregs[k].is_fp && !claimed[k]
            && self.facts.copies[k] > 0 && self.facts.others[k] == 0 && !self.facts.census.entry[k]
            && self.facts.nils[k] <= 1
    }

    /// Does operation `i` allow the promotion of the tree of `t`?
    fn op_allows_tree(
        &self,
        tree: &Vec<bool>,
        t: VReg,
        code: &Vec<Ir>,
        i: usize,
        Ghost(vm): Ghost<VmState>,
        Ghost(pool): Ghost<Seq<PoolEntry>>,
        Ghost(w): Ghost<Web>,
    ) -> (r: bool)
        requires
            self.of(vm, pool, w),
            tree_flags(w, t, tree@),
            i < code@.len(),
            op_below(code@[i as int]@, w.vregs.len()),
        ensures
            r == tree_allows(w, t, code_view(code@), i as int),
    {
        let ghost cv = code_view(code@);
        let ghost op = cv[i as int];
        assert(op == code@[i as int]@);
        let regs = code[i].uses();
        let reads = any_in_tree(tree, &regs, Ghost(w), Ghost(t));
        match &code[i] {
            Ir::FUnbox { dst, src, .. } => {
                assert(op.reads()[0] == *src);
                assert(VReg(src.0 as int as u32) == *src);
                !tree[src.0 as usize] || self.facts.is_cancellable(
                    code,
                    i,
                    *dst,
                    *src,
                    Ghost(vm),
                    Ghost(pool),
                    Ghost(w.bs),
                    Ghost(w.vregs.len()),
                )
            },
            Ir::Move { dst, src } => {
                assert(op.reads()[0] == *src);
                assert(VReg(src.0 as int as u32) == *src);
                if *dst == t && !tree[src.0 as usize] {
                    let mut passed: Vec<VReg> = Vec::new();
                    self.chase_root(
                        *src,
                        &mut passed,
                        Ghost(vm),
                        Ghost(pool),
                        Ghost(w),
                    ).is_some()
                } else {
                    true
                }
            },
            Ir::Ret { .. } => true,
            _ => !reads,
        }
    }

    /// Does the tree of `t` hold a Double wherever it is looked at? If so, its members.
    fn promotable_tree(
        &self,
        blocks: &Vec<IrBlock>,
        vregs: &Vec<VRegInfo>,
        claimed: &Vec<bool>,
        t: VReg,
        Ghost(vm): Ghost<VmState>,
        Ghost(pool): Ghost<Seq<PoolEntry>>,
        Ghost(w): Ghost<Web>,
    ) -> (r: Option<Vec<bool>>)
        requires
            self.of(vm, pool, w),
            t.0 < w.vregs.len(),
            w.bs == blocks_view(blocks@),
            vregs@ == w.vregs,
            claimed@.len() == w.vregs.len(),
        ensures
            r is Some == tree_promotable(w, claimed@, t),
            r is Some ==> tree_flags(w, t, r->0@),
    {
        if !self.is_tree_root(vregs, claimed, t, Ghost(vm), Ghost(pool), Ghost(w)) {
            return None;
        }
        let n: usize = vregs.len();
        let tree = self.tree_of(t, Ghost(vm), Ghost(pool), Ghost(w));
        for v in 0..n
            invariant
                self.of(vm, pool, w),
                n == w.vregs.len(),
                vregs@ == w.vregs,
                claimed@.len() == n,
                tree_flags(w, t, tree@),
                forall|j: int|
                    0 <= j < v && #[trigger] in_tree(w, t, VReg(j as u32)) && j != t.0 ==> tree_member(
                        w,
                        claimed@,
                        VReg(j as u32),
                    ),
        {
            assert(tree@[v as int] == in_tree(w, t, VReg(v as int as u32)));
            assert(VReg(v as u32) == VReg(v as int as u32));
            if tree[v] && v != t.0 as usize {
                if !self.is_tree_member(
                    vregs,
                    claimed,
                    VReg(v as u32),
                    Ghost(vm),
                    Ghost(pool),
                    Ghost(w),
                ) {
                    assert(!tree_member(w, claimed@, VReg(v as int as u32)));
                    return None;
                }
            }
        }
        let nb: usize = blocks.len();
        let mut unset: Vec<bool> = Vec::new();
        for b in 0..nb
            invariant
                self.of(vm, pool, w),
                nb == blocks@.len(),
                w.bs == blocks_view(blocks@),
                tree_flags(w, t, tree@),
                unset@.len() == b,
                forall|j: int| 0 <= j < b ==> #[trigger] unset@[j] == leaves_unset(w.bs[j], t),
                forall|j: int, i: int|
                    #![trigger w.bs[j].code[i]]
                    0 <= j < b && 0 <= i < w.bs[j].code.len() ==> tree_allows(
                        w,
                        t,
                        w.bs[j].code,
                        i,
                    ),
        {
            assert(w.bs[b as int] == blocks@[b as int]@);
            assert(block_below(w.bs[b as int], w.vregs.len()));
            proof {
                lemma_ops_below(w.bs[b as int], w.vregs.len());
            }
            let len: usize = blocks[b].code.len();
            let mut u = true;
            for i in 0..len
                invariant
                    b < blocks@.len(),
                    self.of(vm, pool, w),
                    w.bs == blocks_view(blocks@),
                    w.bs[b as int] == blocks@[b as int]@,
                    len == w.bs[b as int].code.len(),
                    tree_flags(w, t, tree@),
                    forall|j: int|
                        0 <= j < len ==> op_below(
                            #[trigger] w.bs[b as int].code[j],
                            w.vregs.len(),
                        ),
                    u == (forall|j: int|
                        0 <= j < i ==> !copies_into(#[trigger] w.bs[b as int].code[j], t)),
                    forall|j: int|
                        #![trigger w.bs[b as int].code[j]]
                        0 <= j < i ==> tree_allows(w, t, w.bs[b as int].code, j),
            {
                assert(w.bs[b as int].code[i as int] == blocks@[b as int].code@[i as int]@);
                assert(op_below(w.bs[b as int].code[i as int], w.vregs.len()));
                if !self.op_allows_tree(
                    &tree,
                    t,
                    &blocks[b].code,
                    i,
                    Ghost(vm),
                    Ghost(pool),
                    Ghost(w),
                ) {
                    return None;
                }
                if let Ir::Move { dst, .. } = &blocks[b].code[i] {
                    if *dst == t {
                        u = false;
                        assert(copies_into(w.bs[b as int].code[i as int], t));
                    }
                }
            }
            unset.push(u);
        }
        assert(unset@ =~= Seq::new(w.bs.len(), |i: int| leaves_unset(w.bs[i], t)));
        assert(self.flow@.len() == lists_view(self.flow@).len());
        let reached = reach(&self.flow, &unset, &self.entries);
        for b in 0..nb
            invariant
                self.of(vm, pool, w),
                t.0 < w.vregs.len(),
                nb == blocks@.len(),
                w.bs == blocks_view(blocks@),
                tree_flags(w, t, tree@),
                reached@.len() == nb,
                forall|j: int| 0 <= j < nb ==> #[trigger] reached@[j] == reached_unset(w, t, j),
                forall|j: int|
                    #![trigger w.bs[j]]
                    0 <= j < b && reached_unset(w, t, j) ==> !observes_early(w, t, w.bs[j]),
        {
            assert(w.bs[b as int] == blocks@[b as int]@);
            assert(block_below(w.bs[b as int], w.vregs.len()));
            if reached[b] && self.block_observes_early(
                &tree,
                t,
                &blocks[b],
                Ghost(vm),
                Ghost(pool),
                Ghost(w),
            ) {
                return None;
            }
        }
        Some(tree)
    }

    /// The roots of the promoted trees and the members of the trees.
    fn find_trees(
        &self,
        blocks: &Vec<IrBlock>,
        vregs: &Vec<VRegInfo>,
        Ghost(vm): Ghost<VmState>,
        Ghost(pool): Ghost<Seq<PoolEntry>>,
        Ghost(w): Ghost<Web>,
    ) -> (r: (Vec<VReg>, Vec<bool>))
        requires
            self.of(vm, pool, w),
            w.bs == blocks_view(blocks@),
            vregs@ == w.vregs,
        ensures
            promoted_trees(w, w.vregs.len() as int) == (r.0@, r.1@),
            below(r.0@, w.vregs.len()),
            r.1@.len() == w.vregs.len(),
    {
        let n: usize = vregs.len();
        let mut roots: Vec<VReg> = Vec::new();
        let mut claimed = no_marks(n);
        assert(claimed@ =~= Seq::new(w.vregs.len(), |v: int| false));
        for v in 0..n
            invariant
                self.of(vm, pool, w),
                w.bs == blocks_view(blocks@),
                vregs@ == w.vregs,
                n == w.vregs.len(),
                claimed@.len() == n,
                promoted_trees(w, v as int) == (roots@, claimed@),
                below(roots@, w.vregs.len()),
        {
            let t = VReg(v as u32);
            match self.promotable_tree(
                blocks,
                vregs,
                &claimed,
                t,
                Ghost(vm),
                Ghost(pool),
                Ghost(w),
            ) {
                Some(tree) => {
                    let ghost c0 = claimed@;
                    roots.push(t);
                    for k in 0..n
                        invariant
                            n == w.vregs.len(),
                            claimed@.len() == n,
                            c0.len() == n,
                            tree_flags(w, t, tree@),
                            forall|j: int|
                                0 <= j < k ==> #[trigger] claimed@[j] == (c0[j] || in_tree(
                                    w,
                                    t,
                                    VReg(j as u32),
                                )),
                            forall|j: int| k <= j < n ==> #[trigger] claimed@[j] == c0[j],
                    {
                        if tree[k] {
                            claimed[k] = true;
                        }
                    }
                    assert(claimed@ =~= Seq::new(
                        w.vregs.len(),
                        |v: int| c0[v] || in_tree(w, t, VReg(v as u32)),
                    ));
                },
                None => {},
            }
        }
        (roots, claimed)
    }
}

impl Weave {
    /// The source of a write of a root from outside its tree.
    fn find_outside_source(
        &self,
        roots: &Vec<VReg>,
        op: &Ir,
        Ghost(vm): Ghost<VmState>,
        Ghost(pool): Ghost<Seq<PoolEntry>>,
        Ghost(w): Ghost<Web>,
    ) -> (r: Option<VReg>)
        requires
            self.of(vm, pool, w),
            op_below(op@, w.vregs.len()),
        ensures
            r == outside_source(w, roots@, op@),
            r is Some ==> (r->0).0 < w.vregs.len(),
    {
        if let Ir::Move { dst, src } = op {
            if contains_reg(roots, *dst) {
                let tree = self.tree_of(*dst, Ghost(vm), Ghost(pool), Ghost(w));
                assert(op@.reads()[0] == *src);
                assert(VReg(src.0 as int as u32) == *src);
                if !tree[src.0 as usize] {
                    return Some(*src);
                }
            }
        }
        None
    }

    /// The copies that the chases from the roots passed.
    fn find_hops(
        &self,
        blocks: &Vec<IrBlock>,
        roots: &Vec<VReg>,
        Ghost(vm): Ghost<VmState>,
        Ghost(pool): Ghost<Seq<PoolEntry>>,
        Ghost(w): Ghost<Web>,
        n: usize,
    ) -> (r: Vec<bool>)
        requires
            self.of(vm, pool, w),
            w.bs == blocks_view(blocks@),
            n == w.vregs.len(),
        ensures
            r@ == hop_flags(w, roots@),
    {
        let mut passed: Vec<VReg> = Vec::new();
        for b in 0..blocks.len()
            invariant
                self.of(vm, pool, w),
                w.bs == blocks_view(blocks@),
                below(passed@, w.vregs.len()),
                passed@ == all_hops(w, roots@, b as int),
        {
            let ghost p0 = passed@;
            let ghost code = w.bs[b as int].code;
            assert(w.bs[b as int] == blocks@[b as int]@);
            assert(block_below(w.bs[b as int], w.vregs.len()));
            proof {
                lemma_ops_below(w.bs[b as int], w.vregs.len());
                assert(passed@ =~= p0 + hops_in(w, roots@, code, 0));
            }
            let len: usize = blocks[b].code.len();
            for i in 0..len
                invariant
                    b < blocks@.len(),
                    self.of(vm, pool, w),
                    code == blocks@[b as int]@.code,
                    len == code.len(),
                    forall|j: int| 0 <= j < len ==> op_below(#[trigger] code[j], w.vregs.len()),
                    below(passed@, w.vregs.len()),
                    passed@ == p0 + hops_in(w, roots@, code, i as int),
            {
                assert(code[i as int] == blocks@[b as int].code@[i as int]@);
                assert(op_below(code[i as int], w.vregs.len()));
                let ghost p1 = passed@;
                match self.find_outside_source(
                    roots,
                    &blocks[b].code[i],
                    Ghost(vm),
                    Ghost(pool),
                    Ghost(w),
                ) {
                    Some(src) => {
                        let _ = self.chase_root(
                            src,
                            &mut passed,
                            Ghost(vm),
                            Ghost(pool),
                            Ghost(w),
                        );
                        assert(passed@ =~= p0 + hops_in(w, roots@, code, i + 1));
                    },
                    None => {
                        assert(passed@ =~= p0 + hops_in(w, roots@, code, i + 1));
                    },
                }
            }
        }
        let mut flags = no_marks(n);
        mark_regs(&mut flags, &passed, Ghost(Seq::empty()));
        assert(Seq::empty() + passed@ =~= passed@);
        assert(flags@ =~= hop_flags(w, roots@));
        flags
    }

    /// What becomes of the operations of a block that write a root from outside its tree.
    fn plan_block(
        &self,
        roots: &Vec<VReg>,
        b: &IrBlock,
        Ghost(vm): Ghost<VmState>,
        Ghost(pool): Ghost<Seq<PoolEntry>>,
        Ghost(w): Ghost<Web>,
    ) -> (r: Vec<Option<Ir>>)
        requires
            self.of(vm, pool, w),
            block_below(b@, w.vregs.len()),
        ensures
            r@.len() == b@.code.len(),
            forall|i: int|
                0 <= i < r@.len() ==> op_option(#[trigger] r@[i]) == planned(
                    w,
                    roots@,
                    b@.code[i],
                ),
    {
        proof {
            lemma_ops_below(b@, w.vregs.len());
        }
        let mut plan: Vec<Option<Ir>> = Vec::new();
        for i in 0..b.code.len()
            invariant
                self.of(vm, pool, w),
                forall|j: int|
                    0 <= j < b@.code.len() ==> op_below(#[trigger] b@.code[j], w.vregs.len()),
                plan@.len() == i,
                forall|j: int|
                    0 <= j < i ==> op_option(#[trigger] plan@[j]) == planned(
                        w,
                        roots@,
                        b@.code[j],
                    ),
        {
            assert(b@.code[i as int] == b.code@[i as int]@);
            assert(op_below(b@.code[i as int], w.vregs.len()));
            let mut step: Option<Ir> = None;
            if let Ir::Move { dst, .. } = &b.code[i] {
                if let Some(src) = self.find_outside_source(
                    roots,
                    &b.code[i],
                    Ghost(vm),
                    Ghost(pool),
                    Ghost(w),
                ) {
                    let mut passed: Vec<VReg> = Vec::new();
                    match self.chase_root(src, &mut passed, Ghost(vm), Ghost(pool), Ghost(w)) {
                        Some(Root::Fp(fp)) => {
                            step = Some(Ir::Move { dst: *dst, src: fp });
                        },
                        Some(Root::Bits(bits)) => {
                            step = Some(Ir::FConst { dst: *dst, bits });
                        },
                        None => {},
                    }
                }
            }
            plan.push(step);
        }
        plan
    }
}

pub open spec fn op_option(op: Option<Ir>) -> Option<IrView> {
    match op {
        Some(x) => Some(x@),
        None => None,
    }
}

proof fn lemma_retarget_some(
    w: Web,
    roots: Seq<VReg>,
    promoted: Seq<bool>,
    orig: Seq<IrView>,
    k: int,
    n: int,
)
    requires
        0 <= k <= n,
        retarget_code(w, roots, promoted, orig, n) is Some,
    ensures
        retarget_code(w, roots, promoted, orig, k) is Some,
    decreases n - k,
{
    if k < n {
        lemma_retarget_some(w, roots, promoted, orig, k, n - 1);
    }
}

/// Rewrites one block for the promoted trees.
fn retarget_in_block(
    b: &mut IrBlock,
    plan: Vec<Option<Ir>>,
    promoted: &Vec<bool>,
    Ghost(w): Ghost<Web>,
    Ghost(roots): Ghost<Seq<VReg>>,
)
    requires
        block_below(old(b)@, promoted@.len()),
        plan@.len() == old(b)@.code.len(),
        forall|i: int|
            0 <= i < plan@.len() ==> op_option(#[trigger] plan@[i]) == planned(
                w,
                roots,
                old(b)@.code[i],
            ),
        retarget_block(w, roots, promoted@, old(b)@) is Some,
    ensures
        retarget_block(w, roots, promoted@, old(b)@) == Some(final(b)@),
{
    let len: usize = b.code.len();
    let mut keep: Vec<bool> = Vec::new();
    let ghost b0 = b@;
    proof {
        lemma_ops_below(b0, promoted@.len());
    }
    let mut i: usize = 0;
    for step in it: plan.into_iter()
        invariant
            it.seq() == plan@,
            plan@.len() == len,
            i == it.index(),
            len == b0.code.len(),
            b@ == (BlockView { code: b@.code, ..b0 }),
            b@.code.len() == len,
            keep@.len() == i,
            forall|j: int|
                0 <= j < plan@.len() ==> op_option(#[trigger] plan@[j]) == planned(
                    w,
                    roots,
                    b0.code[j],
                ),
            retarget_code(w, roots, promoted@, b0.code, len as int) is Some,
            retarget_code(w, roots, promoted@, b0.code, i as int) == Some((b@.code, keep@)),
            forall|j: int| i <= j < len ==> op_below(#[trigger] b@.code[j], promoted@.len()),
    {
        let ghost c0 = b@.code;
        proof {
            lemma_retarget_some(w, roots, promoted@, b0.code, i + 1, len as int);
            assert(c0[i as int] == b.code@[i as int]@);
            assert(op_below(c0[i as int], promoted@.len()));
            assert(op_option(plan@[i as int]) == planned(w, roots, b0.code[i as int]));
            assert(c0[i as int] matches Ir::FUnbox { src, .. } ==> c0[i as int].reads()[0]
                == src);
            assert(c0[i as int] matches Ir::Move { src, .. } ==> c0[i as int].reads()[0] == src);
        }
        let mut stays = true;
        let mut gone: Option<(VReg, VReg)> = None;
        match step {
            Some(op) => {
                b.code[i] = op;
                assert(b@.code =~= c0.update(i as int, op@));
            },
            None => {
                let mut new_op: Option<Ir> = None;
                match &b.code[i] {
                    Ir::ConstPool { dst, .. } => {
                        if promoted[dst.0 as usize] {
                            new_op = Some(Ir::FConst { dst: *dst, bits: 0 });
                        }
                    },
                    Ir::FUnbox { dst, src, .. } => {
                        if promoted[src.0 as usize] {
                            gone = Some((*dst, *src));
                        }
                    },
                    _ => {},
                }
                if let Some(op) = new_op {
                    b.code[i] = op;
                    assert(b@.code =~= c0.update(i as int, op@));
                }
                if let Some((u, t)) = gone {
                    rewrite_after(&mut b.code, i, u, t);
                    stays = false;
                }
            },
        }
        keep.push(stays);
        assert forall|j: int| i + 1 <= j < len implies op_below(
            #[trigger] b@.code[j],
            promoted@.len(),
        ) by {
            assert(op_below(c0[j], promoted@.len()));
            if let Some((u, t)) = gone {
                lemma_reread_below(c0[j], u, t, promoted@.len());
            }
        }
        i = i + 1;
    }
    compact(b, &keep);
}

spec fn flag_count(f: Seq<bool>) -> nat
    decreases f.len(),
{
    if f.len() == 0 {
        0
    } else {
        flag_count(f.drop_last()) + (if f.last() {
            1nat
        } else {
            0
        })
    }
}

proof fn lemma_flag_count(f: Seq<bool>, g: Seq<bool>)
    requires
        f.len() == g.len(),
        forall|i: int| 0 <= i < f.len() && #[trigger] g[i] ==> f[i],
    ensures
        flag_count(g) <= flag_count(f),
        flag_count(f) <= f.len(),
        f.contains(true) ==> flag_count(f) > 0,
        (exists|i: int| 0 <= i < f.len() && f[i] && !#[trigger] g[i]) ==> flag_count(g)
            < flag_count(f),
    decreases f.len(),
{
    if f.len() > 0 {
        assert forall|i: int| 0 <= i < f.len() - 1 && #[trigger] g.drop_last()[i] implies f.drop_last()[i] by {
            assert(g[i]);
        }
        lemma_flag_count(f.drop_last(), g.drop_last());
        if f.contains(true) && !f.last() {
            let k = choose|k: int| 0 <= k < f.len() && f[k];
            assert(f.drop_last()[k] == true);
            assert(f.drop_last().contains(true));
        }
        if exists|i: int| 0 <= i < f.len() && f[i] && !#[trigger] g[i] {
            let i = choose|i: int| 0 <= i < f.len() && f[i] && !#[trigger] g[i];
            if i < f.len() - 1 {
                assert(f.drop_last()[i] && !g.drop_last()[i]);
            }
            assert(g.last() ==> f.last()) by {
                if g.last() {
                    assert(g[g.len() - 1]);
                }
            }
        }
        assert(g.last() ==> f.last()) by {
            if g.last() {
                assert(g[g.len() - 1]);
            }
        }
    }
}

fn any_flag(f: &Vec<bool>) -> (r: bool)
    ensures
        r == f@.contains(true),
{
    for k in 0..f.len()
        invariant
            forall|j: int| 0 <= j < k ==> !#[trigger] f@[j],
    {
        if f[k] {
            assert(f@[k as int] == true);
            return true;
        }
    }
    false
}

/// Removes the copies into dead hops.
fn remove_copies_to(blocks: &mut Vec<IrBlock>, dead: &Vec<bool>)
    requires
        blocks_below(blocks_view(old(blocks)@), dead@.len()),
        crate::boxes::map_blocks(
            blocks_view(old(blocks)@),
            |b: BlockView| without_copies_to(dead@, b),
            old(blocks)@.len() as int,
        ) is Some,
    ensures
        crate::boxes::map_blocks(
            blocks_view(old(blocks)@),
            |b: BlockView| without_copies_to(dead@, b),
            old(blocks)@.len() as int,
        ) == Some(blocks_view(final(blocks)@)),
{
    let n: usize = blocks.len();
    let ghost bs = blocks_view(blocks@);
    let ghost f = |b: BlockView| without_copies_to(dead@, b);
    for k in 0..n
        invariant
            n == blocks@.len(),
            n == bs.len(),
            blocks_below(bs, dead@.len()),
            f == (|b: BlockView| without_copies_to(dead@, b)),
            crate::boxes::map_blocks(bs, f, n as int) is Some,
            crate::boxes::map_blocks(bs, f, k as int) == Some(blocks_view(blocks@)),
    {
        let ghost done = blocks_view(blocks@);
        proof {
            crate::boxes::lemma_map_blocks(bs, f, k as int, n as int);
            crate::boxes::lemma_map_blocks(bs, f, k + 1, n as int);
            assert(done[k as int] == bs[k as int]);
            assert(done[k as int] == blocks@[k as int]@);
            assert(f(done[k as int]) is Some);
            assert(block_below(bs[k as int], dead@.len()));
        }
        let len: usize = blocks[k].code.len();
        let mut keep: Vec<bool> = Vec::new();
        let ghost want = Seq::new(
            bs[k as int].code.len(),
            |i: int|
                match bs[k as int].code[i] {
                    Ir::Move { dst, .. } => !dead@[dst.0 as int],
                    _ => true,
                },
        );
        for i in 0..len
            invariant
                k < blocks@.len(),
                blocks@[k as int]@ == bs[k as int],
                len == bs[k as int].code.len(),
                block_below(bs[k as int], dead@.len()),
                want == Seq::new(
                    bs[k as int].code.len(),
                    |i: int|
                        match bs[k as int].code[i] {
                            Ir::Move { dst, .. } => !dead@[dst.0 as int],
                            _ => true,
                        },
                ),
                keep@.len() == i,
                forall|j: int| 0 <= j < i ==> #[trigger] keep@[j] == want[j],
        {
            assert(bs[k as int].code[i as int] == blocks@[k as int].code@[i as int]@);
            assert(write_below(bs[k as int].code[i as int], dead@.len()));
            let stays = match &blocks[k].code[i] {
                Ir::Move { dst, .. } => !dead[dst.0 as usize],
                _ => true,
            };
            keep.push(stays);
        }
        assert(keep@ =~= want);
        compact(&mut blocks[k], &keep);
        assert(blocks_view(blocks@) =~= done.update(k as int, blocks@[k as int]@));
    }
}

impl Weave {
    /// Removes dead hops round by round.
    fn sweep_hops(
        &self,
        blocks: &mut Vec<IrBlock>,
        flags: Vec<bool>,
        Ghost(vm): Ghost<VmState>,
        Ghost(pool): Ghost<Seq<PoolEntry>>,
        Ghost(w): Ghost<Web>,
    )
        requires
            self.of(vm, pool, w),
            flags@.len() == w.vregs.len(),
            swept(w, blocks_view(old(blocks)@), flags@, w.vregs.len()) is Some,
        ensures
            swept(w, blocks_view(old(blocks)@), flags@, w.vregs.len()) == Some(
                blocks_view(final(blocks)@),
            ),
    {
        let n: usize = flags.len();
        let mut left = flags;
        let ghost mut fuel: nat = n as nat;
        let ghost want = swept(w, blocks_view(blocks@), left@, fuel);
        proof {
            lemma_flag_count(left@, left@);
        }
        while any_flag(&left)
            invariant_except_break
                want == swept(w, blocks_view(blocks@), left@, fuel),
                flag_count(left@) <= fuel,
            invariant
                self.of(vm, pool, w),
                n == w.vregs.len(),
                left@.len() == n,
                want is Some,
            ensures
                want == Some(blocks_view(blocks@)),
            decreases fuel,
        {
            proof {
                lemma_flag_count(left@, left@);
            }
            let ghost bs = blocks_view(blocks@);
            let census = crate::passes::take_census(blocks, n);
            let ghost dead_want = dead_hops(w, bs, left@);
            let mut dead: Vec<bool> = Vec::new();
            for v in 0..n
                invariant
                    self.of(vm, pool, w),
                    n == w.vregs.len(),
                    left@.len() == n,
                    census.of(bs, n as nat),
                    dead_want == dead_hops(w, bs, left@),
                    dead@.len() == v,
                    forall|j: int| 0 <= j < v ==> #[trigger] dead@[j] == dead_want[j],
            {
                dead.push(
                    left[v] && !census.read[v] && !self.facts.census.named[v]
                        && !self.facts.census.entry[v],
                );
            }
            assert(dead@ =~= dead_want);
            if !any_flag(&dead) {
                break;
            }
            remove_copies_to(blocks, &dead);
            let ghost l0 = left@;
            for v in 0..n
                invariant
                    left@.len() == n,
                    dead@.len() == n,
                    l0.len() == n,
                    forall|j: int| 0 <= j < v ==> #[trigger] left@[j] == (l0[j] && !dead@[j]),
                    forall|j: int| v <= j < n ==> #[trigger] left@[j] == l0[j],
            {
                if dead[v] {
                    left[v] = false;
                }
            }
            proof {
                assert(left@ =~= Seq::new(l0.len(), |v: int| l0[v] && !dead@[v]));
                let k = choose|k: int| 0 <= k < dead@.len() && dead@[k] == true;
                assert(l0[k] && !left@[k]);
                lemma_flag_count(l0, left@);
                fuel = (fuel - 1) as nat;
            }
        }
    }
}

proof fn lemma_reboxed_len(promoted: Seq<bool>, bs: Seq<BlockView>, vregs: Seq<VRegInfo>, k: int)
    requires
        0 <= k <= bs.len(),
    ensures
        reboxed(promoted, bs, vregs, k).0.len() == bs.len(),
        forall|j: int|
            k <= j < bs.len() ==> #[trigger] reboxed(promoted, bs, vregs, k).0[j] == bs[j],
    decreases k,
{
    if k > 0 {
        lemma_reboxed_len(promoted, bs, vregs, k - 1);
    }
}

/// Boxes the promoted values that the method answers.
fn rebox_returns(blocks: &mut Vec<IrBlock>, vregs: &mut Vec<VRegInfo>, promoted: &Vec<bool>)
    requires
        blocks_below(blocks_view(old(blocks)@), promoted@.len()),
    ensures
        reboxed(
            promoted@,
            blocks_view(old(blocks)@),
            old(vregs)@,
            old(blocks)@.len() as int,
        ) == (blocks_view(final(blocks)@), final(vregs)@),
{
    let n: usize = blocks.len();
    let ghost bs = blocks_view(blocks@);
    let ghost regs = vregs@;
    for k in 0..n
        invariant
            n == blocks@.len(),
            n == bs.len(),
            blocks_below(bs, promoted@.len()),
            reboxed(promoted@, bs, regs, k as int) == (blocks_view(blocks@), vregs@),
    {
        let ghost done = blocks_view(blocks@);
        let ghost b0 = bs[k as int];
        proof {
            lemma_reboxed_len(promoted@, bs, regs, k as int);
            assert(done[k as int] == b0);
            assert(done[k as int] == blocks@[k as int]@);
            assert(block_below(b0, promoted@.len()));
            lemma_ops_below(b0, promoted@.len());
        }
        let len: usize = blocks[k].code.len();
        if len > 0 {
            assert(b0.code.last() == blocks@[k as int].code@[len - 1]@);
            assert(op_below(b0.code[len - 1], promoted@.len()));
            let answer: Option<VReg> = match &blocks[k].code[len - 1] {
                Ir::Ret { val } => Some(*val),
                _ => None,
            };
            if let Some(val) = answer {
                assert(b0.code.last().reads()[0] == val);
                if promoted[val.0 as usize] {
                    let d = VReg(vregs.len() as u32);
                    vregs.push(VRegInfo { is_oop: true, is_fp: false });
                    blocks[k].code[len - 1] = Ir::FBox { dst: d, src: val };
                    blocks[k].code.push(Ir::Ret { val: d });
                    assert(blocks@[k as int]@.code =~= b0.code.drop_last().push(
                        Ir::FBox { dst: d, src: val },
                    ).push(Ir::Ret { val: d }));
                    assert(blocks_view(blocks@) =~= done.update(k as int, blocks@[k as int]@));
                }
            }
        }
    }
}

/// Unboxes the trees of float values of a method.
pub fn promote_float_temps_spliced(vm: &VmState, m: &mut IrMethod, osr_bci: Option<u16>)
    requires
        with_float_trees(*vm, old(m)@, osr_bci) is Some,
    ensures
        with_float_trees(*vm, old(m)@, osr_bci) == Some(final(m)@),
{
    let n: usize = m.vregs.len();
    let nb: usize = m.blocks.len();
    let ghost w = web_of(*vm, m@, osr_bci);
    let ghost bs = m@.blocks;
    let weave = Weave::gather(vm, &m.pool, &m.blocks, n, m.nil_lit, osr_bci, Ghost(w));
    let (roots, promoted) = weave.find_trees(
        &m.blocks,
        &m.vregs,
        Ghost(*vm),
        Ghost(m.pool@),
        Ghost(w),
    );
    let flags = weave.find_hops(&m.blocks, &roots, Ghost(*vm), Ghost(m.pool@), Ghost(w), n);
    let ghost f = |b: BlockView| retarget_block(w, roots@, promoted@, b);
    for k in 0..nb
        invariant
            nb == m.blocks@.len(),
            nb == bs.len(),
            n == w.vregs.len(),
            promoted@.len() == n,
            weave.of(*vm, m.pool@, w),
            blocks_below(bs, n as nat),
            f == (|b: BlockView| retarget_block(w, roots@, promoted@, b)),
            crate::boxes::map_blocks(bs, f, nb as int) is Some,
            crate::boxes::map_blocks(bs, f, k as int) == Some(blocks_view(m.blocks@)),
            m@ == (MethodView { blocks: blocks_view(m.blocks@), ..old(m)@ }),
    {
        let ghost done = blocks_view(m.blocks@);
        proof {
            crate::boxes::lemma_map_blocks(bs, f, k as int, nb as int);
            crate::boxes::lemma_map_blocks(bs, f, k + 1, nb as int);
            assert(done[k as int] == bs[k as int]);
            assert(done[k as int] == m.blocks@[k as int]@);
            assert(f(done[k as int]) is Some);
            assert(block_below(bs[k as int], n as nat));
        }
        let plan = weave.plan_block(
            &roots,
            &m.blocks[k],
            Ghost(*vm),
            Ghost(m.pool@),
            Ghost(w),
        );
        retarget_in_block(&mut m.blocks[k], plan, &promoted, Ghost(w), Ghost(roots@));
        assert(blocks_view(m.blocks@) =~= done.update(k as int, m.blocks@[k as int]@));
    }
    weave.sweep_hops(&mut m.blocks, flags, Ghost(*vm), Ghost(m.pool@), Ghost(w));
    let ghost vregs0 = m@.vregs;
    let ghost bs2 = blocks_view(m.blocks@);
    for v in 0..n
        invariant
            blocks_view(m.blocks@) == bs2,
            n == vregs0.len(),
            promoted@.len() == n,
            m.vregs@.len() == n,
            m@ == (MethodView { blocks: blocks_view(m.blocks@), vregs: m.vregs@, ..old(m)@ }),
            forall|j: int|
                0 <= j < v ==> #[trigger] m.vregs@[j] == (if promoted@[j] {
                    VRegInfo { is_oop: false, is_fp: true }
                } else {
                    vregs0[j]
                }),
            forall|j: int| v <= j < n ==> #[trigger] m.vregs@[j] == vregs0[j],
    {
        if promoted[v] {
            m.vregs[v] = VRegInfo { is_oop: false, is_fp: true };
        }
    }
    assert(m.vregs@ =~= Seq::new(
        n as nat,
        |v: int|
            if promoted@[v] {
                VRegInfo { is_oop: false, is_fp: true }
            } else {
                vregs0[v]
            },
    ));
    rebox_returns(&mut m.blocks, &mut m.vregs, &promoted);
}

} // verus!

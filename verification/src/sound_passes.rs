//! The passes over a translated method keep it sound: they rename registers, drop copies and boxes,
//! and move boxes, and every jump, literal, call site and deoptimization site stays in place.

use vstd::prelude::*;
use crate::boxes::{
    cancel, cancelled, cancelled_block, const_doubles, fold_block, fold_op, folded,
    lemma_map_blocks, live_flags, map_blocks, prepended, subst_fp, sunk, sunk_block, sunk_from,
    sunk_into, unsunk, without_dead_boxes,
};
use crate::copyprop::{
    all_writes, find_block, keep_flags, propagated, resolve_fails, resolve_op, resolved, single_writes,
    start_walk, walk, walk_blocks, walk_sites, without_copies, Alias, Prop, Walk,
};
use crate::ir::{BlockId, BlockView, DeoptView, Ir, IrView, MethodView, VReg, VRegInfo};
use crate::order::op_targets;
use crate::passes::{
    all_refs, countable, below, block_below, blocks_below, code_reads, compacted, kept,
    lemma_block_parts_below, lemma_kept_bound, selected, sites_refs, write_below,
};
use crate::promote::{
    box_sources, promote_block, promote_code, promote_op, promoted_flags, reread, reread_after,
    with_float_temps,
};
use crate::reduce::{local_reduced, promoted, reduced, with_blocks};
use crate::sound::{kinds_ok, op_lit, stands};
use crate::splice_promote::{
    hop_flags, planned, promoted_trees, reboxed, retarget_block, retarget_code, retarget_op, swept,
    web_of, with_float_trees, without_copies_to, Web,
};
use crate::world::VmState;

verus! {

/// How many blocks, pool entries and call sites there are.
pub ghost struct Sizes {
    pub blocks: nat,
    pub pool: nat,
    pub calls: nat,
}

pub open spec fn sizes(m: MethodView) -> Sizes {
    Sizes { blocks: m.blocks.len(), pool: m.pool.len(), calls: m.call_sites.len() }
}

/// What an operation names besides registers exists.
pub open spec fn shape_ok(op: IrView, z: Sizes) -> bool {
    &&& forall|i: int| 0 <= i < op_targets(op).len() ==> (#[trigger] op_targets(op)[i]).0 < z.blocks
    &&& op_lit(op) matches Some(l) ==> l.0 < z.pool
    &&& op matches Ir::CallSend { site, .. } ==> site < z.calls
    &&& !(op is Bailout)
}

pub open spec fn site_ok(d: (u32, DeoptView), code: Seq<IrView>) -> bool {
    &&& d.0 < code.len()
    &&& stands(d.1.kind, code[d.0 as int])
    &&& d.1.reexecute == !(d.1.kind is Call)
}

pub open spec fn block_shape(b: BlockView, z: Sizes) -> bool {
    &&& forall|i: int| 0 <= i < b.code.len() ==> shape_ok(#[trigger] b.code[i], z)
    &&& forall|k: int|
        0 <= k < b.deopt_sites.len() ==> site_ok(#[trigger] b.deopt_sites[k], b.code)
}

/// The blocks stand at their numbers.
pub open spec fn blocks_shape(bs: Seq<BlockView>, z: Sizes) -> bool {
    forall|i: int|
        0 <= i < bs.len() ==> block_shape(#[trigger] bs[i], z) && bs[i].id.0 == i
}

/// Operations that sites stand at.
pub open spec fn at_site(op: IrView) -> bool {
    op is CallSend || op is Poll || op is Alloc || op is UncommonTrap
}

/// `b` may take the place of `a`.
spec fn replaces(a: IrView, b: IrView) -> bool {
    &&& forall|z: Sizes| #[trigger] shape_ok(a, z) ==> shape_ok(b, z)
    &&& at_site(a) ==> forall|k: crate::scopes::SafepointKind| #[trigger] stands(k, a) ==> stands(k, b)
}

spec fn rewrites(c: Seq<IrView>, d: Seq<IrView>) -> bool {
    &&& c.len() == d.len()
    &&& forall|i: int| 0 <= i < c.len() ==> replaces(c[i], #[trigger] d[i])
}

/// No deoptimization site loses its operation.
pub open spec fn keeps_sites(code: Seq<IrView>, keep: Seq<bool>) -> bool {
    keep.len() == code.len() && forall|i: int|
        0 <= i < code.len() && at_site(#[trigger] code[i]) ==> keep[i]
}

proof fn lemma_rewritten(b: BlockView, code: Seq<IrView>, z: Sizes)
    requires
        block_shape(b, z),
        rewrites(b.code, code),
    ensures
        block_shape(BlockView { code, ..b }, z),
{
    let c = BlockView { code, ..b };
    assert forall|i: int| 0 <= i < code.len() implies shape_ok(#[trigger] code[i], z) by {
        assert(replaces(b.code[i], code[i]));
        assert(shape_ok(b.code[i], z));
    }
    assert forall|k: int| 0 <= k < b.deopt_sites.len() implies site_ok(
        #[trigger] b.deopt_sites[k],
        code,
    ) by {
        let d = b.deopt_sites[k];
        assert(site_ok(d, b.code));
        assert(replaces(b.code[d.0 as int], code[d.0 as int]));
        assert(stands(d.1.kind, b.code[d.0 as int]));
    }
}

pub(crate) proof fn lemma_selected(code: Seq<IrView>, keep: Seq<bool>, n: int)
    requires
        0 <= n <= code.len(),
    ensures
        selected(code, keep, n).len() == kept(keep, n),
        forall|i: int|
            0 <= i < n && #[trigger] keep[i] ==> kept(keep, i) < kept(keep, n) && selected(
                code,
                keep,
                n,
            )[kept(keep, i) as int] == code[i],
        forall|j: int|
            0 <= j < selected(code, keep, n).len() ==> code.contains(
                #[trigger] selected(code, keep, n)[j],
            ),
    decreases n,
{
    if n > 0 {
        lemma_selected(code, keep, n - 1);
        let s = selected(code, keep, n - 1);
        let t = selected(code, keep, n);
        assert forall|j: int| 0 <= j < t.len() implies code.contains(#[trigger] t[j]) by {
            if j < s.len() {
                assert(t[j] == s[j]);
            } else {
                assert(t[j] == code[n - 1]);
            }
        }
        assert forall|i: int| 0 <= i < n && #[trigger] keep[i] implies kept(keep, i) < kept(
            keep,
            n,
        ) && t[kept(keep, i) as int] == code[i] by {
            if i < n - 1 {
                assert(s[kept(keep, i) as int] == code[i]);
            }
        }
    }
}

/// Dropping operations drops nothing that the rest relies on.
proof fn lemma_compacted(b: BlockView, keep: Seq<bool>)
    requires
        compacted(b, keep) is Some,
        keeps_sites(b.code, keep),
        forall|k: int|
            0 <= k < b.deopt_sites.len() ==> site_ok(#[trigger] b.deopt_sites[k], b.code),
    ensures
        ({
            let c = compacted(b, keep)->0;
            &&& c.id == b.id
            &&& c.entry_stack == b.entry_stack
            &&& forall|j: int| 0 <= j < c.code.len() ==> b.code.contains(#[trigger] c.code[j])
            &&& c.deopt_sites.len() == b.deopt_sites.len()
            &&& forall|k: int|
                0 <= k < c.deopt_sites.len() ==> site_ok(#[trigger] c.deopt_sites[k], c.code)
                    && c.deopt_sites[k].1 == b.deopt_sites[k].1
        }),
{
    let c = compacted(b, keep)->0;
    let n = b.code.len() as int;
    if forall|i: int| 0 <= i < b.code.len() ==> keep[i] {
        assert forall|j: int| 0 <= j < c.code.len() implies b.code.contains(
            #[trigger] c.code[j],
        ) by {}
    } else {
        lemma_selected(b.code, keep, n);
        assert forall|k: int| 0 <= k < c.deopt_sites.len() implies site_ok(
            #[trigger] c.deopt_sites[k],
            c.code,
        ) && c.deopt_sites[k].1 == b.deopt_sites[k].1 by {
            let d = b.deopt_sites[k];
            assert(site_ok(d, b.code));
            assert(at_site(b.code[d.0 as int]));
            assert(keep[d.0 as int]);
            lemma_kept_bound(keep, d.0 as int);
            assert(c.code[kept(keep, d.0 as int) as int] == b.code[d.0 as int]);
        }
    }
}

proof fn lemma_compact_shape(b: BlockView, keep: Seq<bool>, z: Sizes)
    requires
        block_shape(b, z),
        compacted(b, keep) is Some,
        keeps_sites(b.code, keep),
    ensures
        block_shape(compacted(b, keep)->0, z),
        (compacted(b, keep)->0).id == b.id,
        (compacted(b, keep)->0).deopt_sites.len() == b.deopt_sites.len(),
{
    lemma_compacted(b, keep);
    let c = compacted(b, keep)->0;
    assert forall|j: int| 0 <= j < c.code.len() implies shape_ok(#[trigger] c.code[j], z) by {
        assert(b.code.contains(c.code[j]));
        let i = choose|i: int| 0 <= i < b.code.len() && b.code[i] == c.code[j];
        assert(shape_ok(b.code[i], z));
    }
}

/// A pass that treats each block by itself.
proof fn lemma_map_shape(
    bs: Seq<BlockView>,
    f: spec_fn(BlockView) -> Option<BlockView>,
    k: int,
    z: Sizes,
)
    requires
        blocks_shape(bs, z),
        0 <= k <= bs.len(),
        map_blocks(bs, f, k) is Some,
        forall|b: BlockView|
            block_shape(b, z) && (#[trigger] f(b)) is Some ==> block_shape(f(b)->0, z) && (f(
                b,
            )->0).id == b.id,
    ensures
        (map_blocks(bs, f, k)->0).len() == bs.len(),
        blocks_shape(map_blocks(bs, f, k)->0, z),
    decreases k,
{
    if k > 0 {
        lemma_map_shape(bs, f, k - 1, z);
        let done = map_blocks(bs, f, k - 1)->0;
        let r = map_blocks(bs, f, k)->0;
        assert(block_shape(done[k - 1], z));
        assert(f(done[k - 1]) is Some);
        assert forall|i: int| 0 <= i < r.len() implies block_shape(#[trigger] r[i], z) && r[i].id.0
            == i by {
            if i != k - 1 {
                assert(r[i] == done[i]);
            }
        }
    }
}

/// Operations that differ in registers only.
proof fn lemma_same_shape(a: IrView, b: IrView)
    requires
        op_targets(a) =~= op_targets(b),
        op_lit(a) == op_lit(b),
        b matches Ir::CallSend { site, .. } ==> (a matches Ir::CallSend { site: t, .. } && t
            == site),
        b is Bailout ==> a is Bailout,
        at_site(a) ==> a is CallSend == b is CallSend && a is Poll == b is Poll && a is Alloc
            == b is Alloc && a is UncommonTrap == b is UncommonTrap,
    ensures
        replaces(a, b),
{
    assert forall|z: Sizes| #[trigger] shape_ok(a, z) implies shape_ok(b, z) by {
        assert forall|i: int| 0 <= i < op_targets(b).len() implies (#[trigger] op_targets(b)[i]).0
            < z.blocks by {
            assert(op_targets(a)[i].0 < z.blocks);
        }
    }
}

proof fn lemma_subst_fp(map: Map<u32, VReg>, op: IrView)
    ensures
        replaces(op, subst_fp(map, op)),
        subst_fp(map, op) is FUnbox == op is FUnbox,
{
    lemma_same_shape(op, subst_fp(map, op));
}

proof fn lemma_replaces_trans(a: IrView, b: IrView, c: IrView)
    requires
        replaces(a, b),
        replaces(b, c),
        at_site(a) ==> at_site(b),
    ensures
        replaces(a, c),
{
    assert forall|z: Sizes| #[trigger] shape_ok(a, z) implies shape_ok(c, z) by {
        assert(shape_ok(b, z));
    }
    if at_site(a) {
        assert forall|k: crate::scopes::SafepointKind| #[trigger] stands(k, a) implies stands(
            k,
            c,
        ) by {
            assert(stands(k, b));
        }
    }
}

/// Cancelling rewrites in place and drops unboxings only.
proof fn lemma_cancel(code: Seq<IrView>, n: int)
    requires
        0 <= n <= code.len(),
    ensures
        ({
            let c = cancel(code, n);
            &&& c.code.len() == code.len()
            &&& c.keep.len() == n
            &&& forall|i: int| 0 <= i < code.len() ==> replaces(code[i], #[trigger] c.code[i])
            &&& forall|i: int| n <= i < code.len() ==> #[trigger] c.code[i] == code[i]
            &&& forall|i: int| 0 <= i < n && !(#[trigger] c.keep[i]) ==> c.code[i] is FUnbox
        }),
    decreases n,
{
    if n > 0 {
        lemma_cancel(code, n - 1);
        let p = cancel(code, n - 1);
        let c = cancel(code, n);
        lemma_subst_fp(p.unboxed, p.code[n - 1]);
        assert forall|i: int| 0 <= i < code.len() implies replaces(code[i], #[trigger] c.code[i]) by {
            if i != n - 1 {
                assert(c.code[i] == p.code[i]);
            }
        }
        assert forall|i: int| 0 <= i < n && !(#[trigger] c.keep[i]) implies c.code[i] is FUnbox by {
            if i < n - 1 {
                assert(c.keep[i] == p.keep[i]);
                assert(c.code[i] == p.code[i]);
            }
        }
    }
}

pub(crate) proof fn lemma_cancelled(bs: Seq<BlockView>, z: Sizes)
    requires
        blocks_shape(bs, z),
        cancelled(bs) is Some,
    ensures
        blocks_shape(cancelled(bs)->0, z),
        (cancelled(bs)->0).len() == bs.len(),
{
    let f = |b: BlockView| cancelled_block(b);
    assert forall|b: BlockView| block_shape(b, z) && (#[trigger] f(b)) is Some implies block_shape(
        f(b)->0,
        z,
    ) && (f(b)->0).id == b.id by {
        let n = b.code.len() as int;
        lemma_cancel(b.code, n);
        let c = cancel(b.code, n);
        lemma_rewritten(b, c.code, z);
        let x = BlockView { code: c.code, ..b };
        lemma_compact_shape(x, c.keep, z);
    }
    lemma_map_shape(bs, f, bs.len() as int, z);
}

pub(crate) proof fn lemma_folded(vm: VmState, m: MethodView, z: Sizes)
    requires
        blocks_shape(m.blocks, z),
        folded(vm, m.pool, m.blocks) is Some,
    ensures
        blocks_shape(folded(vm, m.pool, m.blocks)->0, z),
        (folded(vm, m.pool, m.blocks)->0).len() == m.blocks.len(),
{
    let bs = m.blocks;
    let known = const_doubles(vm, m.pool, bs, bs.len() as int);
    let r = folded(vm, m.pool, bs)->0;
    assert forall|i: int| 0 <= i < r.len() implies block_shape(#[trigger] r[i], z) && r[i].id.0
        == i by {
        let b = bs[i];
        assert(block_shape(b, z));
        let code = fold_block(known, b).code;
        assert forall|j: int| 0 <= j < code.len() implies replaces(
            b.code[j],
            #[trigger] code[j],
        ) by {
            assert(code[j] == fold_op(known, b.code[j]));
        }
        lemma_rewritten(b, code, z);
        assert(r[i] == BlockView { code, ..b });
    }
}

proof fn lemma_resolve_op_shape(alias: Alias, op: IrView)
    ensures
        replaces(op, resolve_op(alias, op)),
        at_site(op) ==> at_site(resolve_op(alias, op)),
{
    lemma_same_shape(op, resolve_op(alias, op));
}

/// Each block has as many sites as it had.
pub open spec fn same_site_counts(bs: Seq<BlockView>, cs: Seq<BlockView>) -> bool {
    &&& cs.len() == bs.len()
    &&& forall|i: int|
        0 <= i < bs.len() ==> (#[trigger] cs[i]).deopt_sites.len() == bs[i].deopt_sites.len()
}

/// A walk renames in place.
spec fn walked(b: BlockView, c: BlockView) -> bool {
    &&& c.id == b.id
    &&& rewrites(b.code, c.code)
    &&& c.deopt_sites.len() == b.deopt_sites.len()
    &&& forall|k: int|
        0 <= k < b.deopt_sites.len() ==> same_site(b.deopt_sites[k], #[trigger] c.deopt_sites[k])
}

spec fn same_site(a: (u32, DeoptView), b: (u32, DeoptView)) -> bool {
    b.0 == a.0 && b.1.kind == a.1.kind && b.1.reexecute == a.1.reexecute
}

proof fn lemma_walked_shape(b: BlockView, c: BlockView, z: Sizes)
    requires
        block_shape(b, z),
        walked(b, c),
    ensures
        block_shape(c, z),
{
    lemma_rewritten(b, c.code, z);
    let x = BlockView { code: c.code, ..b };
    assert forall|k: int| 0 <= k < c.deopt_sites.len() implies site_ok(
        #[trigger] c.deopt_sites[k],
        c.code,
    ) by {
        assert(site_ok(x.deopt_sites[k], x.code));
        assert(same_site(b.deopt_sites[k], c.deopt_sites[k]));
    }
    assert forall|i: int| 0 <= i < c.code.len() implies shape_ok(#[trigger] c.code[i], z) by {
        assert(shape_ok(x.code[i], z));
    }
}

proof fn lemma_walk_sites_shape(b: BlockView, i: int, w: Walk)
    requires
        walked(b, w.block),
    ensures
        walked(b, walk_sites(i, w).block),
        walk_sites(i, w).block.code == w.block.code,
    decreases w.block.deopt_sites.len() - w.p,
{
    if 0 <= w.p < w.block.deopt_sites.len() && w.block.deopt_sites[w.p].0 == i {
        let v = crate::copyprop::walk_site(w);
        assert forall|k: int| 0 <= k < b.deopt_sites.len() implies same_site(
            b.deopt_sites[k],
            #[trigger] v.block.deopt_sites[k],
        ) by {
            assert(same_site(b.deopt_sites[k], w.block.deopt_sites[k]));
        }
        lemma_walk_sites_shape(b, i, v);
    }
}

proof fn lemma_walk_shape(b: BlockView, single: Seq<bool>, n: int, w: Walk)
    requires
        w.block == b,
        0 <= n <= b.code.len(),
    ensures
        walked(b, walk(single, n, w).block),
        forall|i: int|
            n <= i < b.code.len() ==> #[trigger] walk(single, n, w).block.code[i] == b.code[i],
    decreases n,
{
    if n > 0 {
        lemma_walk_shape(b, single, n - 1, w);
        let p = walk(single, n - 1, w);
        let w1 = walk_sites(n - 1, p);
        lemma_walk_sites_shape(b, n - 1, p);
        let r = walk(single, n, w);
        assert(w1.block.code[n - 1] == b.code[n - 1]);
        lemma_resolve_op_shape(w1.alias, b.code[n - 1]);
        assert forall|i: int| 0 <= i < b.code.len() implies replaces(
            b.code[i],
            #[trigger] r.block.code[i],
        ) by {
            if i != n - 1 {
                assert(r.block.code[i] == w1.block.code[i]);
            }
        }
    } else {
        assert forall|i: int| 0 <= i < b.code.len() implies replaces(
            b.code[i],
            #[trigger] w.block.code[i],
        ) by {}
    }
}

pub(crate) proof fn lemma_walk_blocks_shape(single: Seq<bool>, n: nat, k: int, x: Prop, z: Sizes)
    requires
        blocks_shape(x.blocks, z),
        0 <= k <= x.blocks.len(),
    ensures
        same_site_counts(x.blocks, walk_blocks(single, n, k, x).blocks),
        blocks_shape(walk_blocks(single, n, k, x).blocks, z),
    decreases k,
{
    if k > 0 {
        lemma_walk_blocks_shape(single, n, k - 1, x, z);
        let y = walk_blocks(single, n, k - 1, x);
        let b = y.blocks[k - 1];
        let w = walk(single, b.code.len() as int, start_walk(n, b, y));
        lemma_walk_shape(b, single, b.code.len() as int, start_walk(n, b, y));
        lemma_walked_shape(b, w.block, z);
        let r = walk_blocks(single, n, k, x).blocks;
        assert forall|i: int| 0 <= i < r.len() implies block_shape(#[trigger] r[i], z) && r[i].id.0
            == i by {
            if i != k - 1 {
                assert(r[i] == y.blocks[i]);
            }
        }
    }
}

pub(crate) proof fn lemma_resolve_fails_shape(fails: Seq<(BlockId, Alias)>, k: int, x: Prop, z: Sizes)
    requires
        blocks_shape(x.blocks, z),
        0 <= k <= fails.len(),
    ensures
        same_site_counts(x.blocks, resolve_fails(fails, k, x).blocks),
        blocks_shape(resolve_fails(fails, k, x).blocks, z),
    decreases k,
{
    if k > 0 {
        lemma_resolve_fails_shape(fails, k - 1, x, z);
        let y = resolve_fails(fails, k - 1, x);
        let (id, alias) = fails[k - 1];
        let j = find_block(y.blocks, id, 0);
        lemma_find_block(y.blocks, id, 0);
        if j < y.blocks.len() {
            let b = y.blocks[j];
            let r = resolve_fails(fails, k, x).blocks;
            assert(walked(b, r[j])) by {
                assert forall|i: int| 0 <= i < b.code.len() implies replaces(
                    b.code[i],
                    #[trigger] r[j].code[i],
                ) by {}
            }
            lemma_walked_shape(b, r[j], z);
            assert forall|i: int| 0 <= i < r.len() implies block_shape(#[trigger] r[i], z)
                && r[i].id.0 == i by {
                if i != j {
                    assert(r[i] == y.blocks[i]);
                }
            }
        }
    }
}

pub(crate) proof fn lemma_find_block(bs: Seq<BlockView>, id: BlockId, from: int)
    requires
        0 <= from <= bs.len(),
    ensures
        from <= find_block(bs, id, from) <= bs.len(),
    decreases bs.len() - from,
{
    if from < bs.len() && bs[from].id != id {
        lemma_find_block(bs, id, from + 1);
    }
}

pub(crate) proof fn lemma_without_copies_shape(
    single: Seq<bool>,
    refs: Seq<VReg>,
    changed: Seq<VReg>,
    bs: Seq<BlockView>,
    k: int,
    z: Sizes,
)
    requires
        blocks_shape(bs, z),
        0 <= k <= bs.len(),
        without_copies(single, refs, changed, bs, k) is Some,
    ensures
        same_site_counts(bs, without_copies(single, refs, changed, bs, k)->0),
        blocks_shape(without_copies(single, refs, changed, bs, k)->0, z),
    decreases k,
{
    if k > 0 {
        lemma_without_copies_shape(single, refs, changed, bs, k - 1, z);
        let done = without_copies(single, refs, changed, bs, k - 1)->0;
        let b = done[k - 1];
        assert(block_shape(b, z));
        lemma_compact_shape(b, keep_flags(single, refs, changed, b), z);
        let r = without_copies(single, refs, changed, bs, k)->0;
        assert forall|i: int| 0 <= i < r.len() implies block_shape(#[trigger] r[i], z) && r[i].id.0
            == i by {
            if i != k - 1 {
                assert(r[i] == done[i]);
            }
        }
    }
}

/// Copy propagation keeps everything but registers in place.
pub(crate) proof fn lemma_propagated(bs: Seq<BlockView>, n: nat, z: Sizes)
    requires
        blocks_shape(bs, z),
        propagated(bs, n) is Some,
    ensures
        blocks_shape(propagated(bs, n)->0, z),
        same_site_counts(bs, propagated(bs, n)->0),
{
    let single = single_writes(bs, n);
    let x0 = Prop { blocks: bs, hits: seq![], fails: seq![] };
    lemma_walk_blocks_shape(single, n, bs.len() as int, x0, z);
    let x = walk_blocks(single, n, bs.len() as int, x0);
    lemma_resolve_fails_shape(x.fails, x.fails.len() as int, x, z);
    let y = resolved(bs, n);
    lemma_without_copies_shape(
        single,
        all_refs(bs),
        y.hits,
        y.blocks,
        y.blocks.len() as int,
        z,
    );
}

proof fn lemma_without_copies_some(
    single: Seq<bool>,
    refs: Seq<VReg>,
    changed: Seq<VReg>,
    bs: Seq<BlockView>,
    k: int,
    z: Sizes,
)
    requires
        blocks_shape(bs, z),
        0 <= k <= bs.len(),
    ensures
        without_copies(single, refs, changed, bs, k) is Some,
    decreases k,
{
    if k > 0 {
        lemma_without_copies_some(single, refs, changed, bs, k - 1, z);
        lemma_without_copies_shape(single, refs, changed, bs, k - 1, z);
        let done = without_copies(single, refs, changed, bs, k - 1)->0;
        let b = done[k - 1];
        assert(block_shape(b, z));
        assert forall|i: int| 0 <= i < b.deopt_sites.len() implies (
        #[trigger] b.deopt_sites[i]).0 <= b.code.len() by {
            assert(site_ok(b.deopt_sites[i], b.code));
        }
    }
}

/// Copy propagation gets through wherever its counters do not overflow.
pub(crate) proof fn lemma_propagates(bs: Seq<BlockView>, n: nat, z: Sizes)
    requires
        blocks_shape(bs, z),
        n <= u32::MAX + 1,
        blocks_below(bs, n),
        countable(all_refs(bs), n),
        countable(all_writes(bs), n),
        countable(resolved(bs, n).hits, n),
    ensures
        propagated(bs, n) is Some,
{
    let single = single_writes(bs, n);
    let x0 = Prop { blocks: bs, hits: seq![], fails: seq![] };
    lemma_walk_blocks_shape(single, n, bs.len() as int, x0, z);
    let x = walk_blocks(single, n, bs.len() as int, x0);
    lemma_resolve_fails_shape(x.fails, x.fails.len() as int, x, z);
    let y = resolved(bs, n);
    lemma_without_copies_some(
        single,
        all_refs(bs),
        y.hits,
        y.blocks,
        y.blocks.len() as int,
        z,
    );
}

proof fn lemma_reread(op: IrView, from: VReg, to: VReg)
    ensures
        replaces(op, reread(op, from, to)),
        at_site(op) ==> at_site(reread(op, from, to)),
        reread(op, from, to) is FUnbox == op is FUnbox,
{
    lemma_same_shape(op, reread(op, from, to));
}

/// A promotion rewrites in place and drops unboxings only.
spec fn promotes(code: Seq<IrView>, c: Seq<IrView>, keep: Seq<bool>) -> bool {
    &&& rewrites(code, c)
    &&& forall|i: int| 0 <= i < code.len() && at_site(code[i]) ==> at_site(#[trigger] c[i])
    &&& keep.len() <= code.len()
    &&& forall|i: int| 0 <= i < keep.len() && !(#[trigger] keep[i]) ==> c[i] is FUnbox
}

proof fn lemma_promotes_step(
    code: Seq<IrView>,
    c: Seq<IrView>,
    keep: Seq<bool>,
    c1: Seq<IrView>,
    k: bool,
)
    requires
        promotes(code, c, keep),
        keep.len() < code.len(),
        rewrites(c, c1),
        forall|i: int| 0 <= i < c.len() && at_site(c[i]) ==> at_site(#[trigger] c1[i]),
        forall|i: int| 0 <= i < keep.len() ==> #[trigger] c1[i] == c[i],
        !k ==> c1[keep.len() as int] is FUnbox,
    ensures
        promotes(code, c1, keep.push(k)),
{
    assert forall|i: int| 0 <= i < code.len() implies replaces(code[i], #[trigger] c1[i]) by {
        assert(replaces(code[i], c[i]));
        assert(replaces(c[i], c1[i]));
        lemma_replaces_trans(code[i], c[i], c1[i]);
    }
}

proof fn lemma_reread_after(code: Seq<IrView>, i: int, from: VReg, to: VReg)
    requires
        0 <= i < code.len(),
    ensures
        rewrites(code, reread_after(code, i, from, to)),
        forall|j: int|
            0 <= j < code.len() && at_site(code[j]) ==> at_site(
                #[trigger] reread_after(code, i, from, to)[j],
            ),
        forall|j: int| 0 <= j <= i ==> #[trigger] reread_after(code, i, from, to)[j] == code[j],
{
    let c = reread_after(code, i, from, to);
    assert forall|j: int| 0 <= j < code.len() implies replaces(code[j], #[trigger] c[j]) && (
    at_site(code[j]) ==> at_site(c[j])) by {
        lemma_reread(code[j], from, to);
    }
}

proof fn lemma_updated(code: Seq<IrView>, i: int, op: IrView)
    requires
        0 <= i < code.len(),
        replaces(code[i], op),
        at_site(code[i]) ==> at_site(op),
    ensures
        rewrites(code, code.update(i, op)),
        forall|j: int|
            0 <= j < code.len() && at_site(code[j]) ==> at_site(#[trigger] code.update(i, op)[j]),
{
}

proof fn lemma_promote_op(
    code: Seq<IrView>,
    i: int,
    promoted: Seq<bool>,
    boxes: Map<u32, VReg>,
    doubles: Map<u32, u64>,
)
    requires
        0 <= i < code.len(),
        promote_op(code, i, promoted, boxes, doubles) is Some,
    ensures
        ({
            let (c1, k) = promote_op(code, i, promoted, boxes, doubles)->0;
            &&& rewrites(code, c1)
            &&& forall|j: int|
                0 <= j < code.len() && at_site(code[j]) ==> at_site(#[trigger] c1[j])
            &&& forall|j: int| 0 <= j < i ==> #[trigger] c1[j] == code[j]
            &&& !k ==> c1[i] is FUnbox
        }),
{
    let (c1, k) = promote_op(code, i, promoted, boxes, doubles)->0;
    match code[i] {
        Ir::FUnbox { dst, src, .. } => {
            lemma_reread_after(code, i, dst, src);
        },
        _ => {
            lemma_updated(code, i, c1[i]);
            assert(code.update(i, c1[i]) =~= c1);
        },
    }
    if c1 == code {
        lemma_updated(code, i, code[i]);
        assert(code.update(i, code[i]) =~= code);
    }
}

proof fn lemma_promote_code(
    code: Seq<IrView>,
    n: int,
    promoted: Seq<bool>,
    boxes: Map<u32, VReg>,
    doubles: Map<u32, u64>,
)
    requires
        0 <= n <= code.len(),
        promote_code(code, n, promoted, boxes, doubles) is Some,
    ensures
        ({
            let (c, keep) = promote_code(code, n, promoted, boxes, doubles)->0;
            promotes(code, c, keep) && keep.len() == n
        }),
    decreases n,
{
    if n > 0 {
        lemma_promote_code(code, n - 1, promoted, boxes, doubles);
        let (c, keep) = promote_code(code, n - 1, promoted, boxes, doubles)->0;
        lemma_promote_op(c, n - 1, promoted, boxes, doubles);
        let (c1, k) = promote_op(c, n - 1, promoted, boxes, doubles)->0;
        lemma_promotes_step(code, c, keep, c1, k);
    }
}

proof fn lemma_promoted_block(b: BlockView, c: Seq<IrView>, keep: Seq<bool>, z: Sizes)
    requires
        block_shape(b, z),
        promotes(b.code, c, keep),
        keep.len() == b.code.len(),
        compacted(BlockView { code: c, ..b }, keep) is Some,
    ensures
        block_shape(compacted(BlockView { code: c, ..b }, keep)->0, z),
        (compacted(BlockView { code: c, ..b }, keep)->0).id == b.id,
{
    lemma_rewritten(b, c, z);
    let x = BlockView { code: c, ..b };
    lemma_compact_shape(x, keep, z);
}

/// Promoting temporaries keeps everything but registers in place.
pub(crate) proof fn lemma_float_temps(vm: VmState, m: MethodView, z: Sizes)
    requires
        blocks_shape(m.blocks, z),
        with_float_temps(vm, m) is Some,
    ensures
        blocks_shape((with_float_temps(vm, m)->0).blocks, z),
        (with_float_temps(vm, m)->0).blocks.len() == m.blocks.len(),
{
    let bs = m.blocks;
    let boxes = box_sources(bs, bs.len() as int);
    let doubles = const_doubles(vm, m.pool, bs, bs.len() as int);
    let flags = promoted_flags(bs, m.vregs, m.nil_lit, boxes, doubles);
    let f = |b: BlockView| promote_block(b, flags, boxes, doubles);
    assert forall|b: BlockView| block_shape(b, z) && (#[trigger] f(b)) is Some implies block_shape(
        f(b)->0,
        z,
    ) && (f(b)->0).id == b.id by {
        let n = b.code.len() as int;
        lemma_promote_code(b.code, n, flags, boxes, doubles);
        let (c, keep) = promote_code(b.code, n, flags, boxes, doubles)->0;
        lemma_promoted_block(b, c, keep, z);
    }
    lemma_map_shape(bs, f, bs.len() as int, z);
}

proof fn lemma_retarget_op(
    w: Web,
    roots: Seq<VReg>,
    promoted: Seq<bool>,
    orig: IrView,
    code: Seq<IrView>,
    i: int,
)
    requires
        0 <= i < code.len(),
        at_site(code[i]) ==> at_site(orig),
        retarget_op(w, roots, promoted, orig, code, i) is Some,
    ensures
        ({
            let (c1, k) = retarget_op(w, roots, promoted, orig, code, i)->0;
            &&& rewrites(code, c1)
            &&& forall|j: int|
                0 <= j < code.len() && at_site(code[j]) ==> at_site(#[trigger] c1[j])
            &&& forall|j: int| 0 <= j < i ==> #[trigger] c1[j] == code[j]
            &&& !k ==> c1[i] is FUnbox
        }),
{
    let (c1, k) = retarget_op(w, roots, promoted, orig, code, i)->0;
    if planned(w, roots, orig) is Some {
        let op = planned(w, roots, orig)->0;
        assert(orig is Move);
        assert(op is Move || op is FConst);
        lemma_updated(code, i, op);
    } else {
        match code[i] {
            Ir::FUnbox { dst, src, .. } => {
                lemma_reread_after(code, i, dst, src);
            },
            _ => {
                lemma_updated(code, i, c1[i]);
                assert(code.update(i, c1[i]) =~= c1);
            },
        }
    }
    if c1 == code {
        lemma_updated(code, i, code[i]);
        assert(code.update(i, code[i]) =~= code);
    }
}

proof fn lemma_retarget_code(
    w: Web,
    roots: Seq<VReg>,
    promoted: Seq<bool>,
    orig: Seq<IrView>,
    n: int,
)
    requires
        0 <= n <= orig.len(),
        retarget_code(w, roots, promoted, orig, n) is Some,
    ensures
        ({
            let (c, keep) = retarget_code(w, roots, promoted, orig, n)->0;
            promotes(orig, c, keep) && keep.len() == n && forall|i: int|
                0 <= i < orig.len() && at_site(#[trigger] c[i]) ==> at_site(orig[i])
        }),
    decreases n,
{
    if n > 0 {
        lemma_retarget_code(w, roots, promoted, orig, n - 1);
        let (c, keep) = retarget_code(w, roots, promoted, orig, n - 1)->0;
        lemma_retarget_op(w, roots, promoted, orig[n - 1], c, n - 1);
        let (c1, k) = retarget_op(w, roots, promoted, orig[n - 1], c, n - 1)->0;
        lemma_promotes_step(orig, c, keep, c1, k);
        assert forall|i: int| 0 <= i < orig.len() && at_site(#[trigger] c1[i]) implies at_site(
            orig[i],
        ) by {
            lemma_no_new_sites(w, roots, promoted, orig[n - 1], c, n - 1, i);
        }
    }
}

/// A rewrite makes no operation into one that a site could stand at.
proof fn lemma_no_new_sites(
    w: Web,
    roots: Seq<VReg>,
    promoted: Seq<bool>,
    orig: IrView,
    code: Seq<IrView>,
    i: int,
    j: int,
)
    requires
        0 <= i < code.len(),
        0 <= j < code.len(),
        retarget_op(w, roots, promoted, orig, code, i) is Some,
        at_site((retarget_op(w, roots, promoted, orig, code, i)->0).0[j]),
    ensures
        at_site(code[j]),
{
    let (c1, k) = retarget_op(w, roots, promoted, orig, code, i)->0;
    if planned(w, roots, orig) is None && code[i] is FUnbox && j > i {
        let f = code[i];
        if c1 != code {
            assert(c1[j] == reread(code[j], f->FUnbox_dst, f->FUnbox_src));
        }
    }
}

proof fn lemma_swept(w: Web, bs: Seq<BlockView>, left: Seq<bool>, fuel: nat, z: Sizes)
    requires
        blocks_shape(bs, z),
        swept(w, bs, left, fuel) is Some,
    ensures
        blocks_shape(swept(w, bs, left, fuel)->0, z),
        (swept(w, bs, left, fuel)->0).len() == bs.len(),
    decreases fuel,
{
    let dead = crate::splice_promote::dead_hops(w, bs, left);
    if fuel == 0 || !left.contains(true) {
    } else if !blocks_below(bs, left.len()) {
    } else if !dead.contains(true) {
    } else {
        let f = |b: BlockView| without_copies_to(dead, b);
        assert forall|b: BlockView| block_shape(b, z) && (
        #[trigger] f(b)) is Some implies block_shape(f(b)->0, z) && (f(b)->0).id == b.id by {
            let keep = Seq::new(
                b.code.len(),
                |i: int|
                    match b.code[i] {
                        Ir::Move { dst, .. } => !dead[dst.0 as int],
                        _ => true,
                    },
            );
            lemma_compact_shape(b, keep, z);
        }
        lemma_map_shape(bs, f, bs.len() as int, z);
        let bs1 = map_blocks(bs, f, bs.len() as int)->0;
        lemma_swept(
            w,
            bs1,
            Seq::new(left.len(), |v: int| left[v] && !dead[v]),
            (fuel - 1) as nat,
            z,
        );
    }
}

proof fn lemma_reboxed(
    promoted: Seq<bool>,
    bs: Seq<BlockView>,
    vregs: Seq<VRegInfo>,
    k: int,
    z: Sizes,
)
    requires
        blocks_shape(bs, z),
        0 <= k <= bs.len(),
    ensures
        blocks_shape(reboxed(promoted, bs, vregs, k).0, z),
        reboxed(promoted, bs, vregs, k).0.len() == bs.len(),
    decreases k,
{
    if k > 0 {
        lemma_reboxed(promoted, bs, vregs, k - 1, z);
        let (done, regs) = reboxed(promoted, bs, vregs, k - 1);
        let b = done[k - 1];
        let r = reboxed(promoted, bs, vregs, k).0;
        assert(block_shape(b, z));
        if r != done {
            let c = r[k - 1];
            let n = b.code.len() as int;
            assert(b.code.last() is Ret);
            assert forall|i: int| 0 <= i < c.code.len() implies shape_ok(#[trigger] c.code[i], z) by {
                if i < n - 1 {
                    assert(c.code[i] == b.code[i]);
                }
            }
            assert forall|j: int| 0 <= j < c.deopt_sites.len() implies site_ok(
                #[trigger] c.deopt_sites[j],
                c.code,
            ) by {
                let d = b.deopt_sites[j];
                assert(site_ok(d, b.code));
                assert(d.0 != n - 1);
                assert(c.code[d.0 as int] == b.code[d.0 as int]);
            }
            assert(block_shape(c, z));
        }
        assert forall|i: int| 0 <= i < r.len() implies block_shape(#[trigger] r[i], z) && r[i].id.0
            == i by {
            if i != k - 1 {
                assert(r[i] == done[i]);
            }
        }
    }
}

/// Promoting whole trees of copies keeps everything but registers in place.
pub(crate) proof fn lemma_float_trees(vm: VmState, m: MethodView, osr_bci: Option<u16>, z: Sizes)
    requires
        blocks_shape(m.blocks, z),
        with_float_trees(vm, m, osr_bci) is Some,
    ensures
        blocks_shape((with_float_trees(vm, m, osr_bci)->0).blocks, z),
        (with_float_trees(vm, m, osr_bci)->0).blocks.len() == m.blocks.len(),
{
    let w = web_of(vm, m, osr_bci);
    let n = m.vregs.len();
    let (roots, flags) = promoted_trees(w, n as int);
    let f = |b: BlockView| retarget_block(w, roots, flags, b);
    assert forall|b: BlockView| block_shape(b, z) && (#[trigger] f(b)) is Some implies block_shape(
        f(b)->0,
        z,
    ) && (f(b)->0).id == b.id by {
        let len = b.code.len() as int;
        lemma_retarget_code(w, roots, flags, b.code, len);
        let (c, keep) = retarget_code(w, roots, flags, b.code, len)->0;
        lemma_promoted_block(b, c, keep, z);
    }
    lemma_map_shape(m.blocks, f, m.blocks.len() as int, z);
    let bs1 = map_blocks(m.blocks, f, m.blocks.len() as int)->0;
    lemma_swept(w, bs1, hop_flags(w, roots), n, z);
    let bs2 = swept(w, bs1, hop_flags(w, roots), n)->0;
    let vregs = Seq::new(
        n,
        |v: int|
            if flags[v] {
                VRegInfo { is_oop: false, is_fp: true }
            } else {
                m.vregs[v]
            },
    );
    lemma_reboxed(flags, bs2, vregs, bs2.len() as int, z);
}

proof fn lemma_sunk_from(bs: Seq<BlockView>, t: int, b: int, n: int)
    requires
        0 <= n,
    ensures
        forall|i: int|
            0 <= i < sunk_from(bs, t, b, n).len() ==> (#[trigger] sunk_from(bs, t, b, n)[i]) is FBox,
    decreases n,
{
    if n > 0 {
        lemma_sunk_from(bs, t, b, n - 1);
        let rest = sunk_from(bs, t, b, n - 1);
        let r = sunk_from(bs, t, b, n);
        assert forall|i: int| 0 <= i < r.len() implies (#[trigger] r[i]) is FBox by {
            if i < rest.len() {
                assert(r[i] == rest[i]);
            }
        }
    }
}

pub(crate) proof fn lemma_sunk_into(bs: Seq<BlockView>, t: int, k: int)
    requires
        0 <= k,
    ensures
        forall|i: int|
            0 <= i < sunk_into(bs, t, k).len() ==> (#[trigger] sunk_into(bs, t, k)[i]) is FBox,
    decreases k,
{
    if k > 0 {
        lemma_sunk_into(bs, t, k - 1);
        lemma_sunk_from(bs, t, k - 1, bs[k - 1].code.len() as int);
        let a = sunk_into(bs, t, k - 1);
        let b = sunk_from(bs, t, k - 1, bs[k - 1].code.len() as int);
        assert forall|i: int| 0 <= i < (a + b).len() implies (#[trigger] (a + b)[i]) is FBox by {
            if i >= a.len() {
                assert((a + b)[i] == b[i - a.len()]);
            }
        }
    }
}

pub(crate) proof fn lemma_sunk(bs: Seq<BlockView>, n: nat, z: Sizes)
    requires
        blocks_shape(bs, z),
        sunk(bs, n) is Some,
    ensures
        blocks_shape(sunk(bs, n)->0, z),
        (sunk(bs, n)->0).len() == bs.len(),
{
    let r = sunk(bs, n)->0;
    assert forall|i: int| 0 <= i < r.len() implies block_shape(#[trigger] r[i], z) && r[i].id.0
        == i by {
        let b = bs[i];
        assert(sunk_block(bs, i) is Some);
        let keep = unsunk(bs, i);
        lemma_compact_shape(b, keep, z);
        let c = compacted(b, keep)->0;
        let ins = sunk_into(bs, i, bs.len() as int);
        lemma_sunk_into(bs, i, bs.len() as int);
        let d = prepended(c, ins)->0;
        if ins.len() > 0 {
            assert forall|j: int| 0 <= j < d.code.len() implies shape_ok(#[trigger] d.code[j], z) by {
                if j < ins.len() {
                    assert(d.code[j] == ins[j]);
                } else {
                    assert(d.code[j] == c.code[j - ins.len()]);
                }
            }
            assert forall|j: int| 0 <= j < d.deopt_sites.len() implies site_ok(
                #[trigger] d.deopt_sites[j],
                d.code,
            ) by {
                let s = c.deopt_sites[j];
                assert(site_ok(s, c.code));
                assert(s.0 + ins.len() <= u32::MAX);
                assert(d.code[s.0 + ins.len()] == c.code[s.0 as int]);
            }
        }
        assert(r[i] == d);
    }
}

pub(crate) proof fn lemma_dead_boxes(bs: Seq<BlockView>, n: nat, z: Sizes)
    requires
        blocks_shape(bs, z),
        without_dead_boxes(bs, n) is Some,
    ensures
        blocks_shape(without_dead_boxes(bs, n)->0, z),
        (without_dead_boxes(bs, n)->0).len() == bs.len(),
{
    let refs = all_refs(bs);
    let f = |b: BlockView| compacted(b, live_flags(refs, b));
    assert forall|b: BlockView| block_shape(b, z) && (#[trigger] f(b)) is Some implies block_shape(
        f(b)->0,
        z,
    ) && (f(b)->0).id == b.id by {
        lemma_compact_shape(b, live_flags(refs, b), z);
    }
    lemma_map_shape(bs, f, bs.len() as int, z);
}

pub(crate) proof fn lemma_code_below(c: Seq<IrView>, n: nat)
    ensures
        below(code_reads(c), n) <==> forall|i: int| 0 <= i < c.len() ==> below(#[trigger] c[i].reads(), n),
    decreases c.len(),
{
    if c.len() > 0 {
        let d = c.drop_last();
        lemma_code_below(d, n);
        let a = code_reads(d);
        let b = c.last().reads();
        assert(below(code_reads(c), n) <==> below(a, n) && below(b, n)) by {
            lemma_below_concat(a, b, n);
        }
        if below(code_reads(c), n) {
            assert forall|i: int| 0 <= i < c.len() implies below(#[trigger] c[i].reads(), n) by {
                if i < d.len() {
                    assert(d[i] == c[i]);
                    assert(below(d[i].reads(), n));
                }
            }
        }
        if forall|i: int| 0 <= i < c.len() ==> below(#[trigger] c[i].reads(), n) {
            assert forall|i: int| 0 <= i < d.len() implies below(#[trigger] d[i].reads(), n) by {
                assert(below(c[i].reads(), n));
            }
            assert(below(c[c.len() - 1].reads(), n));
        }
    }
}

pub(crate) proof fn lemma_below_concat(a: Seq<VReg>, b: Seq<VReg>, n: nat)
    ensures
        below(a + b, n) <==> below(a, n) && below(b, n),
{
    if below(a + b, n) {
        assert forall|k: int| 0 <= k < a.len() implies (#[trigger] a[k]).0 < n by {
            assert((a + b)[k] == a[k]);
        }
        assert forall|k: int| 0 <= k < b.len() implies (#[trigger] b[k]).0 < n by {
            assert((a + b)[a.len() + k] == b[k]);
        }
    }
}

pub(crate) proof fn lemma_sites_refs_same(a: Seq<(u32, DeoptView)>, b: Seq<(u32, DeoptView)>)
    requires
        a.len() == b.len(),
        forall|k: int| 0 <= k < a.len() ==> (#[trigger] a[k]).1 == b[k].1,
    ensures
        sites_refs(a) == sites_refs(b),
    decreases a.len(),
{
    if a.len() > 0 {
        assert forall|k: int| 0 <= k < a.drop_last().len() implies (
        #[trigger] a.drop_last()[k]).1 == b.drop_last()[k].1 by {
            assert(a[k].1 == b[k].1);
        }
        lemma_sites_refs_same(a.drop_last(), b.drop_last());
        assert(a[a.len() - 1].1 == b[b.len() - 1].1);
    }
}

pub(crate) proof fn lemma_compact_below(b: BlockView, keep: Seq<bool>, n: nat, z: Sizes)
    requires
        block_shape(b, z),
        block_below(b, n),
        compacted(b, keep) is Some,
        keeps_sites(b.code, keep),
    ensures
        block_below(compacted(b, keep)->0, n),
{
    lemma_compacted(b, keep);
    let c = compacted(b, keep)->0;
    lemma_block_parts_below(b, n);
    lemma_code_below(b.code, n);
    lemma_code_below(c.code, n);
    assert forall|i: int| 0 <= i < c.code.len() implies below(#[trigger] c.code[i].reads(), n)
        && write_below(c.code[i], n) by {
        assert(b.code.contains(c.code[i]));
        let j = choose|j: int| 0 <= j < b.code.len() && b.code[j] == c.code[i];
        assert(below(b.code[j].reads(), n));
        assert(write_below(b.code[j], n));
    }
    lemma_sites_refs_same(c.deopt_sites, b.deopt_sites);
    lemma_below_concat(code_reads(c.code), sites_refs(c.deopt_sites), n);
    lemma_below_concat(code_reads(c.code) + sites_refs(c.deopt_sites), c.entry_stack, n);
}

/// Dropping boxes that nothing refers to leaves only registers that exist.
proof fn lemma_dead_boxes_below(bs: Seq<BlockView>, n: nat, z: Sizes)
    requires
        blocks_shape(bs, z),
        without_dead_boxes(bs, n) is Some,
    ensures
        blocks_below(without_dead_boxes(bs, n)->0, n),
{
    let refs = all_refs(bs);
    let f = |b: BlockView| compacted(b, live_flags(refs, b));
    let k = bs.len() as int;
    let r = map_blocks(bs, f, k)->0;
    lemma_dead_boxes(bs, n, z);
    assert forall|i: int| 0 <= i < r.len() implies block_below(#[trigger] r[i], n) by {
        lemma_map_at(bs, f, i, k);
        assert(block_below(bs[i], n));
        assert(block_shape(bs[i], z));
        lemma_compact_below(bs[i], live_flags(refs, bs[i]), n, z);
    }
}

/// What a block-wise pass makes of one block.
pub(crate) proof fn lemma_map_at(
    bs: Seq<BlockView>,
    f: spec_fn(BlockView) -> Option<BlockView>,
    i: int,
    k: int,
)
    requires
        0 <= i < k <= bs.len(),
        map_blocks(bs, f, k) is Some,
    ensures
        (map_blocks(bs, f, k)->0).len() == bs.len(),
        f(bs[i]) == Some((map_blocks(bs, f, k)->0)[i]),
    decreases k,
{
    lemma_map_blocks(bs, f, k - 1, k);
    if i < k - 1 {
        lemma_map_at(bs, f, i, k - 1);
    }
}

/// The reduction of float boxes keeps everything but registers in place.
pub(crate) proof fn lemma_reduced(vm: VmState, m: MethodView, osr_bci: Option<u16>, z: Sizes)
    requires
        blocks_shape(m.blocks, z),
        reduced(vm, m, osr_bci) is Some,
    ensures
        ({
            let r = reduced(vm, m, osr_bci)->0;
            &&& blocks_shape(r.blocks, z)
            &&& r.blocks.len() == m.blocks.len()
            &&& blocks_below(r.blocks, r.vregs.len())
            &&& kinds_ok(m.vregs) ==> kinds_ok(r.vregs)
            &&& r == (MethodView { blocks: r.blocks, vregs: r.vregs, ..m })
        }),
{
    lemma_cancelled(m.blocks, z);
    let ma = with_blocks(m, cancelled(m.blocks))->0;
    lemma_folded(vm, ma, z);
    let m1 = local_reduced(vm, m)->0;
    if vm.splice_promote {
        lemma_float_trees(vm, m1, osr_bci, z);
    } else if osr_bci is None {
        lemma_float_temps(vm, m1, z);
    }
    let m2 = promoted(vm, m1, osr_bci)->0;
    lemma_sunk(m2.blocks, m2.vregs.len(), z);
    let m3 = with_blocks(m2, sunk(m2.blocks, m2.vregs.len()))->0;
    lemma_dead_boxes(m3.blocks, m3.vregs.len(), z);
    lemma_dead_boxes_below(m3.blocks, m3.vregs.len(), z);
    if kinds_ok(m.vregs) {
        lemma_promoted_kinds(vm, m1, osr_bci);
    }
}

proof fn lemma_reboxed_kinds(
    flags: Seq<bool>,
    bs: Seq<BlockView>,
    vregs: Seq<VRegInfo>,
    k: int,
)
    requires
        kinds_ok(vregs),
    ensures
        kinds_ok(reboxed(flags, bs, vregs, k).1),
    decreases k,
{
    if k > 0 {
        lemma_reboxed_kinds(flags, bs, vregs, k - 1);
    }
}

/// Promotion makes objects into doubles, never into both.
proof fn lemma_promoted_kinds(vm: VmState, m: MethodView, osr_bci: Option<u16>)
    requires
        kinds_ok(m.vregs),
        promoted(vm, m, osr_bci) is Some,
    ensures
        kinds_ok((promoted(vm, m, osr_bci)->0).vregs),
{
    if vm.splice_promote {
        let w = web_of(vm, m, osr_bci);
        let n = m.vregs.len();
        let (roots, flags) = promoted_trees(w, n as int);
        let f = |b: BlockView| retarget_block(w, roots, flags, b);
        let bs1 = map_blocks(m.blocks, f, m.blocks.len() as int)->0;
        let bs2 = swept(w, bs1, hop_flags(w, roots), n)->0;
        let vregs = Seq::new(
            n,
            |v: int|
                if flags[v] {
                    VRegInfo { is_oop: false, is_fp: true }
                } else {
                    m.vregs[v]
                },
        );
        lemma_reboxed_kinds(flags, bs2, vregs, bs2.len() as int);
    }
}

} // verus!

//! What the reduction of float boxes leaves behind: no box that nothing needs, no box that its own
//! block unboxes again, and every deoptimization site as it was, at the operation where it was.

use vstd::prelude::*;
use crate::boxes::{
    cancel, cancelled, cancelled_block, const_doubles, fold_block, fold_op, folded,
    lemma_map_blocks, map_blocks, prepended, subst, subst_fp, sunk, sunk_block, sunk_from,
    live_flags, sunk_into, trap_only, unsunk, without_dead_boxes,
};
use crate::ir::{BlockView, Ir, IrView, MethodView, PoolEntry, PoolLit, VReg, VRegInfo};
use crate::kinds::{blocks_fit, code_fits, op_fits, unboxed};
use crate::passes::{
    all_entries, all_named, all_reads, all_refs, below, block_below, blocks_below, code_reads,
    compacted, kept, lemma_block_parts_below, lemma_contains_concat, lemma_kept_bound,
    lemma_refs_split, selected, sites_refs, write_below,
};
use crate::promote::{
    all_defs, box_sources, boxes_in, code_defs, def_of, lemma_ops_below, lemma_reads_in_code,
    lemma_reread_below, op_below, promote_block, promote_code, promote_op, promoted_flags, reread,
    reread_after, with_float_temps, DefKind,
};
use crate::reduce::{local_reduced, promoted, reduced};
use crate::sound_passes::{
    at_site, block_shape, blocks_shape, lemma_below_concat, lemma_code_below, lemma_map_at,
    lemma_selected, lemma_sites_refs_same, site_ok, Sizes,
};
use crate::splice_promote::{
    chase, copy_sources, in_tree, only_copied, outside_source, planned, promoted_trees, reboxed,
    hop_flags, retarget_block, retarget_code, retarget_op, swept, tree_member, tree_promotable,
    web_of, with_float_trees, without_copies_to, Root, Web,
};
use crate::world::VmState;

verus! {

/// A set of registers, looked at only where `on`; with `plain`, what is boxed has to be outside.
pub ghost struct Marks {
    pub on: bool,
    pub plain: bool,
    pub at: spec_fn(u32) -> bool,
}

impl Marks {
    pub open spec fn has(self, v: u32) -> bool {
        self.on && (self.at)(v)
    }
}

/// The operation that site `k` of a block stands at.
pub open spec fn site_op(b: BlockView, k: int) -> IrView {
    b.code[b.deopt_sites[k].0 as int]
}

/// Block `c` has the sites of block `b`: in order, with their data, each at the operation where it
/// was.
pub open spec fn sites_kept(b: BlockView, c: BlockView) -> bool {
    &&& c.deopt_sites.len() == b.deopt_sites.len()
    &&& forall|k: int|
        0 <= k < b.deopt_sites.len() ==> (#[trigger] c.deopt_sites[k]).1 == b.deopt_sites[k].1
            && c.deopt_sites[k].0 < c.code.len() && site_op(c, k) == site_op(b, k)
}

/// `b` unboxes what `a` boxes.
pub open spec fn undoes(a: IrView, b: IrView) -> bool {
    match (a, b) {
        (Ir::FBox { dst, .. }, Ir::FUnbox { src, .. }) => dst == src,
        _ => false,
    }
}

/// No box is followed by its own unboxing.
pub open spec fn no_rebox(code: Seq<IrView>) -> bool {
    forall|i: int, j: int|
        0 <= i < j < code.len() ==> !undoes(#[trigger] code[i], #[trigger] code[j])
}

/// Boxes go into marked registers and, where that is asked, are made of others.
pub open spec fn box_clean(op: IrView, d: Marks) -> bool {
    match op {
        Ir::FBox { dst, src } => (d.on ==> d.has(dst.0)) && (d.plain ==> !d.has(src.0)),
        _ => true,
    }
}

pub open spec fn clean(code: Seq<IrView>, d: Marks) -> bool {
    forall|i: int| 0 <= i < code.len() ==> box_clean(#[trigger] code[i], d)
}

/// What a rewriting makes of one operation: boxes and unboxings stay what they are and read what they
/// read or an unmarked register, operations with sites stay as they are, registers exist, and no more
/// of them are read.
pub open spec fn step_ok(a: IrView, b: IrView, d: Marks, n: nat) -> bool {
    &&& b matches Ir::FUnbox { dst, src, .. } ==> (a matches Ir::FUnbox { dst: x, src: y, .. } && x
        == dst && (src == y || !d.has(src.0)))
    &&& b matches Ir::FBox { dst, src } ==> (a matches Ir::FBox { dst: x, src: y } && x == dst && (
    d.plain ==> src == y || !d.has(src.0)))
    &&& b is ConstPool ==> b == a
    &&& op_below(a, n) ==> op_below(b, n)
    &&& at_site(a) ==> b == a
    &&& b.reads().len() <= a.reads().len()
}

pub open spec fn steps_ok(a: Seq<IrView>, b: Seq<IrView>, d: Marks, n: nat) -> bool {
    &&& a.len() == b.len()
    &&& forall|i: int| 0 <= i < a.len() ==> step_ok(a[i], #[trigger] b[i], d, n)
}

pub(crate) proof fn lemma_steps_trans(
    a: Seq<IrView>,
    b: Seq<IrView>,
    c: Seq<IrView>,
    d: Marks,
    n: nat,
)
    requires
        steps_ok(a, b, d, n),
        steps_ok(b, c, d, n),
    ensures
        steps_ok(a, c, d, n),
{
    assert forall|i: int| 0 <= i < a.len() implies step_ok(a[i], #[trigger] c[i], d, n) by {
        assert(step_ok(a[i], b[i], d, n));
        assert(step_ok(b[i], c[i], d, n));
    }
}

pub(crate) proof fn lemma_steps_clean(a: Seq<IrView>, b: Seq<IrView>, d: Marks, n: nat)
    requires
        steps_ok(a, b, d, n),
        clean(a, d),
    ensures
        clean(b, d),
        d.on ==> forall|i: int, j: int|
            0 <= i < j < a.len() && !undoes(a[i], a[j]) ==> !undoes(#[trigger] b[i], #[trigger] b[j]),
{
    assert forall|i: int| 0 <= i < b.len() implies box_clean(#[trigger] b[i], d) by {
        assert(step_ok(a[i], b[i], d, n));
        assert(box_clean(a[i], d));
    }
    assert forall|i: int, j: int|
        d.on && 0 <= i < j < a.len() && !undoes(a[i], a[j]) implies !undoes(
        #[trigger] b[i],
        #[trigger] b[j],
    ) by {
        assert(step_ok(a[i], b[i], d, n));
        assert(step_ok(a[j], b[j], d, n));
        assert(box_clean(a[i], d));
    }
}

/// `x` is one of the first `n` operations, and kept.
pub open spec fn kept_op(code: Seq<IrView>, keep: Seq<bool>, n: int, x: IrView) -> bool {
    exists|a: int| 0 <= a < n && keep[a] && #[trigger] code[a] == x
}

/// `x` and, after it, `y` are among the first `n` operations, and kept.
spec fn kept_pair(code: Seq<IrView>, keep: Seq<bool>, n: int, x: IrView, y: IrView) -> bool {
    exists|a: int, b: int|
        0 <= a < b < n && keep[a] && keep[b] && #[trigger] code[a] == x && #[trigger] code[b] == y
}

/// Operations that were kept stand in their old order.
proof fn lemma_selected_order(code: Seq<IrView>, keep: Seq<bool>, n: int)
    requires
        0 <= n <= code.len(),
        n <= keep.len(),
    ensures
        forall|i: int|
            0 <= i < selected(code, keep, n).len() ==> kept_op(
                code,
                keep,
                n,
                #[trigger] selected(code, keep, n)[i],
            ),
        forall|i: int, j: int|
            0 <= i < j < selected(code, keep, n).len() ==> kept_pair(
                code,
                keep,
                n,
                #[trigger] selected(code, keep, n)[i],
                #[trigger] selected(code, keep, n)[j],
            ),
    decreases n,
{
    if n > 0 {
        lemma_selected_order(code, keep, n - 1);
        let s = selected(code, keep, n - 1);
        let t = selected(code, keep, n);
        assert forall|i: int| 0 <= i < t.len() implies kept_op(code, keep, n, #[trigger] t[i]) by {
            if i < s.len() {
                assert(t[i] == s[i]);
                assert(kept_op(code, keep, n - 1, s[i]));
            } else {
                assert(code[n - 1] == t[i]);
            }
        }
        assert forall|i: int, j: int| 0 <= i < j < t.len() implies kept_pair(
            code,
            keep,
            n,
            #[trigger] t[i],
            #[trigger] t[j],
        ) by {
            assert(t[i] == s[i]);
            if j < s.len() {
                assert(t[j] == s[j]);
                assert(kept_pair(code, keep, n - 1, s[i], s[j]));
            } else {
                assert(kept_op(code, keep, n - 1, s[i]));
                let a = choose|a: int| 0 <= a < n - 1 && keep[a] && #[trigger] code[a] == s[i];
                assert(code[a] == t[i] && code[n - 1] == t[j]);
            }
        }
    }
}

pub(crate) proof fn lemma_selected_reads(code: Seq<IrView>, keep: Seq<bool>, n: int)
    requires
        0 <= n <= code.len(),
    ensures
        code_reads(selected(code, keep, n)).len() <= code_reads(code.take(n)).len(),
    decreases n,
{
    if n > 0 {
        lemma_selected_reads(code, keep, n - 1);
        assert(code.take(n).drop_last() =~= code.take(n - 1));
        assert(code.take(n).last() == code[n - 1]);
        if keep[n - 1] {
            let s = selected(code, keep, n - 1);
            assert(selected(code, keep, n).drop_last() =~= s);
        }
    } else {
        assert(code.take(0) =~= seq![]);
    }
}

proof fn lemma_steps_reads(a: Seq<IrView>, b: Seq<IrView>, d: Marks, n: nat, k: int)
    requires
        steps_ok(a, b, d, n),
        0 <= k <= a.len(),
    ensures
        code_reads(b.take(k)).len() <= code_reads(a.take(k)).len(),
    decreases k,
{
    if k > 0 {
        lemma_steps_reads(a, b, d, n, k - 1);
        assert(a.take(k).drop_last() =~= a.take(k - 1));
        assert(b.take(k).drop_last() =~= b.take(k - 1));
        assert(step_ok(a[k - 1], b[k - 1], d, n));
    } else {
        assert(a.take(0) =~= seq![]);
        assert(b.take(0) =~= seq![]);
    }
}

/// What a pass makes of one block.
pub open spec fn block_step(b: BlockView, c: BlockView, d: Marks, n: nat) -> bool {
    &&& sites_kept(b, c)
    &&& c.id == b.id
    &&& c.entry_stack == b.entry_stack
    &&& block_below(b, n) ==> block_below(c, n)
    &&& clean(c.code, d)
    &&& d.on ==> no_rebox(c.code)
    &&& c.code.len() <= b.code.len()
    &&& code_reads(c.code).len() <= code_reads(b.code).len()
}

/// Rewriting the operations of a block and dropping some of them.
pub(crate) proof fn lemma_compact_step(
    b: BlockView,
    code: Seq<IrView>,
    keep: Seq<bool>,
    d: Marks,
    n: nat,
)
    requires
        steps_ok(b.code, code, d, n),
        keep.len() == code.len(),
        forall|i: int| 0 <= i < code.len() && at_site(b.code[i]) ==> #[trigger] keep[i],
        forall|k: int|
            0 <= k < b.deopt_sites.len() ==> site_ok(#[trigger] b.deopt_sites[k], b.code),
        clean(b.code, d),
        d.on ==> forall|i: int, j: int|
            0 <= i < j < code.len() && keep[i] && keep[j] ==> !undoes(
                #[trigger] code[i],
                #[trigger] code[j],
            ),
    ensures
        compacted(BlockView { code, ..b }, keep) is Some,
        block_step(b, compacted(BlockView { code, ..b }, keep)->0, d, n),
        forall|j: int|
            0 <= j < (compacted(BlockView { code, ..b }, keep)->0).code.len() ==> code.contains(
                #[trigger] (compacted(BlockView { code, ..b }, keep)->0).code[j],
            ),
{
    let x = BlockView { code, ..b };
    let len = code.len() as int;
    assert forall|k: int| 0 <= k < b.deopt_sites.len() implies (#[trigger] x.deopt_sites[k]).0
        < len by {
        assert(site_ok(b.deopt_sites[k], b.code));
    }
    let c = compacted(x, keep)->0;
    lemma_steps_clean(b.code, code, d, n);
    lemma_steps_reads(b.code, code, d, n, len);
    assert(code.take(len) =~= code);
    assert(b.code.take(len) =~= b.code);
    if forall|i: int| 0 <= i < code.len() ==> keep[i] {
        assert(c == x);
        assert forall|k: int| 0 <= k < b.deopt_sites.len() implies (
        #[trigger] c.deopt_sites[k]).1 == b.deopt_sites[k].1 && c.deopt_sites[k].0 < c.code.len()
            && site_op(c, k) == site_op(b, k) by {
            let s = b.deopt_sites[k];
            assert(site_ok(s, b.code));
            assert(step_ok(b.code[s.0 as int], code[s.0 as int], d, n));
        }
        assert forall|j: int| 0 <= j < c.code.len() implies code.contains(#[trigger] c.code[j]) by {
            assert(code[j] == c.code[j]);
        }
    } else {
        lemma_selected(code, keep, len);
        lemma_selected_order(code, keep, len);
        lemma_selected_reads(code, keep, len);
        lemma_kept_bound(keep, len);
        assert forall|k: int| 0 <= k < b.deopt_sites.len() implies (
        #[trigger] c.deopt_sites[k]).1 == b.deopt_sites[k].1 && c.deopt_sites[k].0 < c.code.len()
            && site_op(c, k) == site_op(b, k) by {
            let s = b.deopt_sites[k];
            assert(site_ok(s, b.code));
            let i = s.0 as int;
            assert(step_ok(b.code[i], code[i], d, n));
            assert(keep[i]);
            lemma_kept_bound(keep, i);
        }
        assert forall|j: int| 0 <= j < c.code.len() implies box_clean(#[trigger] c.code[j], d) by {
            assert(code.contains(c.code[j]));
            let i = choose|i: int| 0 <= i < code.len() && code[i] == c.code[j];
            assert(box_clean(code[i], d));
        }
        assert forall|i: int, j: int| d.on && 0 <= i < j < c.code.len() implies !undoes(
            #[trigger] c.code[i],
            #[trigger] c.code[j],
        ) by {
            assert(kept_pair(code, keep, len, c.code[i], c.code[j]));
            let (a, e) = choose|a: int, e: int|
                0 <= a < e < len && keep[a] && keep[e] && #[trigger] code[a] == c.code[i]
                    && #[trigger] code[e] == c.code[j];
            assert(!undoes(code[a], code[e]));
        }
    }
    if block_below(b, n) {
        lemma_block_parts_below(b, n);
        lemma_ops_below(b, n);
        assert forall|j: int| 0 <= j < c.code.len() implies below(#[trigger] c.code[j].reads(), n)
            && write_below(c.code[j], n) by {
            assert(code.contains(c.code[j]));
            let i = choose|i: int| 0 <= i < code.len() && code[i] == c.code[j];
            assert(step_ok(b.code[i], code[i], d, n));
            assert(op_below(b.code[i], n));
        }
        lemma_code_below(c.code, n);
        lemma_sites_refs_same(c.deopt_sites, b.deopt_sites);
        lemma_below_concat(code_reads(c.code), sites_refs(c.deopt_sites), n);
        lemma_below_concat(code_reads(c.code) + sites_refs(c.deopt_sites), c.entry_stack, n);
    }
}

/// Cancelling, operation by operation.
pub(crate) proof fn lemma_cancel_steps(code: Seq<IrView>, k: int, d: Marks, n: nat)
    requires
        0 <= k <= code.len(),
        clean(code, d),
        forall|i: int| 0 <= i < code.len() ==> op_below(#[trigger] code[i], n),
    ensures
        ({
            let c = cancel(code, k);
            &&& steps_ok(code, c.code, d, n)
            &&& c.keep.len() == k
            &&& forall|i: int| k <= i < code.len() ==> #[trigger] c.code[i] == code[i]
            &&& forall|i: int| 0 <= i < k && !(#[trigger] c.keep[i]) ==> code[i] is FUnbox
            &&& forall|v: u32| #[trigger]
                c.boxed.dom().contains(v) ==> (d.plain ==> !d.has(c.boxed[v].0)) && c.boxed[v].0 < n
            &&& forall|v: u32| #[trigger]
                c.unboxed.dom().contains(v) ==> (d.plain ==> !d.has(c.unboxed[v].0)) && c.unboxed[v].0 < n
            &&& forall|i: int|
                0 <= i < k ==> (#[trigger] c.code[i] matches Ir::FBox { dst, .. }
                    ==> c.boxed.dom().contains(dst.0))
            &&& forall|i: int, j: int|
                0 <= i < j < k && c.keep[j] ==> !undoes(#[trigger] c.code[i], #[trigger] c.code[j])
        }),
    decreases k,
{
    if k > 0 {
        lemma_cancel_steps(code, k - 1, d, n);
        let p = cancel(code, k - 1);
        let c = cancel(code, k);
        let a = p.code[k - 1];
        let op = subst_fp(p.unboxed, a);
        assert(a == code[k - 1]);
        assert(box_clean(code[k - 1], d));
        assert(c.code == p.code.update(k - 1, op));
        assert(op_below(code[k - 1], n));
        assert(below(op.reads(), n)) by {
            let r = a.reads();
            let q = op.reads();
            assert(q.len() == r.len());
            assert forall|x: int| 0 <= x < q.len() implies (#[trigger] q[x]).0 < n by {
                assert(r[x].0 < n);
                assert(q[x] == r[x] || q[x] == subst(p.unboxed, r[x]));
            }
        }
        assert(op.write() == a.write());
        assert(step_ok(a, op, d, n));
        assert(box_clean(op, d));
        assert(op_below(op, n));
        assert forall|i: int| 0 <= i < code.len() implies step_ok(
            code[i],
            #[trigger] c.code[i],
            d,
            n,
        ) by {
            if i != k - 1 {
                assert(c.code[i] == p.code[i]);
                assert(step_ok(code[i], p.code[i], d, n));
            }
        }
        if let Ir::FBox { dst, src } = op {
            assert(op.reads()[0] == src);
        }
        assert forall|i: int, j: int| 0 <= i < j < k && c.keep[j] implies !undoes(
            #[trigger] c.code[i],
            #[trigger] c.code[j],
        ) by {
            assert(c.code[i] == p.code[i]);
            if j < k - 1 {
                assert(c.code[j] == p.code[j]);
                assert(p.keep[j] == c.keep[j]);
            }
        }
        assert forall|i: int| 0 <= i < k implies (#[trigger] c.code[i] matches Ir::FBox { dst, .. }
            ==> c.boxed.dom().contains(dst.0)) by {
            if i < k - 1 {
                assert(c.code[i] == p.code[i]);
            }
        }
        assert forall|i: int| 0 <= i < k && !(#[trigger] c.keep[i]) implies code[i] is FUnbox by {
            if i < k - 1 {
                assert(c.keep[i] == p.keep[i]);
            }
        }
    }
}

/// A block as the passes take it: its sites stand at their operations, its registers exist, and its
/// boxes are clean.
pub open spec fn block_fit(b: BlockView, d: Marks, n: nat) -> bool {
    &&& forall|k: int|
        0 <= k < b.deopt_sites.len() ==> site_ok(#[trigger] b.deopt_sites[k], b.code)
    &&& block_below(b, n)
    &&& clean(b.code, d)
}

pub open spec fn list_fit(bs: Seq<BlockView>, d: Marks, n: nat) -> bool {
    forall|i: int| 0 <= i < bs.len() ==> block_fit(#[trigger] bs[i], d, n)
}

pub open spec fn all_no_rebox(bs: Seq<BlockView>) -> bool {
    forall|i: int| 0 <= i < bs.len() ==> no_rebox((#[trigger] bs[i]).code)
}

pub open spec fn list_step(bs: Seq<BlockView>, cs: Seq<BlockView>, d: Marks, n: nat) -> bool {
    &&& cs.len() == bs.len()
    &&& forall|i: int| 0 <= i < bs.len() ==> block_step(bs[i], #[trigger] cs[i], d, n)
}

proof fn lemma_block_step_fit(b: BlockView, c: BlockView, d: Marks, n: nat)
    requires
        block_fit(b, d, n),
        block_step(b, c, d, n),
    ensures
        block_fit(c, d, n),
{
    assert forall|k: int| 0 <= k < c.deopt_sites.len() implies site_ok(
        #[trigger] c.deopt_sites[k],
        c.code,
    ) by {
        assert(site_ok(b.deopt_sites[k], b.code));
        assert(site_op(c, k) == site_op(b, k));
    }
}

pub(crate) proof fn lemma_list_step_fit(bs: Seq<BlockView>, cs: Seq<BlockView>, d: Marks, n: nat)
    requires
        list_fit(bs, d, n),
        list_step(bs, cs, d, n),
    ensures
        list_fit(cs, d, n),
        d.on ==> all_no_rebox(cs),
{
    assert forall|i: int| 0 <= i < cs.len() implies block_fit(#[trigger] cs[i], d, n) && (d.on
        ==> no_rebox(cs[i].code)) by {
        assert(block_fit(bs[i], d, n));
        lemma_block_step_fit(bs[i], cs[i], d, n);
    }
}

pub(crate) proof fn lemma_list_step_trans(
    a: Seq<BlockView>,
    b: Seq<BlockView>,
    c: Seq<BlockView>,
    d: Marks,
    n: nat,
)
    requires
        list_step(a, b, d, n),
        list_step(b, c, d, n),
    ensures
        list_step(a, c, d, n),
{
    assert forall|i: int| 0 <= i < a.len() implies block_step(a[i], #[trigger] c[i], d, n) by {
        assert(block_step(a[i], b[i], d, n));
        assert(block_step(b[i], c[i], d, n));
        assert forall|k: int| 0 <= k < a[i].deopt_sites.len() implies (
        #[trigger] c[i].deopt_sites[k]).1 == a[i].deopt_sites[k].1 && c[i].deopt_sites[k].0
            < c[i].code.len() && site_op(c[i], k) == site_op(a[i], k) by {
            assert(b[i].deopt_sites[k].1 == a[i].deopt_sites[k].1);
        }
    }
}

/// A pass that treats each block by itself and refuses none of them.
pub(crate) proof fn lemma_map_total(
    bs: Seq<BlockView>,
    f: spec_fn(BlockView) -> Option<BlockView>,
    k: int,
)
    requires
        0 <= k <= bs.len(),
        forall|i: int| 0 <= i < bs.len() ==> f(#[trigger] bs[i]) is Some,
    ensures
        map_blocks(bs, f, k) is Some,
        (map_blocks(bs, f, k)->0).len() == bs.len(),
        forall|i: int| 0 <= i < k ==> f(bs[i]) == Some(#[trigger] (map_blocks(bs, f, k)->0)[i]),
        forall|i: int| k <= i < bs.len() ==> #[trigger] (map_blocks(bs, f, k)->0)[i] == bs[i],
    decreases k,
{
    if k > 0 {
        lemma_map_total(bs, f, k - 1);
        let done = map_blocks(bs, f, k - 1)->0;
        assert(done[k - 1] == bs[k - 1]);
        assert(f(bs[k - 1]) is Some);
        let r = map_blocks(bs, f, k)->0;
        assert forall|i: int| 0 <= i < k implies f(bs[i]) == Some(#[trigger] r[i]) by {
            if i < k - 1 {
                assert(r[i] == done[i]);
            }
        }
        assert forall|i: int| k <= i < bs.len() implies #[trigger] r[i] == bs[i] by {
            assert(r[i] == done[i]);
        }
    }
}

/// Cancelling takes every method.
pub(crate) proof fn lemma_cancelled_step(bs: Seq<BlockView>, d: Marks, n: nat)
    requires
        list_fit(bs, d, n),
    ensures
        cancelled(bs) is Some,
        list_step(bs, cancelled(bs)->0, d, n),
{
    let f = |b: BlockView| cancelled_block(b);
    assert forall|i: int| 0 <= i < bs.len() implies f(#[trigger] bs[i]) is Some && block_step(
        bs[i],
        f(bs[i])->0,
        d,
        n,
    ) by {
        let b = bs[i];
        assert(block_fit(b, d, n));
        let k = b.code.len() as int;
        lemma_ops_below(b, n);
        lemma_cancel_steps(b.code, k, d, n);
        let c = cancel(b.code, k);
        lemma_compact_step(b, c.code, c.keep, d, n);
    }
    lemma_map_total(bs, f, bs.len() as int);
    let r = cancelled(bs)->0;
    assert forall|i: int| 0 <= i < bs.len() implies block_step(bs[i], #[trigger] r[i], d, n) by {
        assert(f(bs[i]) == Some(r[i]));
    }
}

/// So does folding, where the literals exist.
pub(crate) proof fn lemma_folded_step(
    vm: VmState,
    pool: Seq<PoolEntry>,
    bs: Seq<BlockView>,
    d: Marks,
    n: nat,
)
    requires
        list_fit(bs, d, n),
        d.on ==> all_no_rebox(bs),
        folded(vm, pool, bs) is Some,
    ensures
        list_step(bs, folded(vm, pool, bs)->0, d, n),
{
    let known = const_doubles(vm, pool, bs, bs.len() as int);
    let r = folded(vm, pool, bs)->0;
    assert forall|i: int| 0 <= i < bs.len() implies block_step(bs[i], #[trigger] r[i], d, n) by {
        let b = bs[i];
        assert(block_fit(b, d, n));
        assert(d.on ==> no_rebox(b.code));
        let code = fold_block(known, b).code;
        assert forall|j: int| 0 <= j < code.len() implies step_ok(
            b.code[j],
            #[trigger] code[j],
            d,
            n,
        ) by {
            assert(code[j] == fold_op(known, b.code[j]));
        }
        lemma_steps_clean(b.code, code, d, n);
        let keep = Seq::new(code.len(), |j: int| true);
        lemma_compact_step(b, code, keep, d, n);
        assert(r[i] == (BlockView { code, ..b }));
    }
}

/// Replacing reads of an unboxed value by an unmarked register.
pub(crate) proof fn lemma_reread_steps(
    code: Seq<IrView>,
    i: int,
    from: VReg,
    to: VReg,
    d: Marks,
    n: nat,
)
    requires
        to.0 < n,
        !d.has(to.0),
    ensures
        steps_ok(code, reread_after(code, i, from, to), d, n),
{
    let c = reread_after(code, i, from, to);
    assert forall|j: int| 0 <= j < code.len() implies step_ok(code[j], #[trigger] c[j], d, n) by {
        if j > i {
            let op = reread(code[j], from, to);
            if op_below(code[j], n) {
                lemma_reread_below(code[j], from, to, n);
            }
            assert(op.reads().len() == code[j].reads().len());
        }
    }
}

/// Promoting temporaries, operation by operation.
pub(crate) proof fn lemma_promote_steps(
    code: Seq<IrView>,
    k: int,
    promoted: Seq<bool>,
    boxes: Map<u32, VReg>,
    doubles: Map<u32, u64>,
    d: Marks,
    n: nat,
)
    requires
        0 <= k <= code.len(),
        promote_code(code, k, promoted, boxes, doubles) is Some,
        promoted.len() == n,
        forall|v: int| 0 <= v < n && #[trigger] promoted[v] ==> !d.has(v as u32),
        forall|v: u32| #[trigger] boxes.dom().contains(v) ==> boxes[v].0 < n,
        forall|i: int| 0 <= i < code.len() ==> op_below(#[trigger] code[i], n),
    ensures
        ({
            let (c, keep) = promote_code(code, k, promoted, boxes, doubles)->0;
            &&& steps_ok(code, c, d, n)
            &&& keep.len() == k
            &&& forall|i: int| 0 <= i < k && !(#[trigger] keep[i]) ==> code[i] is FUnbox
        }),
    decreases k,
{
    if k > 0 {
        lemma_promote_steps(code, k - 1, promoted, boxes, doubles, d, n);
        let (c, keep) = promote_code(code, k - 1, promoted, boxes, doubles)->0;
        let (c1, x) = promote_op(c, k - 1, promoted, boxes, doubles)->0;
        let op = c[k - 1];
        assert(step_ok(code[k - 1], op, d, n));
        assert(op_below(code[k - 1], n));
        match op {
            Ir::FUnbox { dst, src, .. } => {
                assert(op.reads()[0] == src);
                if promoted[src.0 as int] {
                    assert(!d.has(src.0 as int as u32));
                    lemma_reread_steps(c, k - 1, dst, src, d, n);
                }
            },
            _ => {
                assert forall|i: int| 0 <= i < c.len() implies step_ok(
                    c[i],
                    #[trigger] c1[i],
                    d,
                    n,
                ) by {
                    if i != k - 1 {
                        assert(c1[i] == c[i]);
                    }
                }
            },
        }
        assert(steps_ok(c, c1, d, n));
        lemma_steps_trans(code, c, c1, d, n);
        assert forall|i: int| 0 <= i < k && !(#[trigger] keep.push(x)[i]) implies code[i] is FUnbox by {
            if i < k - 1 {
                assert(keep[i] == keep.push(x)[i]);
            }
        }
    } else {
        assert forall|i: int| 0 <= i < code.len() implies step_ok(
            code[i],
            #[trigger] code[i],
            d,
            n,
        ) by {}
    }
}

/// Some operation boxes into `v`.
pub open spec fn makes_box(bs: Seq<BlockView>, v: VReg) -> bool {
    exists|b: int, i: int|
        0 <= b < bs.len() && 0 <= i < bs[b].code.len() && (#[trigger] bs[b].code[i] matches Ir::FBox {
            dst,
            ..
        } && dst == v)
}

/// The registers that operations box into, and all that do not exist yet.
pub open spec fn box_marks(bs: Seq<BlockView>, n: nat, plain: bool) -> Marks {
    Marks { on: true, plain, at: |v: u32| v >= n || makes_box(bs, VReg(v)) }
}

/// No marks: nothing is asked of boxes.
pub open spec fn no_marks() -> Marks {
    Marks { on: false, plain: false, at: |v: u32| false }
}

/// Only unboxed values are boxed: no register that something is boxed into is boxed itself.
pub open spec fn boxes_apart(bs: Seq<BlockView>) -> bool {
    forall|b: int, i: int|
        0 <= b < bs.len() && 0 <= i < bs[b].code.len() ==> (#[trigger] bs[b].code[i] matches Ir::FBox {
            src,
            ..
        } ==> !makes_box(bs, src))
}

proof fn lemma_code_defs(kind: DefKind, c: Seq<IrView>, i: int, v: VReg)
    requires
        0 <= i < c.len(),
        def_of(kind, c[i]) == Some(v),
    ensures
        code_defs(kind, c).contains(v),
    decreases c.len(),
{
    let rest = code_defs(kind, c.drop_last());
    if i == c.len() - 1 {
        assert(code_defs(kind, c)[rest.len() as int] == v);
    } else {
        lemma_code_defs(kind, c.drop_last(), i, v);
        let k = choose|k: int| 0 <= k < rest.len() && rest[k] == v;
        assert(code_defs(kind, c)[k] == v);
    }
}

/// A write is among the writes.
pub(crate) proof fn lemma_all_defs(kind: DefKind, bs: Seq<BlockView>, b: int, i: int, v: VReg)
    requires
        0 <= b < bs.len(),
        0 <= i < bs[b].code.len(),
        def_of(kind, bs[b].code[i]) == Some(v),
    ensures
        all_defs(kind, bs).contains(v),
    decreases bs.len(),
{
    let rest = all_defs(kind, bs.drop_last());
    lemma_contains_concat(rest, code_defs(kind, bs.last().code), v);
    if b == bs.len() - 1 {
        lemma_code_defs(kind, bs[b].code, i, v);
    } else {
        lemma_all_defs(kind, bs.drop_last(), b, i, v);
    }
}

/// A register without other writes is not marked.
pub(crate) proof fn lemma_unmarked(
    bs: Seq<BlockView>,
    nil: PoolLit,
    n: nat,
    plain: bool,
    v: VReg,
)
    requires
        v.0 < n,
        !all_defs(DefKind::Other(nil), bs).contains(v),
    ensures
        !box_marks(bs, n, plain).has(v.0),
{
    if makes_box(bs, v) {
        let (b, i) = choose|b: int, i: int|
            0 <= b < bs.len() && 0 <= i < bs[b].code.len() && (
            #[trigger] bs[b].code[i] matches Ir::FBox { dst, .. } && dst == v);
        lemma_all_defs(DefKind::Other(nil), bs, b, i, v);
    }
}

/// What a box holds is what some operation boxed.
pub(crate) open spec fn boxes(bs: Seq<BlockView>, v: u32, src: VReg) -> bool {
    exists|b: int, i: int|
        0 <= b < bs.len() && 0 <= i < bs[b].code.len() && is_box(#[trigger] bs[b].code[i], v, src)
}

pub(crate) open spec fn is_box(op: IrView, v: u32, held: VReg) -> bool {
    op matches Ir::FBox { dst, src } && dst.0 == v && src == held
}

proof fn lemma_boxes_in(bs: Seq<BlockView>, b: int, i: int, known: Map<u32, VReg>)
    requires
        0 <= b < bs.len(),
        0 <= i <= bs[b].code.len(),
        forall|v: u32| #[trigger] known.dom().contains(v) ==> boxes(bs, v, known[v]),
    ensures
        forall|v: u32|
            #[trigger] boxes_in(bs[b].code, i, known).dom().contains(v) ==> boxes(
                bs,
                v,
                boxes_in(bs[b].code, i, known)[v],
            ),
    decreases i,
{
    if i > 0 {
        lemma_boxes_in(bs, b, i - 1, known);
        let k = boxes_in(bs[b].code, i - 1, known);
        match bs[b].code[i - 1] {
            Ir::FBox { dst, src } => {
                assert(is_box(bs[b].code[i - 1], dst.0, src));
                assert(boxes(bs, dst.0, src));
            },
            _ => {},
        }
    }
}

pub(crate) proof fn lemma_box_sources(bs: Seq<BlockView>, k: int)
    requires
        0 <= k <= bs.len(),
    ensures
        forall|v: u32|
            #[trigger] box_sources(bs, k).dom().contains(v) ==> boxes(bs, v, box_sources(bs, k)[v]),
    decreases k,
{
    if k > 0 {
        lemma_box_sources(bs, k - 1);
        lemma_boxes_in(bs, k - 1, bs[k - 1].code.len() as int, box_sources(bs, k - 1));
    }
}

/// What boxes hold exists; what has a source is boxed into.
pub(crate) proof fn lemma_sources_below(bs: Seq<BlockView>, n: nat)
    requires
        blocks_below(bs, n),
    ensures
        forall|v: u32| #[trigger]
            box_sources(bs, bs.len() as int).dom().contains(v) ==> box_sources(
                bs,
                bs.len() as int,
            )[v].0 < n && makes_box(bs, VReg(v)),
{
    let m = box_sources(bs, bs.len() as int);
    lemma_box_sources(bs, bs.len() as int);
    assert forall|v: u32| #[trigger] m.dom().contains(v) implies m[v].0 < n && makes_box(
        bs,
        VReg(v),
    ) by {
        assert(boxes(bs, v, m[v]));
        let (b, i) = choose|b: int, i: int|
            0 <= b < bs.len() && 0 <= i < bs[b].code.len() && is_box(
                #[trigger] bs[b].code[i],
                v,
                m[v],
            );
        assert(block_below(bs[b], n));
        lemma_ops_below(bs[b], n);
        assert(op_below(bs[b].code[i], n));
        assert(bs[b].code[i].reads()[0] == m[v]);
    }
}

/// What boxes hold is unboxed.
pub(crate) proof fn lemma_sources_kind(bs: Seq<BlockView>, vs: Seq<VRegInfo>)
    requires
        blocks_fit(bs, vs),
    ensures
        forall|v: u32| #[trigger]
            box_sources(bs, bs.len() as int).dom().contains(v) ==> unboxed(
                box_sources(bs, bs.len() as int)[v],
                vs,
            ),
{
    let m = box_sources(bs, bs.len() as int);
    lemma_box_sources(bs, bs.len() as int);
    assert forall|v: u32| #[trigger] m.dom().contains(v) implies unboxed(m[v], vs) by {
        assert(boxes(bs, v, m[v]));
        let (b, i) = choose|b: int, i: int|
            0 <= b < bs.len() && 0 <= i < bs[b].code.len() && is_box(
                #[trigger] bs[b].code[i],
                v,
                m[v],
            );
        assert(code_fits(bs[b].code, vs));
        assert(op_fits(bs[b].code[i], vs));
    }
}

/// Promoting temporaries.
pub(crate) proof fn lemma_temps_step(vm: VmState, m: MethodView, plain: bool)
    requires
        list_fit(m.blocks, box_marks(m.blocks, m.vregs.len(), plain), m.vregs.len()),
        all_no_rebox(m.blocks),
        with_float_temps(vm, m) is Some,
    ensures
        list_step(
            m.blocks,
            (with_float_temps(vm, m)->0).blocks,
            box_marks(m.blocks, m.vregs.len(), plain),
            m.vregs.len(),
        ),
        (with_float_temps(vm, m)->0).vregs.len() == m.vregs.len(),
{
    let bs = m.blocks;
    let n = m.vregs.len();
    let d = box_marks(bs, n, plain);
    let held = box_sources(bs, bs.len() as int);
    let doubles = const_doubles(vm, m.pool, bs, bs.len() as int);
    let flags = promoted_flags(bs, m.vregs, m.nil_lit, held, doubles);
    let f = |b: BlockView| promote_block(b, flags, held, doubles);
    let r = map_blocks(bs, f, bs.len() as int)->0;
    lemma_sources_below(bs, n);
    assert forall|v: int| 0 <= v < n && #[trigger] flags[v] implies !d.has(v as u32) by {
        lemma_unmarked(bs, m.nil_lit, n, plain, VReg(v as u32));
    }
    lemma_map_blocks(bs, f, bs.len() as int, bs.len() as int);
    assert forall|i: int| 0 <= i < bs.len() implies block_step(bs[i], #[trigger] r[i], d, n) by {
        lemma_map_at(bs, f, i, bs.len() as int);
        lemma_promote_block_step(bs[i], flags, held, doubles, d, n);
    }
}

pub(crate) proof fn lemma_promote_block_step(
    b: BlockView,
    flags: Seq<bool>,
    held: Map<u32, VReg>,
    doubles: Map<u32, u64>,
    d: Marks,
    n: nat,
)
    requires
        block_fit(b, d, n),
        d.on ==> no_rebox(b.code),
        promote_code(b.code, b.code.len() as int, flags, held, doubles) is Some,
        flags.len() == n,
        forall|v: int| 0 <= v < n && #[trigger] flags[v] ==> !d.has(v as u32),
        forall|v: u32| #[trigger] held.dom().contains(v) ==> held[v].0 < n,
    ensures
        promote_block(b, flags, held, doubles) is Some,
        block_step(b, promote_block(b, flags, held, doubles)->0, d, n),
{
    let k = b.code.len() as int;
    lemma_ops_below(b, n);
    lemma_promote_steps(b.code, k, flags, held, doubles, d, n);
    let (c, keep) = promote_code(b.code, k, flags, held, doubles)->0;
    lemma_steps_clean(b.code, c, d, n);
    lemma_compact_step(b, c, keep, d, n);
}

/// Members of promoted trees have no writes but copies and the initialization.
pub(crate) proof fn lemma_claimed(w: Web, k: int)
    requires
        0 <= k <= w.vregs.len() <= u32::MAX + 1,
    ensures
        promoted_trees(w, k).1.len() == w.vregs.len(),
        forall|v: int|
            0 <= v < w.vregs.len() && #[trigger] promoted_trees(w, k).1[v] ==> !all_defs(
                DefKind::Other(w.nil),
                w.bs,
            ).contains(VReg(v as u32)),
    decreases k,
{
    if k > 0 {
        lemma_claimed(w, k - 1);
        let t = VReg((k - 1) as u32);
        let claimed = promoted_trees(w, k - 1).1;
        if tree_promotable(w, claimed, t) {
            assert forall|v: int|
                0 <= v < w.vregs.len() && #[trigger] promoted_trees(w, k).1[v] implies !all_defs(
                DefKind::Other(w.nil),
                w.bs,
            ).contains(VReg(v as u32)) by {
                if !claimed[v] {
                    assert(in_tree(w, t, VReg(v as u32)));
                    if v != t.0 {
                        assert(tree_member(w, claimed, VReg(v as u32)));
                    } else {
                        assert(VReg(v as u32) == t);
                    }
                }
            }
        }
    }
}

proof fn lemma_chase_below(w: Web, v: VReg, fuel: nat, n: nat)
    requires
        forall|v: u32| #[trigger] w.boxes.dom().contains(v) ==> w.boxes[v].0 < n,
    ensures
        chase(w, v, fuel) matches Some(Root::Fp(fp)) ==> fp.0 < n,
    decreases fuel,
{
    if fuel > 0 && !w.boxes.dom().contains(v.0) && !w.doubles.dom().contains(v.0) && only_copied(
        w,
        v,
    ) {
        lemma_chase_below(w, copy_sources(w.bs, w.bs.len() as int)[v.0], (fuel - 1) as nat, n);
    }
}

/// Promoting trees, operation by operation.
pub(crate) proof fn lemma_retarget_steps(
    w: Web,
    roots: Seq<VReg>,
    promoted: Seq<bool>,
    code: Seq<IrView>,
    k: int,
    d: Marks,
    n: nat,
)
    requires
        0 <= k <= code.len(),
        retarget_code(w, roots, promoted, code, k) is Some,
        promoted.len() == n,
        forall|v: int| 0 <= v < n && #[trigger] promoted[v] ==> !d.has(v as u32),
        forall|v: u32| #[trigger] w.boxes.dom().contains(v) ==> w.boxes[v].0 < n,
        forall|i: int| 0 <= i < code.len() ==> op_below(#[trigger] code[i], n),
    ensures
        ({
            let (c, keep) = retarget_code(w, roots, promoted, code, k)->0;
            &&& steps_ok(code, c, d, n)
            &&& keep.len() == k
            &&& forall|i: int| 0 <= i < k && !(#[trigger] keep[i]) ==> code[i] is FUnbox
            &&& forall|i: int| 0 <= i < code.len() && code[i] is Move ==> {
                let op = #[trigger] c[i];
                i >= k ==> op is Move && op->Move_dst == code[i]->Move_dst
            }
        }),
    decreases k,
{
    if k > 0 {
        lemma_retarget_steps(w, roots, promoted, code, k - 1, d, n);
        let (c, keep) = retarget_code(w, roots, promoted, code, k - 1)->0;
        let (c1, x) = retarget_op(w, roots, promoted, code[k - 1], c, k - 1)->0;
        let op = c[k - 1];
        assert(step_ok(code[k - 1], op, d, n));
        assert(op_below(code[k - 1], n));
        match planned(w, roots, code[k - 1]) {
            Some(y) => {
                assert(code[k - 1] is Move);
                let src = outside_source(w, roots, code[k - 1])->0;
                lemma_chase_below(w, src, 16, n);
                assert(op_below(y, n));
                assert(c1 == c.update(k - 1, y));
                assert(op is Move);
                assert(step_ok(op, y, d, n));
                assert forall|i: int| 0 <= i < c.len() implies step_ok(
                    c[i],
                    #[trigger] c1[i],
                    d,
                    n,
                ) by {
                    if i != k - 1 {
                        assert(c1[i] == c[i]);
                    }
                }
            },
            None => match op {
                Ir::FUnbox { dst, src, .. } => {
                    assert(op.reads()[0] == src);
                    if promoted[src.0 as int] {
                        assert(!d.has(src.0 as int as u32));
                        lemma_reread_steps(c, k - 1, dst, src, d, n);
                    }
                },
                _ => {
                    assert forall|i: int| 0 <= i < c.len() implies step_ok(
                        c[i],
                        #[trigger] c1[i],
                        d,
                        n,
                    ) by {
                        if i != k - 1 {
                            assert(c1[i] == c[i]);
                        }
                    }
                },
            },
        }
        assert(steps_ok(c, c1, d, n));
        lemma_steps_trans(code, c, c1, d, n);
        assert forall|i: int| 0 <= i < k && !(#[trigger] keep.push(x)[i]) implies code[i] is FUnbox by {
            if i < k - 1 {
                assert(keep[i] == keep.push(x)[i]);
            }
        }
    } else {
        assert forall|i: int| 0 <= i < code.len() implies step_ok(
            code[i],
            #[trigger] code[i],
            d,
            n,
        ) by {}
    }
}

pub(crate) proof fn lemma_retarget_block_step(
    w: Web,
    roots: Seq<VReg>,
    flags: Seq<bool>,
    b: BlockView,
    d: Marks,
    n: nat,
)
    requires
        block_fit(b, d, n),
        d.on ==> no_rebox(b.code),
        retarget_code(w, roots, flags, b.code, b.code.len() as int) is Some,
        flags.len() == n,
        forall|v: int| 0 <= v < n && #[trigger] flags[v] ==> !d.has(v as u32),
        forall|v: u32| #[trigger] w.boxes.dom().contains(v) ==> w.boxes[v].0 < n,
    ensures
        retarget_block(w, roots, flags, b) is Some,
        block_step(b, retarget_block(w, roots, flags, b)->0, d, n),
{
    let k = b.code.len() as int;
    lemma_ops_below(b, n);
    lemma_retarget_steps(w, roots, flags, b.code, k, d, n);
    let (c, keep) = retarget_code(w, roots, flags, b.code, k)->0;
    lemma_steps_clean(b.code, c, d, n);
    lemma_compact_step(b, c, keep, d, n);
}

/// Dropping copies.
pub(crate) proof fn lemma_without_copies_step(dead: Seq<bool>, b: BlockView, d: Marks, n: nat)
    requires
        block_fit(b, d, n),
        d.on ==> no_rebox(b.code),
    ensures
        without_copies_to(dead, b) is Some,
        block_step(b, without_copies_to(dead, b)->0, d, n),
{
    let keep = Seq::new(
        b.code.len(),
        |i: int|
            match b.code[i] {
                Ir::Move { dst, .. } => !dead[dst.0 as int],
                _ => true,
            },
    );
    assert(steps_ok(b.code, b.code, d, n));
    lemma_compact_step(b, b.code, keep, d, n);
    assert(b == (BlockView { code: b.code, ..b }));
}

pub(crate) proof fn lemma_swept_step(
    w: Web,
    bs: Seq<BlockView>,
    left: Seq<bool>,
    fuel: nat,
    d: Marks,
)
    requires
        list_fit(bs, d, left.len()),
        d.on ==> all_no_rebox(bs),
    ensures
        swept(w, bs, left, fuel) is Some,
        list_step(bs, swept(w, bs, left, fuel)->0, d, left.len()),
    decreases fuel,
{
    let n = left.len();
    let dead = crate::splice_promote::dead_hops(w, bs, left);
    assert(blocks_below(bs, n)) by {
        assert forall|i: int| 0 <= i < bs.len() implies block_below(#[trigger] bs[i], n) by {
            assert(block_fit(bs[i], d, n));
        }
    }
    if fuel == 0 || !left.contains(true) || !dead.contains(true) {
        lemma_list_same(bs, d, n);
    } else {
        let f = |b: BlockView| without_copies_to(dead, b);
        assert forall|i: int| 0 <= i < bs.len() implies f(#[trigger] bs[i]) is Some by {
            assert(block_fit(bs[i], d, n));
            lemma_without_copies_step(dead, bs[i], d, n);
        }
        lemma_map_total(bs, f, bs.len() as int);
        let bs1 = map_blocks(bs, f, bs.len() as int)->0;
        assert forall|i: int| 0 <= i < bs.len() implies block_step(bs[i], #[trigger] bs1[i], d, n) by {
            assert(f(bs[i]) == Some(bs1[i]));
            assert(block_fit(bs[i], d, n));
            lemma_without_copies_step(dead, bs[i], d, n);
        }
        lemma_list_step_fit(bs, bs1, d, n);
        let left1 = Seq::new(left.len(), |v: int| left[v] && !dead[v]);
        lemma_swept_step(w, bs1, left1, (fuel - 1) as nat, d);
        lemma_list_step_trans(bs, bs1, swept(w, bs1, left1, (fuel - 1) as nat)->0, d, n);
    }
}

/// Doing nothing is a pass.
pub(crate) proof fn lemma_list_same(bs: Seq<BlockView>, d: Marks, n: nat)
    requires
        list_fit(bs, d, n),
        d.on ==> all_no_rebox(bs),
    ensures
        list_step(bs, bs, d, n),
{
    assert forall|i: int| 0 <= i < bs.len() implies block_step(bs[i], #[trigger] bs[i], d, n) by {
        let b = bs[i];
        assert(block_fit(b, d, n));
        assert forall|k: int| 0 <= k < b.deopt_sites.len() implies (
        #[trigger] b.deopt_sites[k]).0 < b.code.len() by {
            assert(site_ok(b.deopt_sites[k], b.code));
        }
    }
}

proof fn lemma_fit_more(b: BlockView, d: Marks, n: nat, k: nat)
    requires
        block_fit(b, d, n),
        n <= k,
    ensures
        block_fit(b, d, k),
{
    assert forall|i: int| 0 <= i < b.code.len() implies write_below(#[trigger] b.code[i], k) by {
        assert(write_below(b.code[i], n));
    }
}

/// What boxing at returns makes of a block.
pub open spec fn grown(b: BlockView, c: BlockView, d: Marks) -> bool {
    &&& sites_kept(b, c)
    &&& c.id == b.id
    &&& c.entry_stack == b.entry_stack
    &&& d.on ==> no_rebox(c.code)
    &&& c.code.len() <= b.code.len() + 1
}

/// Boxing at returns.
pub(crate) proof fn lemma_reboxed_step(
    flags: Seq<bool>,
    bs: Seq<BlockView>,
    vregs: Seq<VRegInfo>,
    k: int,
    d: Marks,
)
    requires
        0 <= k <= bs.len(),
        list_fit(bs, d, vregs.len()),
        d.on ==> all_no_rebox(bs),
        flags.len() == vregs.len(),
        forall|v: int| 0 <= v < flags.len() && #[trigger] flags[v] ==> !d.has(v as u32),
        d.on ==> forall|v: u32| v >= vregs.len() ==> #[trigger] d.has(v),
        reboxed(flags, bs, vregs, k).1.len() <= u32::MAX + 1,
    ensures
        ({
            let (r, regs) = reboxed(flags, bs, vregs, k);
            &&& r.len() == bs.len()
            &&& vregs.len() <= regs.len() <= vregs.len() + k
            &&& list_fit(r, d, regs.len())
            &&& forall|i: int| 0 <= i < bs.len() ==> grown(bs[i], #[trigger] r[i], d)
            &&& forall|i: int| k <= i < bs.len() ==> #[trigger] r[i] == bs[i]
        }),
    decreases k,
{
    if k <= 0 {
        lemma_list_same(bs, d, vregs.len());
        assert forall|i: int| 0 <= i < bs.len() implies grown(bs[i], #[trigger] bs[i], d) by {
            assert(block_step(bs[i], bs[i], d, vregs.len()));
        }
    } else {
        let (done, regs) = reboxed(flags, bs, vregs, k - 1);
        let (r, regs1) = reboxed(flags, bs, vregs, k);
        assert(regs.len() <= regs1.len());
        lemma_reboxed_step(flags, bs, vregs, k - 1, d);
        let b = done[k - 1];
        assert(b == bs[k - 1]);
        assert(block_fit(bs[k - 1], d, vregs.len()));
        assert(d.on ==> no_rebox(bs[k - 1].code));
        let n = vregs.len();
        if r != done || regs1 != regs {
            let len = b.code.len() as int;
            let c = r[k - 1];
            let val = b.code.last()->Ret_val;
            let fresh = VReg(regs.len() as u32);
            assert(r == done.update(k - 1, c));
            assert(regs1.len() == regs.len() + 1);
            lemma_ops_below(b, n);
            assert(op_below(b.code[len - 1], n));
            assert(b.code[len - 1].reads()[0] == val);
            assert(flags[val.0 as int]);
            assert(!d.has(val.0 as int as u32));
            assert(d.on ==> d.has(fresh.0));
            let code = b.code.drop_last();
            assert(c.code == code.push(Ir::FBox { dst: fresh, src: val }).push(Ir::Ret { val: fresh }));
            assert forall|j: int| 0 <= j < c.code.len() implies box_clean(#[trigger] c.code[j], d)
                && below(c.code[j].reads(), regs1.len()) && write_below(c.code[j], regs1.len()) by {
                if j < len - 1 {
                    assert(c.code[j] == b.code[j]);
                    assert(box_clean(b.code[j], d));
                    assert(op_below(b.code[j], n));
                    let q = b.code[j].reads();
                    assert forall|x: int| 0 <= x < q.len() implies (#[trigger] q[x]).0
                        < regs1.len() by {
                        assert(q[x].0 < n);
                    }
                }
            }
            assert forall|i: int, j: int| d.on && 0 <= i < j < c.code.len() implies !undoes(
                #[trigger] c.code[i],
                #[trigger] c.code[j],
            ) by {
                if j < len - 1 {
                    assert(c.code[i] == b.code[i] && c.code[j] == b.code[j]);
                }
            }
            assert forall|x: int| 0 <= x < b.deopt_sites.len() implies (
            #[trigger] c.deopt_sites[x]).1 == b.deopt_sites[x].1 && c.deopt_sites[x].0
                < c.code.len() && site_op(c, x) == site_op(b, x) && site_ok(
                c.deopt_sites[x],
                c.code,
            ) by {
                let s = b.deopt_sites[x];
                assert(site_ok(s, b.code));
                assert(s.0 != len - 1);
                assert(c.code[s.0 as int] == b.code[s.0 as int]);
            }
            lemma_code_below(c.code, regs1.len());
            lemma_fit_more(b, d, n, regs1.len());
            lemma_block_parts_below(b, regs1.len());
            lemma_below_concat(code_reads(c.code), sites_refs(c.deopt_sites), regs1.len());
            lemma_below_concat(
                code_reads(c.code) + sites_refs(c.deopt_sites),
                c.entry_stack,
                regs1.len(),
            );
            assert(block_fit(c, d, regs1.len()));
            assert(grown(bs[k - 1], c, d));
        }
        assert forall|i: int| 0 <= i < bs.len() implies grown(bs[i], #[trigger] r[i], d) && block_fit(
            r[i],
            d,
            regs1.len(),
        ) by {
            if i != k - 1 || r == done {
                assert(r[i] == done[i]);
                assert(grown(bs[i], done[i], d));
                assert(block_fit(done[i], d, regs.len()));
                lemma_fit_more(done[i], d, regs.len(), regs1.len());
            }
        }
        assert forall|i: int| k <= i < bs.len() implies #[trigger] r[i] == bs[i] by {
            assert(r[i] == done[i]);
        }
    }
}

proof fn lemma_sites_kept_trans(a: BlockView, b: BlockView, c: BlockView)
    requires
        sites_kept(a, b),
        sites_kept(b, c),
    ensures
        sites_kept(a, c),
{
    assert forall|k: int| 0 <= k < a.deopt_sites.len() implies (#[trigger] c.deopt_sites[k]).1
        == a.deopt_sites[k].1 && c.deopt_sites[k].0 < c.code.len() && site_op(c, k) == site_op(
        a,
        k,
    ) by {
        assert(b.deopt_sites[k].1 == a.deopt_sites[k].1);
    }
}

/// What promotion makes of a list of blocks; `n` is the number of registers after it.
pub open spec fn carried(bs: Seq<BlockView>, cs: Seq<BlockView>, d: Marks, n: nat) -> bool {
    &&& cs.len() == bs.len()
    &&& list_fit(cs, d, n)
    &&& forall|i: int| 0 <= i < bs.len() ==> grown(bs[i], #[trigger] cs[i], d)
}

pub(crate) proof fn lemma_step_carried(bs: Seq<BlockView>, cs: Seq<BlockView>, d: Marks, n: nat)
    requires
        list_fit(bs, d, n),
        list_step(bs, cs, d, n),
    ensures
        carried(bs, cs, d, n),
{
    lemma_list_step_fit(bs, cs, d, n);
    assert forall|i: int| 0 <= i < bs.len() implies grown(bs[i], #[trigger] cs[i], d) by {
        assert(block_step(bs[i], cs[i], d, n));
    }
}

/// Sweeping and boxing at returns, after the trees were retargeted.
pub(crate) proof fn lemma_trees_end(
    w: Web,
    bs: Seq<BlockView>,
    bs1: Seq<BlockView>,
    left: Seq<bool>,
    flags: Seq<bool>,
    vregs: Seq<VRegInfo>,
    fuel: nat,
    d: Marks,
)
    requires
        list_fit(bs, d, vregs.len()),
        list_step(bs, bs1, d, vregs.len()),
        left.len() == vregs.len(),
        flags.len() == vregs.len(),
        forall|v: int| 0 <= v < flags.len() && #[trigger] flags[v] ==> !d.has(v as u32),
        d.on ==> forall|v: u32| v >= vregs.len() ==> #[trigger] d.has(v),
        vregs.len() + bs.len() <= u32::MAX + 1 || reboxed(
            flags,
            swept(w, bs1, left, fuel)->0,
            vregs,
            (swept(w, bs1, left, fuel)->0).len() as int,
        ).1.len() <= u32::MAX + 1,
    ensures
        swept(w, bs1, left, fuel) is Some,
        blocks_below(swept(w, bs1, left, fuel)->0, vregs.len()),
        ({
            let bs2 = swept(w, bs1, left, fuel)->0;
            let (bs3, regs) = reboxed(flags, bs2, vregs, bs2.len() as int);
            &&& carried(bs, bs3, d, regs.len())
            &&& regs.len() <= vregs.len() + bs.len()
        }),
{
    let n = vregs.len();
    lemma_list_step_fit(bs, bs1, d, n);
    lemma_swept_step(w, bs1, left, fuel, d);
    let bs2 = swept(w, bs1, left, fuel)->0;
    lemma_list_step_fit(bs1, bs2, d, n);
    lemma_list_step_trans(bs, bs1, bs2, d, n);
    assert forall|i: int| 0 <= i < bs2.len() implies block_below(#[trigger] bs2[i], n) by {
        assert(block_fit(bs2[i], d, n));
    }
    lemma_reboxed_count(flags, bs2, vregs, bs2.len() as int);
    lemma_reboxed_step(flags, bs2, vregs, bs2.len() as int, d);
    let (bs3, regs) = reboxed(flags, bs2, vregs, bs2.len() as int);
    assert forall|i: int| 0 <= i < bs.len() implies grown(bs[i], #[trigger] bs3[i], d) by {
        assert(block_step(bs[i], bs2[i], d, n));
        assert(grown(bs2[i], bs3[i], d));
        lemma_sites_kept_trans(bs[i], bs2[i], bs3[i]);
    }
}

proof fn lemma_reboxed_count(
    flags: Seq<bool>,
    bs: Seq<BlockView>,
    vregs: Seq<VRegInfo>,
    k: int,
)
    requires
        0 <= k,
    ensures
        reboxed(flags, bs, vregs, k).1.len() <= vregs.len() + k,
    decreases k,
{
    if k > 0 {
        lemma_reboxed_count(flags, bs, vregs, k - 1);
    }
}

/// Promoting trees.
proof fn lemma_trees_step(vm: VmState, m: MethodView, osr_bci: Option<u16>, plain: bool)
    requires
        list_fit(m.blocks, box_marks(m.blocks, m.vregs.len(), plain), m.vregs.len()),
        all_no_rebox(m.blocks),
        with_float_trees(vm, m, osr_bci) matches Some(r) && r.vregs.len() <= u32::MAX + 1,
    ensures
        ({
            let r = with_float_trees(vm, m, osr_bci)->0;
            carried(m.blocks, r.blocks, box_marks(m.blocks, m.vregs.len(), plain), r.vregs.len())
        }),
{
    let bs = m.blocks;
    let n = m.vregs.len();
    let d = box_marks(bs, n, plain);
    let w = web_of(vm, m, osr_bci);
    let (roots, flags) = promoted_trees(w, n as int);
    let f = |b: BlockView| retarget_block(w, roots, flags, b);
    let bs1 = map_blocks(bs, f, bs.len() as int)->0;
    lemma_sources_below(bs, n);
    lemma_claimed(w, n as int);
    assert forall|v: int| 0 <= v < n && #[trigger] flags[v] implies !d.has(v as u32) by {
        lemma_unmarked(bs, w.nil, n, plain, VReg(v as u32));
    }
    lemma_map_blocks(bs, f, bs.len() as int, bs.len() as int);
    assert forall|i: int| 0 <= i < bs.len() implies block_step(bs[i], #[trigger] bs1[i], d, n) by {
        lemma_map_at(bs, f, i, bs.len() as int);
        assert(block_fit(bs[i], d, n));
        lemma_retarget_block_step(w, roots, flags, bs[i], d, n);
    }
    let vregs = Seq::new(
        n,
        |v: int|
            if flags[v] {
                VRegInfo { is_oop: false, is_fp: true }
            } else {
                m.vregs[v]
            },
    );
    lemma_trees_end(w, bs, bs1, hop_flags(w, roots), flags, vregs, n, d);
}

/// What goes into a trap block: clean boxes of registers that exist.
proof fn lemma_sunk_from_ops(bs: Seq<BlockView>, t: int, b: int, k: int, d: Marks, n: nat)
    requires
        list_fit(bs, d, n),
        0 <= t < bs.len(),
        0 <= b < bs.len(),
        0 <= k <= bs[b].code.len(),
    ensures
        forall|i: int|
            0 <= i < sunk_from(bs, t, b, k).len() ==> (#[trigger] sunk_from(bs, t, b, k)[i]) is FBox
                && box_clean(sunk_from(bs, t, b, k)[i], d) && op_below(
                sunk_from(bs, t, b, k)[i],
                n,
            ) && trap_only(bs[t]),
        sunk_from(bs, t, b, k).len() <= k,
    decreases k,
{
    if k > 0 {
        lemma_sunk_from_ops(bs, t, b, k - 1, d, n);
        let rest = sunk_from(bs, t, b, k - 1);
        let r = sunk_from(bs, t, b, k);
        assert(block_fit(bs[b], d, n));
        lemma_ops_below(bs[b], n);
        assert(op_below(bs[b].code[k - 1], n));
        assert(box_clean(bs[b].code[k - 1], d));
        assert forall|i: int| 0 <= i < r.len() implies (#[trigger] r[i]) is FBox && box_clean(
            r[i],
            d,
        ) && op_below(r[i], n) && trap_only(bs[t]) by {
            if i < rest.len() {
                assert(r[i] == rest[i]);
            }
        }
    }
}

pub open spec fn ops_upto(bs: Seq<BlockView>, k: int) -> nat
    decreases k,
{
    if k <= 0 {
        0
    } else {
        ops_upto(bs, k - 1) + bs[k - 1].code.len()
    }
}

pub(crate) proof fn lemma_sunk_into_ops(bs: Seq<BlockView>, t: int, k: int, d: Marks, n: nat)
    requires
        list_fit(bs, d, n),
        0 <= t < bs.len(),
        0 <= k <= bs.len(),
    ensures
        forall|i: int|
            0 <= i < sunk_into(bs, t, k).len() ==> (#[trigger] sunk_into(bs, t, k)[i]) is FBox
                && box_clean(sunk_into(bs, t, k)[i], d) && op_below(sunk_into(bs, t, k)[i], n)
                && trap_only(bs[t]),
        sunk_into(bs, t, k).len() <= ops_upto(bs, k),
    decreases k,
{
    if k > 0 {
        lemma_sunk_into_ops(bs, t, k - 1, d, n);
        let len = bs[k - 1].code.len() as int;
        lemma_sunk_from_ops(bs, t, k - 1, len, d, n);
        let a = sunk_into(bs, t, k - 1);
        let b = sunk_from(bs, t, k - 1, len);
        let r = sunk_into(bs, t, k);
        assert forall|i: int| 0 <= i < r.len() implies (#[trigger] r[i]) is FBox && box_clean(
            r[i],
            d,
        ) && op_below(r[i], n) && trap_only(bs[t]) by {
            if i < a.len() {
                assert(r[i] == a[i]);
            } else {
                assert(r[i] == b[i - a.len()]);
            }
        }
    }
}

/// What sinking and sweeping make of a list of blocks.
pub open spec fn swept_fit(bs: Seq<BlockView>, cs: Seq<BlockView>, d: Marks, n: nat) -> bool {
    &&& cs.len() == bs.len()
    &&& list_fit(cs, d, n)
    &&& d.on ==> all_no_rebox(cs)
    &&& forall|i: int| 0 <= i < bs.len() ==> sites_kept(bs[i], #[trigger] cs[i])
}

/// Sinking, block by block.
pub(crate) proof fn lemma_sunk_block(bs: Seq<BlockView>, i: int, d: Marks, n: nat)
    requires
        list_fit(bs, d, n),
        d.on ==> all_no_rebox(bs),
        0 <= i < bs.len(),
    ensures
        compacted(bs[i], unsunk(bs, i)) is Some,
        sunk_block(bs, i) is Some || ops_upto(bs, bs.len() as int) > u32::MAX,
        sunk_block(bs, i) matches Some(c) ==> block_fit(c, d, n) && (d.on ==> no_rebox(
            c.code,
        )) && sites_kept(bs[i], c),
{
    let b = bs[i];
    assert(block_fit(b, d, n));
    assert(d.on ==> no_rebox(b.code));
    let keep = unsunk(bs, i);
    assert(steps_ok(b.code, b.code, d, n));
    lemma_compact_step(b, b.code, keep, d, n);
    assert(b == (BlockView { code: b.code, ..b }));
    let c = compacted(b, keep)->0;
    lemma_block_step_fit(b, c, d, n);
    let ins = sunk_into(bs, i, bs.len() as int);
    lemma_sunk_into_ops(bs, i, bs.len() as int, d, n);
    if ins.len() > 0 {
        assert(ins[0] is FBox);
        assert(trap_only(b));
        assert(c.code.len() <= 1);
        if ops_upto(bs, bs.len() as int) <= u32::MAX {
            assert forall|k: int| 0 <= k < c.deopt_sites.len() implies (
            #[trigger] c.deopt_sites[k]).0 + ins.len() <= u32::MAX by {
                assert(site_ok(c.deopt_sites[k], c.code));
            }
        }
        if let Some(r) = prepended(c, ins) {
            assert forall|j: int| 0 <= j < r.code.len() implies box_clean(#[trigger] r.code[j], d)
                && below(r.code[j].reads(), n) && write_below(r.code[j], n) && (j >= ins.len()
                ==> r.code[j] is UncommonTrap) && (j < ins.len() ==> r.code[j] is FBox) by {
                if j < ins.len() {
                    assert(r.code[j] == ins[j]);
                    assert(op_below(ins[j], n));
                } else {
                    let x = c.code[j - ins.len()];
                    assert(r.code[j] == x);
                    lemma_ops_below(c, n);
                    assert(op_below(x, n));
                    assert(b.code.contains(x));
                    assert(box_clean(x, d));
                }
            }
            assert forall|k: int| 0 <= k < r.deopt_sites.len() implies (
            #[trigger] r.deopt_sites[k]).1 == c.deopt_sites[k].1 && r.deopt_sites[k].0
                < r.code.len() && site_op(r, k) == site_op(c, k) && site_ok(
                r.deopt_sites[k],
                r.code,
            ) by {
                let s = c.deopt_sites[k];
                assert(site_ok(s, c.code));
                assert(s.0 + ins.len() <= u32::MAX);
                assert(r.code[s.0 + ins.len()] == c.code[s.0 as int]);
            }
            assert(sites_kept(c, r));
            lemma_sites_kept_trans(b, c, r);
            lemma_code_below(r.code, n);
            lemma_block_parts_below(c, n);
            lemma_sites_refs_same(r.deopt_sites, c.deopt_sites);
            lemma_below_concat(code_reads(r.code), sites_refs(r.deopt_sites), n);
            lemma_below_concat(code_reads(r.code) + sites_refs(r.deopt_sites), r.entry_stack, n);
            assert(block_fit(r, d, n));
            assert(d.on ==> no_rebox(r.code));
        }
    }
}

proof fn lemma_sunk_fit(bs: Seq<BlockView>, d: Marks, n: nat)
    requires
        list_fit(bs, d, n),
        d.on ==> all_no_rebox(bs),
        sunk(bs, n) is Some,
    ensures
        swept_fit(bs, sunk(bs, n)->0, d, n),
{
    let cs = sunk(bs, n)->0;
    assert forall|i: int| 0 <= i < bs.len() implies sites_kept(bs[i], #[trigger] cs[i])
        && block_fit(cs[i], d, n) && (d.on ==> no_rebox(cs[i].code)) by {
        lemma_sunk_block(bs, i, d, n);
        assert(sunk_block(bs, i) is Some);
    }
}

/// Operation `i` of block `b` reads `v`.
pub open spec fn reads_reg(bs: Seq<BlockView>, b: int, i: int, v: VReg) -> bool {
    0 <= b < bs.len() && 0 <= i < bs[b].code.len() && bs[b].code[i].reads().contains(v)
}

proof fn lemma_code_reads(c: Seq<IrView>, v: VReg)
    ensures
        code_reads(c).contains(v) ==> exists|i: int|
            0 <= i < c.len() && (#[trigger] c[i]).reads().contains(v),
    decreases c.len(),
{
    if c.len() > 0 {
        let p = c.drop_last();
        lemma_code_reads(p, v);
        lemma_contains_concat(code_reads(p), c.last().reads(), v);
        if code_reads(p).contains(v) {
            let i = choose|i: int| 0 <= i < p.len() && (#[trigger] p[i]).reads().contains(v);
            assert(c[i].reads().contains(v));
        } else if code_reads(c).contains(v) {
            assert(c[c.len() - 1].reads().contains(v));
        }
    }
}

pub(crate) proof fn lemma_all_reads(bs: Seq<BlockView>, v: VReg)
    ensures
        all_reads(bs).contains(v) <==> exists|b: int, i: int| reads_reg(bs, b, i, v),
    decreases bs.len(),
{
    if bs.len() > 0 {
        let p = bs.drop_last();
        let l = bs.len() - 1;
        lemma_all_reads(p, v);
        lemma_contains_concat(all_reads(p), code_reads(bs.last().code), v);
        if all_reads(p).contains(v) {
            let (b, i) = choose|b: int, i: int| reads_reg(p, b, i, v);
            assert(reads_reg(bs, b, i, v));
        }
        if code_reads(bs.last().code).contains(v) {
            lemma_code_reads(bs.last().code, v);
            let i = choose|i: int|
                0 <= i < bs.last().code.len() && (
                #[trigger] bs.last().code[i]).reads().contains(v);
            assert(reads_reg(bs, l, i, v));
        }
        if exists|b: int, i: int| reads_reg(bs, b, i, v) {
            let (b, i) = choose|b: int, i: int| reads_reg(bs, b, i, v);
            if b < l {
                assert(reads_reg(p, b, i, v));
            } else {
                let code = bs[l].code;
                lemma_reads_in_code(code, i);
                let r = code[i].reads();
                let k = choose|k: int| 0 <= k < r.len() && r[k] == v;
                assert(code_reads(code).contains(code[i].reads()[k]));
            }
        }
    } else {
        assert forall|b: int, i: int| !reads_reg(bs, b, i, v) by {}
    }
}

proof fn lemma_same_named(a: Seq<BlockView>, b: Seq<BlockView>)
    requires
        a.len() == b.len(),
        forall|i: int|
            0 <= i < a.len() ==> sites_refs((#[trigger] b[i]).deopt_sites) == sites_refs(
                a[i].deopt_sites,
            ) && b[i].entry_stack == a[i].entry_stack,
    ensures
        all_named(a) == all_named(b),
        all_entries(a) == all_entries(b),
    decreases a.len(),
{
    if a.len() > 0 {
        assert forall|i: int| 0 <= i < a.len() - 1 implies sites_refs(
            (#[trigger] b.drop_last()[i]).deopt_sites,
        ) == sites_refs(a.drop_last()[i].deopt_sites) && b.drop_last()[i].entry_stack
            == a.drop_last()[i].entry_stack by {
            assert(sites_refs(b[i].deopt_sites) == sites_refs(a[i].deopt_sites));
        }
        lemma_same_named(a.drop_last(), b.drop_last());
        let l = a.len() - 1;
        assert(sites_refs(b[l].deopt_sites) == sites_refs(a[l].deopt_sites));
    }
}

/// Every box is needed: something reads it, names it or has it filled.
pub open spec fn boxes_needed(bs: Seq<BlockView>) -> bool {
    forall|b: int, i: int|
        0 <= b < bs.len() && 0 <= i < bs[b].code.len() ==> (#[trigger] bs[b].code[i] matches Ir::FBox {
            dst,
            ..
        } ==> all_refs(bs).contains(dst))
}

/// Dropping the boxes that nothing needs.
pub(crate) proof fn lemma_dead_step(bs: Seq<BlockView>, d: Marks, n: nat)
    requires
        list_fit(bs, d, n),
        d.on ==> all_no_rebox(bs),
    ensures
        without_dead_boxes(bs, n) is Some,
        list_step(bs, without_dead_boxes(bs, n)->0, d, n),
        d.on && d.plain ==> boxes_needed(without_dead_boxes(bs, n)->0),
{
    let refs = all_refs(bs);
    let f = |b: BlockView| compacted(b, live_flags(refs, b));
    assert forall|i: int| 0 <= i < bs.len() implies block_below(#[trigger] bs[i], n) by {
        assert(block_fit(bs[i], d, n));
    }
    assert forall|i: int| 0 <= i < bs.len() implies f(#[trigger] bs[i]) is Some && block_step(
        bs[i],
        f(bs[i])->0,
        d,
        n,
    ) by {
        let b = bs[i];
        assert(block_fit(b, d, n));
        assert(d.on ==> no_rebox(b.code));
        assert(steps_ok(b.code, b.code, d, n));
        lemma_compact_step(b, b.code, live_flags(refs, b), d, n);
        assert(b == (BlockView { code: b.code, ..b }));
    }
    lemma_map_total(bs, f, bs.len() as int);
    let r = without_dead_boxes(bs, n)->0;
    assert forall|i: int| 0 <= i < bs.len() implies block_step(bs[i], #[trigger] r[i], d, n)
        && sites_refs(r[i].deopt_sites) == sites_refs(bs[i].deopt_sites) && r[i].entry_stack
        == bs[i].entry_stack by {
        assert(f(bs[i]) == Some(r[i]));
        lemma_sites_refs_same(r[i].deopt_sites, bs[i].deopt_sites);
    }
    lemma_same_named(bs, r);
    assert forall|b: int, i: int|
        d.on && d.plain && 0 <= b < r.len() && 0 <= i < r[b].code.len() implies (
    #[trigger] r[b].code[i] matches Ir::FBox { dst, .. } ==> all_refs(r).contains(dst)) by {
        if let Ir::FBox { dst, .. } = r[b].code[i] {
            assert(f(bs[b]) == Some(r[b]));
            let keep = live_flags(refs, bs[b]);
            lemma_kept_all(bs[b], keep);
            assert(kept_op(bs[b].code, keep, bs[b].code.len() as int, r[b].code[i]));
            let a = choose|a: int|
                0 <= a < bs[b].code.len() && keep[a] && #[trigger] bs[b].code[a] == r[b].code[i];
            assert(refs.contains(dst));
            assert(block_fit(bs[b], d, n));
            assert(box_clean(bs[b].code[a], d));
            lemma_refs_split(bs, dst);
            lemma_refs_split(r, dst);
            if all_reads(bs).contains(dst) {
                lemma_all_reads(bs, dst);
                lemma_all_reads(r, dst);
                let (x, y) = choose|x: int, y: int| reads_reg(bs, x, y, dst);
                let op = bs[x].code[y];
                assert(block_fit(bs[x], d, n));
                assert(box_clean(op, d));
                assert(!(op is FBox)) by {
                    if let Ir::FBox { dst: e, src } = op {
                        let q = op.reads();
                        let z = choose|z: int| 0 <= z < q.len() && q[z] == dst;
                        assert(q[z] == src);
                    }
                }
                let keep2 = live_flags(refs, bs[x]);
                assert(keep2[y]);
                assert(f(bs[x]) == Some(r[x]));
                lemma_kept_all(bs[x], keep2);
                assert(r[x].code.contains(bs[x].code[y]));
                let z = choose|z: int| 0 <= z < r[x].code.len() && r[x].code[z] == op;
                assert(reads_reg(r, x, z, dst));
            }
        }
    }
}

/// What compaction keeps of a block, and nothing else.
pub(crate) proof fn lemma_kept_all(b: BlockView, keep: Seq<bool>)
    requires
        keep.len() == b.code.len(),
        compacted(b, keep) is Some,
    ensures
        forall|i: int|
            0 <= i < (compacted(b, keep)->0).code.len() ==> kept_op(
                b.code,
                keep,
                b.code.len() as int,
                #[trigger] (compacted(b, keep)->0).code[i],
            ),
        forall|a: int|
            0 <= a < b.code.len() && keep[a] ==> (compacted(b, keep)->0).code.contains(
                #[trigger] b.code[a],
            ),
{
    let c = compacted(b, keep)->0;
    let n = b.code.len() as int;
    if forall|i: int| 0 <= i < b.code.len() ==> keep[i] {
        assert(c == b);
        assert forall|i: int| 0 <= i < c.code.len() implies kept_op(
            b.code,
            keep,
            n,
            #[trigger] c.code[i],
        ) by {
            assert(keep[i] && b.code[i] == c.code[i]);
        }
    } else {
        lemma_selected(b.code, keep, n);
        lemma_selected_order(b.code, keep, n);
        assert forall|a: int| 0 <= a < n && keep[a] implies c.code.contains(
            #[trigger] b.code[a],
        ) by {
            assert(c.code[kept(keep, a) as int] == b.code[a]);
        }
    }
}

/// The boxes that the first passes leave are boxes of before, of registers that were boxed before.
proof fn lemma_marks_shrink(bs: Seq<BlockView>, cs: Seq<BlockView>, n: nat, plain: bool)
    requires
        list_fit(cs, box_marks(bs, n, plain), n),
    ensures
        list_fit(cs, box_marks(cs, n, plain), n),
{
    let d = box_marks(bs, n, plain);
    let e = box_marks(cs, n, plain);
    assert forall|i: int| 0 <= i < cs.len() implies block_fit(#[trigger] cs[i], e, n) by {
        let c = cs[i];
        assert(block_fit(c, d, n));
        lemma_ops_below(c, n);
        assert forall|j: int| 0 <= j < c.code.len() implies box_clean(#[trigger] c.code[j], e) by {
            assert(box_clean(c.code[j], d));
            assert(op_below(c.code[j], n));
            if let Ir::FBox { dst, src } = c.code[j] {
                assert(cs[i].code[j] == c.code[j]);
                assert(makes_box(cs, dst));
                assert(c.code[j].reads()[0] == src);
                if makes_box(cs, src) {
                    let (x, y) = choose|x: int, y: int|
                        0 <= x < cs.len() && 0 <= y < cs[x].code.len() && (
                        #[trigger] cs[x].code[y] matches Ir::FBox { dst: z, .. } && z == src);
                    assert(block_fit(cs[x], d, n));
                    assert(box_clean(cs[x].code[y], d));
                }
            }
        }
    }
}

/// A sound method is fit for the passes.
proof fn lemma_sound_fit(bs: Seq<BlockView>, n: nat, z: Sizes, plain: bool)
    requires
        blocks_shape(bs, z),
        blocks_below(bs, n),
        plain ==> boxes_apart(bs),
    ensures
        list_fit(bs, box_marks(bs, n, plain), n),
{
    let d = box_marks(bs, n, plain);
    assert forall|i: int| 0 <= i < bs.len() implies block_fit(#[trigger] bs[i], d, n) by {
        let b = bs[i];
        assert(block_shape(b, z));
        assert(block_below(b, n));
        lemma_ops_below(b, n);
        assert forall|j: int| 0 <= j < b.code.len() implies box_clean(#[trigger] b.code[j], d) by {
            assert(bs[i].code[j] == b.code[j]);
            assert(op_below(b.code[j], n));
            if let Ir::FBox { dst, src } = b.code[j] {
                assert(b.code[j].reads()[0] == src);
                assert(makes_box(bs, dst));
            }
        }
    }
}

/// What the reduction leaves. No block unboxes what it boxed before. Each block has its
/// deoptimization sites in the same order, with the same data, each at the operation where it was.
/// And where no box is boxed again, every box that remains is read by an operation, named by a
/// deoptimization site or filled by predecessors.
pub proof fn law_reduction_is_thorough(vm: VmState, m: MethodView, osr_bci: Option<u16>, z: Sizes)
    requires
        blocks_shape(m.blocks, z),
        blocks_below(m.blocks, m.vregs.len()),
        reduced(vm, m, osr_bci) is Some,
    ensures
        ({
            let r = reduced(vm, m, osr_bci)->0;
            &&& r.blocks.len() == m.blocks.len()
            &&& boxes_apart(m.blocks) ==> boxes_needed(r.blocks)
            &&& all_no_rebox(r.blocks)
            &&& forall|i: int|
                0 <= i < m.blocks.len() ==> sites_kept(m.blocks[i], #[trigger] r.blocks[i])
        }),
{
    let n = m.vregs.len();
    let plain = boxes_apart(m.blocks);
    let d0 = box_marks(m.blocks, n, plain);
    lemma_sound_fit(m.blocks, n, z, plain);
    lemma_cancelled_step(m.blocks, d0, n);
    let bs1 = cancelled(m.blocks)->0;
    lemma_list_step_fit(m.blocks, bs1, d0, n);
    lemma_folded_step(vm, m.pool, bs1, d0, n);
    let m1 = local_reduced(vm, m)->0;
    lemma_list_step_fit(bs1, m1.blocks, d0, n);
    lemma_list_step_trans(m.blocks, bs1, m1.blocks, d0, n);
    lemma_marks_shrink(m.blocks, m1.blocks, n, plain);
    let d = box_marks(m1.blocks, n, plain);
    let m2 = promoted(vm, m1, osr_bci)->0;
    if vm.splice_promote {
        lemma_trees_step(vm, m1, osr_bci, plain);
    } else if osr_bci is None {
        lemma_temps_step(vm, m1, plain);
        lemma_step_carried(m1.blocks, m2.blocks, d, n);
    } else {
        lemma_list_same(m1.blocks, d, n);
        lemma_step_carried(m1.blocks, m2.blocks, d, n);
    }
    let k = m2.vregs.len();
    assert(carried(m1.blocks, m2.blocks, d, k));
    assert forall|i: int| 0 <= i < m2.blocks.len() implies no_rebox((#[trigger] m2.blocks[i]).code) by {
        assert(grown(m1.blocks[i], m2.blocks[i], d));
    }
    lemma_sunk_fit(m2.blocks, d, k);
    let bs3 = sunk(m2.blocks, k)->0;
    lemma_dead_step(bs3, d, k);
    let r = reduced(vm, m, osr_bci)->0;
    assert(r.blocks == without_dead_boxes(bs3, k)->0);
    lemma_list_step_fit(bs3, r.blocks, d, k);
    assert forall|i: int| 0 <= i < m.blocks.len() implies sites_kept(
        m.blocks[i],
        #[trigger] r.blocks[i],
    ) by {
        assert(block_step(m.blocks[i], m1.blocks[i], d0, n));
        assert(grown(m1.blocks[i], m2.blocks[i], d));
        assert(sites_kept(m2.blocks[i], bs3[i]));
        assert(block_step(bs3[i], r.blocks[i], d, k));
        lemma_sites_kept_trans(m.blocks[i], m1.blocks[i], m2.blocks[i]);
        lemma_sites_kept_trans(m.blocks[i], m2.blocks[i], bs3[i]);
        lemma_sites_kept_trans(m.blocks[i], bs3[i], r.blocks[i]);
    }
}

} // verus!

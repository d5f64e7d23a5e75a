//! The passes over Double boxes keep registers to their kinds.

use vstd::prelude::*;
use crate::boxes::{
    cancel, cancelled, cancelled_block, const_doubles, fold_op, folded, lemma_map_blocks,
    live_flags, map_blocks, prepended, subst_fp, sunk, sunk_block, sunk_from, sunk_into, unsunk,
    without_dead_boxes,
};
use crate::endings::{all_rets_last, lemma_compact_rets, lemma_same_rets, rets_last};
use crate::ir::{BlockView, Ir, IrView, MethodView, PoolEntry, VReg, VRegInfo};
use crate::kinds::{blocks_fit, code_fits, general, lemma_fits_below, op_fits, unboxed};
use crate::passes::{all_reads, all_refs, compacted};
use crate::promote::{
    box_sources, copy_of_promoted, def_of, op_allows, promotable, promote_block, promote_code,
    promote_op, promoted_flags, promoted_regs, reread, silent_copy, with_float_temps, DefKind,
};
use crate::reduce::{local_reduced, promoted, reduced};
use crate::sound_passes::lemma_map_at;
use crate::tidy::{kept_op, lemma_all_defs, lemma_all_reads, lemma_kept_all, lemma_sources_kind};
use crate::total::{lemma_one_def, lemma_two_defs};
use crate::typed_trees::lemma_trees_fit;
use crate::world::VmState;

verus! {

/// Dropping operations keeps the rest.
pub(crate) proof fn lemma_compact_fits(b: BlockView, keep: Seq<bool>, vs: Seq<VRegInfo>)
    requires
        keep.len() == b.code.len(),
        forall|i: int| 0 <= i < b.code.len() && keep[i] ==> op_fits(#[trigger] b.code[i], vs),
        compacted(b, keep) is Some,
    ensures
        code_fits((compacted(b, keep)->0).code, vs),
{
    let c = compacted(b, keep)->0;
    lemma_kept_all(b, keep);
    assert forall|j: int| 0 <= j < c.code.len() implies op_fits(#[trigger] c.code[j], vs) by {
        assert(kept_op(b.code, keep, b.code.len() as int, c.code[j]));
        let a = choose|a: int|
            0 <= a < b.code.len() && keep[a] && #[trigger] b.code[a] == c.code[j];
        assert(op_fits(b.code[a], vs));
    }
}

proof fn lemma_cancel_fits(code: Seq<IrView>, k: int, vs: Seq<VRegInfo>)
    requires
        0 <= k <= code.len(),
        code_fits(code, vs),
    ensures
        ({
            let c = cancel(code, k);
            &&& c.code.len() == code.len()
            &&& c.keep.len() == k
            &&& code_fits(c.code, vs)
            &&& forall|i: int| k <= i < code.len() ==> #[trigger] c.code[i] == code[i]
            &&& forall|v: u32| #[trigger] c.boxed.dom().contains(v) ==> unboxed(c.boxed[v], vs)
            &&& forall|v: u32| #[trigger] c.unboxed.dom().contains(v) ==> unboxed(c.unboxed[v], vs)
        }),
    decreases k,
{
    if k > 0 {
        lemma_cancel_fits(code, k - 1, vs);
        let p = cancel(code, k - 1);
        let c = cancel(code, k);
        let a = p.code[k - 1];
        let op = subst_fp(p.unboxed, a);
        assert(op_fits(a, vs));
        assert(op_fits(op, vs));
        assert(c.code == p.code.update(k - 1, op));
        assert forall|i: int| 0 <= i < c.code.len() implies op_fits(#[trigger] c.code[i], vs) by {
            if i != k - 1 {
                assert(c.code[i] == p.code[i]);
            }
        }
    }
}

proof fn lemma_cancelled_fits(bs: Seq<BlockView>, vs: Seq<VRegInfo>)
    requires
        blocks_fit(bs, vs),
        cancelled(bs) is Some,
    ensures
        blocks_fit(cancelled(bs)->0, vs),
        (cancelled(bs)->0).len() == bs.len(),
{
    let f = |b: BlockView| cancelled_block(b);
    let r = cancelled(bs)->0;
    lemma_map_blocks(bs, f, bs.len() as int, bs.len() as int);
    assert forall|i: int| 0 <= i < r.len() implies code_fits((#[trigger] r[i]).code, vs) by {
        lemma_map_at(bs, f, i, bs.len() as int);
        let b = bs[i];
        let k = b.code.len() as int;
        assert(code_fits(bs[i].code, vs));
        lemma_cancel_fits(b.code, k, vs);
        let c = cancel(b.code, k);
        lemma_compact_fits(BlockView { code: c.code, ..b }, c.keep, vs);
    }
}

proof fn lemma_folded_fits(
    vm: VmState,
    pool: Seq<PoolEntry>,
    bs: Seq<BlockView>,
    vs: Seq<VRegInfo>,
)
    requires
        blocks_fit(bs, vs),
        folded(vm, pool, bs) is Some,
    ensures
        blocks_fit(folded(vm, pool, bs)->0, vs),
        (folded(vm, pool, bs)->0).len() == bs.len(),
{
    let known = const_doubles(vm, pool, bs, bs.len() as int);
    let r = folded(vm, pool, bs)->0;
    assert forall|i: int| 0 <= i < r.len() implies code_fits((#[trigger] r[i]).code, vs) by {
        assert(code_fits(bs[i].code, vs));
        assert forall|j: int| 0 <= j < r[i].code.len() implies op_fits(
            #[trigger] r[i].code[j],
            vs,
        ) by {
            assert(r[i].code[j] == fold_op(known, bs[i].code[j]));
            assert(op_fits(bs[i].code[j], vs));
        }
    }
}

proof fn lemma_dead_fits(bs: Seq<BlockView>, n: nat, vs: Seq<VRegInfo>)
    requires
        blocks_fit(bs, vs),
        without_dead_boxes(bs, n) is Some,
    ensures
        blocks_fit(without_dead_boxes(bs, n)->0, vs),
{
    let refs = all_refs(bs);
    let f = |b: BlockView| compacted(b, live_flags(refs, b));
    let r = without_dead_boxes(bs, n)->0;
    lemma_map_blocks(bs, f, bs.len() as int, bs.len() as int);
    assert forall|i: int| 0 <= i < r.len() implies code_fits((#[trigger] r[i]).code, vs) by {
        lemma_map_at(bs, f, i, bs.len() as int);
        assert(code_fits(bs[i].code, vs));
        lemma_compact_fits(bs[i], live_flags(refs, bs[i]), vs);
    }
}

proof fn lemma_sunk_from_fits(bs: Seq<BlockView>, t: int, b: int, k: int, vs: Seq<VRegInfo>)
    requires
        blocks_fit(bs, vs),
        0 <= b < bs.len(),
        0 <= k <= bs[b].code.len(),
    ensures
        code_fits(sunk_from(bs, t, b, k), vs),
    decreases k,
{
    if k > 0 {
        lemma_sunk_from_fits(bs, t, b, k - 1, vs);
        let rest = sunk_from(bs, t, b, k - 1);
        let r = sunk_from(bs, t, b, k);
        assert(code_fits(bs[b].code, vs));
        assert(op_fits(bs[b].code[k - 1], vs));
        assert forall|i: int| 0 <= i < r.len() implies op_fits(#[trigger] r[i], vs) by {
            if i < rest.len() {
                assert(r[i] == rest[i]);
            }
        }
    }
}

proof fn lemma_sunk_into_fits(bs: Seq<BlockView>, t: int, k: int, vs: Seq<VRegInfo>)
    requires
        blocks_fit(bs, vs),
        0 <= k <= bs.len(),
    ensures
        code_fits(sunk_into(bs, t, k), vs),
    decreases k,
{
    if k > 0 {
        lemma_sunk_into_fits(bs, t, k - 1, vs);
        let len = bs[k - 1].code.len() as int;
        lemma_sunk_from_fits(bs, t, k - 1, len, vs);
        let a = sunk_into(bs, t, k - 1);
        let b = sunk_from(bs, t, k - 1, len);
        let r = sunk_into(bs, t, k);
        assert forall|i: int| 0 <= i < r.len() implies op_fits(#[trigger] r[i], vs) by {
            if i < a.len() {
                assert(r[i] == a[i]);
            } else {
                assert(r[i] == b[i - a.len()]);
            }
        }
    }
}

proof fn lemma_sunk_fits(bs: Seq<BlockView>, n: nat, vs: Seq<VRegInfo>)
    requires
        blocks_fit(bs, vs),
        sunk(bs, n) is Some,
    ensures
        blocks_fit(sunk(bs, n)->0, vs),
{
    let r = sunk(bs, n)->0;
    assert forall|i: int| 0 <= i < r.len() implies code_fits((#[trigger] r[i]).code, vs) by {
        assert(sunk_block(bs, i) is Some);
        assert(code_fits(bs[i].code, vs));
        lemma_compact_fits(bs[i], unsunk(bs, i), vs);
        let c = compacted(bs[i], unsunk(bs, i))->0;
        let ins = sunk_into(bs, i, bs.len() as int);
        lemma_sunk_into_fits(bs, i, bs.len() as int, vs);
        let d = prepended(c, ins)->0;
        assert forall|j: int| 0 <= j < d.code.len() implies op_fits(#[trigger] d.code[j], vs) by {
            if ins.len() > 0 {
                if j < ins.len() {
                    assert(d.code[j] == ins[j]);
                } else {
                    assert(d.code[j] == c.code[j - ins.len()]);
                }
            }
        }
    }
}

/// An operation that promotion rewrites or drops.
pub(crate) open spec fn pending(op: IrView, flags: Seq<bool>) -> bool {
    match op {
        Ir::ConstPool { dst, .. } => flags[dst.0 as int],
        Ir::Move { dst, .. } => flags[dst.0 as int],
        Ir::FUnbox { src, .. } => flags[src.0 as int],
        _ => false,
    }
}

/// What promotion is told about one operation: it is to be rewritten, or fits the new kinds as it is.
pub(crate) open spec fn op_ready(op: IrView, flags: Seq<bool>, vs: Seq<VRegInfo>, ws: Seq<VRegInfo>) -> bool {
    op_fits(op, vs) && (pending(op, flags) || op_fits(op, ws))
}

/// The new kinds: unboxed registers stay unboxed, and promoted ones become so.
pub(crate) open spec fn kinds_move(vs: Seq<VRegInfo>, ws: Seq<VRegInfo>, flags: Seq<bool>) -> bool {
    &&& ws.len() == vs.len() == flags.len()
    &&& forall|v: int| 0 <= v < vs.len() && vs[v].is_fp ==> (#[trigger] ws[v]).is_fp
    &&& forall|v: int| 0 <= v < vs.len() && flags[v] ==> (#[trigger] ws[v]).is_fp && !vs[v].is_fp
}

pub(crate) proof fn lemma_reread_fits(op: IrView, from: VReg, to: VReg, ws: Seq<VRegInfo>)
    requires
        op_fits(op, ws),
        unboxed(from, ws),
        unboxed(to, ws),
    ensures
        op_fits(reread(op, from, to), ws),
{
}

proof fn lemma_reread_pending(op: IrView, from: VReg, to: VReg, flags: Seq<bool>, vs: Seq<VRegInfo>, ws: Seq<VRegInfo>)
    requires
        kinds_move(vs, ws, flags),
        op_fits(op, vs),
        pending(op, flags),
        unboxed(from, vs),
    ensures
        reread(op, from, to) == op,
{
    match op {
        Ir::Move { dst, src } => {
            assert(ws[dst.0 as int].is_fp);
        },
        _ => {},
    }
}

proof fn lemma_promote_fits(
    code: Seq<IrView>,
    k: int,
    flags: Seq<bool>,
    held: Map<u32, VReg>,
    doubles: Map<u32, u64>,
    vs: Seq<VRegInfo>,
    ws: Seq<VRegInfo>,
)
    requires
        0 <= k <= code.len(),
        promote_code(code, k, flags, held, doubles) is Some,
        kinds_move(vs, ws, flags),
        forall|i: int| 0 <= i < code.len() ==> op_ready(#[trigger] code[i], flags, vs, ws),
        forall|v: u32| #[trigger] held.dom().contains(v) ==> unboxed(held[v], vs),
    ensures
        ({
            let (c, keep) = promote_code(code, k, flags, held, doubles)->0;
            &&& c.len() == code.len()
            &&& keep.len() == k
            &&& forall|i: int| 0 <= i < k && keep[i] ==> op_fits(#[trigger] c[i], ws)
            &&& forall|i: int|
                k <= i < code.len() ==> (if pending(code[i], flags) {
                    #[trigger] c[i] == code[i]
                } else {
                    op_fits(c[i], ws) && !pending(c[i], flags)
                })
        }),
    decreases k,
{
    if k > 0 {
        lemma_promote_fits(code, k - 1, flags, held, doubles, vs, ws);
        let (c, keep) = promote_code(code, k - 1, flags, held, doubles)->0;
        let (c1, x) = promote_op(c, k - 1, flags, held, doubles)->0;
        let op = c[k - 1];
        assert(op_ready(code[k - 1], flags, vs, ws));
        assert(c.len() == code.len());
        match op {
            Ir::FUnbox { dst, src, .. } => {
                if flags[src.0 as int] {
                    assert(pending(op, flags));
                    assert(op == code[k - 1]);
                    assert(unboxed(dst, vs));
                    assert(ws[dst.0 as int].is_fp);
                    assert(general(src, vs));
                    assert(ws[src.0 as int].is_fp);
                    assert forall|i: int| k <= i < code.len() implies (if pending(
                        code[i],
                        flags,
                    ) {
                        #[trigger] c1[i] == code[i]
                    } else {
                        op_fits(c1[i], ws) && !pending(c1[i], flags)
                    }) by {
                        assert(c1[i] == reread(c[i], dst, src));
                        assert(op_ready(code[i], flags, vs, ws));
                        if pending(code[i], flags) {
                            assert(c[i] == code[i]);
                            lemma_reread_pending(code[i], dst, src, flags, vs, ws);
                        } else {
                            assert(op_fits(c[i], ws) && !pending(c[i], flags));
                            lemma_reread_fits(c[i], dst, src, ws);
                        }
                    }
                    assert forall|i: int| 0 <= i < k && keep.push(x)[i] implies op_fits(
                        #[trigger] c1[i],
                        ws,
                    ) by {
                        assert(i < k - 1);
                        assert(c1[i] == c[i]);
                    }
                }
            },
            _ => {
                assert(c1 == c || c1 == c.update(k - 1, c1[k - 1]));
                if let Ir::Move { dst, src } = op {
                    if flags[dst.0 as int] {
                        assert(pending(op, flags));
                        assert(op == code[k - 1]);
                        assert(dst.0 < vs.len());
                        assert(ws[dst.0 as int].is_fp);
                        if held.dom().contains(src.0) {
                            assert(ws[held[src.0].0 as int].is_fp);
                        }
                    }
                }
                if let Ir::ConstPool { dst, .. } = op {
                    if flags[dst.0 as int] {
                        assert(pending(op, flags));
                        assert(op == code[k - 1]);
                        assert(dst.0 < vs.len());
                        assert(ws[dst.0 as int].is_fp);
                    }
                }
                assert(op_fits(c1[k - 1], ws));
                assert forall|i: int| k <= i < code.len() implies (if pending(code[i], flags) {
                    #[trigger] c1[i] == code[i]
                } else {
                    op_fits(c1[i], ws) && !pending(c1[i], flags)
                }) by {
                    assert(c1[i] == c[i]);
                }
                assert forall|i: int| 0 <= i < k && keep.push(x)[i] implies op_fits(
                    #[trigger] c1[i],
                    ws,
                ) by {
                    if i < k - 1 {
                        assert(c1[i] == c[i]);
                        assert(keep[i]);
                    }
                }
            },
        }
    } else {
        assert forall|i: int| 0 <= i < code.len() implies (if pending(code[i], flags) {
            #[trigger] code[i] == code[i]
        } else {
            op_fits(code[i], ws) && !pending(code[i], flags)
        }) by {
            assert(op_ready(code[i], flags, vs, ws));
        }
    }
}

/// Each operation of the method is to be rewritten or fits the new kinds.
pub(crate) proof fn lemma_op_ready(
    vm: VmState,
    m: MethodView,
    flags: Seq<bool>,
    held: Map<u32, VReg>,
    doubles: Map<u32, u64>,
    b: int,
    i: int,
)
    requires
        blocks_fit(m.blocks, m.vregs),
        m.vregs.len() <= u32::MAX + 1,
        flags == promoted_flags(m.blocks, m.vregs, m.nil_lit, held, doubles),
        0 <= b < m.blocks.len(),
        0 <= i < m.blocks[b].code.len(),
    ensures
        op_ready(
            m.blocks[b].code[i],
            flags,
            m.vregs,
            promoted_regs(m.blocks, m.vregs, flags),
        ),
{
    let bs = m.blocks;
    let vs = m.vregs;
    let ws = promoted_regs(bs, vs, flags);
    let op = bs[b].code[i];
    assert(code_fits(bs[b].code, vs));
    assert(op_fits(bs[b].code[i], vs));
    lemma_fits_below(op, vs);
    if !pending(op, flags) {
        // What the operation reads keeps its kind, but for copies of promoted registers.
        let r = op.reads();
        assert forall|k: int| 0 <= k < r.len() && !(op is Move) implies ws[(
        #[trigger] r[k]).0 as int] == vs[r[k].0 as int] by {
            let v = r[k];
            assert(v.0 < vs.len());
            assert(VReg(v.0 as int as u32) == v);
            assert(r.contains(v));
            if flags[v.0 as int] {
                assert(promotable(bs, vs, m.nil_lit, held, doubles, v));
                assert(op_allows(bs, m.nil_lit, held, doubles, bs[b].code, i, v));
            } else if copy_of_promoted(bs, flags, v) {
                lemma_silent(m, flags, held, doubles, v);
                lemma_reads(bs, b, i, v);
            }
        }
        if let Some(d) = op.write() {
            if !(op is Move) {
                assert(d.0 < vs.len());
                assert(VReg(d.0 as int as u32) == d);
                if flags[d.0 as int] {
                    assert(promotable(bs, vs, m.nil_lit, held, doubles, d));
                    lemma_all_defs(DefKind::Other(m.nil_lit), bs, b, i, d);
                } else if copy_of_promoted(bs, flags, d) {
                    lemma_silent(m, flags, held, doubles, d);
                    if def_of(DefKind::Nil(m.nil_lit), op) == Some(d) {
                        lemma_one_def(DefKind::Nil(m.nil_lit), bs, b, i, d);
                    } else {
                        lemma_all_defs(DefKind::Other(m.nil_lit), bs, b, i, d);
                    }
                }
                assert(ws[d.0 as int] == vs[d.0 as int]);
            }
        }
        if let Ir::Move { dst, src } = op {
            assert(r[0] == src);
            assert(VReg(dst.0 as int as u32) == dst && VReg(src.0 as int as u32) == src);
            if flags[src.0 as int] {
                assert(copy_of_promoted(bs, flags, dst));
            } else {
                if copy_of_promoted(bs, flags, src) {
                    lemma_silent(m, flags, held, doubles, src);
                    assert(r.contains(src));
                    lemma_reads(bs, b, i, src);
                }
                if copy_of_promoted(bs, flags, dst) {
                    lemma_silent(m, flags, held, doubles, dst);
                    let (c, j) = choose|c: int, j: int|
                        0 <= c < bs.len() && 0 <= j < bs[c].code.len() && (
                        #[trigger] bs[c].code[j] matches Ir::Move { dst: x, src: y } && x == dst
                            && flags[y.0 as int]);
                    if b < c || (b == c && i < j) {
                        lemma_two_defs(DefKind::Copy, bs, b, i, c, j, dst);
                    } else if c < b || j < i {
                        lemma_two_defs(DefKind::Copy, bs, c, j, b, i, dst);
                    }
                }
                assert(ws[src.0 as int] == vs[src.0 as int]);
                assert(ws[dst.0 as int] == vs[dst.0 as int]);
            }
        } else {
            lemma_same_fits(op, vs, ws);
        }
    }
}

/// An operation whose registers keep their kinds fits as before.
pub(crate) proof fn lemma_same_fits(op: IrView, vs: Seq<VRegInfo>, ws: Seq<VRegInfo>)
    requires
        op_fits(op, vs),
        vs.len() == ws.len(),
        forall|k: int|
            0 <= k < op.reads().len() ==> ws[(#[trigger] op.reads()[k]).0 as int]
                == vs[op.reads()[k].0 as int],
        op.write() matches Some(d) ==> ws[d.0 as int] == vs[d.0 as int],
    ensures
        op_fits(op, ws),
{
    let r = op.reads();
    if r.len() > 0 {
        assert(ws[r[0].0 as int] == vs[r[0].0 as int]);
    }
    if r.len() > 1 {
        assert(ws[r[1].0 as int] == vs[r[1].0 as int]);
    }
    assert forall|k: int| 0 <= k < r.len() implies general(#[trigger] r[k], ws) == general(
        r[k],
        vs,
    ) by {
        assert(ws[op.reads()[k].0 as int] == vs[op.reads()[k].0 as int]);
    }
}

proof fn lemma_reads(bs: Seq<BlockView>, b: int, i: int, v: VReg)
    requires
        0 <= b < bs.len(),
        0 <= i < bs[b].code.len(),
        bs[b].code[i].reads().contains(v),
    ensures
        all_reads(bs).contains(v),
{
    lemma_all_reads(bs, v);
    assert(crate::tidy::reads_reg(bs, b, i, v));
}

/// Copies of promoted registers are silent.
proof fn lemma_silent(
    m: MethodView,
    flags: Seq<bool>,
    held: Map<u32, VReg>,
    doubles: Map<u32, u64>,
    v: VReg,
)
    requires
        blocks_fit(m.blocks, m.vregs),
        m.vregs.len() <= u32::MAX + 1,
        flags == promoted_flags(m.blocks, m.vregs, m.nil_lit, held, doubles),
        copy_of_promoted(m.blocks, flags, v),
    ensures
        silent_copy(m.blocks, m.nil_lit, v),
{
    let bs = m.blocks;
    let (c, j) = choose|c: int, j: int|
        0 <= c < bs.len() && 0 <= j < bs[c].code.len() && (
        #[trigger] bs[c].code[j] matches Ir::Move { dst, src } && dst == v
            && flags[src.0 as int]);
    if let Ir::Move { dst, src } = bs[c].code[j] {
        assert(code_fits(bs[c].code, m.vregs));
        assert(op_fits(bs[c].code[j], m.vregs));
        assert(VReg(src.0 as int as u32) == src);
        assert(promotable(bs, m.vregs, m.nil_lit, held, doubles, src));
        assert(op_allows(bs, m.nil_lit, held, doubles, bs[c].code, j, src));
    }
}

/// Promoting temporaries moves them, and what is copied from them, to the other kind as a whole.
proof fn lemma_temps_fit(vm: VmState, m: MethodView)
    requires
        blocks_fit(m.blocks, m.vregs),
        with_float_temps(vm, m) is Some,
    ensures
        ({
            let r = with_float_temps(vm, m)->0;
            blocks_fit(r.blocks, r.vregs)
        }),
{
    let bs = m.blocks;
    let vs = m.vregs;
    let held = box_sources(bs, bs.len() as int);
    let doubles = const_doubles(vm, m.pool, bs, bs.len() as int);
    let flags = promoted_flags(bs, vs, m.nil_lit, held, doubles);
    let ws = promoted_regs(bs, vs, flags);
    let f = |b: BlockView| promote_block(b, flags, held, doubles);
    let r = map_blocks(bs, f, bs.len() as int)->0;
    lemma_sources_kind(bs, vs);
    lemma_map_blocks(bs, f, bs.len() as int, bs.len() as int);
    assert(kinds_move(vs, ws, flags)) by {
        assert forall|v: int| 0 <= v < vs.len() && flags[v] implies (#[trigger] ws[v]).is_fp
            && !vs[v].is_fp by {
            assert(promotable(bs, vs, m.nil_lit, held, doubles, VReg(v as u32)));
        }
    }
    assert forall|i: int| 0 <= i < r.len() implies code_fits((#[trigger] r[i]).code, ws) by {
        lemma_map_at(bs, f, i, bs.len() as int);
        let b = bs[i];
        let k = b.code.len() as int;
        assert forall|j: int| 0 <= j < k implies op_ready(#[trigger] b.code[j], flags, vs, ws) by {
            lemma_op_ready(vm, m, flags, held, doubles, i, j);
        }
        lemma_promote_fits(b.code, k, flags, held, doubles, vs, ws);
        let (c, keep) = promote_code(b.code, k, flags, held, doubles)->0;
        lemma_compact_fits(BlockView { code: c, ..b }, keep, ws);
    }
}

proof fn lemma_cancel_rets(code: Seq<IrView>, k: int)
    requires
        0 <= k <= code.len(),
    ensures
        cancel(code, k).code.len() == code.len(),
        forall|i: int|
            0 <= i < code.len() ==> (#[trigger] cancel(code, k).code[i]) is Ret == code[i] is Ret,
    decreases k,
{
    if k > 0 {
        lemma_cancel_rets(code, k - 1);
        let p = cancel(code, k - 1);
        let c = cancel(code, k);
        assert(c.code == p.code.update(k - 1, subst_fp(p.unboxed, p.code[k - 1])));
        assert forall|i: int| 0 <= i < code.len() implies (#[trigger] c.code[i]) is Ret
            == code[i] is Ret by {
            assert(p.code[i] is Ret == code[i] is Ret);
        }
    }
}

proof fn lemma_local_rets(vm: VmState, m: MethodView)
    requires
        all_rets_last(m.blocks),
        local_reduced(vm, m) is Some,
    ensures
        all_rets_last((local_reduced(vm, m)->0).blocks),
{
    let bs = m.blocks;
    let f = |b: BlockView| cancelled_block(b);
    let bs1 = cancelled(bs)->0;
    let r = (local_reduced(vm, m)->0).blocks;
    lemma_map_blocks(bs, f, bs.len() as int, bs.len() as int);
    assert forall|i: int| 0 <= i < r.len() implies rets_last((#[trigger] r[i]).code) by {
        lemma_map_at(bs, f, i, bs.len() as int);
        let b = bs[i];
        assert(rets_last(bs[i].code));
        let c = cancel(b.code, b.code.len() as int);
        lemma_cancel_rets(b.code, b.code.len() as int);
        lemma_same_rets(b.code, c.code);
        lemma_compact_rets(BlockView { code: c.code, ..b }, c.keep);
        lemma_same_rets(bs1[i].code, r[i].code);
    }
}

/// The reduction keeps ordinary values and unboxed doubles in registers of their own. A promoted
/// value that a block returns is boxed at the end of the block, so where copies are followed,
/// returns stand there.
pub proof fn law_reduction_keeps_kinds(vm: VmState, m: MethodView, osr_bci: Option<u16>)
    requires
        blocks_fit(m.blocks, m.vregs),
        vm.splice_promote ==> all_rets_last(m.blocks),
        reduced(vm, m, osr_bci) is Some,
    ensures
        ({
            let r = reduced(vm, m, osr_bci)->0;
            blocks_fit(r.blocks, r.vregs)
        }),
{
    lemma_cancelled_fits(m.blocks, m.vregs);
    let bs1 = cancelled(m.blocks)->0;
    lemma_folded_fits(vm, m.pool, bs1, m.vregs);
    let m1 = local_reduced(vm, m)->0;
    if vm.splice_promote {
        lemma_local_rets(vm, m);
        lemma_trees_fit(vm, m1, osr_bci);
    } else if osr_bci is None {
        lemma_temps_fit(vm, m1);
    }
    let m2 = promoted(vm, m1, osr_bci)->0;
    lemma_sunk_fits(m2.blocks, m2.vregs.len(), m2.vregs);
    let bs3 = sunk(m2.blocks, m2.vregs.len())->0;
    lemma_dead_fits(bs3, m2.vregs.len(), m2.vregs);
}

} // verus!

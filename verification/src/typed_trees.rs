//! Promoting the copies of float values keeps registers to their kinds.

use vstd::prelude::*;
use crate::boxes::{lemma_map_blocks, map_blocks};
use crate::endings::{all_rets_last, lemma_compact_rets, lemma_same_rets, rets_last};
use crate::ir::{BlockView, Ir, IrView, MethodView, VReg, VRegInfo};
use crate::kinds::{blocks_fit, code_fits, general, lemma_fits_below, op_fits, unboxed};
use crate::passes::compacted;
use crate::promote::{reread, DefKind};
use crate::reach::{is_walk, lemma_extend};
use crate::sound_passes::lemma_map_at;
use crate::splice_promote::{
    all_open, chase, copies_in, copies_of, copy_graph, dead_hops, hop_flags, in_tree, planned,
    promoted_trees, reboxed, retarget_block, retarget_code, retarget_op, swept, tree_allows,
    tree_member, tree_promotable, web_of, with_float_trees, without_copies_to, Root, Web,
};
use crate::tidy::{kept_op, lemma_all_defs, lemma_claimed, lemma_kept_all, lemma_sources_kind};
use crate::total::{covers, fit_root, has_root, lemma_roots, lemma_tree_moves};
use crate::typed::{kinds_move, lemma_reread_fits, lemma_same_fits};
use crate::world::VmState;

verus! {

/// An operation that retargeting rewrites or drops.
pub(crate) open spec fn pending(op: IrView, flags: Seq<bool>) -> bool {
    match op {
        Ir::ConstPool { dst, .. } => flags[dst.0 as int],
        Ir::FUnbox { src, .. } => flags[src.0 as int],
        _ => false,
    }
}

/// A promoted register is returned.
pub(crate) open spec fn answers(op: IrView, flags: Seq<bool>) -> bool {
    op matches Ir::Ret { val } && val.0 < flags.len() && flags[val.0 as int]
}

/// What retargeting is told about one operation.
pub(crate) open spec fn tree_ready(
    w: Web,
    roots: Seq<VReg>,
    op: IrView,
    flags: Seq<bool>,
    vs: Seq<VRegInfo>,
    ws: Seq<VRegInfo>,
) -> bool {
    &&& op_fits(op, vs)
    &&& planned(w, roots, op) matches Some(p) ==> op_fits(p, ws)
    &&& planned(w, roots, op) is Some || pending(op, flags) || answers(op, flags) || op_fits(op, ws)
}

/// What is known of an operation that is still to be looked at.
spec fn ahead(
    w: Web,
    roots: Seq<VReg>,
    orig: IrView,
    op: IrView,
    flags: Seq<bool>,
    ws: Seq<VRegInfo>,
) -> bool {
    if planned(w, roots, orig) is Some {
        true
    } else if pending(orig, flags) || answers(orig, flags) {
        op == orig
    } else {
        op_fits(op, ws) && !pending(op, flags)
    }
}

proof fn lemma_retarget_fits(
    w: Web,
    roots: Seq<VReg>,
    flags: Seq<bool>,
    code: Seq<IrView>,
    k: int,
    vs: Seq<VRegInfo>,
    ws: Seq<VRegInfo>,
)
    requires
        0 <= k <= code.len(),
        retarget_code(w, roots, flags, code, k) is Some,
        kinds_move(vs, ws, flags),
        forall|i: int|
            0 <= i < code.len() ==> tree_ready(w, roots, #[trigger] code[i], flags, vs, ws),
    ensures
        ({
            let (c, keep) = retarget_code(w, roots, flags, code, k)->0;
            &&& c.len() == code.len()
            &&& keep.len() == k
            &&& forall|i: int|
                0 <= i < k && keep[i] ==> op_fits(#[trigger] c[i], ws) || answers(c[i], flags)
            &&& forall|i: int|
                k <= i < code.len() ==> ahead(w, roots, code[i], #[trigger] c[i], flags, ws)
            &&& forall|i: int| 0 <= i < code.len() ==> (#[trigger] c[i]) is Ret == code[i] is Ret
        }),
    decreases k,
{
    if k > 0 {
        lemma_retarget_fits(w, roots, flags, code, k - 1, vs, ws);
        let (c, keep) = retarget_code(w, roots, flags, code, k - 1)->0;
        let (c1, x) = retarget_op(w, roots, flags, code[k - 1], c, k - 1)->0;
        let op = c[k - 1];
        assert(tree_ready(w, roots, code[k - 1], flags, vs, ws));
        assert(ahead(w, roots, code[k - 1], c[k - 1], flags, ws));
        let rewritten = planned(w, roots, code[k - 1]) is None && op is FUnbox
            && flags[(op->FUnbox_src).0 as int];
        if rewritten {
            let dst = op->FUnbox_dst;
            let src = op->FUnbox_src;
            assert(pending(op, flags));
            assert(op == code[k - 1]);
            assert(unboxed(dst, vs));
            assert(ws[dst.0 as int].is_fp);
            assert(general(src, vs));
            assert(ws[src.0 as int].is_fp);
            assert forall|i: int| k <= i < code.len() implies ahead(
                w,
                roots,
                code[i],
                #[trigger] c1[i],
                flags,
                ws,
            ) by {
                assert(c1[i] == reread(c[i], dst, src));
                assert(ahead(w, roots, code[i], c[i], flags, ws));
                assert(tree_ready(w, roots, code[i], flags, vs, ws));
                if planned(w, roots, code[i]) is Some {
                } else if pending(code[i], flags) {
                    assert(c[i] == code[i]);
                } else if answers(code[i], flags) {
                } else {
                    lemma_reread_fits(c[i], dst, src, ws);
                }
            }
            assert forall|i: int| 0 <= i < code.len() implies (#[trigger] c1[i]) is Ret
                == code[i] is Ret by {
                assert(c[i] is Ret == code[i] is Ret);
            }
            assert forall|i: int| 0 <= i < k && keep.push(x)[i] implies op_fits(
                #[trigger] c1[i],
                ws,
            ) || answers(c1[i], flags) by {
                assert(i < k - 1);
                assert(c1[i] == c[i]);
                assert(keep[i]);
            }
        } else {
            assert(c1 == c || c1 == c.update(k - 1, c1[k - 1]));
            if planned(w, roots, code[k - 1]) is None {
                if let Ir::ConstPool { dst, .. } = op {
                    if flags[dst.0 as int] {
                        assert(pending(op, flags));
                        assert(op == code[k - 1]);
                        assert(dst.0 < vs.len());
                        assert(ws[dst.0 as int].is_fp);
                    }
                }
            }
            assert(op_fits(c1[k - 1], ws) || answers(c1[k - 1], flags));
            assert(c1[k - 1] is Ret == code[k - 1] is Ret) by {
                assert(c[k - 1] is Ret == code[k - 1] is Ret);
            }
            assert forall|i: int| k <= i < code.len() implies ahead(
                w,
                roots,
                code[i],
                #[trigger] c1[i],
                flags,
                ws,
            ) by {
                assert(c1[i] == c[i]);
            }
            assert forall|i: int| 0 <= i < code.len() implies (#[trigger] c1[i]) is Ret
                == code[i] is Ret by {
                if i != k - 1 {
                    assert(c1[i] == c[i]);
                }
            }
            assert forall|i: int| 0 <= i < k && keep.push(x)[i] implies op_fits(
                #[trigger] c1[i],
                ws,
            ) || answers(c1[i], flags) by {
                if i < k - 1 {
                    assert(c1[i] == c[i]);
                    assert(keep[i]);
                }
            }
        }
    } else {
        assert forall|i: int| 0 <= i < code.len() implies ahead(
            w,
            roots,
            code[i],
            #[trigger] code[i],
            flags,
            ws,
        ) by {
            assert(tree_ready(w, roots, code[i], flags, vs, ws));
        }
    }
}

proof fn lemma_copied_in(code: Seq<IrView>, k: int, i: int, dst: VReg, src: VReg)
    requires
        0 <= i < k <= code.len(),
        code[i] == (Ir::<Seq<VReg>>::Move { dst, src }),
    ensures
        copies_in(code, k, src).contains(dst.0 as usize),
    decreases k,
{
    let all = copies_in(code, k, src);
    let rest = copies_in(code, k - 1, src);
    if i == k - 1 {
        assert(all[rest.len() as int] == dst.0 as usize);
    } else {
        lemma_copied_in(code, k - 1, i, dst, src);
        let h = choose|h: int| 0 <= h < rest.len() && rest[h] == dst.0 as usize;
        assert(all[h] == rest[h]);
    }
}

proof fn lemma_copied(bs: Seq<BlockView>, k: int, b: int, i: int, dst: VReg, src: VReg)
    requires
        0 <= b < k <= bs.len(),
        0 <= i < bs[b].code.len(),
        bs[b].code[i] == (Ir::<Seq<VReg>>::Move { dst, src }),
    ensures
        copies_of(bs, k, src).contains(dst.0 as usize),
    decreases k,
{
    let rest = copies_of(bs, k - 1, src);
    let last = copies_in(bs[k - 1].code, bs[k - 1].code.len() as int, src);
    let all = copies_of(bs, k, src);
    if b == k - 1 {
        lemma_copied_in(bs[b].code, bs[b].code.len() as int, i, dst, src);
        let h = choose|h: int| 0 <= h < last.len() && last[h] == dst.0 as usize;
        assert(all[rest.len() + h] == last[h]);
    } else {
        lemma_copied(bs, k - 1, b, i, dst, src);
        let h = choose|h: int| 0 <= h < rest.len() && rest[h] == dst.0 as usize;
        assert(all[h] == rest[h]);
    }
}

/// What is copied from a member of a tree is a member.
pub(crate) proof fn lemma_tree_grows(w: Web, t: VReg, b: int, i: int, dst: VReg, src: VReg)
    requires
        0 <= b < w.bs.len(),
        0 <= i < w.bs[b].code.len(),
        w.bs[b].code[i] == (Ir::<Seq<VReg>>::Move { dst, src }),
        dst.0 < w.vregs.len() <= u32::MAX + 1,
        src.0 < w.vregs.len(),
        in_tree(w, t, src),
    ensures
        in_tree(w, t, dst),
{
    let n = w.vregs.len();
    lemma_copied(w.bs, w.bs.len() as int, b, i, dst, src);
    assert(VReg(src.0 as int as u32) == src);
    assert(copy_graph(w.bs, n)[src.0 as int] == copies_of(w.bs, w.bs.len() as int, src));
    lemma_extend(
        copy_graph(w.bs, n),
        all_open(n),
        seq![t.0 as usize],
        src.0 as usize,
        dst.0 as usize,
    );
}

proof fn lemma_own_tree(w: Web, t: VReg)
    requires
        t.0 < w.vregs.len(),
    ensures
        in_tree(w, t, t),
{
    let n = w.vregs.len();
    let starts = seq![t.0 as usize];
    assert(starts.contains(starts[0]));
    assert(is_walk(copy_graph(w.bs, n), all_open(n), starts, starts));
    assert(starts.last() == t.0 as int);
}

proof fn lemma_chase_kind(w: Web, v: VReg, fuel: nat, vs: Seq<VRegInfo>)
    requires
        forall|v: u32| #[trigger] w.boxes.dom().contains(v) ==> unboxed(w.boxes[v], vs),
    ensures
        chase(w, v, fuel) matches Some(Root::Fp(fp)) ==> unboxed(fp, vs),
    decreases fuel,
{
    if fuel > 0 && !w.boxes.dom().contains(v.0) && !w.doubles.dom().contains(v.0)
        && crate::splice_promote::only_copied(w, v) {
        lemma_chase_kind(
            w,
            crate::splice_promote::copy_sources(w.bs, w.bs.len() as int)[v.0],
            (fuel - 1) as nat,
            vs,
        );
    }
}

/// The root of a promoted register.
pub(crate) proof fn lemma_member(w: Web, v: VReg) -> (r: VReg)
    requires
        w.vregs.len() <= u32::MAX + 1,
        v.0 < w.vregs.len(),
        promoted_trees(w, w.vregs.len() as int).1[v.0 as int],
    ensures
        in_tree(w, r, v),
        promoted_trees(w, w.vregs.len() as int).0.contains(r),
        fit_root(w, r),
        covers(w, r, promoted_trees(w, w.vregs.len() as int).1),
        !w.vregs[v.0 as int].is_fp,
{
    let n = w.vregs.len() as int;
    let (roots, flags) = promoted_trees(w, n);
    lemma_roots(w, n);
    assert(VReg(v.0 as int as u32) == v);
    assert(flags[v.0 as int]);
    assert(has_root(w, roots, VReg(v.0 as int as u32)));
    let h = choose|h: int| 0 <= h < roots.len() && in_tree(w, #[trigger] roots[h], v);
    let r = roots[h];
    assert(roots.contains(r));
    let c0 = choose|c0: Seq<bool>| tree_promotable(w, c0, r);
    if v != r {
        assert(in_tree(w, r, VReg(v.0 as int as u32)));
        assert(tree_member(w, c0, VReg(v.0 as int as u32)));
    }
    r
}

pub(crate) proof fn lemma_tree_ready(w: Web, b: int, i: int, ws: Seq<VRegInfo>)
    requires
        w.vregs.len() <= u32::MAX + 1,
        blocks_fit(w.bs, w.vregs),
        forall|v: u32| #[trigger] w.boxes.dom().contains(v) ==> unboxed(w.boxes[v], w.vregs),
        0 <= b < w.bs.len(),
        0 <= i < w.bs[b].code.len(),
        ws.len() == w.vregs.len(),
        forall|v: int|
            0 <= v < ws.len() ==> #[trigger] ws[v] == (if promoted_trees(
                w,
                w.vregs.len() as int,
            ).1[v] {
                VRegInfo { is_oop: false, is_fp: true }
            } else {
                w.vregs[v]
            }),
    ensures
        ({
            let (roots, flags) = promoted_trees(w, w.vregs.len() as int);
            tree_ready(w, roots, w.bs[b].code[i], flags, w.vregs, ws)
        }),
{
    let vs = w.vregs;
    let n = vs.len() as int;
    let (roots, flags) = promoted_trees(w, n);
    let op = w.bs[b].code[i];
    assert(code_fits(w.bs[b].code, vs));
    assert(op_fits(w.bs[b].code[i], vs));
    lemma_fits_below(op, vs);
    lemma_claimed(w, n);
    let r = op.reads();
    // A promoted register is only unboxed, copied or returned.
    assert forall|k: int| 0 <= k < r.len() && flags[(#[trigger] r[k]).0 as int] implies op is FUnbox
        || op is Move || op is Ret by {
        let v = r[k];
        assert(v.0 < vs.len());
        let t = lemma_member(w, v);
        let c0 = choose|c0: Seq<bool>| tree_promotable(w, c0, t);
        assert(tree_allows(w, t, w.bs[b].code, i));
        assert(in_tree(w, t, op.reads()[k]));
    }
    if let Ir::Move { dst, src } = op {
        assert(r[0] == src);
        if flags[dst.0 as int] {
            lemma_tree_moves(w, b, i, dst, src);
            let t = lemma_member(w, dst);
            if let Some(p) = planned(w, roots, op) {
                lemma_chase_kind(w, src, 16, vs);
                if let Ir::Move { dst: d, src: fp } = p {
                    assert(unboxed(fp, vs));
                    if flags[fp.0 as int] {
                        let u = lemma_member(w, fp);
                    }
                }
                assert(op_fits(p, ws));
            }
        } else {
            if flags[src.0 as int] {
                let t = lemma_member(w, src);
                lemma_tree_grows(w, t, b, i, dst, src);
                assert(in_tree(w, t, VReg(dst.0 as int as u32)));
            }
            if roots.contains(dst) {
                lemma_roots(w, n);
                lemma_own_tree(w, dst);
                assert(in_tree(w, dst, VReg(dst.0 as int as u32)));
            }
            assert(op_fits(op, ws));
        }
        if planned(w, roots, op) is None {
            assert(op_fits(op, ws)) by {
                if flags[dst.0 as int] {
                    let t = lemma_member(w, dst);
                    let u = lemma_member(w, src);
                }
            }
        }
    } else if !pending(op, flags) && !answers(op, flags) {
        assert forall|k: int| 0 <= k < r.len() implies ws[(#[trigger] r[k]).0 as int]
            == vs[r[k].0 as int] by {
            assert(r[k].0 < vs.len());
        }
        if let Some(d) = op.write() {
            if flags[d.0 as int] {
                assert(VReg(d.0 as int as u32) == d);
                lemma_all_defs(DefKind::Other(w.nil), w.bs, b, i, d);
            }
        }
        lemma_same_fits(op, vs, ws);
    }
}

/// The code fits but for returns of promoted values, which stand last.
spec fn nearly(code: Seq<IrView>, flags: Seq<bool>, ws: Seq<VRegInfo>) -> bool {
    &&& rets_last(code)
    &&& forall|i: int| 0 <= i < code.len() ==> op_fits(#[trigger] code[i], ws) || answers(code[i], flags)
}

proof fn lemma_compact_nearly(b: BlockView, keep: Seq<bool>, flags: Seq<bool>, ws: Seq<VRegInfo>)
    requires
        keep.len() == b.code.len(),
        rets_last(b.code),
        forall|i: int|
            0 <= i < b.code.len() && keep[i] ==> op_fits(#[trigger] b.code[i], ws) || answers(
                b.code[i],
                flags,
            ),
        compacted(b, keep) is Some,
    ensures
        nearly((compacted(b, keep)->0).code, flags, ws),
{
    let c = compacted(b, keep)->0;
    lemma_kept_all(b, keep);
    lemma_compact_rets(b, keep);
    assert forall|j: int| 0 <= j < c.code.len() implies op_fits(#[trigger] c.code[j], ws)
        || answers(c.code[j], flags) by {
        assert(kept_op(b.code, keep, b.code.len() as int, c.code[j]));
        let a = choose|a: int|
            0 <= a < b.code.len() && keep[a] && #[trigger] b.code[a] == c.code[j];
        assert(op_fits(b.code[a], ws) || answers(b.code[a], flags));
    }
}

spec fn all_nearly(bs: Seq<BlockView>, flags: Seq<bool>, ws: Seq<VRegInfo>) -> bool {
    forall|i: int| 0 <= i < bs.len() ==> nearly((#[trigger] bs[i]).code, flags, ws)
}

proof fn lemma_swept_fits(
    w: Web,
    bs: Seq<BlockView>,
    left: Seq<bool>,
    fuel: nat,
    flags: Seq<bool>,
    ws: Seq<VRegInfo>,
)
    requires
        all_nearly(bs, flags, ws),
        swept(w, bs, left, fuel) is Some,
    ensures
        all_nearly(swept(w, bs, left, fuel)->0, flags, ws),
    decreases fuel,
{
    let dead = dead_hops(w, bs, left);
    if fuel == 0 || !left.contains(true) || !dead.contains(true) {
    } else {
        let f = |b: BlockView| without_copies_to(dead, b);
        let bs1 = map_blocks(bs, f, bs.len() as int)->0;
        lemma_map_blocks(bs, f, bs.len() as int, bs.len() as int);
        assert forall|i: int| 0 <= i < bs1.len() implies nearly((#[trigger] bs1[i]).code, flags, ws) by {
            lemma_map_at(bs, f, i, bs.len() as int);
            assert(nearly(bs[i].code, flags, ws));
            lemma_compact_nearly(
                bs[i],
                Seq::new(
                    bs[i].code.len(),
                    |j: int|
                        match bs[i].code[j] {
                            Ir::Move { dst, .. } => !dead[dst.0 as int],
                            _ => true,
                        },
                ),
                flags,
                ws,
            );
        }
        lemma_swept_fits(
            w,
            bs1,
            Seq::new(left.len(), |v: int| left[v] && !dead[v]),
            (fuel - 1) as nat,
            flags,
            ws,
        );
    }
}

proof fn lemma_more_kinds(op: IrView, ws: Seq<VRegInfo>, x: VRegInfo)
    requires
        op_fits(op, ws),
    ensures
        op_fits(op, ws.push(x)),
{
    let r = op.reads();
    assert forall|i: int| 0 <= i < r.len() && general(#[trigger] r[i], ws) implies general(
        r[i],
        ws.push(x),
    ) by {}
}

proof fn lemma_reboxed_fits(
    flags: Seq<bool>,
    bs: Seq<BlockView>,
    ws: Seq<VRegInfo>,
    k: int,
)
    requires
        0 <= k <= bs.len(),
        all_nearly(bs, flags, ws),
        flags.len() == ws.len(),
        forall|v: int| 0 <= v < ws.len() && flags[v] ==> (#[trigger] ws[v]).is_fp,
        reboxed(flags, bs, ws, k).1.len() <= u32::MAX + 1,
    ensures
        ({
            let (done, regs) = reboxed(flags, bs, ws, k);
            &&& done.len() == bs.len()
            &&& ws.len() <= regs.len()
            &&& forall|v: int| 0 <= v < ws.len() ==> #[trigger] regs[v] == ws[v]
            &&& forall|i: int| 0 <= i < k ==> code_fits((#[trigger] done[i]).code, regs)
            &&& forall|i: int|
                k <= i < bs.len() ==> (#[trigger] done[i]) == bs[i] && nearly(
                    done[i].code,
                    flags,
                    regs,
                )
        }),
    decreases k,
{
    if k > 0 {
        lemma_reboxed_fits(flags, bs, ws, k - 1);
        let (done, regs) = reboxed(flags, bs, ws, k - 1);
        let (d1, r1) = reboxed(flags, bs, ws, k);
        let b = done[k - 1];
        assert(nearly(done[k - 1].code, flags, regs));
        let last = b.code.len() as int - 1;
        let boxed = b.code.len() > 0 && (b.code[last] matches Ir::Ret { val }
            && flags[val.0 as int]);
        assert(done[k - 1] == bs[k - 1]);
        if boxed {
            let info = VRegInfo { is_oop: true, is_fp: false };
            let val = b.code[last]->Ret_val;
            let d = VReg(regs.len() as u32);
            assert(r1 == regs.push(info));
            assert forall|i: int| 0 <= i < k implies code_fits((#[trigger] d1[i]).code, r1) by {
                if i < k - 1 {
                    assert(d1[i] == done[i]);
                    assert forall|j: int| 0 <= j < d1[i].code.len() implies op_fits(
                        #[trigger] d1[i].code[j],
                        r1,
                    ) by {
                        assert(code_fits(done[i].code, regs));
                        lemma_more_kinds(done[i].code[j], regs, info);
                    }
                } else {
                    assert(op_fits(b.code[last], regs) || answers(b.code[last], flags));
                    assert(val.0 < ws.len()) by {
                        if op_fits(b.code[last], regs) {
                            assert(b.code[last].reads()[0] == val);
                        }
                    }
                    assert forall|j: int| 0 <= j < d1[i].code.len() implies op_fits(
                        #[trigger] d1[i].code[j],
                        r1,
                    ) by {
                        if j < last {
                            assert(d1[i].code[j] == b.code[j]);
                            assert(!(b.code[j] is Ret)) by {
                                reveal(rets_last);
                            }
                            assert(op_fits(b.code[j], regs) || answers(b.code[j], flags));
                            lemma_more_kinds(b.code[j], regs, info);
                        } else if j == last {
                            assert(ws[val.0 as int].is_fp);
                            assert(regs[val.0 as int] == ws[val.0 as int]);
                            assert(d1[i].code[j] == (Ir::<Seq<VReg>>::FBox { dst: d, src: val }));
                        } else {
                            assert(d1[i].code[j] == (Ir::<Seq<VReg>>::Ret { val: d }));
                        }
                    }
                }
            }
            assert forall|i: int| k <= i < bs.len() implies (#[trigger] d1[i]) == bs[i] && nearly(
                d1[i].code,
                flags,
                r1,
            ) by {
                assert(d1[i] == done[i]);
                assert(nearly(done[i].code, flags, regs));
                let c = done[i].code;
                assert forall|j: int| 0 <= j < c.len() implies op_fits(#[trigger] c[j], r1)
                    || answers(c[j], flags) by {
                    if op_fits(c[j], regs) {
                        lemma_more_kinds(c[j], regs, info);
                    }
                }
            }
        } else {
            assert(d1 == done && r1 == regs);
            assert(code_fits(done[k - 1].code, regs)) by {
                assert forall|j: int| 0 <= j < b.code.len() implies op_fits(
                    #[trigger] b.code[j],
                    regs,
                ) by {
                    assert(op_fits(b.code[j], regs) || answers(b.code[j], flags));
                    if j < last {
                        assert(!(b.code[j] is Ret)) by {
                            reveal(rets_last);
                        }
                    }
                }
            }
        }
    }
}

/// Promoting trees moves their registers to the other kind as a whole.
pub(crate) proof fn lemma_trees_fit(vm: VmState, m: MethodView, osr_bci: Option<u16>)
    requires
        blocks_fit(m.blocks, m.vregs),
        all_rets_last(m.blocks),
        with_float_trees(vm, m, osr_bci) matches Some(r) && r.vregs.len() <= u32::MAX + 1,
    ensures
        ({
            let r = with_float_trees(vm, m, osr_bci)->0;
            blocks_fit(r.blocks, r.vregs)
        }),
{
    let bs = m.blocks;
    let vs = m.vregs;
    let n = vs.len();
    let w = web_of(vm, m, osr_bci);
    let (roots, flags) = promoted_trees(w, n as int);
    let ws = Seq::new(
        n,
        |v: int|
            if flags[v] {
                VRegInfo { is_oop: false, is_fp: true }
            } else {
                vs[v]
            },
    );
    let f = |b: BlockView| retarget_block(w, roots, flags, b);
    let bs1 = map_blocks(bs, f, bs.len() as int)->0;
    lemma_sources_kind(bs, vs);
    lemma_claimed(w, n as int);
    assert(kinds_move(vs, ws, flags)) by {
        assert forall|v: int| 0 <= v < vs.len() && flags[v] implies (#[trigger] ws[v]).is_fp
            && !vs[v].is_fp by {
            let t = lemma_member(w, VReg(v as u32));
        }
    }
    lemma_map_blocks(bs, f, bs.len() as int, bs.len() as int);
    assert forall|i: int| 0 <= i < bs1.len() implies nearly((#[trigger] bs1[i]).code, flags, ws) by {
        lemma_map_at(bs, f, i, bs.len() as int);
        let b = bs[i];
        let k = b.code.len() as int;
        assert(rets_last(bs[i].code));
        assert forall|j: int| 0 <= j < k implies tree_ready(
            w,
            roots,
            #[trigger] b.code[j],
            flags,
            vs,
            ws,
        ) by {
            lemma_tree_ready(w, i, j, ws);
        }
        lemma_retarget_fits(w, roots, flags, b.code, k, vs, ws);
        let (c, keep) = retarget_code(w, roots, flags, b.code, k)->0;
        lemma_same_rets(b.code, c);
        lemma_compact_nearly(BlockView { code: c, ..b }, keep, flags, ws);
    }
    lemma_swept_fits(w, bs1, hop_flags(w, roots), n, flags, ws);
    let bs2 = swept(w, bs1, hop_flags(w, roots), n)->0;
    lemma_reboxed_fits(flags, bs2, ws, bs2.len() as int);
}

} // verus!

//! What the passes over Double boxes do to the values of a block.

use vstd::prelude::*;
use crate::boxes::{
    const_doubles, fold_block, fold_op, literal_double, live_flags, sinkable, site_named, sunk_from, sunk_into,
    trap_only, unsunk,
};
use crate::ir::{BlockView, DeoptView, Ir, IrView, MethodView, PoolEntry, VReg, VRegInfo};
use crate::kinds::{blocks_fit, code_fits, general, op_fits, unboxed};
use crate::passes::{
    all_named, all_reads, all_refs, code_reads, lemma_occurrences_bound, lemma_occurrences_concat,
    lemma_refs_split, occurrences, raw_refs, sites_refs,
};
use crate::promote::{
    box_sources, cancellable, op_allows, promotable, promote_code, promote_op, promoted_flags,
    promoted_regs, readers, reread, with_float_temps,
};
use crate::splice_promote::{
    chase, planned, promoted_trees, retarget_code, retarget_op, tree_allows, tree_promotable,
    web_of, with_float_trees, Root, Web,
};
use crate::tidy::{boxes, is_box, lemma_all_reads, lemma_box_sources, lemma_sources_kind};
use crate::typed::{kinds_move, lemma_op_ready, op_ready, pending};
use crate::typed_trees::{answers, lemma_member, lemma_tree_ready, tree_ready};
use crate::unboxed::{
    boxes_hold, change_ok, changes_ok, dropped, keeps_values, lemma_keeps_values, looked_at_late,
    operand_ok, regs_match, stands_for, untouched, Change, Machine,
};
use crate::values::{values, Regs};
use crate::world::VmState;

verus! {

proof fn lemma_one_block(bs: Seq<BlockView>, b: int, u: VReg)
    requires
        0 <= b < bs.len(),
    ensures
        occurrences(code_reads(bs[b].code), u) <= occurrences(all_reads(bs), u),
    decreases bs.len(),
{
    let p = bs.drop_last();
    lemma_occurrences_concat(all_reads(p), code_reads(bs.last().code), u);
    if b < bs.len() - 1 {
        assert(p[b] == bs[b]);
        lemma_one_block(p, b, u);
    }
}

proof fn lemma_two_blocks(bs: Seq<BlockView>, b: int, c: int, u: VReg)
    requires
        0 <= b < c < bs.len(),
    ensures
        occurrences(code_reads(bs[b].code), u) + occurrences(code_reads(bs[c].code), u)
            <= occurrences(all_reads(bs), u),
    decreases bs.len(),
{
    let p = bs.drop_last();
    lemma_occurrences_concat(all_reads(p), code_reads(bs.last().code), u);
    if c < bs.len() - 1 {
        lemma_two_blocks(p, b, c, u);
    } else {
        assert(p[b] == bs[b]);
        lemma_one_block(p, b, u);
    }
}

proof fn lemma_readers_code(code: Seq<IrView>, u: VReg, k: int)
    requires
        0 <= k <= code.len(),
    ensures
        readers(code, u, 0, k) == occurrences(code_reads(code.take(k)), u),
    decreases k,
{
    if k > 0 {
        lemma_readers_code(code, u, k - 1);
        assert(code.take(k).drop_last() =~= code.take(k - 1));
        lemma_occurrences_concat(code_reads(code.take(k - 1)), code[k - 1].reads(), u);
    } else {
        assert(code.take(0) =~= seq![]);
    }
}

proof fn lemma_readers_split(code: Seq<IrView>, u: VReg, a: int, b: int)
    requires
        0 <= a <= b <= code.len(),
    ensures
        readers(code, u, 0, b) == readers(code, u, 0, a) + readers(code, u, a, b),
    decreases b,
{
    if a < b {
        lemma_readers_split(code, u, a, b - 1);
    }
}

proof fn lemma_readers_one(code: Seq<IrView>, u: VReg, j: int, k: int)
    requires
        0 <= j < k <= code.len(),
        code[j].reads().contains(u),
    ensures
        readers(code, u, 0, k) > 0,
    decreases k,
{
    if j < k - 1 {
        lemma_readers_one(code, u, j, k - 1);
    } else {
        lemma_occurrences_bound(code[j].reads(), u);
    }
}

/// Every read of what a cancellable unboxing writes comes after it, in its block.
proof fn lemma_read_after(bs: Seq<BlockView>, b: int, i: int, u: VReg, v: VReg, c: int, j: int)
    requires
        0 <= b < bs.len(),
        0 <= i < bs[b].code.len(),
        cancellable(bs, bs[b].code, i, u, v),
        0 <= c < bs.len(),
        0 <= j < bs[c].code.len(),
        bs[c].code[j].reads().contains(u),
    ensures
        c == b,
        i < j,
{
    let code = bs[b].code;
    let len = code.len() as int;
    lemma_readers_code(code, u, len);
    assert(code.take(len) =~= code);
    lemma_readers_split(code, u, i + 1, len);
    lemma_one_block(bs, b, u);
    if c != b {
        let other = bs[c].code;
        lemma_readers_code(other, u, other.len() as int);
        assert(other.take(other.len() as int) =~= other);
        lemma_readers_one(other, u, j, other.len() as int);
        if b < c {
            lemma_two_blocks(bs, b, c, u);
        } else {
            lemma_two_blocks(bs, c, b, u);
        }
    } else if j <= i {
        lemma_readers_one(code, u, j, i + 1);
    }
}

proof fn lemma_site_ref(s: Seq<(u32, DeoptView)>, k: int, v: VReg)
    requires
        0 <= k < s.len(),
        raw_refs(s[k].1).contains(v),
    ensures
        sites_refs(s).contains(v),
    decreases s.len(),
{
    let a = sites_refs(s.drop_last());
    let b = raw_refs(s.last().1);
    lemma_occurrences_concat(a, b, v);
    lemma_occurrences_bound(a, v);
    lemma_occurrences_bound(b, v);
    lemma_occurrences_bound(a + b, v);
    if k < s.len() - 1 {
        assert(s.drop_last()[k] == s[k]);
        lemma_site_ref(s.drop_last(), k, v);
    }
}

proof fn lemma_named(bs: Seq<BlockView>, b: int, v: VReg)
    requires
        0 <= b < bs.len(),
        sites_refs(bs[b].deopt_sites).contains(v),
    ensures
        all_named(bs).contains(v),
    decreases bs.len(),
{
    let p = all_named(bs.drop_last());
    let q = sites_refs(bs.last().deopt_sites);
    lemma_occurrences_concat(p, q, v);
    lemma_occurrences_bound(p, v);
    lemma_occurrences_bound(q, v);
    lemma_occurrences_bound(p + q, v);
    if b < bs.len() - 1 {
        assert(bs.drop_last()[b] == bs[b]);
        lemma_named(bs.drop_last(), b, v);
    }
}

/// The operation unboxes a promoted register.
spec fn drops(op: IrView, flags: Seq<bool>) -> bool {
    op matches Ir::FUnbox { src, .. } && flags[src.0 as int]
}

/// What is read in place of `x` after the first `k` operations.
spec fn rep(code: Seq<IrView>, k: int, flags: Seq<bool>, x: VReg) -> VReg
    decreases k,
{
    if k <= 0 {
        x
    } else {
        match code[k - 1] {
            Ir::FUnbox { dst, src, .. } => if flags[src.0 as int] && dst == x {
                src
            } else {
                rep(code, k - 1, flags, x)
            },
            _ => rep(code, k - 1, flags, x),
        }
    }
}

spec fn reread_to(code: Seq<IrView>, k: int, flags: Seq<bool>, op: IrView) -> IrView {
    match op {
        Ir::FArith { op, dst, a, b } => Ir::FArith {
            op,
            dst,
            a: rep(code, k, flags, a),
            b: rep(code, k, flags, b),
        },
        Ir::FCmpVal { op, dst, a, b } => Ir::FCmpVal {
            op,
            dst,
            a: rep(code, k, flags, a),
            b: rep(code, k, flags, b),
        },
        Ir::FCmpBr { op, a, b, if_true, if_false } => Ir::FCmpBr {
            op,
            a: rep(code, k, flags, a),
            b: rep(code, k, flags, b),
            if_true,
            if_false,
        },
        Ir::FBox { dst, src } => Ir::FBox { dst, src: rep(code, k, flags, src) },
        Ir::FUnbox { dst, src, fail } => Ir::FUnbox { dst, src: rep(code, k, flags, src), fail },
        Ir::Move { dst, src } => Ir::Move { dst, src: rep(code, k, flags, src) },
        _ => op,
    }
}

/// The unboxing at `i` is of `w` into `v`.
spec fn drops_at(code: Seq<IrView>, flags: Seq<bool>, i: int, v: VReg, w: VReg) -> bool {
    code[i] matches Ir::FUnbox { dst, src, .. } && flags[src.0 as int] && dst == v && src == w
}

proof fn lemma_rep(code: Seq<IrView>, k: int, flags: Seq<bool>, x: VReg)
    requires
        0 <= k <= code.len(),
    ensures
        ({
            let y = rep(code, k, flags, x);
            ||| y == x && forall|i: int, w: VReg|
                0 <= i < k ==> !#[trigger] drops_at(code, flags, i, x, w)
            ||| exists|i: int| 0 <= i < k && #[trigger] drops_at(code, flags, i, x, y)
        }),
    decreases k,
{
    if k > 0 {
        lemma_rep(code, k - 1, flags, x);
        let y = rep(code, k, flags, x);
        if drops_at(code, flags, k - 1, x, y) {
        } else {
            assert(y == rep(code, k - 1, flags, x));
            if exists|i: int| 0 <= i < k - 1 && #[trigger] drops_at(code, flags, i, x, y) {
                let i = choose|i: int| 0 <= i < k - 1 && #[trigger] drops_at(code, flags, i, x, y);
                assert(0 <= i < k && drops_at(code, flags, i, x, y));
            } else {
                assert forall|i: int, w: VReg| 0 <= i < k implies !#[trigger] drops_at(
                    code,
                    flags,
                    i,
                    x,
                    w,
                ) by {
                    if i == k - 1 && drops_at(code, flags, i, x, w) {
                        assert(y == w);
                    }
                }
            }
        }
    }
}

/// Ordinary registers are read as they were.
proof fn lemma_rep_general(code: Seq<IrView>, k: int, flags: Seq<bool>, x: VReg, vs: Seq<VRegInfo>)
    requires
        0 <= k <= code.len(),
        code_fits(code, vs),
        general(x, vs),
    ensures
        rep(code, k, flags, x) == x,
    decreases k,
{
    if k > 0 {
        lemma_rep_general(code, k - 1, flags, x, vs);
        assert(op_fits(code[k - 1], vs));
    }
}

/// What an unboxing writes, nothing else in the code writes.
spec fn code_once(code: Seq<IrView>) -> bool {
    forall|i: int, j: int|
        #![trigger code[i], code[j]]
        0 <= i < code.len() && 0 <= j < code.len() && i != j && code[i] is FUnbox
            ==> code[i].write() != code[j].write()
}

proof fn lemma_reread_step(
    code: Seq<IrView>,
    k: int,
    flags: Seq<bool>,
    op: IrView,
    u: VReg,
    t: VReg,
    vs: Seq<VRegInfo>,
)
    requires
        0 < k <= code.len(),
        code_fits(code, vs),
        code_once(code),
        drops_at(code, flags, k - 1, u, t),
    ensures
        reread(reread_to(code, k - 1, flags, op), u, t) == reread_to(code, k, flags, op),
{
    assert(op_fits(code[k - 1], vs));
    assert forall|x: VReg| #[trigger] rep(code, k, flags, x) == (if rep(code, k - 1, flags, x)
        == u {
        t
    } else {
        rep(code, k - 1, flags, x)
    }) by {
        lemma_rep(code, k - 1, flags, x);
        let y = rep(code, k - 1, flags, x);
        if exists|i: int| 0 <= i < k - 1 && #[trigger] drops_at(code, flags, i, x, y) {
            let i = choose|i: int| 0 <= i < k - 1 && #[trigger] drops_at(code, flags, i, x, y);
            assert(op_fits(code[i], vs));
            assert(code[i].write() != code[k - 1].write());
        }
    }
}

/// What promotion makes of one operation.
spec fn temp_made(
    code: Seq<IrView>,
    j: int,
    flags: Seq<bool>,
    held: Map<u32, VReg>,
    doubles: Map<u32, u64>,
    op: IrView,
) -> bool {
    match code[j] {
        Ir::ConstPool { dst, .. } => if flags[dst.0 as int] {
            op == (Ir::<Seq<VReg>>::FConst { dst, bits: 0 })
        } else {
            op == code[j]
        },
        Ir::Move { dst, src } => if flags[dst.0 as int] {
            ||| held.dom().contains(src.0) && op == (Ir::<Seq<VReg>>::Move {
                dst,
                src: held[src.0],
            })
            ||| doubles.dom().contains(src.0) && op == (Ir::<Seq<VReg>>::FConst {
                dst,
                bits: doubles[src.0],
            })
        } else {
            op == reread_to(code, j, flags, code[j])
        },
        _ => op == reread_to(code, j, flags, code[j]),
    }
}

proof fn lemma_promote_chain(
    code: Seq<IrView>,
    k: int,
    flags: Seq<bool>,
    held: Map<u32, VReg>,
    doubles: Map<u32, u64>,
    vs: Seq<VRegInfo>,
)
    requires
        0 <= k <= code.len(),
        promote_code(code, k, flags, held, doubles) is Some,
        code_fits(code, vs),
        code_once(code),
        flags.len() == vs.len(),
        forall|v: int| 0 <= v < vs.len() && #[trigger] flags[v] ==> !vs[v].is_fp,
    ensures
        ({
            let (c, keep) = promote_code(code, k, flags, held, doubles)->0;
            &&& c.len() == code.len()
            &&& keep.len() == k
            &&& forall|j: int|
                k <= j < code.len() ==> #[trigger] c[j] == reread_to(code, k, flags, code[j])
            &&& forall|j: int|
                0 <= j < k ==> temp_made(code, j, flags, held, doubles, #[trigger] c[j])
            &&& forall|j: int| 0 <= j < k ==> #[trigger] keep[j] == !drops(code[j], flags)
        }),
    decreases k,
{
    if k > 0 {
        lemma_promote_chain(code, k - 1, flags, held, doubles, vs);
        let (c, keep) = promote_code(code, k - 1, flags, held, doubles)->0;
        let (c1, x) = promote_op(c, k - 1, flags, held, doubles)->0;
        let a = code[k - 1];
        assert(op_fits(code[k - 1], vs));
        assert(c[k - 1] == reread_to(code, k - 1, flags, a));
        if let Ir::Move { dst, src } = a {
            if flags[dst.0 as int] {
                assert(dst.0 < vs.len());
                lemma_rep_general(code, k - 1, flags, src, vs);
            }
        }
        if let Ir::FUnbox { dst, src, .. } = a {
            lemma_rep_general(code, k - 1, flags, src, vs);
        }
        assert(x == !drops(a, flags));
        assert forall|j: int| k <= j < code.len() implies #[trigger] c1[j] == reread_to(
            code,
            k,
            flags,
            code[j],
        ) by {
            assert(c[j] == reread_to(code, k - 1, flags, code[j]));
            if drops(a, flags) {
                let u = a->FUnbox_dst;
                let t = a->FUnbox_src;
                assert(drops_at(code, flags, k - 1, u, t));
                lemma_reread_step(code, k, flags, code[j], u, t, vs);
                assert(c1[j] == reread(c[j], u, t));
            } else {
                assert(c1[j] == c[j]);
            }
        }
        assert forall|j: int| 0 <= j < k implies temp_made(
            code,
            j,
            flags,
            held,
            doubles,
            #[trigger] c1[j],
        ) by {
            if j < k - 1 {
                assert(c1[j] == c[j]);
            }
        }
        assert forall|j: int| 0 <= j < k implies #[trigger] keep.push(x)[j] == !drops(
            code[j],
            flags,
        ) by {
            if j < k - 1 {
                assert(keep[j] == !drops(code[j], flags));
            }
        }
    } else {
        assert forall|j: int| 0 <= j < code.len() implies #[trigger] code[j] == reread_to(
            code,
            0,
            flags,
            code[j],
        ) by {}
    }
}

/// `v` changes its kind.
pub open spec fn moved(vs: Seq<VRegInfo>, ws: Seq<VRegInfo>, v: VReg) -> bool {
    v.0 < vs.len() && !vs[v.0 as int].is_fp && ws[v.0 as int].is_fp
}

/// A flagged register is unboxed into `v` somewhere.
pub open spec fn unboxed_from(bs: Seq<BlockView>, flags: Seq<bool>, v: VReg) -> bool {
    exists|b: int, i: int|
        0 <= b < bs.len() && 0 <= i < bs[b].code.len() && (#[trigger] bs[b].code[i] matches
            Ir::FUnbox { dst, src, .. } && dst == v && flags[src.0 as int])
}

/// What an unboxing writes, nothing else writes, and nothing boxes again.
pub open spec fn unboxed_once(bs: Seq<BlockView>) -> bool {
    &&& forall|b: int, i: int, c: int, j: int|
        #![trigger bs[b].code[i], bs[c].code[j]]
        0 <= b < bs.len() && 0 <= i < bs[b].code.len() && 0 <= c < bs.len() && 0 <= j
            < bs[c].code.len() && !(b == c && i == j) && bs[b].code[i] is FUnbox
            ==> bs[b].code[i].write() != bs[c].code[j].write()
    &&& forall|b: int, i: int, c: int, j: int|
        #![trigger bs[b].code[i], bs[c].code[j]]
        0 <= b < bs.len() && 0 <= i < bs[b].code.len() && 0 <= c < bs.len() && 0 <= j
            < bs[c].code.len() && bs[b].code[i] is FUnbox && bs[c].code[j] is FBox
            ==> bs[b].code[i].write() != Some(bs[c].code[j].reads()[0])
}

spec fn all_cancellable(bs: Seq<BlockView>, flags: Seq<bool>) -> bool {
    forall|b: int, i: int|
        0 <= b < bs.len() && 0 <= i < bs[b].code.len() ==> (#[trigger] bs[b].code[i] matches
            Ir::FUnbox { dst, src, .. } ==> flags[src.0 as int] ==> cancellable(
            bs,
            bs[b].code,
            i,
            dst,
            src,
        ))
}

/// Promotion as it bears on block `b`.
spec fn change_in(
    bs: Seq<BlockView>,
    b: int,
    vs: Seq<VRegInfo>,
    ws: Seq<VRegInfo>,
    flags: Seq<bool>,
    x: Change,
) -> bool {
    &&& 0 <= b < bs.len()
    &&& x.code == bs[b].code
    &&& x.promoted == (|v: VReg| moved(vs, ws, v))
    &&& x.gone == (|v: VReg| unboxed_from(bs, flags, v))
    &&& x.made.len() == x.code.len()
    &&& x.keep.len() == x.code.len()
    &&& blocks_fit(bs, vs)
    &&& kinds_move(vs, ws, flags)
    &&& unboxed_once(bs)
    &&& all_cancellable(bs, flags)
    &&& forall|j: int| 0 <= j < x.code.len() ==> #[trigger] x.keep[j] == !drops(x.code[j], flags)
}

proof fn lemma_dropped(
    bs: Seq<BlockView>,
    b: int,
    vs: Seq<VRegInfo>,
    ws: Seq<VRegInfo>,
    flags: Seq<bool>,
    x: Change,
    i: int,
)
    requires
        change_in(bs, b, vs, ws, flags, x),
        0 <= i < x.code.len(),
        drops(x.code[i], flags),
    ensures
        dropped(x, i),
{
    assert(code_fits(bs[b].code, vs));
    assert(op_fits(bs[b].code[i], vs));
    let u = x.code[i]->FUnbox_dst;
    let t = x.code[i]->FUnbox_src;
    assert(ws[t.0 as int].is_fp);
    assert(unboxed_from(bs, flags, u)) by {
        assert(bs[b].code[i] == x.code[i]);
    }
}

/// An operation that touches no promoted register.
proof fn lemma_ordinary(
    bs: Seq<BlockView>,
    b: int,
    vs: Seq<VRegInfo>,
    ws: Seq<VRegInfo>,
    flags: Seq<bool>,
    x: Change,
    j: int,
)
    requires
        change_in(bs, b, vs, ws, flags, x),
        0 <= j < x.code.len(),
        !drops(x.code[j], flags),
        x.made[j] == reread_to(x.code, j, flags, x.code[j]),
        forall|q: int|
            0 <= q < x.code[j].reads().len() ==> !moved(vs, ws, #[trigger] x.code[j].reads()[q]),
        x.code[j].write() matches Some(d) ==> !moved(vs, ws, d),
    ensures
        change_ok(x, j),
{
    let a = x.code[j];
    let m = x.made[j];
    assert(x.keep[j]);
    assert(code_fits(bs[b].code, vs));
    assert(op_fits(bs[b].code[j], vs));
    if let Some(d) = a.write() {
        if unboxed_from(bs, flags, d) {
            let (c, i) = choose|c: int, i: int|
                0 <= c < bs.len() && 0 <= i < bs[c].code.len() && (#[trigger] bs[c].code[i] matches
                    Ir::FUnbox { dst, src, .. } && dst == d && flags[src.0 as int]);
            assert(bs[c].code[i].write() == Some(d));
            assert(bs[b].code[j].write() == Some(d));
            assert(c == b && i == j);
        }
    }
    assert forall|q: int| 0 <= q < a.reads().len() implies operand_ok(
        x,
        j,
        #[trigger] a.reads()[q],
        m.reads()[q],
    ) by {
        let v = a.reads()[q];
        let w = m.reads()[q];
        assert(!moved(vs, ws, x.code[j].reads()[q]));
        assert(w == rep(x.code, j, flags, v)) by {
            if general(v, vs) {
                lemma_rep_general(x.code, j, flags, v, vs);
            }
        }
        lemma_rep(x.code, j, flags, v);
        if exists|i: int| 0 <= i < j && #[trigger] drops_at(x.code, flags, i, v, w) {
            let i = choose|i: int| 0 <= i < j && #[trigger] drops_at(x.code, flags, i, v, w);
            lemma_dropped(bs, b, vs, ws, flags, x, i);
            assert(bs[b].code[i] == x.code[i]);
            assert(cancellable(bs, bs[b].code, i, v, w));
            assert(a.reads().contains(v));
            assert(untouched(x.code, w, i, j)) by {
                assert forall|h: int| i < h < j implies (#[trigger] x.code[h]).write() != Some(
                    w,
                ) by {
                    assert(bs[b].code[h] == x.code[h]);
                    assert(!bs[b].code[j].reads().contains(v) || bs[b].code[h].write() != Some(w));
                }
            }
            assert(stands_for(x, i, j, v, w));
        } else {
            assert(v == w);
            if unboxed_from(bs, flags, v) {
                let (c, i) = choose|c: int, i: int|
                    0 <= c < bs.len() && 0 <= i < bs[c].code.len() && (
                    #[trigger] bs[c].code[i] matches Ir::FUnbox { dst, src, .. } && dst == v
                        && flags[src.0 as int]);
                let src = bs[c].code[i]->FUnbox_src;
                assert(cancellable(bs, bs[c].code, i, v, src));
                assert(bs[b].code[j].reads().contains(v));
                lemma_read_after(bs, c, i, v, src, b, j);
                assert(drops_at(x.code, flags, i, v, src));
            }
        }
    }
}

/// The operation fits the kinds before and after: it touches no register that changed, or copies one
/// into another.
proof fn lemma_fits_both(op: IrView, vs: Seq<VRegInfo>, ws: Seq<VRegInfo>, flags: Seq<bool>)
    requires
        op_fits(op, vs),
        op_fits(op, ws),
        kinds_move(vs, ws, flags),
    ensures
        op matches Ir::Move { dst, src } ==> moved(vs, ws, dst) == moved(vs, ws, src),
        !(op is Move) ==> forall|q: int|
            0 <= q < op.reads().len() ==> !moved(vs, ws, #[trigger] op.reads()[q]),
        !(op is Move) ==> (op.write() matches Some(d) ==> !moved(vs, ws, d)),
{
}

/// The whole of a change, once each operation is known.
proof fn lemma_change(
    bs: Seq<BlockView>,
    b: int,
    vs: Seq<VRegInfo>,
    ws: Seq<VRegInfo>,
    flags: Seq<bool>,
    x: Change,
)
    requires
        change_in(bs, b, vs, ws, flags, x),
        forall|j: int| 0 <= j < x.code.len() && x.keep[j] ==> #[trigger] change_ok(x, j),
    ensures
        changes_ok(x),
        forall|k: int, v: VReg|
            0 <= k < bs[b].deopt_sites.len() && #[trigger] raw_refs(
                bs[b].deopt_sites[k].1,
            ).contains(v) ==> !(x.gone)(v),
{
    assert forall|j: int| 0 <= j < x.code.len() implies #[trigger] change_ok(x, j) by {
        if !x.keep[j] {
            lemma_dropped(bs, b, vs, ws, flags, x, j);
        }
    }
    assert forall|i: int, j: int|
        0 <= i < x.code.len() && 0 <= j < x.code.len() && i != j && #[trigger] dropped(
            x,
            i,
        ) implies x.code[i].write() != (#[trigger] x.code[j]).write() by {
        assert(bs[b].code[i] is FUnbox);
        assert(bs[b].code[i].write() != bs[b].code[j].write());
    }
    assert forall|v: VReg| #[trigger] (x.promoted)(v) implies !(x.gone)(v) by {
        if unboxed_from(bs, flags, v) {
            let (c, i) = choose|c: int, i: int|
                0 <= c < bs.len() && 0 <= i < bs[c].code.len() && (#[trigger] bs[c].code[i] matches
                    Ir::FUnbox { dst, src, .. } && dst == v && flags[src.0 as int]);
            assert(code_fits(bs[c].code, vs));
            assert(op_fits(bs[c].code[i], vs));
        }
    }
    assert forall|k: int, v: VReg|
        0 <= k < bs[b].deopt_sites.len() && #[trigger] raw_refs(
            bs[b].deopt_sites[k].1,
        ).contains(v) implies !(x.gone)(v) by {
        if unboxed_from(bs, flags, v) {
            let (c, i) = choose|c: int, i: int|
                0 <= c < bs.len() && 0 <= i < bs[c].code.len() && (#[trigger] bs[c].code[i] matches
                    Ir::FUnbox { dst, src, .. } && dst == v && flags[src.0 as int]);
            assert(cancellable(bs, bs[c].code, i, v, bs[c].code[i]->FUnbox_src));
            lemma_site_ref(bs[b].deopt_sites, k, v);
            lemma_named(bs, b, v);
        }
    }
}

proof fn lemma_box_not_gone(bs: Seq<BlockView>, flags: Seq<bool>, vs: Seq<VRegInfo>, v: u32)
    requires
        blocks_fit(bs, vs),
        unboxed_once(bs),
        box_sources(bs, bs.len() as int).dom().contains(v),
    ensures
        ({
            let fp = box_sources(bs, bs.len() as int)[v];
            unboxed(fp, vs) && !unboxed_from(bs, flags, fp)
        }),
{
    let fp = box_sources(bs, bs.len() as int)[v];
    lemma_sources_kind(bs, vs);
    lemma_box_sources(bs, bs.len() as int);
    assert(boxes(bs, v, fp));
    let (c, j) = choose|c: int, j: int|
        0 <= c < bs.len() && 0 <= j < bs[c].code.len() && is_box(#[trigger] bs[c].code[j], v, fp);
    if unboxed_from(bs, flags, fp) {
        let (b, i) = choose|b: int, i: int|
            0 <= b < bs.len() && 0 <= i < bs[b].code.len() && (#[trigger] bs[b].code[i] matches
                Ir::FUnbox { dst, src, .. } && dst == fp && flags[src.0 as int]);
        assert(bs[c].code[j].reads()[0] == fp);
        assert(bs[b].code[i].write() == Some(fp));
    }
}

/// Promotion of temporaries, as far as block `b` goes.
pub open spec fn temps_change(vm: VmState, m: MethodView, b: int) -> Change {
    let bs = m.blocks;
    let held = box_sources(bs, bs.len() as int);
    let doubles = const_doubles(vm, m.pool, bs, bs.len() as int);
    let flags = promoted_flags(bs, m.vregs, m.nil_lit, held, doubles);
    let code = bs[b].code;
    let (made, keep) = promote_code(code, code.len() as int, flags, held, doubles)->0;
    let ws = promoted_regs(bs, m.vregs, flags);
    Change {
        code,
        made,
        keep,
        promoted: |v: VReg| moved(m.vregs, ws, v),
        gone: |v: VReg| unboxed_from(bs, flags, v),
    }
}

/// A block in which temporaries are promoted computes what it did: whatever the registers hold on
/// entry and whatever the operations compute, every operation that is kept and every deoptimization
/// site reads the same value, up to boxing. Promoted registers are looked at only once they have a
/// Double, and boxes hold what they were made of.
pub proof fn law_promoted_temps_keep_values(
    vm: VmState,
    m: MethodView,
    b: int,
    mc: Machine,
    held: spec_fn(VReg) -> bool,
    regs: Regs,
    made_regs: Regs,
)
    requires
        mc.wf(),
        0 <= b < m.blocks.len(),
        blocks_fit(m.blocks, m.vregs),
        unboxed_once(m.blocks),
        forall|k: int|
            0 <= k < m.blocks[b].deopt_sites.len() ==> (#[trigger] m.blocks[b].deopt_sites[k]).0
                <= m.blocks[b].code.len(),
        with_float_temps(vm, m) is Some,
        regs_match(temps_change(vm, m, b), mc, regs, made_regs, held),
        looked_at_late(temps_change(vm, m, b), m.blocks[b].deopt_sites, held),
        boxes_hold(temps_change(vm, m, b), mc, regs),
    ensures
        keeps_values(
            temps_change(vm, m, b),
            mc,
            held,
            m.blocks[b].deopt_sites,
            regs,
            made_regs,
        ),
{
    let bs = m.blocks;
    let vs = m.vregs;
    let boxed = box_sources(bs, bs.len() as int);
    let doubles = const_doubles(vm, m.pool, bs, bs.len() as int);
    let flags = promoted_flags(bs, vs, m.nil_lit, boxed, doubles);
    let ws = promoted_regs(bs, vs, flags);
    let x = temps_change(vm, m, b);
    let code = bs[b].code;
    let f = |blk: BlockView| crate::promote::promote_block(blk, flags, boxed, doubles);
    crate::boxes::lemma_map_blocks(bs, f, bs.len() as int, bs.len() as int);
    crate::sound_passes::lemma_map_at(bs, f, b, bs.len() as int);
    assert(promote_code(code, code.len() as int, flags, boxed, doubles) is Some);
    assert forall|v: int| 0 <= v < vs.len() && #[trigger] flags[v] implies !vs[v].is_fp by {
        assert(promotable(bs, vs, m.nil_lit, boxed, doubles, VReg(v as u32)));
    }
    assert(kinds_move(vs, ws, flags));
    assert(code_fits(bs[b].code, vs));
    assert(code_once(code)) by {
        assert forall|i: int, j: int|
            #![trigger code[i], code[j]]
            0 <= i < code.len() && 0 <= j < code.len() && i != j && code[i] is FUnbox implies code[i].write()
            != code[j].write() by {
            assert(bs[b].code[i].write() != bs[b].code[j].write());
        }
    }
    lemma_promote_chain(code, code.len() as int, flags, boxed, doubles, vs);
    assert(all_cancellable(bs, flags)) by {
        assert forall|c: int, i: int| 0 <= c < bs.len() && 0 <= i < bs[c].code.len() implies (
        #[trigger] bs[c].code[i] matches Ir::FUnbox { dst, src, .. } ==> flags[src.0 as int]
            ==> cancellable(bs, bs[c].code, i, dst, src)) by {
            if let Ir::FUnbox { dst, src, .. } = bs[c].code[i] {
                assert(code_fits(bs[c].code, vs));
                assert(op_fits(bs[c].code[i], vs));
                if flags[src.0 as int] {
                    assert(VReg(src.0 as int as u32) == src);
                    assert(promotable(bs, vs, m.nil_lit, boxed, doubles, src));
                    assert(op_allows(bs, m.nil_lit, boxed, doubles, bs[c].code, i, src));
                }
            }
        }
    }
    assert(change_in(bs, b, vs, ws, flags, x));
    assert forall|j: int| 0 <= j < x.code.len() && x.keep[j] implies #[trigger] change_ok(x, j) by {
        let a = x.code[j];
        assert(temp_made(code, j, flags, boxed, doubles, x.made[j]));
        assert(x.keep[j] == !drops(x.code[j], flags));
        lemma_op_ready(vm, m, flags, boxed, doubles, b, j);
        assert(op_ready(bs[b].code[j], flags, vs, ws));
        if pending(a, flags) {
            if let Ir::Move { dst, src } = a {
                assert(dst.0 < vs.len());
                assert(ws[dst.0 as int].is_fp);
                if boxed.dom().contains(src.0) && x.made[j] == (Ir::<Seq<VReg>>::Move {
                    dst,
                    src: boxed[src.0],
                }) {
                    lemma_box_not_gone(bs, flags, vs, src.0);
                }
            }
            if let Ir::ConstPool { dst, .. } = a {
                assert(dst.0 < vs.len());
                assert(ws[dst.0 as int].is_fp);
            }
        } else {
            lemma_fits_both(a, vs, ws, flags);
            if a is Move && moved(vs, ws, a->Move_dst) {
                lemma_rep_general(code, j, flags, a->Move_src, vs);
            } else {
                if let Ir::Move { dst, src } = a {
                    assert forall|q: int| 0 <= q < a.reads().len() implies !moved(
                        vs,
                        ws,
                        #[trigger] x.code[j].reads()[q],
                    ) by {
                        assert(a.reads()[q] == src);
                    }
                }
                lemma_ordinary(bs, b, vs, ws, flags, x, j);
            }
        }
    }
    lemma_change(bs, b, vs, ws, flags, x);
    lemma_keeps_values(x, mc, held, bs[b].deopt_sites, regs, made_regs);
}

/// What retargeting makes of one operation.
spec fn tree_made(
    w: Web,
    roots: Seq<VReg>,
    code: Seq<IrView>,
    j: int,
    flags: Seq<bool>,
    op: IrView,
) -> bool {
    if planned(w, roots, code[j]) is Some {
        op == planned(w, roots, code[j])->0
    } else {
        match code[j] {
            Ir::ConstPool { dst, .. } => if flags[dst.0 as int] {
                op == (Ir::<Seq<VReg>>::FConst { dst, bits: 0 })
            } else {
                op == code[j]
            },
            _ => op == reread_to(code, j, flags, code[j]),
        }
    }
}

proof fn lemma_retarget_chain(
    w: Web,
    roots: Seq<VReg>,
    code: Seq<IrView>,
    k: int,
    flags: Seq<bool>,
    vs: Seq<VRegInfo>,
)
    requires
        0 <= k <= code.len(),
        retarget_code(w, roots, flags, code, k) is Some,
        code_fits(code, vs),
        code_once(code),
        flags.len() == vs.len(),
        forall|v: int| 0 <= v < vs.len() && #[trigger] flags[v] ==> !vs[v].is_fp,
    ensures
        ({
            let (c, keep) = retarget_code(w, roots, flags, code, k)->0;
            &&& c.len() == code.len()
            &&& keep.len() == k
            &&& forall|j: int|
                k <= j < code.len() ==> #[trigger] c[j] == reread_to(code, k, flags, code[j])
            &&& forall|j: int|
                0 <= j < k ==> tree_made(w, roots, code, j, flags, #[trigger] c[j])
            &&& forall|j: int| 0 <= j < k ==> #[trigger] keep[j] == !drops(code[j], flags)
        }),
    decreases k,
{
    if k > 0 {
        lemma_retarget_chain(w, roots, code, k - 1, flags, vs);
        let (c, keep) = retarget_code(w, roots, flags, code, k - 1)->0;
        let (c1, x) = retarget_op(w, roots, flags, code[k - 1], c, k - 1)->0;
        let a = code[k - 1];
        assert(op_fits(code[k - 1], vs));
        assert(c[k - 1] == reread_to(code, k - 1, flags, a));
        if let Ir::FUnbox { dst, src, .. } = a {
            lemma_rep_general(code, k - 1, flags, src, vs);
        }
        assert(x == !drops(a, flags));
        assert forall|j: int| k <= j < code.len() implies #[trigger] c1[j] == reread_to(
            code,
            k,
            flags,
            code[j],
        ) by {
            assert(c[j] == reread_to(code, k - 1, flags, code[j]));
            if drops(a, flags) {
                let u = a->FUnbox_dst;
                let t = a->FUnbox_src;
                assert(drops_at(code, flags, k - 1, u, t));
                lemma_reread_step(code, k, flags, code[j], u, t, vs);
                assert(c1[j] == reread(c[j], u, t));
            } else {
                assert(c1[j] == c[j]);
            }
        }
        assert forall|j: int| 0 <= j < k implies tree_made(
            w,
            roots,
            code,
            j,
            flags,
            #[trigger] c1[j],
        ) by {
            if j < k - 1 {
                assert(c1[j] == c[j]);
            }
        }
        assert forall|j: int| 0 <= j < k implies #[trigger] keep.push(x)[j] == !drops(
            code[j],
            flags,
        ) by {
            if j < k - 1 {
                assert(keep[j] == !drops(code[j], flags));
            }
        }
    } else {
        assert forall|j: int| 0 <= j < code.len() implies #[trigger] code[j] == reread_to(
            code,
            0,
            flags,
            code[j],
        ) by {}
    }
}

/// The kinds of the registers once trees are promoted.
pub open spec fn tree_regs(vs: Seq<VRegInfo>, flags: Seq<bool>) -> Seq<VRegInfo> {
    Seq::new(
        vs.len(),
        |v: int|
            if flags[v] {
                VRegInfo { is_oop: false, is_fp: true }
            } else {
                vs[v]
            },
    )
}

/// Promotion of copy trees, as far as block `b` goes.
pub open spec fn trees_change(vm: VmState, m: MethodView, osr_bci: Option<u16>, b: int) -> Change {
    let w = web_of(vm, m, osr_bci);
    let (roots, flags) = promoted_trees(w, m.vregs.len() as int);
    let code = m.blocks[b].code;
    let (made, keep) = retarget_code(w, roots, flags, code, code.len() as int)->0;
    let ws = tree_regs(m.vregs, flags);
    Change {
        code,
        made,
        keep,
        promoted: |v: VReg| moved(m.vregs, ws, v),
        gone: |v: VReg| unboxed_from(m.blocks, flags, v),
    }
}

proof fn lemma_chase_box(w: Web, v: VReg, fuel: nat) -> (k: u32)
    requires
        chase(w, v, fuel) matches Some(Root::Fp(fp)),
    ensures
        w.boxes.dom().contains(k),
        chase(w, v, fuel) == Some(Root::Fp(w.boxes[k])),
    decreases fuel,
{
    if w.boxes.dom().contains(v.0) {
        v.0
    } else {
        lemma_chase_box(
            w,
            crate::splice_promote::copy_sources(w.bs, w.bs.len() as int)[v.0],
            (fuel - 1) as nat,
        )
    }
}

/// A block in which copy trees are promoted computes what it did: whatever the registers hold on
/// entry and whatever the operations compute, every operation that is kept and every deoptimization
/// site reads the same value, up to boxing. Promoted registers are looked at only once they have a
/// Double, and boxes hold what they were made of. What a block returns is boxed afterwards.
pub proof fn law_promoted_trees_keep_values(
    vm: VmState,
    m: MethodView,
    osr_bci: Option<u16>,
    b: int,
    mc: Machine,
    held: spec_fn(VReg) -> bool,
    regs: Regs,
    made_regs: Regs,
)
    requires
        mc.wf(),
        0 <= b < m.blocks.len(),
        blocks_fit(m.blocks, m.vregs),
        unboxed_once(m.blocks),
        forall|k: int|
            0 <= k < m.blocks[b].deopt_sites.len() ==> (#[trigger] m.blocks[b].deopt_sites[k]).0
                <= m.blocks[b].code.len(),
        with_float_trees(vm, m, osr_bci) is Some,
        regs_match(trees_change(vm, m, osr_bci, b), mc, regs, made_regs, held),
        looked_at_late(trees_change(vm, m, osr_bci, b), m.blocks[b].deopt_sites, held),
        boxes_hold(trees_change(vm, m, osr_bci, b), mc, regs),
    ensures
        keeps_values(
            trees_change(vm, m, osr_bci, b),
            mc,
            held,
            m.blocks[b].deopt_sites,
            regs,
            made_regs,
        ),
{
    let bs = m.blocks;
    let vs = m.vregs;
    let n = vs.len() as int;
    let w = web_of(vm, m, osr_bci);
    let (roots, flags) = promoted_trees(w, n);
    let ws = tree_regs(vs, flags);
    let x = trees_change(vm, m, osr_bci, b);
    let code = bs[b].code;
    let f = |blk: BlockView| crate::splice_promote::retarget_block(w, roots, flags, blk);
    crate::boxes::lemma_map_blocks(bs, f, bs.len() as int, bs.len() as int);
    crate::sound_passes::lemma_map_at(bs, f, b, bs.len() as int);
    assert(retarget_code(w, roots, flags, code, code.len() as int) is Some);
    crate::tidy::lemma_claimed(w, n);
    assert forall|v: int| 0 <= v < vs.len() && #[trigger] flags[v] implies !vs[v].is_fp by {
        let t = lemma_member(w, VReg(v as u32));
    }
    assert(kinds_move(vs, ws, flags));
    lemma_sources_kind(bs, vs);
    assert(code_fits(bs[b].code, vs));
    assert(code_once(code)) by {
        assert forall|i: int, j: int|
            #![trigger code[i], code[j]]
            0 <= i < code.len() && 0 <= j < code.len() && i != j && code[i] is FUnbox implies code[i].write()
            != code[j].write() by {
            assert(bs[b].code[i].write() != bs[b].code[j].write());
        }
    }
    lemma_retarget_chain(w, roots, code, code.len() as int, flags, vs);
    assert(all_cancellable(bs, flags)) by {
        assert forall|c: int, i: int| 0 <= c < bs.len() && 0 <= i < bs[c].code.len() implies (
        #[trigger] bs[c].code[i] matches Ir::FUnbox { dst, src, .. } ==> flags[src.0 as int]
            ==> cancellable(bs, bs[c].code, i, dst, src)) by {
            if let Ir::FUnbox { dst, src, .. } = bs[c].code[i] {
                assert(code_fits(bs[c].code, vs));
                assert(op_fits(bs[c].code[i], vs));
                if flags[src.0 as int] {
                    let t = lemma_member(w, src);
                    let c0 = choose|c0: Seq<bool>| tree_promotable(w, c0, t);
                    assert(tree_allows(w, t, w.bs[c].code, i));
                }
            }
        }
    }
    assert(change_in(bs, b, vs, ws, flags, x));
    assert forall|j: int| 0 <= j < x.code.len() && x.keep[j] implies #[trigger] change_ok(x, j) by {
        let a = x.code[j];
        assert(tree_made(w, roots, code, j, flags, x.made[j]));
        assert(x.keep[j] == !drops(x.code[j], flags));
        lemma_tree_ready(w, b, j, ws);
        assert(tree_ready(w, roots, bs[b].code[j], flags, vs, ws));
        if planned(w, roots, a) is Some {
            let dst = a->Move_dst;
            let src = a->Move_src;
            assert(op_fits(x.made[j], ws));
            if let Some(Root::Fp(fp)) = chase(w, src, 16) {
                let k = lemma_chase_box(w, src, 16);
                lemma_box_not_gone(bs, flags, vs, k);
                assert(unboxed(fp, vs));
            }
            assert(general(dst, vs)) by {
                crate::total::lemma_roots(w, n);
                assert(roots.contains(dst));
                assert(crate::total::fit_root(w, dst));
                let c0 = choose|c0: Seq<bool>| tree_promotable(w, c0, dst);
                assert(!vs[dst.0 as int].is_fp);
            }
        } else if crate::typed_trees::pending(a, flags) {
            if let Ir::ConstPool { dst, .. } = a {
                assert(dst.0 < vs.len());
                assert(ws[dst.0 as int].is_fp);
            }
        } else if answers(a, flags) {
            assert(ws[(a->Ret_val).0 as int].is_fp);
        } else {
            lemma_fits_both(a, vs, ws, flags);
            if a is Move && moved(vs, ws, a->Move_dst) {
                lemma_rep_general(code, j, flags, a->Move_src, vs);
            } else {
                if let Ir::Move { dst, src } = a {
                    assert forall|q: int| 0 <= q < a.reads().len() implies !moved(
                        vs,
                        ws,
                        #[trigger] x.code[j].reads()[q],
                    ) by {
                        assert(a.reads()[q] == src);
                    }
                }
                lemma_ordinary(bs, b, vs, ws, flags, x, j);
            }
        }
    }
    lemma_change(bs, b, vs, ws, flags, x);
    lemma_keeps_values(x, mc, held, bs[b].deopt_sites, regs, made_regs);
}

/// Loading a Double literal gives its box, and registers that such literals are loaded into are
/// written in no other way.
pub open spec fn literals_settled(
    vm: VmState,
    pool: Seq<PoolEntry>,
    code: Seq<IrView>,
    known: Map<u32, u64>,
    mc: Machine,
) -> bool {
    forall|j: int|
        0 <= j < code.len() ==> ((#[trigger] code[j]).write() matches Some(d)
            ==> known.dom().contains(d.0) ==> (code[j] matches Ir::ConstPool { lit, .. }
            && literal_double(vm, pool, lit) == Some(known[d.0]) && (mc.eval)(j, seq![]) == (
        mc.wrap)((mc.num)(known[d.0]))))
}

/// Unboxing a Double literal and loading the double are the same: every register holds what it did
/// before every operation.
pub proof fn law_folded_literals_keep_values(
    vm: VmState,
    pool: Seq<PoolEntry>,
    bs: Seq<BlockView>,
    b: int,
    mc: Machine,
    regs: Regs,
    n: int,
)
    requires
        mc.wf(),
        0 <= b < bs.len(),
        0 <= n <= bs[b].code.len(),
        literals_settled(
            vm,
            pool,
            bs[b].code,
            const_doubles(vm, pool, bs, bs.len() as int),
            mc,
        ),
        forall|v: VReg|
            const_doubles(vm, pool, bs, bs.len() as int).dom().contains(v.0) ==> #[trigger] regs(v)
                == (mc.wrap)((mc.num)(const_doubles(vm, pool, bs, bs.len() as int)[v.0])),
    ensures
        ({
            let known = const_doubles(vm, pool, bs, bs.len() as int);
            let folded = fold_block(known, bs[b]);
            &&& mc.run(folded.code, regs, n) == mc.run(bs[b].code, regs, n)
            &&& forall|v: VReg|
                known.dom().contains(v.0) ==> #[trigger] mc.run(bs[b].code, regs, n)(v) == (
                mc.wrap)((mc.num)(known[v.0]))
        }),
    decreases n,
{
    let known = const_doubles(vm, pool, bs, bs.len() as int);
    if n > 0 {
        law_folded_literals_keep_values(vm, pool, bs, b, mc, regs, n - 1);
        let code = bs[b].code;
        let folded = fold_block(known, bs[b]);
        let r = mc.run(code, regs, n - 1);
        let a = code[n - 1];
        assert(folded.code[n - 1] == fold_op(known, a));
        if let Ir::FUnbox { dst, src, .. } = a {
            if known.dom().contains(src.0) {
                assert(r(src) == (mc.wrap)((mc.num)(known[src.0])));
                assert((mc.peel)((mc.wrap)((mc.num)(known[src.0]))) == (mc.num)(known[src.0]));
            }
        }
        assert forall|v: VReg| known.dom().contains(v.0) implies #[trigger] mc.run(
            code,
            regs,
            n,
        )(v) == (mc.wrap)((mc.num)(known[v.0])) by {
            assert(r(v) == (mc.wrap)((mc.num)(known[v.0])));
            if a.write() == Some(v) {
                assert(values(r, a.reads()) =~= seq![]);
            }
        }
    }
}

/// A box of this register moves to the blocks that trap.
pub open spec fn sinks(bs: Seq<BlockView>, v: VReg) -> bool {
    exists|b: int, i: int|
        0 <= b < bs.len() && 0 <= i < bs[b].code.len() && sinkable(bs, b, #[trigger] bs[b].code[i])
            && bs[b].code[i].write() == Some(v)
}

proof fn lemma_sunk_from_has(bs: Seq<BlockView>, t: int, b: int, k: int, i: int, v: VReg)
    requires
        0 <= b < bs.len(),
        0 <= i < k <= bs[b].code.len(),
        sinkable(bs, b, bs[b].code[i]),
        bs[b].code[i].write() == Some(v),
        site_named(bs[t], v),
    ensures
        exists|h: int|
            0 <= h < sunk_from(bs, t, b, k).len() && (#[trigger] sunk_from(bs, t, b, k)[h]).write()
                == Some(v),
    decreases k,
{
    let s = sunk_from(bs, t, b, k);
    let rest = sunk_from(bs, t, b, k - 1);
    if i == k - 1 {
        assert(s[rest.len() as int] == bs[b].code[i]);
    } else {
        lemma_sunk_from_has(bs, t, b, k - 1, i, v);
        let h = choose|h: int| 0 <= h < rest.len() && (#[trigger] rest[h]).write() == Some(v);
        assert(s[h] == rest[h]);
    }
}

proof fn lemma_sunk_into_has(bs: Seq<BlockView>, t: int, k: int, b: int, i: int, v: VReg)
    requires
        0 <= b < k <= bs.len(),
        0 <= i < bs[b].code.len(),
        sinkable(bs, b, bs[b].code[i]),
        bs[b].code[i].write() == Some(v),
        site_named(bs[t], v),
    ensures
        exists|h: int|
            0 <= h < sunk_into(bs, t, k).len() && (#[trigger] sunk_into(bs, t, k)[h]).write()
                == Some(v),
    decreases k,
{
    let s = sunk_into(bs, t, k);
    let rest = sunk_into(bs, t, k - 1);
    let last = sunk_from(bs, t, k - 1, bs[k - 1].code.len() as int);
    if b == k - 1 {
        lemma_sunk_from_has(bs, t, b, bs[b].code.len() as int, i, v);
        let h = choose|h: int| 0 <= h < last.len() && (#[trigger] last[h]).write() == Some(v);
        assert(s[rest.len() + h] == last[h]);
    } else {
        lemma_sunk_into_has(bs, t, k - 1, b, i, v);
        let h = choose|h: int| 0 <= h < rest.len() && (#[trigger] rest[h]).write() == Some(v);
        assert(s[h] == rest[h]);
    }
}

/// Sunk operations box unboxed doubles that sink nowhere themselves, for a site that names the box.
spec fn sunk_op(bs: Seq<BlockView>, t: int, op: IrView) -> bool {
    op matches Ir::FBox { dst, src } && sinks(bs, dst) && !sinks(bs, src) && site_named(bs[t], dst)
        && trap_only(bs[t])
}

proof fn lemma_sunk_from_ops(
    bs: Seq<BlockView>,
    t: int,
    b: int,
    k: int,
    vs: Seq<VRegInfo>,
)
    requires
        0 <= t < bs.len(),
        0 <= b < bs.len(),
        0 <= k <= bs[b].code.len(),
        blocks_fit(bs, vs),
    ensures
        forall|h: int|
            0 <= h < sunk_from(bs, t, b, k).len() ==> sunk_op(
                bs,
                t,
                #[trigger] sunk_from(bs, t, b, k)[h],
            ),
    decreases k,
{
    if k > 0 {
        lemma_sunk_from_ops(bs, t, b, k - 1, vs);
        let s = sunk_from(bs, t, b, k);
        let rest = sunk_from(bs, t, b, k - 1);
        let op = bs[b].code[k - 1];
        assert(code_fits(bs[b].code, vs));
        assert(op_fits(bs[b].code[k - 1], vs));
        assert forall|h: int| 0 <= h < s.len() implies sunk_op(bs, t, #[trigger] s[h]) by {
            if h < rest.len() {
                assert(s[h] == rest[h]);
            } else {
                let src = op->FBox_src;
                assert(sinks(bs, op->FBox_dst));
                if sinks(bs, src) {
                    let (c, i) = choose|c: int, i: int|
                        0 <= c < bs.len() && 0 <= i < bs[c].code.len() && sinkable(
                            bs,
                            c,
                            #[trigger] bs[c].code[i],
                        ) && bs[c].code[i].write() == Some(src);
                    assert(code_fits(bs[c].code, vs));
                    assert(op_fits(bs[c].code[i], vs));
                }
            }
        }
    }
}

proof fn lemma_sunk_into_ops(bs: Seq<BlockView>, t: int, k: int, vs: Seq<VRegInfo>)
    requires
        0 <= t < bs.len(),
        0 <= k <= bs.len(),
        blocks_fit(bs, vs),
    ensures
        forall|h: int|
            0 <= h < sunk_into(bs, t, k).len() ==> sunk_op(bs, t, #[trigger] sunk_into(bs, t, k)[h]),
    decreases k,
{
    if k > 0 {
        lemma_sunk_into_ops(bs, t, k - 1, vs);
        let s = sunk_into(bs, t, k);
        let rest = sunk_into(bs, t, k - 1);
        let len = bs[k - 1].code.len() as int;
        lemma_sunk_from_ops(bs, t, k - 1, len, vs);
        let last = sunk_from(bs, t, k - 1, len);
        assert forall|h: int| 0 <= h < s.len() implies sunk_op(bs, t, #[trigger] s[h]) by {
            if h < rest.len() {
                assert(s[h] == rest[h]);
            } else {
                assert(s[h] == last[h - rest.len()]);
            }
        }
    }
}

/// Running the boxes makes them hold what they held before, one after the other.
proof fn lemma_sunk_run(
    bs: Seq<BlockView>,
    t: int,
    ins: Seq<IrView>,
    mc: Machine,
    regs: Regs,
    made_regs: Regs,
    n: int,
)
    requires
        0 <= n <= ins.len(),
        forall|h: int| 0 <= h < ins.len() ==> sunk_op(bs, t, #[trigger] ins[h]),
        forall|v: VReg| !sinks(bs, v) ==> #[trigger] made_regs(v) == regs(v),
        forall|h: int|
            0 <= h < ins.len() ==> (#[trigger] ins[h] matches Ir::FBox { dst, src } ==> regs(dst)
                == (mc.wrap)(regs(src))),
    ensures
        forall|v: VReg|
            !sinks(bs, v) || (exists|h: int| 0 <= h < n && (#[trigger] ins[h]).write() == Some(v))
                ==> #[trigger] mc.run(ins, made_regs, n)(v) == regs(v),
    decreases n,
{
    if n > 0 {
        lemma_sunk_run(bs, t, ins, mc, regs, made_regs, n - 1);
        let s = mc.run(ins, made_regs, n - 1);
        let s1 = mc.run(ins, made_regs, n);
        assert(sunk_op(bs, t, ins[n - 1]));
        let dst = ins[n - 1]->FBox_dst;
        let src = ins[n - 1]->FBox_src;
        assert(s(src) == regs(src));
        assert forall|v: VReg|
            !sinks(bs, v) || (exists|h: int| 0 <= h < n && (#[trigger] ins[h]).write() == Some(
                v,
            )) implies #[trigger] s1(v) == regs(v) by {
            if v != dst {
                if sinks(bs, v) {
                    let h = choose|h: int| 0 <= h < n && (#[trigger] ins[h]).write() == Some(v);
                    assert(0 <= h < n - 1 && ins[h].write() == Some(v));
                }
                assert(s(v) == regs(v));
            }
        }
    }
}

/// The registers at position `j` of a block after sinking, which makes its boxes first.
pub open spec fn sunk_state(
    bs: Seq<BlockView>,
    b: int,
    mc: Machine,
    regs: Regs,
    j: int,
) -> Regs {
    let ins = sunk_into(bs, b, bs.len() as int);
    mc.run_kept(bs[b].code, unsunk(bs, b), mc.run(ins, regs, ins.len() as int), j)
}

/// Whoever looks at `v` in block `b`, by an operation or a deoptimization site, finds what it held.
spec fn found(bs: Seq<BlockView>, b: int, v: VReg) -> bool {
    !sinks(bs, v) || site_named(bs[b], v)
}

proof fn lemma_sunk_states(
    bs: Seq<BlockView>,
    b: int,
    vs: Seq<VRegInfo>,
    mc: Machine,
    regs: Regs,
    made_regs: Regs,
    j: int,
)
    requires
        0 <= b < bs.len(),
        0 <= j <= bs[b].code.len(),
        blocks_fit(bs, vs),
        forall|v: VReg| !sinks(bs, v) ==> #[trigger] made_regs(v) == regs(v),
        forall|h: int|
            0 <= h < sunk_into(bs, b, bs.len() as int).len() ==> (#[trigger] sunk_into(
                bs,
                b,
                bs.len() as int,
            )[h] matches Ir::FBox { dst, src } ==> regs(dst) == (mc.wrap)(regs(src))),
    ensures
        forall|v: VReg|
            #[trigger] found(bs, b, v) ==> sunk_state(bs, b, mc, made_regs, j)(v) == mc.run(
                bs[b].code,
                regs,
                j,
            )(v),
    decreases j,
{
    let code = bs[b].code;
    let len = bs.len() as int;
    let ins = sunk_into(bs, b, len);
    lemma_sunk_into_ops(bs, b, len, vs);
    if j == 0 {
        lemma_sunk_run(bs, b, ins, mc, regs, made_regs, ins.len() as int);
        let s = mc.run(ins, made_regs, ins.len() as int);
        assert forall|v: VReg| #[trigger] found(bs, b, v) implies sunk_state(
            bs,
            b,
            mc,
            made_regs,
            0,
        )(v) == regs(v) by {
            if sinks(bs, v) {
                let (c, i) = choose|c: int, i: int|
                    0 <= c < bs.len() && 0 <= i < bs[c].code.len() && sinkable(
                        bs,
                        c,
                        #[trigger] bs[c].code[i],
                    ) && bs[c].code[i].write() == Some(v);
                lemma_sunk_into_has(bs, b, len, c, i, v);
            }
            assert(s(v) == regs(v));
        }
    } else {
        lemma_sunk_states(bs, b, vs, mc, regs, made_regs, j - 1);
        let a = code[j - 1];
        let r = mc.run(code, regs, j - 1);
        let s = sunk_state(bs, b, mc, made_regs, j - 1);
        let keep = unsunk(bs, b);
        lemma_reads_found(bs, b, j - 1, r, s);
        assert forall|v: VReg| #[trigger] found(bs, b, v) implies sunk_state(
            bs,
            b,
            mc,
            made_regs,
            j,
        )(v) == mc.run(code, regs, j)(v) by {
            if !keep[j - 1] {
                assert(sinkable(bs, b, code[j - 1]));
                let dst = a->FBox_dst;
                assert(bs[b].code[j - 1].write() == Some(dst));
                assert(sinks(bs, dst));
                if v == dst {
                    assert(site_named(bs[b], dst));
                    assert(false);
                }
            } else {
                crate::unboxed::lemma_alike(mc, j - 1, a, a, r, s);
            }
        }
    }
}

proof fn lemma_reads_found(bs: Seq<BlockView>, b: int, j: int, r: Regs, s: Regs)
    requires
        0 <= b < bs.len(),
        0 <= j < bs[b].code.len(),
        forall|v: VReg| #[trigger] found(bs, b, v) ==> s(v) == r(v),
    ensures
        values(r, bs[b].code[j].reads()) == values(s, bs[b].code[j].reads()),
{
    let q = bs[b].code[j].reads();
    assert forall|k: int| 0 <= k < q.len() implies r(#[trigger] q[k]) == s(q[k]) by {
        let v = q[k];
        if sinks(bs, v) {
            let (c, i) = choose|c: int, i: int|
                0 <= c < bs.len() && 0 <= i < bs[c].code.len() && sinkable(
                    bs,
                    c,
                    #[trigger] bs[c].code[i],
                ) && bs[c].code[i].write() == Some(v);
            assert(q.contains(v));
            lemma_all_reads(bs, v);
            assert(crate::tidy::reads_reg(bs, b, j, v));
        }
        assert(found(bs, b, v));
    }
    assert(values(r, q) =~= values(s, q));
}

/// Making a box where deoptimization needs it is the same as making it before: whatever the operations
/// compute, every operation reads the values it read, and every deoptimization site names registers
/// that hold what they held. On entry all registers but the boxes hold what they held, and where
/// the block makes boxes itself, those were boxes of what their sources still hold.
pub proof fn law_sunk_boxes_keep_values(
    bs: Seq<BlockView>,
    b: int,
    vs: Seq<VRegInfo>,
    mc: Machine,
    regs: Regs,
    made_regs: Regs,
)
    requires
        0 <= b < bs.len(),
        blocks_fit(bs, vs),
        forall|k: int|
            0 <= k < bs[b].deopt_sites.len() ==> (#[trigger] bs[b].deopt_sites[k]).0
                <= bs[b].code.len(),
        forall|v: VReg| !sinks(bs, v) ==> #[trigger] made_regs(v) == regs(v),
        forall|h: int|
            0 <= h < sunk_into(bs, b, bs.len() as int).len() ==> (#[trigger] sunk_into(
                bs,
                b,
                bs.len() as int,
            )[h] matches Ir::FBox { dst, src } ==> regs(dst) == (mc.wrap)(regs(src))),
    ensures
        forall|j: int|
            0 <= j < bs[b].code.len() ==> values(
                sunk_state(bs, b, mc, made_regs, j),
                (#[trigger] bs[b].code[j]).reads(),
            ) == values(mc.run(bs[b].code, regs, j), bs[b].code[j].reads()),
        forall|k: int|
            0 <= k < bs[b].deopt_sites.len() ==> values(
                sunk_state(bs, b, mc, made_regs, bs[b].deopt_sites[k].0 as int),
                #[trigger] raw_refs(bs[b].deopt_sites[k].1),
            ) == values(
                mc.run(bs[b].code, regs, bs[b].deopt_sites[k].0 as int),
                raw_refs(bs[b].deopt_sites[k].1),
            ),
        forall|v: VReg|
            !sinks(bs, v) ==> #[trigger] sunk_state(
                bs,
                b,
                mc,
                made_regs,
                bs[b].code.len() as int,
            )(v) == mc.run(bs[b].code, regs, bs[b].code.len() as int)(v),
{
    let code = bs[b].code;
    assert forall|j: int| 0 <= j < code.len() implies values(
        sunk_state(bs, b, mc, made_regs, j),
        (#[trigger] bs[b].code[j]).reads(),
    ) == values(mc.run(code, regs, j), bs[b].code[j].reads()) by {
        lemma_sunk_states(bs, b, vs, mc, regs, made_regs, j);
        lemma_reads_found(
            bs,
            b,
            j,
            mc.run(code, regs, j),
            sunk_state(bs, b, mc, made_regs, j),
        );
    }
    assert forall|k: int| 0 <= k < bs[b].deopt_sites.len() implies values(
        sunk_state(bs, b, mc, made_regs, bs[b].deopt_sites[k].0 as int),
        #[trigger] raw_refs(bs[b].deopt_sites[k].1),
    ) == values(
        mc.run(code, regs, bs[b].deopt_sites[k].0 as int),
        raw_refs(bs[b].deopt_sites[k].1),
    ) by {
        let o = bs[b].deopt_sites[k].0 as int;
        lemma_sunk_states(bs, b, vs, mc, regs, made_regs, o);
        let q = raw_refs(bs[b].deopt_sites[k].1);
        let r = mc.run(code, regs, o);
        let s = sunk_state(bs, b, mc, made_regs, o);
        assert forall|h: int| 0 <= h < q.len() implies r(#[trigger] q[h]) == s(q[h]) by {
            assert(q.contains(q[h]));
            lemma_site_ref(bs[b].deopt_sites, k, q[h]);
            assert(found(bs, b, q[h]));
        }
        assert(values(s, q) =~= values(r, q));
    }
    lemma_sunk_states(bs, b, vs, mc, regs, made_regs, code.len() as int);
    assert forall|v: VReg| !sinks(bs, v) implies #[trigger] sunk_state(
        bs,
        b,
        mc,
        made_regs,
        code.len() as int,
    )(v) == mc.run(code, regs, code.len() as int)(v) by {
        assert(found(bs, b, v));
    }
}

proof fn lemma_live_states(
    bs: Seq<BlockView>,
    b: int,
    mc: Machine,
    regs: Regs,
    made_regs: Regs,
    j: int,
)
    requires
        0 <= b < bs.len(),
        0 <= j <= bs[b].code.len(),
        forall|v: VReg| all_refs(bs).contains(v) ==> #[trigger] made_regs(v) == regs(v),
    ensures
        forall|v: VReg|
            all_refs(bs).contains(v) ==> #[trigger] mc.run_kept(
                bs[b].code,
                live_flags(all_refs(bs), bs[b]),
                made_regs,
                j,
            )(v) == mc.run(bs[b].code, regs, j)(v),
        j < bs[b].code.len() ==> values(
            mc.run_kept(bs[b].code, live_flags(all_refs(bs), bs[b]), made_regs, j),
            bs[b].code[j].reads(),
        ) == values(mc.run(bs[b].code, regs, j), bs[b].code[j].reads()),
    decreases j,
{
    let code = bs[b].code;
    let refs = all_refs(bs);
    let keep = live_flags(refs, bs[b]);
    let r1 = mc.run(code, regs, j);
    let s1 = mc.run_kept(code, keep, made_regs, j);
    if j > 0 {
        lemma_live_states(bs, b, mc, regs, made_regs, j - 1);
        let a = code[j - 1];
        let r = mc.run(code, regs, j - 1);
        let s = mc.run_kept(code, keep, made_regs, j - 1);
        assert forall|v: VReg| refs.contains(v) implies #[trigger] s1(v) == r1(v) by {
            assert(s(v) == r(v));
            if keep[j - 1] {
                crate::unboxed::lemma_alike(mc, j - 1, a, a, r, s);
            }
        }
    }
    if j < code.len() {
        let q = code[j].reads();
        assert forall|k: int| 0 <= k < q.len() implies s1(#[trigger] q[k]) == r1(q[k]) by {
            assert(q.contains(q[k]));
            lemma_all_reads(bs, q[k]);
            assert(crate::tidy::reads_reg(bs, b, j, q[k]));
            lemma_refs_split(bs, q[k]);
        }
        assert(values(s1, q) =~= values(r1, q));
    }
}

/// Leaving out boxes that nothing refers to changes no value: whatever the operations compute, every
/// operation reads the values it read, and every deoptimization site names registers that hold what
/// they held.
pub proof fn law_dead_boxes_do_not_matter(
    bs: Seq<BlockView>,
    b: int,
    mc: Machine,
    regs: Regs,
    made_regs: Regs,
)
    requires
        0 <= b < bs.len(),
        forall|k: int|
            0 <= k < bs[b].deopt_sites.len() ==> (#[trigger] bs[b].deopt_sites[k]).0
                <= bs[b].code.len(),
        forall|v: VReg| all_refs(bs).contains(v) ==> #[trigger] made_regs(v) == regs(v),
    ensures
        ({
            let code = bs[b].code;
            let keep = live_flags(all_refs(bs), bs[b]);
            &&& forall|j: int|
                0 <= j < code.len() ==> values(
                    mc.run_kept(code, keep, made_regs, j),
                    (#[trigger] code[j]).reads(),
                ) == values(mc.run(code, regs, j), code[j].reads())
            &&& forall|k: int, v: VReg|
                0 <= k < bs[b].deopt_sites.len() && #[trigger] raw_refs(
                    bs[b].deopt_sites[k].1,
                ).contains(v) ==> mc.run_kept(
                    code,
                    keep,
                    made_regs,
                    bs[b].deopt_sites[k].0 as int,
                )(v) == mc.run(code, regs, bs[b].deopt_sites[k].0 as int)(v)
            &&& forall|v: VReg|
                all_refs(bs).contains(v) ==> #[trigger] mc.run_kept(
                    code,
                    keep,
                    made_regs,
                    code.len() as int,
                )(v) == mc.run(code, regs, code.len() as int)(v)
        }),
{
    let code = bs[b].code;
    let keep = live_flags(all_refs(bs), bs[b]);
    assert forall|j: int| 0 <= j < code.len() implies values(
        mc.run_kept(code, keep, made_regs, j),
        (#[trigger] code[j]).reads(),
    ) == values(mc.run(code, regs, j), code[j].reads()) by {
        lemma_live_states(bs, b, mc, regs, made_regs, j);
    }
    assert forall|k: int, v: VReg|
        0 <= k < bs[b].deopt_sites.len() && #[trigger] raw_refs(
            bs[b].deopt_sites[k].1,
        ).contains(v) implies mc.run_kept(
        code,
        keep,
        made_regs,
        bs[b].deopt_sites[k].0 as int,
    )(v) == mc.run(code, regs, bs[b].deopt_sites[k].0 as int)(v) by {
        lemma_live_states(bs, b, mc, regs, made_regs, bs[b].deopt_sites[k].0 as int);
        lemma_site_ref(bs[b].deopt_sites, k, v);
        lemma_named(bs, b, v);
        lemma_refs_split(bs, v);
    }
    lemma_live_states(bs, b, mc, regs, made_regs, code.len() as int);
}

} // verus!

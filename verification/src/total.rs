//! The reduction of float boxes takes every sound method: once a value was judged fit for promotion,
//! its rewriting never gets stuck.

use vstd::prelude::*;
use crate::boxes::{
    cancel, cancelled, cancelled_block, const_doubles, doubles_in, fold_op, folded, lits_ok,
    map_blocks, sunk, sunk_block,
};
use crate::ir::{BlockView, Ir, IrView, MethodView, PoolEntry, VReg, VRegInfo};
use crate::kinds::{blocks_fit, code_fits, op_fits};
use crate::laws::method_sound;
use crate::passes::{
    all_reads, block_below, blocks_below, code_reads, countable, lemma_occurrences_bound,
    lemma_occurrences_concat, lemma_occurrences_push, occurrences,
};
use crate::promote::{
    all_defs, box_sources, code_defs, def_of, lemma_ops_below, op_below, promote_block,
    promote_code, promote_op, promoted_flags, reread, with_float_temps, DefKind,
};
use crate::reach::is_walk;
use crate::reduce::{local_reduced, promoted, reduced};
use crate::sound_passes::{
    block_shape, blocks_shape, lemma_cancelled, lemma_folded, shape_ok, sizes, Sizes,
};
use crate::splice_promote::{
    all_open, copies_in, copies_of, copy_graph, hop_flags, in_tree, planned, promoted_trees,
    retarget_block, retarget_code, retarget_op, tree_allows, tree_member, tree_promotable, web_of,
    with_float_trees, Web,
};
use crate::tidy::{
    block_fit, block_step, boxes_apart, carried, grown, lemma_all_defs, lemma_cancel_steps,
    lemma_cancelled_step, lemma_claimed, lemma_compact_step, lemma_dead_step, lemma_folded_step,
    lemma_list_same, lemma_list_step_fit, lemma_list_step_trans, lemma_map_total,
    lemma_promote_block_step, lemma_promote_steps, lemma_retarget_block_step, lemma_retarget_steps,
    lemma_sources_below, lemma_step_carried, lemma_sunk_block, lemma_trees_end, list_fit,
    list_step, makes_box, no_marks, ops_upto, step_ok, Marks,
};
use crate::world::VmState;

verus! {

/// An operation as far as unboxed values go: `u` holds the registers that are unboxed into, and
/// nothing else goes into them.
pub open spec fn unbox_ok(op: IrView, u: spec_fn(u32) -> bool) -> bool {
    match op {
        Ir::FUnbox { dst, .. } => u(dst.0),
        Ir::FBox { dst, .. } => !u(dst.0),
        Ir::ConstPool { dst, .. } => !u(dst.0),
        _ => true,
    }
}

pub open spec fn all_unbox_ok(bs: Seq<BlockView>, u: spec_fn(u32) -> bool) -> bool {
    forall|b: int, i: int|
        0 <= b < bs.len() && 0 <= i < bs[b].code.len() ==> unbox_ok(#[trigger] bs[b].code[i], u)
}

/// Some operation unboxes into `v`.
pub open spec fn unboxes_into(bs: Seq<BlockView>, v: u32) -> bool {
    exists|b: int, i: int|
        0 <= b < bs.len() && 0 <= i < bs[b].code.len() && (#[trigger] bs[b].code[i] matches
            Ir::FUnbox { dst, .. } && dst.0 == v)
}

/// No register that a value is unboxed into is also boxed into or loaded from the pool.
pub open spec fn unboxed_apart(bs: Seq<BlockView>) -> bool {
    all_unbox_ok(bs, |v: u32| unboxes_into(bs, v))
}

/// Where registers keep to their kinds, boxes and unboxed values are apart.
pub(crate) proof fn lemma_fit_apart(bs: Seq<BlockView>, vregs: Seq<VRegInfo>)
    requires
        blocks_fit(bs, vregs),
    ensures
        unboxed_apart(bs),
        boxes_apart(bs),
{
    let into = |v: u32| unboxes_into(bs, v);
    assert forall|b: int, i: int| 0 <= b < bs.len() && 0 <= i < bs[b].code.len() implies op_fits(
        #[trigger] bs[b].code[i],
        vregs,
    ) by {
        assert(code_fits(bs[b].code, vregs));
    }
    assert forall|b: int, i: int|
        0 <= b < bs.len() && 0 <= i < bs[b].code.len() implies unbox_ok(
        #[trigger] bs[b].code[i],
        into,
    ) by {
        let op = bs[b].code[i];
        assert(op_fits(bs[b].code[i], vregs));
        if (op is FBox || op is ConstPool) && unboxes_into(bs, (op.write()->0).0) {
            let (c, j) = choose|c: int, j: int|
                0 <= c < bs.len() && 0 <= j < bs[c].code.len() && (
                #[trigger] bs[c].code[j] matches Ir::FUnbox { dst, .. } && dst.0
                    == (op.write()->0).0);
            assert(op_fits(bs[c].code[j], vregs));
        }
    }
    assert forall|b: int, i: int|
        0 <= b < bs.len() && 0 <= i < bs[b].code.len() implies (#[trigger] bs[b].code[i] matches
        Ir::FBox { src, .. } ==> !makes_box(bs, src)) by {
        assert(op_fits(bs[b].code[i], vregs));
        if let Ir::FBox { src, .. } = bs[b].code[i] {
            if makes_box(bs, src) {
                let (c, j) = choose|c: int, j: int|
                    0 <= c < bs.len() && 0 <= j < bs[c].code.len() && (
                    #[trigger] bs[c].code[j] matches Ir::FBox { dst, .. } && dst == src);
                assert(op_fits(bs[c].code[j], vregs));
            }
        }
    }
}

proof fn lemma_cancelled_unbox(bs: Seq<BlockView>, n: nat, u: spec_fn(u32) -> bool)
    requires
        list_fit(bs, no_marks(), n),
        all_unbox_ok(bs, u),
    ensures
        all_unbox_ok(cancelled(bs)->0, u),
{
    let d = no_marks();
    lemma_cancelled_step(bs, d, n);
    let f = |b: BlockView| cancelled_block(b);
    let r = cancelled(bs)->0;
    assert forall|i: int| 0 <= i < bs.len() implies f(#[trigger] bs[i]) is Some && forall|j: int|
        0 <= j < (f(bs[i])->0).code.len() ==> unbox_ok(#[trigger] (f(bs[i])->0).code[j], u) by {
        let b = bs[i];
        assert(block_fit(b, d, n));
        let k = b.code.len() as int;
        lemma_ops_below(b, n);
        lemma_cancel_steps(b.code, k, d, n);
        let c = cancel(b.code, k);
        lemma_compact_step(b, c.code, c.keep, d, n);
        let e = f(b)->0;
        assert forall|j: int| 0 <= j < e.code.len() implies unbox_ok(#[trigger] e.code[j], u) by {
            assert(c.code.contains(e.code[j]));
            let x = choose|x: int| 0 <= x < c.code.len() && c.code[x] == e.code[j];
            assert(step_ok(b.code[x], c.code[x], d, n));
            assert(unbox_ok(bs[i].code[x], u));
        }
    }
    lemma_map_total(bs, f, bs.len() as int);
    assert forall|b: int, i: int|
        0 <= b < r.len() && 0 <= i < r[b].code.len() implies unbox_ok(#[trigger] r[b].code[i], u) by {
        assert(f(bs[b]) == Some(r[b]));
        assert((f(bs[b])->0).code[i] == r[b].code[i]);
    }
}

proof fn lemma_folded_unbox(
    vm: VmState,
    pool: Seq<PoolEntry>,
    bs: Seq<BlockView>,
    u: spec_fn(u32) -> bool,
)
    requires
        folded(vm, pool, bs) is Some,
        all_unbox_ok(bs, u),
    ensures
        all_unbox_ok(folded(vm, pool, bs)->0, u),
{
    let known = const_doubles(vm, pool, bs, bs.len() as int);
    let r = folded(vm, pool, bs)->0;
    assert forall|b: int, i: int|
        0 <= b < r.len() && 0 <= i < r[b].code.len() implies unbox_ok(#[trigger] r[b].code[i], u) by {
        assert(r[b].code[i] == fold_op(known, bs[b].code[i]));
        assert(unbox_ok(bs[b].code[i], u));
    }
}

proof fn lemma_doubles_in(
    vm: VmState,
    pool: Seq<PoolEntry>,
    bs: Seq<BlockView>,
    b: int,
    i: int,
    known: Map<u32, u64>,
    u: spec_fn(u32) -> bool,
)
    requires
        0 <= b < bs.len(),
        0 <= i <= bs[b].code.len(),
        all_unbox_ok(bs, u),
        forall|v: u32| #[trigger] known.dom().contains(v) ==> !u(v),
    ensures
        forall|v: u32|
            #[trigger] doubles_in(vm, pool, bs[b].code, i, known).dom().contains(v) ==> !u(v),
    decreases i,
{
    if i > 0 {
        lemma_doubles_in(vm, pool, bs, b, i - 1, known, u);
        let op = bs[b].code[i - 1];
        assert(unbox_ok(bs[b].code[i - 1], u));
        let k = doubles_in(vm, pool, bs[b].code, i - 1, known);
        let r = doubles_in(vm, pool, bs[b].code, i, known);
        assert forall|v: u32| #[trigger] r.dom().contains(v) implies !u(v) by {
            if !k.dom().contains(v) {
                assert(op is ConstPool && op->ConstPool_dst.0 == v);
            }
        }
    }
}

/// Literals go into no register that is unboxed into.
proof fn lemma_const_doubles(
    vm: VmState,
    pool: Seq<PoolEntry>,
    bs: Seq<BlockView>,
    k: int,
    u: spec_fn(u32) -> bool,
)
    requires
        0 <= k <= bs.len(),
        all_unbox_ok(bs, u),
    ensures
        forall|v: u32| #[trigger] const_doubles(vm, pool, bs, k).dom().contains(v) ==> !u(v),
    decreases k,
{
    if k > 0 {
        lemma_const_doubles(vm, pool, bs, k - 1, u);
        lemma_doubles_in(
            vm,
            pool,
            bs,
            k - 1,
            bs[k - 1].code.len() as int,
            const_doubles(vm, pool, bs, k - 1),
            u,
        );
    }
}

/// Operation `b` is `a` with another source at most.
spec fn same_target(a: IrView, b: IrView) -> bool {
    b matches Ir::Move { dst, .. } ==> (a matches Ir::Move { dst: x, .. } && x == dst)
}

/// The rewriting of temporaries never gets stuck.
proof fn lemma_promote_total(
    code: Seq<IrView>,
    k: int,
    flags: Seq<bool>,
    held: Map<u32, VReg>,
    doubles: Map<u32, u64>,
    n: nat,
)
    requires
        0 <= k <= code.len(),
        flags.len() == n,
        forall|v: u32| #[trigger] held.dom().contains(v) ==> held[v].0 < n,
        forall|i: int| 0 <= i < code.len() ==> op_below(#[trigger] code[i], n),
        forall|i: int|
            0 <= i < code.len() ==> (#[trigger] code[i] matches Ir::Move { dst, src }
                ==> flags[dst.0 as int] ==> held.dom().contains(src.0) || doubles.dom().contains(
                src.0,
            )),
        forall|i: int|
            0 <= i < code.len() ==> (#[trigger] code[i] matches Ir::FUnbox { dst, .. }
                ==> !held.dom().contains(dst.0) && !doubles.dom().contains(dst.0)),
    ensures
        promote_code(code, k, flags, held, doubles) is Some,
        ({
            let c = (promote_code(code, k, flags, held, doubles)->0).0;
            &&& c.len() == code.len()
            &&& forall|i: int| k <= i < code.len() ==> same_target(code[i], #[trigger] c[i])
            &&& forall|i: int|
                k <= i < code.len() ==> (code[i] matches Ir::Move { src, .. }
                    ==> held.dom().contains(src.0) || doubles.dom().contains(src.0)
                    ==> #[trigger] c[i] == code[i])
        }),
    decreases k,
{
    if k > 0 {
        lemma_promote_total(code, k - 1, flags, held, doubles, n);
        lemma_promote_steps(code, k - 1, flags, held, doubles, no_marks(), n);
        let (c, keep) = promote_code(code, k - 1, flags, held, doubles)->0;
        let op = c[k - 1];
        assert(step_ok(code[k - 1], op, no_marks(), n));
        assert(same_target(code[k - 1], op));
        assert(promote_op(c, k - 1, flags, held, doubles) is Some);
        let c1 = (promote_op(c, k - 1, flags, held, doubles)->0).0;
        assert forall|i: int| k <= i < code.len() implies same_target(code[i], #[trigger] c1[i])
            && (code[i] matches Ir::Move { src, .. } ==> held.dom().contains(src.0)
            || doubles.dom().contains(src.0) ==> c1[i] == code[i]) by {
            assert(same_target(code[i], c[i]));
            match op {
                Ir::FUnbox { dst, src, .. } => {
                    if flags[src.0 as int] {
                        assert(c1[i] == reread(c[i], dst, src));
                    }
                },
                _ => {
                    assert(c1[i] == c[i]);
                },
            }
        }
    }
}

/// So does that of trees.
proof fn lemma_retarget_total(
    w: Web,
    roots: Seq<VReg>,
    flags: Seq<bool>,
    code: Seq<IrView>,
    k: int,
    n: nat,
)
    requires
        0 <= k <= code.len(),
        flags.len() == n,
        forall|v: u32| #[trigger] w.boxes.dom().contains(v) ==> w.boxes[v].0 < n,
        forall|i: int| 0 <= i < code.len() ==> op_below(#[trigger] code[i], n),
        forall|i: int|
            0 <= i < code.len() ==> (#[trigger] code[i] matches Ir::Move { dst, src }
                ==> flags[dst.0 as int] ==> planned(w, roots, code[i]) is Some
                || flags[src.0 as int]),
        forall|i: int|
            0 <= i < code.len() ==> (#[trigger] code[i] matches Ir::FUnbox { dst, .. }
                ==> !flags[dst.0 as int]),
    ensures
        retarget_code(w, roots, flags, code, k) is Some,
        ({
            let c = (retarget_code(w, roots, flags, code, k)->0).0;
            &&& c.len() == code.len()
            &&& forall|i: int| k <= i < code.len() ==> same_target(code[i], #[trigger] c[i])
            &&& forall|i: int|
                k <= i < code.len() ==> (code[i] matches Ir::Move { src, .. }
                    ==> flags[src.0 as int] ==> #[trigger] c[i] == code[i])
        }),
    decreases k,
{
    if k > 0 {
        lemma_retarget_total(w, roots, flags, code, k - 1, n);
        lemma_retarget_steps(w, roots, flags, code, k - 1, no_marks(), n);
        let (c, keep) = retarget_code(w, roots, flags, code, k - 1)->0;
        let op = c[k - 1];
        assert(step_ok(code[k - 1], op, no_marks(), n));
        assert(same_target(code[k - 1], op));
        assert(retarget_op(w, roots, flags, code[k - 1], c, k - 1) is Some);
        let c1 = (retarget_op(w, roots, flags, code[k - 1], c, k - 1)->0).0;
        assert forall|i: int| k <= i < code.len() implies same_target(code[i], #[trigger] c1[i])
            && (code[i] matches Ir::Move { src, .. } ==> flags[src.0 as int] ==> c1[i]
            == code[i]) by {
            assert(same_target(code[i], c[i]));
            if planned(w, roots, code[k - 1]) is Some {
                assert(c1[i] == c[i]);
            } else {
                match op {
                    Ir::FUnbox { dst, src, .. } => {
                        if flags[src.0 as int] {
                            assert(c1[i] == reread(c[i], dst, src));
                        }
                    },
                    _ => {
                        assert(c1[i] == c[i]);
                    },
                }
            }
        }
    }
}

proof fn lemma_one_code_def(kind: DefKind, c: Seq<IrView>, i: int, v: VReg)
    requires
        0 <= i < c.len(),
        def_of(kind, c[i]) == Some(v),
    ensures
        occurrences(code_defs(kind, c), v) >= 1,
    decreases c.len(),
{
    let rest = code_defs(kind, c.drop_last());
    if let Some(x) = def_of(kind, c.last()) {
        lemma_occurrences_push(rest, x, v);
    }
    if i < c.len() - 1 {
        lemma_one_code_def(kind, c.drop_last(), i, v);
    }
}

proof fn lemma_two_code_defs(kind: DefKind, c: Seq<IrView>, i: int, j: int, v: VReg)
    requires
        0 <= i < j < c.len(),
        def_of(kind, c[i]) == Some(v),
        def_of(kind, c[j]) == Some(v),
    ensures
        occurrences(code_defs(kind, c), v) >= 2,
    decreases c.len(),
{
    let rest = code_defs(kind, c.drop_last());
    if let Some(x) = def_of(kind, c.last()) {
        lemma_occurrences_push(rest, x, v);
    }
    if j < c.len() - 1 {
        lemma_two_code_defs(kind, c.drop_last(), i, j, v);
    } else {
        lemma_one_code_def(kind, c.drop_last(), i, v);
    }
}

pub(crate) proof fn lemma_one_def(kind: DefKind, bs: Seq<BlockView>, b: int, i: int, v: VReg)
    requires
        0 <= b < bs.len(),
        0 <= i < bs[b].code.len(),
        def_of(kind, bs[b].code[i]) == Some(v),
    ensures
        occurrences(all_defs(kind, bs), v) >= 1,
    decreases bs.len(),
{
    lemma_occurrences_concat(all_defs(kind, bs.drop_last()), code_defs(kind, bs.last().code), v);
    if b == bs.len() - 1 {
        lemma_one_code_def(kind, bs[b].code, i, v);
    } else {
        lemma_one_def(kind, bs.drop_last(), b, i, v);
    }
}

/// Two writes at different places count twice.
pub(crate) proof fn lemma_two_defs(kind: DefKind, bs: Seq<BlockView>, b: int, i: int, c: int, j: int, v: VReg)
    requires
        0 <= b <= c < bs.len(),
        0 <= i < bs[b].code.len(),
        0 <= j < bs[c].code.len(),
        b < c || i < j,
        def_of(kind, bs[b].code[i]) == Some(v),
        def_of(kind, bs[c].code[j]) == Some(v),
    ensures
        occurrences(all_defs(kind, bs), v) >= 2,
    decreases bs.len(),
{
    let p = bs.drop_last();
    lemma_occurrences_concat(all_defs(kind, p), code_defs(kind, bs.last().code), v);
    if c < bs.len() - 1 {
        lemma_two_defs(kind, p, b, i, c, j, v);
    } else if b < c {
        lemma_one_def(kind, p, b, i, v);
        lemma_one_code_def(kind, bs[c].code, j, v);
    } else {
        lemma_two_code_defs(kind, bs[c].code, i, j, v);
    }
}

/// A copy of `v` into `x` stands somewhere.
spec fn copy_at(bs: Seq<BlockView>, v: VReg, x: usize) -> bool {
    exists|b: int, i: int|
        0 <= b < bs.len() && 0 <= i < bs[b].code.len() && is_copy(#[trigger] bs[b].code[i], v, x)
}

spec fn is_copy(op: IrView, v: VReg, x: usize) -> bool {
    op matches Ir::Move { dst, src } && src == v && dst.0 as usize == x
}

proof fn lemma_copies_in(bs: Seq<BlockView>, b: int, k: int, v: VReg, x: usize)
    requires
        0 <= b < bs.len(),
        0 <= k <= bs[b].code.len(),
        copies_in(bs[b].code, k, v).contains(x),
    ensures
        copy_at(bs, v, x),
    decreases k,
{
    if k > 0 {
        let rest = copies_in(bs[b].code, k - 1, v);
        let all = copies_in(bs[b].code, k, v);
        let h = choose|h: int| 0 <= h < all.len() && all[h] == x;
        if h < rest.len() {
            assert(rest[h] == x);
            lemma_copies_in(bs, b, k - 1, v, x);
        } else {
            assert(is_copy(bs[b].code[k - 1], v, x));
        }
    }
}

proof fn lemma_copies_of(bs: Seq<BlockView>, k: int, v: VReg, x: usize)
    requires
        0 <= k <= bs.len(),
        copies_of(bs, k, v).contains(x),
    ensures
        copy_at(bs, v, x),
    decreases k,
{
    if k > 0 {
        let a = copies_of(bs, k - 1, v);
        let len = bs[k - 1].code.len() as int;
        let c = copies_in(bs[k - 1].code, len, v);
        let h = choose|h: int| 0 <= h < (a + c).len() && (a + c)[h] == x;
        if h < a.len() {
            assert(a[h] == x);
            lemma_copies_of(bs, k - 1, v, x);
        } else {
            assert(c[h - a.len()] == x);
            lemma_copies_in(bs, k - 1, len, v, x);
        }
    }
}

/// A member of a tree besides its root was copied from a member.
proof fn lemma_tree_parent(w: Web, t: VReg, v: VReg) -> (u: VReg)
    requires
        in_tree(w, t, v),
        v != t,
        v.0 < w.vregs.len() <= u32::MAX + 1,
    ensures
        in_tree(w, t, u),
        u.0 < w.vregs.len(),
        copy_at(w.bs, u, v.0 as usize),
{
    let n = w.vregs.len();
    let adj = copy_graph(w.bs, n);
    let open = all_open(n);
    let starts = seq![t.0 as usize];
    let p = choose|p: Seq<usize>|
        #[trigger] is_walk(adj, open, starts, p) && p.last() == v.0 as int;
    assert(starts.contains(p[0]));
    assert(p[0] == t.0 as usize);
    assert(p.len() > 1);
    let q = p.drop_last();
    let x = q.last();
    assert(x == p[p.len() - 2]);
    assert(x < adj.len());
    assert(adj[x as int].contains(p[p.len() - 2 + 1]));
    let u = VReg(x as u32);
    assert(is_walk(adj, open, starts, q)) by {
        assert forall|k: int| 0 <= k < q.len() - 1 implies open[#[trigger] q[k] as int]
            && adj[q[k] as int].contains(q[k + 1]) by {
            assert(open[p[k] as int] && adj[p[k] as int].contains(p[k + 1]));
        }
    }
    assert(q.last() == u.0 as int);
    assert(adj[x as int] == copies_of(w.bs, w.bs.len() as int, u));
    lemma_copies_of(w.bs, w.bs.len() as int, u, v.0 as usize);
    u
}

/// The trees that were promoted: each root was judged fit, and their members are what is claimed.
pub(crate) proof fn lemma_roots(w: Web, k: int)
    requires
        0 <= k <= w.vregs.len() <= u32::MAX + 1,
    ensures
        promoted_trees(w, k).1.len() == w.vregs.len(),
        forall|r: VReg| #[trigger]
            promoted_trees(w, k).0.contains(r) ==> fit_root(w, r) && covers(
                w,
                r,
                promoted_trees(w, k).1,
            ),
        forall|v: int|
            0 <= v < w.vregs.len() && #[trigger] promoted_trees(w, k).1[v] ==> has_root(
                w,
                promoted_trees(w, k).0,
                VReg(v as u32),
            ),
    decreases k,
{
    if k > 0 {
        lemma_roots(w, k - 1);
        let (roots0, claimed0) = promoted_trees(w, k - 1);
        let (roots, claimed) = promoted_trees(w, k);
        let t = VReg((k - 1) as u32);
        if tree_promotable(w, claimed0, t) {
            assert(roots[roots0.len() as int] == t);
            assert forall|r: VReg| #[trigger] roots.contains(r) implies fit_root(w, r) && covers(
                w,
                r,
                claimed,
            ) by {
                let i = choose|i: int| 0 <= i < roots.len() && roots[i] == r;
                if i < roots0.len() {
                    assert(roots0[i] == r);
                    assert(roots0.contains(r));
                }
            }
            assert forall|v: int| 0 <= v < w.vregs.len() && #[trigger] claimed[v] implies has_root(
                w,
                roots,
                VReg(v as u32),
            ) by {
                if claimed0[v] {
                    assert(has_root(w, roots0, VReg(v as u32)));
                    let i = choose|i: int|
                        0 <= i < roots0.len() && in_tree(w, #[trigger] roots0[i], VReg(v as u32));
                    assert(roots[i] == roots0[i]);
                } else {
                    assert(in_tree(w, roots[roots0.len() as int], VReg(v as u32)));
                }
            }
        }
    }
}

pub(crate) open spec fn fit_root(w: Web, r: VReg) -> bool {
    exists|claimed: Seq<bool>| tree_promotable(w, claimed, r)
}

pub(crate) open spec fn covers(w: Web, r: VReg, claimed: Seq<bool>) -> bool {
    forall|v: int|
        0 <= v < w.vregs.len() && #[trigger] in_tree(w, r, VReg(v as u32)) ==> claimed[v]
}

pub(crate) open spec fn has_root(w: Web, roots: Seq<VReg>, v: VReg) -> bool {
    exists|i: int| 0 <= i < roots.len() && in_tree(w, #[trigger] roots[i], v)
}

/// What is copied into a promoted register is promoted itself, or comes from a box or a literal.
pub(crate) proof fn lemma_tree_moves(w: Web, b: int, i: int, dst: VReg, src: VReg)
    requires
        w.vregs.len() <= u32::MAX + 1,
        0 <= b < w.bs.len(),
        0 <= i < w.bs[b].code.len(),
        w.bs[b].code[i] == (Ir::<Seq<VReg>>::Move { dst, src }),
        dst.0 < w.vregs.len(),
        src.0 < w.vregs.len(),
        promoted_trees(w, w.vregs.len() as int).1[dst.0 as int],
    ensures
        planned(w, promoted_trees(w, w.vregs.len() as int).0, w.bs[b].code[i]) is Some
            || promoted_trees(w, w.vregs.len() as int).1[src.0 as int],
{
    let n = w.vregs.len() as int;
    let (roots, claimed) = promoted_trees(w, n);
    lemma_roots(w, n);
    assert(VReg(dst.0 as int as u32) == dst && VReg(src.0 as int as u32) == src);
    if roots.contains(dst) {
        assert(fit_root(w, dst) && covers(w, dst, claimed));
        let c0 = choose|c0: Seq<bool>| tree_promotable(w, c0, dst);
        assert(tree_allows(w, dst, w.bs[b].code, i));
        if in_tree(w, dst, src) {
            assert(in_tree(w, dst, VReg(src.0 as int as u32)));
        }
    } else {
        assert(claimed[dst.0 as int]);
        assert(has_root(w, roots, VReg(dst.0 as int as u32)));
        let h = choose|h: int| 0 <= h < roots.len() && in_tree(w, #[trigger] roots[h], dst);
        let r = roots[h];
        assert(roots.contains(r));
        assert(fit_root(w, r) && covers(w, r, claimed));
        let c0 = choose|c0: Seq<bool>| tree_promotable(w, c0, r);
        assert(in_tree(w, r, VReg(dst.0 as int as u32)));
        assert(tree_member(w, c0, VReg(dst.0 as int as u32)));
        let u = lemma_tree_parent(w, r, dst);
        let (c, j) = choose|c: int, j: int|
            0 <= c < w.bs.len() && 0 <= j < w.bs[c].code.len() && is_copy(
                #[trigger] w.bs[c].code[j],
                u,
                dst.0 as usize,
            );
        assert(VReg(u.0 as int as u32) == u);
        if b < c || (b == c && i < j) {
            lemma_two_defs(DefKind::Copy, w.bs, b, i, c, j, dst);
        } else if c < b || j < i {
            lemma_two_defs(DefKind::Copy, w.bs, c, j, b, i, dst);
        }
        assert(src == u);
        assert(in_tree(w, r, VReg(src.0 as int as u32)));
    }
}

pub(crate) proof fn lemma_ops_upto(bs: Seq<BlockView>, cs: Seq<BlockView>, k: int, more: nat)
    requires
        bs.len() == cs.len(),
        0 <= k <= bs.len(),
        forall|i: int|
            0 <= i < bs.len() ==> (#[trigger] cs[i]).code.len() <= bs[i].code.len() + more,
    ensures
        ops_upto(cs, k) <= ops_upto(bs, k) + k * more,
    decreases k,
{
    if k > 0 {
        lemma_ops_upto(bs, cs, k - 1, more);
        assert(cs[k - 1].code.len() <= bs[k - 1].code.len() + more);
        assert(k * more == (k - 1) * more + more) by (nonlinear_arith);
    }
}

pub(crate) proof fn lemma_fewer_reads(bs: Seq<BlockView>, cs: Seq<BlockView>)
    requires
        bs.len() == cs.len(),
        forall|i: int|
            0 <= i < bs.len() ==> code_reads((#[trigger] cs[i]).code).len() <= code_reads(
                bs[i].code,
            ).len(),
    ensures
        all_reads(cs).len() <= all_reads(bs).len(),
    decreases bs.len(),
{
    if bs.len() > 0 {
        assert forall|i: int| 0 <= i < bs.len() - 1 implies code_reads(
            (#[trigger] cs.drop_last()[i]).code,
        ).len() <= code_reads(bs.drop_last()[i].code).len() by {
            assert(code_reads(cs[i].code).len() <= code_reads(bs[i].code).len());
        }
        lemma_fewer_reads(bs.drop_last(), cs.drop_last());
        let l = bs.len() - 1;
        assert(code_reads(cs[l].code).len() <= code_reads(bs[l].code).len());
    }
}

proof fn lemma_lits(bs: Seq<BlockView>, pool: Seq<PoolEntry>, z: Sizes)
    requires
        blocks_shape(bs, z),
        z.pool == pool.len(),
    ensures
        lits_ok(bs, pool),
{
    assert forall|b: int, i: int|
        0 <= b < bs.len() && 0 <= i < bs[b].code.len() implies (#[trigger] bs[b].code[i] matches
        Ir::ConstPool { lit, .. } ==> lit.0 < pool.len()) by {
        assert(block_shape(bs[b], z));
        assert(shape_ok(bs[b].code[i], z));
    }
}

/// Promotion of temporaries takes the method.
proof fn lemma_temps_total(vm: VmState, m: MethodView, u: spec_fn(u32) -> bool)
    requires
        list_fit(m.blocks, no_marks(), m.vregs.len()),
        m.vregs.len() <= u32::MAX + 1,
        lits_ok(m.blocks, m.pool),
        all_reads(m.blocks).len() <= u32::MAX,
        all_unbox_ok(m.blocks, u),
    ensures
        with_float_temps(vm, m) is Some,
        list_step(m.blocks, (with_float_temps(vm, m)->0).blocks, no_marks(), m.vregs.len()),
        (with_float_temps(vm, m)->0).vregs.len() == m.vregs.len(),
{
    let bs = m.blocks;
    let n = m.vregs.len();
    let d = no_marks();
    let held = box_sources(bs, bs.len() as int);
    let doubles = const_doubles(vm, m.pool, bs, bs.len() as int);
    let flags = promoted_flags(bs, m.vregs, m.nil_lit, held, doubles);
    let f = |b: BlockView| promote_block(b, flags, held, doubles);
    lemma_fit_below(bs, d, n);
    lemma_countable(bs, n);
    lemma_sources_below(bs, n);
    lemma_const_doubles(vm, m.pool, bs, bs.len() as int, u);
    assert forall|v: u32| #[trigger] held.dom().contains(v) implies !u(v) by {
        assert(makes_box(bs, VReg(v)));
        let (b, i) = choose|b: int, i: int|
            0 <= b < bs.len() && 0 <= i < bs[b].code.len() && (
            #[trigger] bs[b].code[i] matches Ir::FBox { dst, .. } && dst == VReg(v));
        assert(unbox_ok(bs[b].code[i], u));
    }
    assert forall|b: int| 0 <= b < bs.len() implies f(#[trigger] bs[b]) is Some && block_step(
        bs[b],
        f(bs[b])->0,
        d,
        n,
    ) by {
        let code = bs[b].code;
        assert(block_fit(bs[b], d, n));
        lemma_ops_below(bs[b], n);
        assert forall|i: int| 0 <= i < code.len() implies (#[trigger] code[i] matches Ir::Move {
            dst,
            src,
        } ==> flags[dst.0 as int] ==> held.dom().contains(src.0) || doubles.dom().contains(
            src.0,
        )) by {
            if let Ir::Move { dst, src } = code[i] {
                assert(op_below(code[i], n));
                if flags[dst.0 as int] {
                    assert(VReg(dst.0 as int as u32) == dst);
                    assert(bs[b].code[i] == code[i]);
                }
            }
        }
        assert forall|i: int| 0 <= i < code.len() implies (#[trigger] code[i] matches Ir::FUnbox {
            dst,
            ..
        } ==> !held.dom().contains(dst.0) && !doubles.dom().contains(dst.0)) by {
            assert(unbox_ok(bs[b].code[i], u));
        }
        lemma_promote_total(code, code.len() as int, flags, held, doubles, n);
        lemma_promote_block_step(bs[b], flags, held, doubles, d, n);
    }
    lemma_map_total(bs, f, bs.len() as int);
    let r = map_blocks(bs, f, bs.len() as int)->0;
    assert forall|i: int| 0 <= i < bs.len() implies block_step(bs[i], #[trigger] r[i], d, n) by {
        assert(f(bs[i]) == Some(r[i]));
    }
}

proof fn lemma_fit_below(bs: Seq<BlockView>, d: Marks, n: nat)
    requires
        list_fit(bs, d, n),
    ensures
        blocks_below(bs, n),
{
    assert forall|i: int| 0 <= i < bs.len() implies block_below(#[trigger] bs[i], n) by {
        assert(block_fit(bs[i], d, n));
    }
}

proof fn lemma_countable(bs: Seq<BlockView>, n: nat)
    requires
        all_reads(bs).len() <= u32::MAX,
    ensures
        countable(all_reads(bs), n),
{
    assert forall|v: int| 0 <= v < n implies #[trigger] occurrences(all_reads(bs), VReg(v as u32))
        <= u32::MAX by {
        lemma_occurrences_bound(all_reads(bs), VReg(v as u32));
    }
}

/// Promotion of trees takes the method.
proof fn lemma_trees_total(vm: VmState, m: MethodView, osr_bci: Option<u16>)
    requires
        list_fit(m.blocks, no_marks(), m.vregs.len()),
        m.vregs.len() + m.blocks.len() <= u32::MAX + 1,
        lits_ok(m.blocks, m.pool),
        all_reads(m.blocks).len() <= u32::MAX,
    ensures
        ({
            let r = with_float_trees(vm, m, osr_bci);
            &&& r is Some
            &&& carried(m.blocks, (r->0).blocks, no_marks(), (r->0).vregs.len())
            &&& (r->0).vregs.len() <= m.vregs.len() + m.blocks.len()
        }),
{
    let bs = m.blocks;
    let n = m.vregs.len();
    let d = no_marks();
    let w = web_of(vm, m, osr_bci);
    let (roots, flags) = promoted_trees(w, n as int);
    let f = |b: BlockView| retarget_block(w, roots, flags, b);
    lemma_fit_below(bs, d, n);
    lemma_countable(bs, n);
    lemma_sources_below(bs, n);
    lemma_claimed(w, n as int);
    assert forall|b: int| 0 <= b < bs.len() implies f(#[trigger] bs[b]) is Some && block_step(
        bs[b],
        f(bs[b])->0,
        d,
        n,
    ) by {
        let code = bs[b].code;
        assert(block_fit(bs[b], d, n));
        lemma_ops_below(bs[b], n);
        assert forall|i: int| 0 <= i < code.len() implies (#[trigger] code[i] matches Ir::Move {
            dst,
            src,
        } ==> flags[dst.0 as int] ==> planned(w, roots, code[i]) is Some || flags[src.0 as int]) by {
            if let Ir::Move { dst, src } = code[i] {
                assert(op_below(code[i], n));
                assert(code[i].reads()[0] == src);
                if flags[dst.0 as int] {
                    lemma_tree_moves(w, b, i, dst, src);
                }
            }
        }
        assert forall|i: int| 0 <= i < code.len() implies (#[trigger] code[i] matches Ir::FUnbox {
            dst,
            ..
        } ==> !flags[dst.0 as int]) by {
            if let Ir::FUnbox { dst, .. } = code[i] {
                assert(op_below(code[i], n));
                if flags[dst.0 as int] {
                    assert(VReg(dst.0 as int as u32) == dst);
                    lemma_all_defs(DefKind::Other(w.nil), bs, b, i, dst);
                }
            }
        }
        lemma_retarget_total(w, roots, flags, code, code.len() as int, n);
        lemma_retarget_block_step(w, roots, flags, bs[b], d, n);
    }
    lemma_map_total(bs, f, bs.len() as int);
    let bs1 = map_blocks(bs, f, bs.len() as int)->0;
    assert forall|i: int| 0 <= i < bs.len() implies block_step(bs[i], #[trigger] bs1[i], d, n) by {
        assert(f(bs[i]) == Some(bs1[i]));
    }
    let vregs = Seq::new(
        n,
        |v: int|
            if flags[v] {
                VRegInfo { is_oop: false, is_fp: true }
            } else {
                m.vregs[v]
            },
    );
    lemma_trees_end(w, bs, bs1, hop_flags(w, roots), flags, vregs, n, d);
}

/// The reduction takes every method in which nothing dangles, as long as its numbers and counters
/// fit: what promotion decides to rewrite, it can rewrite. Where temporaries alone are promoted, no
/// register may be unboxed into and also boxed into or loaded from the pool.
pub proof fn law_sound_methods_reduce(vm: VmState, m: MethodView, osr_bci: Option<u16>)
    requires
        method_sound(m),
        m.vregs.len() + m.blocks.len() <= u32::MAX + 1,
        ops_upto(m.blocks, m.blocks.len() as int) + m.blocks.len() <= u32::MAX,
        all_reads(m.blocks).len() <= u32::MAX,
        vm.splice_promote || osr_bci is Some || unboxed_apart(m.blocks),
    ensures
        reduced(vm, m, osr_bci) is Some,
{
    let n = m.vregs.len();
    let d = no_marks();
    let z = sizes(m);
    let len = m.blocks.len() as int;
    assert forall|i: int| 0 <= i < m.blocks.len() implies block_fit(#[trigger] m.blocks[i], d, n) by {
        assert(block_shape(m.blocks[i], z));
        assert(block_below(m.blocks[i], n));
    }
    lemma_cancelled_step(m.blocks, d, n);
    let bs1 = cancelled(m.blocks)->0;
    lemma_list_step_fit(m.blocks, bs1, d, n);
    lemma_cancelled(m.blocks, z);
    lemma_lits(bs1, m.pool, z);
    let ma = MethodView { blocks: bs1, ..m };
    lemma_folded(vm, ma, z);
    lemma_folded_step(vm, m.pool, bs1, d, n);
    let m1 = local_reduced(vm, m)->0;
    lemma_list_step_fit(bs1, m1.blocks, d, n);
    lemma_list_step_trans(m.blocks, bs1, m1.blocks, d, n);
    lemma_lits(m1.blocks, m.pool, z);
    assert forall|i: int| 0 <= i < len implies code_reads((#[trigger] m1.blocks[i]).code).len()
        <= code_reads(m.blocks[i].code).len() && m1.blocks[i].code.len()
        <= m.blocks[i].code.len() by {
        assert(block_step(m.blocks[i], m1.blocks[i], d, n));
    }
    lemma_fewer_reads(m.blocks, m1.blocks);
    if vm.splice_promote {
        lemma_trees_total(vm, m1, osr_bci);
    } else if osr_bci is None {
        let u = |v: u32| unboxes_into(m.blocks, v);
        lemma_cancelled_unbox(m.blocks, n, u);
        lemma_folded_unbox(vm, m.pool, bs1, u);
        lemma_temps_total(vm, m1, u);
        lemma_step_carried(m1.blocks, (with_float_temps(vm, m1)->0).blocks, d, n);
    } else {
        lemma_list_same(m1.blocks, d, n);
        lemma_step_carried(m1.blocks, m1.blocks, d, n);
    }
    let m2 = promoted(vm, m1, osr_bci)->0;
    let k = m2.vregs.len();
    assert forall|i: int| 0 <= i < len implies (#[trigger] m2.blocks[i]).code.len()
        <= m.blocks[i].code.len() + 1 by {
        assert(grown(m1.blocks[i], m2.blocks[i], d));
        assert(m1.blocks[i].code.len() <= m.blocks[i].code.len());
    }
    lemma_ops_upto(m.blocks, m2.blocks, len, 1);
    lemma_fit_below(m2.blocks, d, k);
    assert forall|i: int| 0 <= i < len implies #[trigger] sunk_block(m2.blocks, i) is Some
        && block_fit(sunk_block(m2.blocks, i)->0, d, k) by {
        lemma_sunk_block(m2.blocks, i, d, k);
    }
    let bs3 = sunk(m2.blocks, k)->0;
    assert forall|i: int| 0 <= i < bs3.len() implies block_fit(#[trigger] bs3[i], d, k) by {
        assert(sunk_block(m2.blocks, i) is Some);
    }
    lemma_dead_step(bs3, d, k);
}

} // verus!

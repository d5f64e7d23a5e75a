//! Renaming keeps every value: an operand that copy propagation or the cancelling of boxes puts in
//! place of another holds what that one held.
//!
//! The machine here is as abstract as can be. A register holds some value, a copy copies it, and any
//! other operation writes a value that may depend on its position and on what it reads in any way.

use vstd::prelude::*;
use crate::boxes::{cancel, subst, subst_fp, Cancel};
use crate::copyprop::{
    alias_after, aliased, killed, lemma_resolve_op, operands, resolve, resolve_all,
    resolve_inline, resolve_op, resolve_raw, start_walk, walk, walk_site, walk_sites, Alias, Prop,
    Walk,
};
use crate::ir::{BlockView, DeoptView, InlineView, Ir, IrView, VReg};
use crate::passes::{inline_refs, raw_refs, write_below};

verus! {

/// What the registers hold.
pub type Regs = spec_fn(VReg) -> int;

/// What an operation writes, given its position and the values that it reads.
pub type Eval = spec_fn(int, Seq<int>) -> int;

pub open spec fn values(regs: Regs, s: Seq<VReg>) -> Seq<int> {
    s.map_values(|v: VReg| regs(v))
}

pub open spec fn set(regs: Regs, d: VReg, x: int) -> Regs {
    |v: VReg|
        if v == d {
            x
        } else {
            regs(v)
        }
}

/// The registers after the operation at position `i`.
pub open spec fn stepped(eval: Eval, i: int, op: IrView, regs: Regs) -> Regs {
    match op {
        Ir::Move { dst, src } => set(regs, dst, regs(src)),
        _ => match op.write() {
            Some(d) => set(regs, d, eval(i, values(regs, op.reads()))),
            None => regs,
        },
    }
}

/// The registers before the operation at position `i`.
pub open spec fn state(eval: Eval, code: Seq<IrView>, regs: Regs, i: int) -> Regs
    decreases i,
{
    if i <= 0 {
        regs
    } else {
        stepped(eval, i - 1, code[i - 1], state(eval, code, regs, i - 1))
    }
}

/// Every register holds what it is an alias of holds.
spec fn agrees(alias: Alias, regs: Regs) -> bool {
    forall|k: int|
        0 <= k < alias.len() && (#[trigger] alias[k]) is Some ==> regs(VReg(k as u32)) == regs(
            alias[k]->0,
        )
}

proof fn lemma_resolve(alias: Alias, regs: Regs, v: VReg)
    requires
        agrees(alias, regs),
    ensures
        regs(resolve(alias, v)) == regs(v),
{
    if aliased(alias, v) {
        assert(alias[v.0 as int] is Some);
        assert(VReg(v.0 as int as u32) == v);
    }
}

proof fn lemma_resolve_all(alias: Alias, regs: Regs, s: Seq<VReg>)
    requires
        agrees(alias, regs),
    ensures
        values(regs, resolve_all(alias, s)) == values(regs, s),
{
    assert forall|i: int| 0 <= i < s.len() implies regs(resolve(alias, s[i])) == regs(s[i]) by {
        lemma_resolve(alias, regs, s[i]);
    }
    assert(values(regs, resolve_all(alias, s)) =~= values(regs, s));
}

proof fn lemma_op_values(alias: Alias, regs: Regs, op: IrView)
    requires
        agrees(alias, regs),
    ensures
        values(regs, resolve_op(alias, op).reads()) == values(regs, op.reads()),
{
    lemma_resolve_op(alias, op);
    lemma_resolve_all(alias, regs, operands(op));
}

pub(crate) proof fn lemma_values_concat(regs: Regs, a: Seq<VReg>, b: Seq<VReg>)
    ensures
        values(regs, a + b) == values(regs, a) + values(regs, b),
{
    assert(values(regs, a + b) =~= values(regs, a) + values(regs, b));
}

proof fn lemma_inline_values(alias: Alias, regs: Regs, i: InlineView)
    requires
        agrees(alias, regs),
    ensures
        values(regs, inline_refs(resolve_inline(alias, i))) == values(regs, inline_refs(i)),
    decreases i,
{
    let j = resolve_inline(alias, i);
    lemma_resolve(alias, regs, i.receiver);
    lemma_resolve_all(alias, regs, i.slots);
    lemma_resolve_all(alias, regs, i.caller_pending_stack);
    let pi = match i.parent {
        Some(p) => inline_refs(*p),
        None => seq![],
    };
    let pj = match j.parent {
        Some(p) => inline_refs(*p),
        None => seq![],
    };
    match i.parent {
        Some(p) => lemma_inline_values(alias, regs, *p),
        None => {},
    }
    assert(values(regs, seq![j.receiver]) =~= values(regs, seq![i.receiver]));
    lemma_values_concat(regs, seq![i.receiver] + i.slots + i.caller_pending_stack, pi);
    lemma_values_concat(regs, seq![i.receiver] + i.slots, i.caller_pending_stack);
    lemma_values_concat(regs, seq![i.receiver], i.slots);
    lemma_values_concat(regs, seq![j.receiver] + j.slots + j.caller_pending_stack, pj);
    lemma_values_concat(regs, seq![j.receiver] + j.slots, j.caller_pending_stack);
    lemma_values_concat(regs, seq![j.receiver], j.slots);
}

proof fn lemma_raw_values(alias: Alias, regs: Regs, r: DeoptView)
    requires
        agrees(alias, regs),
    ensures
        values(regs, raw_refs(resolve_raw(alias, r))) == values(regs, raw_refs(r)),
{
    let q = resolve_raw(alias, r);
    lemma_resolve_all(alias, regs, r.stack);
    let pi = match r.inline {
        Some(i) => inline_refs(i),
        None => seq![],
    };
    let pj = match q.inline {
        Some(i) => inline_refs(i),
        None => seq![],
    };
    match r.inline {
        Some(i) => lemma_inline_values(alias, regs, i),
        None => {},
    }
    lemma_values_concat(regs, r.stack, pi);
    lemma_values_concat(regs, q.stack, pj);
}

/// An operation leaves behind copy relations that hold.
proof fn lemma_alias_after(
    alias: Alias,
    single: Seq<bool>,
    eval: Eval,
    i: int,
    op: IrView,
    regs: Regs,
)
    requires
        agrees(alias, regs),
        alias.len() <= 0x1_0000_0000,
        write_below(op, alias.len()),
    ensures
        agrees(alias_after(alias, single, op), stepped(eval, i, op, regs)),
        alias_after(alias, single, op).len() == alias.len(),
{
    let after = alias_after(alias, single, op);
    let next = stepped(eval, i, op, regs);
    match op.write() {
        Some(d) => {
            let a = killed(alias, d);
            assert forall|k: int| 0 <= k < a.len() && (#[trigger] a[k]) is Some implies next(
                VReg(k as u32),
            ) == next(a[k]->0) by {
                assert(alias[k] is Some);
                assert(a[k] == alias[k]);
            }
            match op {
                Ir::Move { dst, src } => {
                    assert(agrees(a, regs)) by {
                        assert forall|k: int|
                            0 <= k < a.len() && (#[trigger] a[k]) is Some implies regs(
                            VReg(k as u32),
                        ) == regs(a[k]->0) by {
                            assert(alias[k] is Some);
                        }
                    }
                    lemma_resolve(a, regs, src);
                    assert forall|k: int|
                        0 <= k < after.len() && (#[trigger] after[k]) is Some implies next(
                        VReg(k as u32),
                    ) == next(after[k]->0) by {
                        if k != dst.0 || after == a {
                            assert(a[k] is Some);
                        }
                    }
                },
                _ => {},
            }
        },
        None => {},
    }
}

/// A walk that has reached position `n`: the copy relations hold there, and what was renamed before
/// holds the old values.
spec fn walk_keeps(b: BlockView, eval: Eval, regs: Regs, n: int, w: Walk) -> bool {
    &&& agrees(w.alias, state(eval, b.code, regs, n))
    &&& w.alias.len() <= 0x1_0000_0000
    &&& w.block.code.len() == b.code.len()
    &&& forall|i: int| n <= i < b.code.len() ==> #[trigger] w.block.code[i] == b.code[i]
    &&& forall|i: int|
        0 <= i < n ==> values(
            state(eval, b.code, regs, i),
            (#[trigger] w.block.code[i]).reads(),
        ) == values(state(eval, b.code, regs, i), b.code[i].reads())
    &&& forall|i: int| 0 <= i < n ==> same_kind(b.code[i], #[trigger] w.block.code[i])
    &&& w.block.deopt_sites.len() == b.deopt_sites.len()
    &&& forall|k: int|
        0 <= k < b.deopt_sites.len() ==> site_keeps(
            b,
            eval,
            regs,
            b.deopt_sites[k],
            #[trigger] w.block.deopt_sites[k],
        )
}

/// The operations write the same register and are copies or not alike.
pub open spec fn same_kind(a: IrView, b: IrView) -> bool {
    &&& a.write() == b.write()
    &&& a is Move == b is Move
}

/// The site stands where it stood and names registers that hold the same values there.
pub open spec fn site_keeps(
    b: BlockView,
    eval: Eval,
    regs: Regs,
    old_site: (u32, DeoptView),
    new_site: (u32, DeoptView),
) -> bool {
    let there = state(eval, b.code, regs, old_site.0 as int);
    &&& new_site.0 == old_site.0
    &&& values(there, raw_refs(new_site.1)) == values(there, raw_refs(old_site.1))
}

proof fn lemma_walk_sites(b: BlockView, eval: Eval, regs: Regs, n: int, w: Walk)
    requires
        walk_keeps(b, eval, regs, n, w),
    ensures
        walk_keeps(b, eval, regs, n, walk_sites(n, w)),
        walk_sites(n, w).alias == w.alias,
    decreases w.block.deopt_sites.len() - w.p,
{
    if 0 <= w.p < w.block.deopt_sites.len() && w.block.deopt_sites[w.p].0 == n {
        let v = walk_site(w);
        let there = state(eval, b.code, regs, n);
        assert forall|k: int| 0 <= k < b.deopt_sites.len() implies site_keeps(
            b,
            eval,
            regs,
            b.deopt_sites[k],
            #[trigger] v.block.deopt_sites[k],
        ) by {
            assert(site_keeps(b, eval, regs, b.deopt_sites[k], w.block.deopt_sites[k]));
            if k == w.p {
                lemma_raw_values(w.alias, there, w.block.deopt_sites[k].1);
            }
        }
        lemma_walk_sites(b, eval, regs, n, v);
    }
}

proof fn lemma_walk(b: BlockView, single: Seq<bool>, eval: Eval, regs: Regs, n: int, w: Walk)
    requires
        0 <= n <= b.code.len(),
        w.block == b,
        w.alias.len() <= 0x1_0000_0000,
        forall|k: int| 0 <= k < w.alias.len() ==> (#[trigger] w.alias[k]) is None,
        forall|i: int| 0 <= i < b.code.len() ==> write_below(#[trigger] b.code[i], w.alias.len()),
    ensures
        walk_keeps(b, eval, regs, n, walk(single, n, w)),
        walk(single, n, w).alias.len() == w.alias.len(),
    decreases n,
{
    if n == 0 {
        assert(walk_keeps(b, eval, regs, 0, w));
    } else {
        lemma_walk(b, single, eval, regs, n - 1, w);
        let p = walk(single, n - 1, w);
        let i = n - 1;
        lemma_walk_sites(b, eval, regs, i, p);
        let w1 = walk_sites(i, p);
        let op = b.code[i];
        assert(w1.block.code[i] == op);
        assert(write_below(b.code[i], w.alias.len()));
        let op1 = resolve_op(w1.alias, op);
        let there = state(eval, b.code, regs, i);
        lemma_op_values(w1.alias, there, op);
        lemma_resolve_op(w1.alias, op);
        lemma_alias_after(w1.alias, single, eval, i, op1, there);
        lemma_same_step(eval, i, op, op1, there);
        let r = walk(single, n, w);
        assert(r.alias == alias_after(w1.alias, single, op1));
        assert forall|j: int| 0 <= j < n implies values(
            state(eval, b.code, regs, j),
            (#[trigger] r.block.code[j]).reads(),
        ) == values(state(eval, b.code, regs, j), b.code[j].reads()) by {
            if j < i {
                assert(r.block.code[j] == w1.block.code[j]);
            }
        }
        assert forall|j: int| 0 <= j < n implies same_kind(b.code[j], #[trigger] r.block.code[j]) by {
            if j < i {
                assert(r.block.code[j] == w1.block.code[j]);
            }
        }
    }
}

/// Operations of one kind that read the same values do the same.
proof fn lemma_same_step(eval: Eval, i: int, a: IrView, b: IrView, regs: Regs)
    requires
        same_kind(a, b),
        values(regs, a.reads()) == values(regs, b.reads()),
    ensures
        stepped(eval, i, a, regs) == stepped(eval, i, b, regs),
{
    match (a, b) {
        (Ir::Move { dst, src }, Ir::Move { dst: d2, src: s2 }) => {
            assert(values(regs, a.reads())[0] == regs(src));
            assert(values(regs, b.reads())[0] == regs(s2));
        },
        _ => {},
    }
}

proof fn lemma_same_states(a: Seq<IrView>, b: Seq<IrView>, eval: Eval, regs: Regs, n: int)
    requires
        0 <= n <= a.len(),
        a.len() == b.len(),
        forall|i: int|
            0 <= i < n ==> values(state(eval, a, regs, i), (#[trigger] b[i]).reads()) == values(
                state(eval, a, regs, i),
                a[i].reads(),
            ),
        forall|i: int| 0 <= i < n ==> same_kind(a[i], #[trigger] b[i]),
    ensures
        state(eval, a, regs, n) == state(eval, b, regs, n),
    decreases n,
{
    if n > 0 {
        lemma_same_states(a, b, eval, regs, n - 1);
        assert(same_kind(a[n - 1], b[n - 1]));
        lemma_same_step(eval, n - 1, a[n - 1], b[n - 1], state(eval, a, regs, n - 1));
    }
}

/// Renaming the operands of a block keeps every value: whatever the registers hold on entry and
/// whatever the operations compute, the registers hold the same before every operation, every
/// operation reads the same values, and every deoptimization site names registers with the same
/// values.
pub proof fn law_copies_keep_values(
    b: BlockView,
    single: Seq<bool>,
    n: nat,
    x: Prop,
    eval: Eval,
    regs: Regs,
)
    requires
        n <= 0x1_0000_0000,
        forall|i: int| 0 <= i < b.code.len() ==> write_below(#[trigger] b.code[i], n),
    ensures
        ({
            let c = walk(single, b.code.len() as int, start_walk(n, b, x)).block;
            &&& c.code.len() == b.code.len()
            &&& forall|i: int|
                0 <= i <= b.code.len() ==> #[trigger] state(eval, c.code, regs, i) == state(
                    eval,
                    b.code,
                    regs,
                    i,
                )
            &&& forall|i: int|
                0 <= i < b.code.len() ==> values(
                    state(eval, b.code, regs, i),
                    (#[trigger] c.code[i]).reads(),
                ) == values(state(eval, b.code, regs, i), b.code[i].reads())
            &&& c.deopt_sites.len() == b.deopt_sites.len()
            &&& forall|k: int|
                0 <= k < b.deopt_sites.len() ==> site_keeps(
                    b,
                    eval,
                    regs,
                    b.deopt_sites[k],
                    #[trigger] c.deopt_sites[k],
                )
        }),
{
    let w = start_walk(n, b, x);
    lemma_walk(b, single, eval, regs, b.code.len() as int, w);
    let c = walk(single, b.code.len() as int, w).block;
    assert forall|i: int| 0 <= i <= b.code.len() implies #[trigger] state(eval, c.code, regs, i)
        == state(eval, b.code, regs, i) by {
        lemma_same_states(b.code, c.code, eval, regs, i);
    }
}

/// The registers before the operation at position `i`, of a run that leaves out the operations that
/// are not kept.
pub open spec fn kept_state(
    eval: Eval,
    code: Seq<IrView>,
    keep: Seq<bool>,
    regs: Regs,
    i: int,
) -> Regs
    decreases i,
{
    if i <= 0 {
        regs
    } else if keep[i - 1] {
        stepped(eval, i - 1, code[i - 1], kept_state(eval, code, keep, regs, i - 1))
    } else {
        kept_state(eval, code, keep, regs, i - 1)
    }
}

/// Leaving out copies into registers that nothing kept reads changes no value: every other register
/// holds the same before every operation, and what is kept reads the values it read before.
pub proof fn law_unread_copies_do_not_matter(
    code: Seq<IrView>,
    keep: Seq<bool>,
    dead: spec_fn(VReg) -> bool,
    eval: Eval,
    regs: Regs,
    n: int,
)
    requires
        0 <= n <= code.len(),
        keep.len() == code.len(),
        forall|i: int|
            0 <= i < code.len() && !#[trigger] keep[i] ==> (code[i] matches Ir::Move { dst, .. }
                && dead(dst)),
        forall|i: int, k: int|
            0 <= i < code.len() && keep[i] && 0 <= k < code[i].reads().len() ==> !dead(
                #[trigger] code[i].reads()[k],
            ),
    ensures
        forall|v: VReg|
            !#[trigger] dead(v) ==> kept_state(eval, code, keep, regs, n)(v) == state(
                eval,
                code,
                regs,
                n,
            )(v),
        n < code.len() && keep[n] ==> values(
            kept_state(eval, code, keep, regs, n),
            code[n].reads(),
        ) == values(state(eval, code, regs, n), code[n].reads()),
    decreases n,
{
    if n > 0 {
        let i = n - 1;
        law_unread_copies_do_not_matter(code, keep, dead, eval, regs, i);
        let a = kept_state(eval, code, keep, regs, i);
        let b = state(eval, code, regs, i);
        let op = code[i];
        if keep[i] {
            match op {
                Ir::Move { dst, src } => {
                    assert(op.reads()[0] == src);
                    assert(!dead(code[i].reads()[0]));
                },
                _ => {},
            }
        }
    }
    if n < code.len() && keep[n] {
        let a = kept_state(eval, code, keep, regs, n);
        let b = state(eval, code, regs, n);
        let r = code[n].reads();
        assert forall|k: int| 0 <= k < r.len() implies a(r[k]) == b(r[k]) by {
            assert(!dead(code[n].reads()[k]));
        }
        assert(values(a, r) =~= values(b, r));
    }
}

/// How a double is boxed, and how a box is opened: opening a box gives back what was boxed.
pub open spec fn boxing(wrap: spec_fn(int) -> int, peel: spec_fn(int) -> int) -> bool {
    forall|x: int| #[trigger] peel(wrap(x)) == x
}

/// The registers after the operation at position `i`, boxes being boxes.
pub open spec fn float_stepped(
    eval: Eval,
    wrap: spec_fn(int) -> int,
    peel: spec_fn(int) -> int,
    i: int,
    op: IrView,
    regs: Regs,
) -> Regs {
    match op {
        Ir::FBox { dst, src } => set(regs, dst, wrap(regs(src))),
        Ir::FUnbox { dst, src, .. } => set(regs, dst, peel(regs(src))),
        _ => stepped(eval, i, op, regs),
    }
}

/// The registers before the operation at position `i`, boxes being boxes.
pub open spec fn float_state(
    eval: Eval,
    wrap: spec_fn(int) -> int,
    peel: spec_fn(int) -> int,
    code: Seq<IrView>,
    regs: Regs,
    i: int,
) -> Regs
    decreases i,
{
    if i <= 0 {
        regs
    } else {
        float_stepped(
            eval,
            wrap,
            peel,
            i - 1,
            code[i - 1],
            float_state(eval, wrap, peel, code, regs, i - 1),
        )
    }
}

/// The operation boxes or unboxes, and `v` is its result or what it boxes.
pub open spec fn involves(op: IrView, v: VReg) -> bool {
    match op {
        Ir::FBox { dst, src } => v == dst || v == src,
        Ir::FUnbox { dst, .. } => v == dst,
        _ => false,
    }
}

/// What a boxing or unboxing involves is not written again.
pub open spec fn boxes_settled(code: Seq<IrView>) -> bool {
    forall|i: int, j: int|
        0 <= i < j < code.len() && (#[trigger] code[j]).write() is Some ==> !involves(
            #[trigger] code[i],
            code[j].write()->0,
        )
}

/// No box is made in place of what it holds.
pub open spec fn boxes_apart(code: Seq<IrView>) -> bool {
    forall|i: int|
        0 <= i < code.len() ==> ((#[trigger] code[i]) matches Ir::FBox { dst, src } ==> dst != src)
}

/// A register of an earlier boxing or unboxing.
spec fn seen(code: Seq<IrView>, n: int, v: VReg) -> bool {
    exists|i: int| 0 <= i < n && involves(#[trigger] code[i], v)
}

/// What cancelling has learned by position `n` holds there, and is about registers that are settled.
spec fn cancel_keeps(
    code: Seq<IrView>,
    wrap: spec_fn(int) -> int,
    there: Regs,
    n: int,
    c: Cancel,
) -> bool {
    &&& forall|k: u32| #[trigger]
        c.boxed.dom().contains(k) ==> there(VReg(k)) == wrap(there(c.boxed[k])) && seen(
            code,
            n,
            VReg(k),
        ) && seen(code, n, c.boxed[k])
    &&& forall|k: u32| #[trigger]
        c.unboxed.dom().contains(k) ==> there(VReg(k)) == there(c.unboxed[k]) && seen(
            code,
            n,
            VReg(k),
        ) && seen(code, n, c.unboxed[k])
}

proof fn lemma_subst(map: Map<u32, VReg>, regs: Regs, op: IrView)
    requires
        forall|k: u32| #[trigger] map.dom().contains(k) ==> regs(VReg(k)) == regs(map[k]),
    ensures
        values(regs, subst_fp(map, op).reads()) == values(regs, op.reads()),
        subst_fp(map, op).write() == op.write(),
{
    assert forall|v: VReg| #[trigger] regs(subst(map, v)) == regs(v) by {
        assert(VReg(v.0) == v);
    }
    assert(values(regs, subst_fp(map, op).reads()) =~= values(regs, op.reads()));
}

proof fn lemma_seen_more(code: Seq<IrView>, n: int, v: VReg)
    requires
        seen(code, n, v),
        0 <= n,
    ensures
        seen(code, n + 1, v),
{
    let i = choose|i: int| 0 <= i < n && involves(#[trigger] code[i], v);
    assert(0 <= i < n + 1 && involves(code[i], v));
}

proof fn lemma_cancel_values(
    code: Seq<IrView>,
    eval: Eval,
    wrap: spec_fn(int) -> int,
    peel: spec_fn(int) -> int,
    regs: Regs,
    n: int,
)
    requires
        0 <= n <= code.len(),
        boxing(wrap, peel),
        boxes_settled(code),
        boxes_apart(code),
    ensures
        ({
            let c = cancel(code, n);
            &&& c.code.len() == code.len()
            &&& forall|i: int| n <= i < code.len() ==> #[trigger] c.code[i] == code[i]
            &&& cancel_keeps(code, wrap, float_state(eval, wrap, peel, code, regs, n), n, c)
            &&& forall|i: int|
                0 <= i < n ==> values(
                    float_state(eval, wrap, peel, code, regs, i),
                    (#[trigger] c.code[i]).reads(),
                ) == values(float_state(eval, wrap, peel, code, regs, i), code[i].reads())
        }),
    decreases n,
{
    if n > 0 {
        let i = n - 1;
        lemma_cancel_values(code, eval, wrap, peel, regs, i);
        let p = cancel(code, i);
        let c = cancel(code, n);
        let there = float_state(eval, wrap, peel, code, regs, i);
        let next = float_state(eval, wrap, peel, code, regs, n);
        let op = code[i];
        let op1 = subst_fp(p.unboxed, op);
        assert(p.code[i] == op);
        lemma_subst(p.unboxed, there, op);
        assert(c.code[i] == op1);
        // What was known involves registers that this operation does not write.
        assert forall|v: VReg| seen(code, i, v) implies #[trigger] next(v) == there(v) by {
            let h = choose|h: int| 0 <= h < i && involves(#[trigger] code[h], v);
            assert(code[i].write() != Some(v));
        }
        assert forall|k: u32| #[trigger] c.boxed.dom().contains(k) implies next(VReg(k)) == wrap(
            next(c.boxed[k]),
        ) && seen(code, n, VReg(k)) && seen(code, n, c.boxed[k]) by {
            if p.boxed.dom().contains(k) && c.boxed[k] == p.boxed[k] && !(op is FBox
                && op->FBox_dst.0 == k) {
                lemma_seen_more(code, i, VReg(k));
                lemma_seen_more(code, i, p.boxed[k]);
            } else {
                let dst = op->FBox_dst;
                let src = op->FBox_src;
                let f = subst(p.unboxed, src);
                assert(VReg(k) == dst);
                assert(c.boxed[k] == f);
                assert(involves(code[i], dst));
                assert(seen(code, n, dst));
                assert(there(f) == there(src)) by {
                    assert(VReg(src.0) == src);
                }
                if f != src {
                    lemma_seen_more(code, i, f);
                } else {
                    assert(involves(code[i], src));
                    assert(seen(code, n, src));
                }
                assert(next(dst) == wrap(there(src)));
                assert(f != dst);
                assert(next(f) == there(f));
            }
        }
        assert forall|k: u32| #[trigger] c.unboxed.dom().contains(k) implies next(VReg(k)) == next(
            c.unboxed[k],
        ) && seen(code, n, VReg(k)) && seen(code, n, c.unboxed[k]) by {
            if p.unboxed.dom().contains(k) && c.unboxed[k] == p.unboxed[k] && !(op is FUnbox
                && op->FUnbox_dst.0 == k) {
                lemma_seen_more(code, i, VReg(k));
                lemma_seen_more(code, i, p.unboxed[k]);
            } else {
                let dst = op->FUnbox_dst;
                let src = op->FUnbox_src;
                assert(VReg(k) == dst);
                assert(p.boxed.dom().contains(src.0));
                let f = p.boxed[src.0];
                assert(VReg(src.0) == src);
                assert(there(src) == wrap(there(f)));
                assert(next(dst) == peel(there(src)));
                assert(involves(code[i], dst));
                assert(seen(code, n, dst));
                lemma_seen_more(code, i, f);
                assert(seen(code, i, f));
                assert(next(f) == there(f));
                assert(peel(wrap(there(f))) == there(f));
            }
        }
        assert forall|j: int| 0 <= j < n implies values(
            float_state(eval, wrap, peel, code, regs, j),
            (#[trigger] c.code[j]).reads(),
        ) == values(float_state(eval, wrap, peel, code, regs, j), code[j].reads()) by {
            if j < i {
                assert(c.code[j] == p.code[j]);
            }
        }
    }
}

/// Where a block boxes a double and unboxes it again, reading the double itself is the same: whatever
/// the registers hold on entry and whatever the other operations compute, every operation reads the
/// values it read before.
pub proof fn law_cancelled_boxes_keep_values(
    code: Seq<IrView>,
    eval: Eval,
    wrap: spec_fn(int) -> int,
    peel: spec_fn(int) -> int,
    regs: Regs,
)
    requires
        boxing(wrap, peel),
        boxes_settled(code),
        boxes_apart(code),
    ensures
        ({
            let c = cancel(code, code.len() as int);
            &&& c.code.len() == code.len()
            &&& forall|i: int|
                0 <= i < code.len() ==> values(
                    float_state(eval, wrap, peel, code, regs, i),
                    (#[trigger] c.code[i]).reads(),
                ) == values(float_state(eval, wrap, peel, code, regs, i), code[i].reads())
        }),
{
    lemma_cancel_values(code, eval, wrap, peel, regs, code.len() as int);
}

} // verus!

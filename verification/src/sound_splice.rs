//! Splicing keeps the output sound.

use vstd::prelude::*;
use crate::classify::{array_kind, double_kind, not_speculatable, ref_eq, smi_kind};
use crate::ir::{InlineView, PoolLit, VReg};
use crate::ops::{alloc_out, alloc_site};
use crate::kinds::reg_ok;
use crate::sound::{
    group_steps, inline_ok, lemma_alloc_op, lemma_alloc_out, lemma_array_op, lemma_body_send,
    lemma_ctx_push, lemma_ctx_store, lemma_double_op, lemma_not_op, lemma_out_same, lemma_ref_op,
    lemma_simple, lemma_smi_op, lit_ok, ok, out_ok, regs_ok, steps,
};
use crate::splice::{
    alloc_or_send, block_body, block_send, block_walk, body_slots, enter_body, guard_op,
    inline_leaf, inline_nonleaf, leaf_walk, method_proto, next_regs, nil_temps, nlr_op,
    nonleaf_send, nonleaf_walk, with_operands, SiteView,
};
use crate::translator::{pool_oop, CtxView, OutView, St};
use crate::world::{Instr, InterpreterIc, KlassOop, Method, VmState};

verus! {

broadcast use crate::kinds::group_kinds;

/// The fixed registers of a translation exist.
pub open spec fn cx_ok(cx: CtxView, o: OutView) -> bool {
    &&& reg_ok(cx.self_vreg, o)
    &&& regs_ok(cx.temp_vregs, o)
    &&& regs_ok(cx.ctx_vregs, o)
    &&& cx.block_closure_vreg matches Some(v) ==> reg_ok(v, o)
    &&& cx.block_ctx_vreg matches Some(v) ==> reg_ok(v, o)
    &&& cx.method_ctx_vreg matches Some(v) ==> reg_ok(v, o)
}

pub open spec fn site_ok(x: SiteView, o: OutView) -> bool {
    reg_ok(x.receiver, o) && regs_ok(x.args, o)
}

proof fn lemma_guard_op(x: SiteView, closures: Seq<(u16, u32)>, s: St)
    requires
        ok(s),
        site_ok(x, s.out),
    ensures
        steps(s, guard_op(x, closures, s)),
{
    broadcast use group_steps;

    if x.guard is Some && s.out.can_block() {
        let e = pool_oop((x.guard->0).0.0);
        assert(regs_ok(with_operands(s.seg.stack, x), s.out));
        assert(out_ok(
            s.out.intern(e).trap(x.bci, with_operands(s.seg.stack, x), closures, None),
        ));
    }
}

pub(crate) proof fn lemma_nil_temps(lit: PoolLit, n: nat, s: St)
    requires
        ok(s),
        lit_ok(lit, s.out),
    ensures
        steps(s, Some(nil_temps(lit, n, s))),
        nil_temps(lit, n, s).out.vregs.len() == s.out.vregs.len() + n,
        nil_temps(lit, n, s).out.pool == s.out.pool,
        nil_temps(lit, n, s).out.blocks == s.out.blocks,
        regs_ok(next_regs(s.out, n), nil_temps(lit, n, s).out),
    decreases n,
{
    broadcast use group_steps;

    if n > 0 {
        lemma_nil_temps(lit, (n - 1) as nat, s);
        let p = nil_temps(lit, (n - 1) as nat, s);
        let t = nil_temps(lit, n, s);
        let a = next_regs(s.out, (n - 1) as nat);
        let b = next_regs(s.out, n);
        assert forall|i: int| 0 <= i < b.len() implies reg_ok(#[trigger] b[i], t.out) by {
            if i < n - 1 {
                assert(a[i] == b[i]);
                assert(reg_ok(a[i], p.out));
            } else {
                assert(b[i] == p.reg());
            }
        }
    }
}

pub(crate) proof fn lemma_enter_body(vm: VmState, x: SiteView, closures: Seq<(u16, u32)>, s: St)
    requires
        ok(s),
        site_ok(x, s.out),
    ensures
        steps(s, enter_body(vm, x, closures, s)),
        enter_body(vm, x, closures, s) matches Some(t) ==> regs_ok(body_slots(vm, x, s), t.out),
{
    broadcast use group_steps;

    lemma_guard_op(x, closures, s);
    if guard_op(x, closures, s) is Some {
        let s1 = guard_op(x, closures, s)->0;
        let nil = pool_oop(vm.universe.nil_obj);
        let n = vm.m(x.callee).ntemps as nat;
        assert(s1.out.vregs == s.out.vregs);
        lemma_nil_temps(s1.lit(nil), n, s1.intern(nil));
        let t = nil_temps(s1.lit(nil), n, s1.intern(nil));
        assert(next_regs(s1.intern(nil).out, n) =~= next_regs(s.out, n));
        assert(ok(t.with_stack(seq![])));
    }
}

proof fn lemma_leaf_walk(vm: VmState, m: Method, this: VReg, slots: Seq<VReg>, bci: int, s: St)
    requires
        ok(s),
        reg_ok(this, s.out),
        regs_ok(slots, s.out),
    ensures
        leaf_walk(vm, m, this, slots, bci, s) matches Some((t, v)) ==> steps(s, Some(t)) && reg_ok(
            v,
            t.out,
        ),
    decreases m.code@.len() - bci,
{
    broadcast use group_steps;

    if bci < 0 || bci >= m.code@.len() || !(bci < m.next_at(bci) <= m.code@.len()) {
    } else {
        let i = m.instr_at(bci);
        if !(i is ReturnTos) && !(i is ReturnSelf) {
            lemma_simple(vm, m, i, this, slots, false, s);
            if simple_ok(vm, m, i, this, slots, false, s) {
                let s1 = crate::ops::simple(vm, m, i, this, slots, false, s)->0;
                lemma_leaf_walk(vm, m, this, slots, m.next_at(bci), s1);
            }
        }
    }
}

spec fn simple_ok(
    vm: VmState,
    m: Method,
    i: Instr,
    this: VReg,
    slots: Seq<VReg>,
    track: bool,
    s: St,
) -> bool {
    crate::ops::simple(vm, m, i, this, slots, track, s) is Some
}

pub(crate) proof fn lemma_inline_leaf(cx: CtxView, x: SiteView, s: St)
    requires
        ok(s),
        site_ok(x, s.out),
    ensures
        inline_leaf(cx, x, s) matches Some((t, v)) ==> steps(s, Some(t)) && (v matches Some(v)
            ==> reg_ok(v, t.out)),
{
    broadcast use group_steps;

    let m = cx.vm.m(x.callee);
    lemma_enter_body(cx.vm, x, seq![], s);
    if enter_body(cx.vm, x, seq![], s) is Some {
        let s1 = enter_body(cx.vm, x, seq![], s)->0;
        lemma_leaf_walk(cx.vm, m, x.receiver, body_slots(cx.vm, x, s), 0, s1);
    }
}

pub(crate) proof fn lemma_alloc_or_send(
    cx: CtxView,
    ic: InterpreterIc,
    this: VReg,
    klass: Option<KlassOop>,
    bci: usize,
    proto: InlineView,
    s: St,
)
    requires
        ok(s),
        inline_ok(Some(proto), s.out),
    ensures
        alloc_or_send(cx, ic, this, klass, bci, proto, s) matches Some(r) ==> steps(s, Some(r.0)),
{
    lemma_body_send(cx, ic, this, klass, bci, seq![], proto, s);
    if ic.argc == 0 && s.depth() > 0 {
        lemma_alloc_out(cx.vm, s, ic, s.top(0), this, klass);
        let s1 = s.with_out(alloc_out(cx.vm, s.out, ic, s.top(0), this, klass));
        lemma_body_send(cx, ic, this, klass, bci, seq![], proto, s1);
        match alloc_site(cx.vm, s.out, ic, s.top(0), this, klass) {
            Some((k, n)) => lemma_alloc_op(k, n, bci, Some(proto), s1),
            None => {},
        }
    }
}

pub(crate) proof fn lemma_nonleaf_send(
    cx: CtxView,
    m: Method,
    ic: InterpreterIc,
    this: VReg,
    klass: Option<KlassOop>,
    bci: usize,
    proto: InlineView,
    s: St,
)
    requires
        ok(s),
        inline_ok(Some(proto), s.out),
    ensures
        nonleaf_send(cx, m, ic, this, klass, bci, proto, s) matches Some(r) ==> steps(
            s,
            Some(r.0),
        ),
{
    let vm = cx.vm;
    if ref_eq(vm, ic) is Some {
        lemma_ref_op(ref_eq(vm, ic)->0, s);
    } else if not_speculatable(vm, ic) {
        lemma_not_op(vm, ic.selector, bci, Some(proto), s);
    } else if array_kind(vm, ic) is Some {
        lemma_array_op(vm, array_kind(vm, ic)->0, bci, Some(proto), s);
    } else if smi_kind(vm, ic) is Some && !crate::ops::arg_is_pooled(s) {
        lemma_smi_op(smi_kind(vm, ic)->0, bci, Some(proto), s);
    } else if double_kind(vm, ic) is Some {
        lemma_double_op(double_kind(vm, ic)->0, bci, Some(proto), s);
    } else {
        lemma_alloc_or_send(cx, ic, this, klass, bci, proto, s);
    }
}

proof fn lemma_nonleaf_walk(
    cx: CtxView,
    m: Method,
    this: VReg,
    klass: Option<KlassOop>,
    slots: Seq<VReg>,
    proto: InlineView,
    bci: int,
    s: St,
)
    requires
        ok(s),
        reg_ok(this, s.out),
        regs_ok(slots, s.out),
        inline_ok(Some(proto), s.out),
    ensures
        nonleaf_walk(cx, m, this, klass, slots, proto, bci, s) matches Some((t, v)) ==> steps(
            s,
            Some(t),
        ) && (v matches Some(v) ==> reg_ok(v, t.out)),
    decreases m.code@.len() - bci,
{
    broadcast use group_steps;

    if bci < 0 || bci >= m.code@.len() || !(bci < m.next_at(bci) <= m.code@.len()) {
    } else {
        match m.instr_at(bci) {
            Instr::ReturnTos => {},
            Instr::ReturnSelf => {},
            Instr::Send { ic, .. } => {
                let site = m.ics@[ic as int];
                lemma_nonleaf_send(cx, m, site, this, klass, bci as usize, proto, s);
                match nonleaf_send(cx, m, site, this, klass, bci as usize, proto, s) {
                    Some((s1, trapped)) => if !trapped {
                        lemma_nonleaf_walk(cx, m, this, klass, slots, proto, m.next_at(bci), s1);
                    },
                    None => {},
                }
            },
            i => {
                lemma_simple(cx.vm, m, i, this, slots, true, s);
                if simple_ok(cx.vm, m, i, this, slots, true, s) {
                    let s1 = crate::ops::simple(cx.vm, m, i, this, slots, true, s)->0;
                    lemma_nonleaf_walk(cx, m, this, klass, slots, proto, m.next_at(bci), s1);
                }
            },
        }
    }
}

pub(crate) proof fn lemma_inline_nonleaf(cx: CtxView, x: SiteView, s: St)
    requires
        ok(s),
        site_ok(x, s.out),
    ensures
        inline_nonleaf(cx, x, s) matches Some((t, v)) ==> steps(s, Some(t)) && (v matches Some(
            crate::splice::NonLeafOutcome::Value(v),
        ) ==> reg_ok(v, t.out)),
{
    broadcast use group_steps;

    let m = cx.vm.m(x.callee);
    let s0 = s.intern(pool_oop(m.oop));
    lemma_enter_body(cx.vm, x, seq![], s0);
    if enter_body(cx.vm, x, seq![], s0) is Some {
        let s1 = enter_body(cx.vm, x, seq![], s0)->0;
        let proto = method_proto(cx.vm, x, s);
        assert(body_slots(cx.vm, x, s) =~= body_slots(cx.vm, x, s0));
        assert(inline_ok(Some(proto), s1.out));
        lemma_nonleaf_walk(
            cx,
            m,
            x.receiver,
            crate::splice::body_klass(cx, x),
            body_slots(cx.vm, x, s),
            proto,
            0,
            s1,
        );
    }
}

pub(crate) proof fn lemma_block_send(
    cx: CtxView,
    ic: InterpreterIc,
    this: VReg,
    klass: Option<KlassOop>,
    bci: usize,
    proto: InlineView,
    s: St,
)
    requires
        ok(s),
        inline_ok(Some(proto), s.out),
    ensures
        block_send(cx, ic, this, klass, bci, proto, s) matches Some(r) ==> steps(s, Some(r.0)),
{
    let vm = cx.vm;
    if array_kind(vm, ic) is Some {
        lemma_array_op(vm, array_kind(vm, ic)->0, bci, Some(proto), s);
    } else if smi_kind(vm, ic) is Some && !crate::ops::arg_is_pooled(s) {
        lemma_smi_op(smi_kind(vm, ic)->0, bci, Some(proto), s);
    } else if double_kind(vm, ic) is Some {
        lemma_double_op(double_kind(vm, ic)->0, bci, Some(proto), s);
    } else {
        lemma_body_send(cx, ic, this, klass, bci, seq![], proto, s);
    }
}

pub(crate) proof fn lemma_nlr_op(s: St)
    requires
        ok(s),
    ensures
        steps(s, nlr_op(s)),
{
    broadcast use group_steps;

    if s.depth() > 0 && s.out.spliced_nlr != u32::MAX {
        lemma_out_same(s.out, OutView { spliced_nlr: (s.out.spliced_nlr + 1) as u32, ..s.out });
    }
}

proof fn lemma_block_walk(
    cx: CtxView,
    m: Method,
    this: VReg,
    klass: Option<KlassOop>,
    slots: Seq<VReg>,
    proto: InlineView,
    bci: int,
    s: St,
)
    requires
        ok(s),
        cx_ok(cx, s.out),
        reg_ok(this, s.out),
        regs_ok(slots, s.out),
        inline_ok(Some(proto), s.out),
    ensures
        block_walk(cx, m, this, klass, slots, proto, bci, s) matches Some((t, v)) ==> steps(
            s,
            Some(t),
        ) && (v matches Some(v) ==> reg_ok(v, t.out)),
    decreases m.code@.len() - bci,
{
    broadcast use group_steps;

    if bci < 0 || bci >= m.code@.len() || !(bci < m.next_at(bci) <= m.code@.len()) {
    } else {
        let next = m.next_at(bci);
        match m.instr_at(bci) {
            Instr::ReturnTos => {},
            Instr::BlockReturnTos => {},
            Instr::ReturnSelf => {},
            Instr::NlrTos => lemma_nlr_op(s),
            Instr::Send { ic, .. } => {
                let site = m.ics@[ic as int];
                lemma_block_send(cx, site, this, klass, bci as usize, proto, s);
                match block_send(cx, site, this, klass, bci as usize, proto, s) {
                    Some((s1, trapped)) => if !trapped {
                        lemma_block_walk(cx, m, this, klass, slots, proto, next, s1);
                    },
                    None => {},
                }
            },
            Instr::PushCtxTemp { idx, .. } => {
                lemma_ctx_push(cx, cx.method_ctx_vreg, idx, s);
                match crate::ops::ctx_push(cx, cx.method_ctx_vreg, idx, s) {
                    Some(s1) => lemma_block_walk(cx, m, this, klass, slots, proto, next, s1),
                    None => {},
                }
            },
            Instr::StoreCtxTempPop { idx, .. } => {
                lemma_ctx_store(cx, cx.method_ctx_vreg, idx, s);
                match crate::ops::ctx_store(cx, cx.method_ctx_vreg, idx, s) {
                    Some(s1) => lemma_block_walk(cx, m, this, klass, slots, proto, next, s1),
                    None => {},
                }
            },
            i => {
                lemma_simple(cx.vm, m, i, this, slots, false, s);
                if simple_ok(cx.vm, m, i, this, slots, false, s) {
                    let s1 = crate::ops::simple(cx.vm, m, i, this, slots, false, s)->0;
                    lemma_block_walk(cx, m, this, klass, slots, proto, next, s1);
                }
            },
        }
    }
}

pub(crate) proof fn lemma_block_body(
    cx: CtxView,
    m: Method,
    this: VReg,
    slots: Seq<VReg>,
    proto: InlineView,
    s: St,
)
    requires
        ok(s),
        cx_ok(cx, s.out),
        reg_ok(this, s.out),
        regs_ok(slots, s.out),
        inline_ok(Some(proto), s.out),
    ensures
        block_body(cx, m, this, slots, proto, s) matches Some((t, v)) ==> steps(s, Some(t)) && (
        v matches Some(v) ==> reg_ok(v, t.out)),
{
    broadcast use group_steps;

    let klass = if this == cx.self_vreg {
        Some(cx.rcvr_klass)
    } else {
        None
    };
    let s0 = s.with_out(s.out.commit(m.inline_cost)).with_stack(seq![]);
    assert(ok(s0));
    lemma_block_walk(cx, m, this, klass, slots, proto, 0, s0);
}

} // verus!

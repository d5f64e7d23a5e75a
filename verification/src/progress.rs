//! Instructions whose operands are there translate.

use vstd::prelude::*;
use crate::classify::{
    double_kind, leaf_from, single_return_block, smi_kind, splice_shape, DoubleSendKind,
    SmiSendKind,
};
use crate::depths::delta;
use crate::effect::arity_ok;
use crate::graft::{inline_cfg, GraftView};
use crate::instr::{home_ctx, instr_step, site_step, value_instr, SiteStep};
use crate::ir::{BlockView, CallSiteInfo, InlineView, Ir, PoolLit, VReg};
use crate::ops::{
    alloc_out, array_op, body_send, count_cold, double_op, not_op, ref_op, simple, smi_op,
};
use crate::root::{
    budgeted, dispatch_send, dominant_splice, generic_send, guard_shape, guarded_splice,
    leaf_shape, plain_send, profiled_send, root_double, root_klass, root_send, root_smi,
    self_target, site_of, slow_block, splices, static_splice, super_send, EndView, StepEnd,
};
use crate::splice::{
    alloc_or_send, body_klass, body_slots, enter_body, guard_op, inline_leaf, inline_nonleaf,
    leaf_walk, method_proto, nil_temps, nonleaf_send, nonleaf_walk, NonLeafOutcome, SiteView,
};
use crate::translator::{pool_oop, CtxView, OutView, St};
use crate::world::{
    GuardKind, InlineDecision, Instr, InterpreterIc, KlassOop, Method, MethodOop, SiteFeedback,
    SymbolOop, VmState,
};

verus! {

/// The operands that an instruction takes off the stack or looks at there.
pub open spec fn needs(m: Method, i: Instr) -> int {
    match i {
        Instr::StoreTemp(_) => 1,
        Instr::StoreTempPop(_) => 1,
        Instr::StoreInstvarPop(_) => 1,
        Instr::StoreGlobalPop(_) => 1,
        Instr::StoreCtxTempPop { .. } => 1,
        Instr::Dup => 1,
        Instr::Pop => 1,
        Instr::Send { ic, .. } => m.ics@[ic as int].argc + 1,
        Instr::BrTrueFwd(_) => 1,
        Instr::BrFalseFwd(_) => 1,
        Instr::ReturnTos => 1,
        Instr::BlockReturnTos => 1,
        Instr::NlrTos => 1,
        Instr::PushClosure { ncopied, .. } => ncopied as int,
        _ => 0,
    }
}

/// From `bci` on a straight-line body returns: every instruction finds its operands, starting at
/// depth `d`, and is one that a straight line can hold.
pub open spec fn body_returns(vm: VmState, m: Method, bci: int, d: int) -> bool
    decreases m.code@.len() - bci,
{
    if bci < 0 || bci >= m.code@.len() || !(bci < m.next_at(bci) <= m.code@.len()) {
        false
    } else {
        let i = m.instr_at(bci);
        match i {
            Instr::ReturnTos => d > 0,
            Instr::ReturnSelf => true,
            Instr::Send { ic, .. } => {
                &&& m.ics@[ic as int].argc < 255
                &&& arity_ok(vm, m.ics@[ic as int])
                &&& d >= needs(m, i)
                &&& body_returns(vm, m, m.next_at(bci), d + delta(m, i))
            },
            _ => {
                &&& plain_instr(m, i)
                &&& d >= needs(m, i)
                &&& body_returns(vm, m, m.next_at(bci), d + delta(m, i))
            },
        }
    }
}

/// An instruction that moves values alone, between slots that are there.
pub open spec fn plain_instr(m: Method, i: Instr) -> bool {
    match i {
        Instr::PushTemp(n) => n < m.nslots(),
        Instr::StoreTemp(n) => n < m.nslots(),
        Instr::StoreTempPop(n) => n < m.nslots(),
        Instr::Send { .. } => false,
        Instr::BrTrueFwd(_) => false,
        Instr::BrFalseFwd(_) => false,
        Instr::JumpFwd(_) => false,
        Instr::JumpBack(_) => false,
        Instr::ReturnTos => false,
        Instr::BlockReturnTos => false,
        Instr::ReturnSelf => false,
        Instr::NlrTos => false,
        Instr::PushCtxTemp { .. } => false,
        Instr::StoreCtxTempPop { .. } => false,
        Instr::PushClosure { .. } => false,
        _ => true,
    }
}

/// A callee that is spliced as a straight line of less than `cap` instructions, if it is spliced at
/// all.
pub open spec fn splices_straight(cx: CtxView, callee: MethodOop, argc: u8, cap: int) -> bool {
    let m = cx.vm.m(callee);
    if leaf_shape(m, argc) || (m.eligible_nonleaf && single_return_block(m) && m.argc == argc) {
        body_returns(cx.vm, m, 0, 0) && m.code@.len() + 5 <= cap
    } else {
        !m.eligible_cfg || m.cfg.blocks@.len() == 0 || m.argc != argc
    }
}

/// A send that stays a send, fuses into one operation or takes in a straight-line body. A send to
/// the superclass has one, and a body that the profile asks for has the profile's class.
pub open spec fn sends_straight(
    cx: CtxView,
    ic: InterpreterIc,
    is_super: bool,
    bci: usize,
    cap: int,
) -> bool {
    let m = cx.vm.m(cx.method);
    &&& ic.argc < 255
    &&& arity_ok(cx.vm, ic)
    &&& m.escape.blockarg_target(bci) is None
    &&& m.escape.value_target(bci) is None
    &&& if is_super {
        &&& m.holder matches Some(h) && (cx.vm.info(h) matches Some(info) && info.superclass is Some)
        &&& cx.vm.lookup(((cx.vm.info(m.holder->0))->0).superclass->0, ic.selector) matches Some(t)
            ==> !splice_shape(cx.vm, t) || splices_straight(cx, t, ic.argc, cap)
    } else {
        &&& cx.devirt(cx.rcvr_klass, ic.selector) matches Some(t) ==> !splice_shape(cx.vm, t)
            || splices_straight(cx, t, ic.argc, cap)
        &&& match ic.decision {
            InlineDecision::Inline { callee, .. } => ic.feedback@ is Mono && splices_straight(
                cx,
                callee,
                ic.argc,
                cap,
            ),
            InlineDecision::DominantWithSlowPath { case_method, .. } => leaf_shape(
                cx.vm.m(case_method),
                ic.argc,
            ) ==> splices_straight(cx, case_method, ic.argc, cap),
            _ => true,
        }
    }
}

/// What an instruction names is there, and sends take in straight lines at most.
pub open spec fn instr_ok(cx: CtxView, bci: usize, i: Instr, cap: int) -> bool {
    let m = cx.vm.m(cx.method);
    match i {
        Instr::PushTemp(n) => n < m.nslots(),
        Instr::StoreTemp(n) => n < m.nslots(),
        Instr::StoreTempPop(n) => n < m.nslots(),
        Instr::PushCtxTemp { idx, .. } => home_ctx(cx) is Some || idx < cx.ctx_vregs.len(),
        Instr::StoreCtxTempPop { idx, .. } => home_ctx(cx) is Some || idx < cx.ctx_vregs.len(),
        Instr::NlrTos => cx.block_closure_vreg is Some,
        Instr::PushClosure { lit, .. } => m.literals@[lit as int].method matches Some(b)
            && (cx.vm.m(b).captures_ctx ==> cx.method_ctx_vreg is Some),
        Instr::Send { ic, super_ } => sends_straight(
            cx,
            m.ics@[ic as int],
            super_,
            bci,
            cap,
        ),
        _ => true,
    }
}

/// The counters have room for one more instruction, which moves none of them by more than `cap`.
pub open spec fn room(cx: CtxView, o: OutView, cap: int) -> bool {
    &&& o.blocks.len() + cap <= u32::MAX
    &&& o.splice_declined_budget + cap <= u32::MAX
    &&& cx.osr ==> o.osr_cold_sends + cap <= u16::MAX
}

/// At most `k` new blocks, finished but for the one at `hole`; old ones stay.
pub open spec fn filled(
    a: Seq<Option<BlockView>>,
    b: Seq<Option<BlockView>>,
    hole: int,
    k: int,
) -> bool {
    &&& a.len() <= b.len() <= a.len() + k
    &&& forall|i: int| 0 <= i < a.len() ==> #[trigger] b[i] == a[i]
    &&& forall|i: int| a.len() <= i < b.len() && i != hole ==> (#[trigger] b[i]) is Some
}

/// The counters move by `k` at most.
pub open spec fn counted(o: OutView, p: OutView, k: int) -> bool {
    &&& p.temp_sites.len() == o.temp_sites.len()
    &&& p.pending_jump_target == o.pending_jump_target
    &&& o.osr_cold_sends <= p.osr_cold_sends <= o.osr_cold_sends + k
    &&& o.splice_declined_budget <= p.splice_declined_budget <= o.splice_declined_budget + k
}

/// How far one instruction moves the counters.
pub open spec fn grows(o: OutView, p: OutView, end: EndView, cap: int) -> bool {
    &&& match end {
        StepEnd::Split(c) => filled(o.blocks, p.blocks, c.0 as int, cap) && o.blocks.len() <= c.0
            < p.blocks.len(),
        _ => filled(o.blocks, p.blocks, -1, cap),
    }
    &&& counted(o, p, cap)
}

spec fn more(o: OutView, p: OutView, k: int) -> bool {
    filled(o.blocks, p.blocks, -1, k) && counted(o, p, k)
}

proof fn lemma_more(o: OutView, p: OutView, q: OutView, j: int, k: int)
    requires
        more(o, p, j),
        more(p, q, k),
    ensures
        more(o, q, j + k),
{
    assert forall|i: int| 0 <= i < o.blocks.len() implies #[trigger] q.blocks[i] == o.blocks[i] by {
        assert(p.blocks[i] == o.blocks[i]);
    }
    assert forall|i: int| o.blocks.len() <= i < q.blocks.len() implies (
    #[trigger] q.blocks[i]) is Some by {
        if i < p.blocks.len() {
            assert(q.blocks[i] == p.blocks[i]);
        }
    }
}

proof fn lemma_more_end(o: OutView, p: OutView, q: OutView, end: EndView, j: int, k: int, cap: int)
    requires
        more(o, p, j),
        grows(p, q, end, k),
        0 <= j,
        j + k <= cap,
    ensures
        grows(o, q, end, cap),
{
    assert forall|i: int| 0 <= i < o.blocks.len() implies #[trigger] q.blocks[i] == o.blocks[i] by {
        assert(p.blocks[i] == o.blocks[i]);
    }
    let hole = match end {
        StepEnd::Split(c) => c.0 as int,
        _ => -1,
    };
    assert forall|i: int| o.blocks.len() <= i < q.blocks.len() && i != hole implies (
    #[trigger] q.blocks[i]) is Some by {
        if i < p.blocks.len() {
            assert(q.blocks[i] == p.blocks[i]);
        }
    }
}

spec fn goes(s: St, r: Option<(St, EndView)>, k: int) -> bool {
    r matches Some((t, end)) && grows(s.out, t.out, end, k)
}

spec fn goes_on(s: St, r: Option<St>) -> bool {
    r matches Some(t) && more(s.out, t.out, 1)
}

proof fn lemma_simple(
    vm: VmState,
    m: Method,
    i: Instr,
    this: VReg,
    slots: Seq<VReg>,
    track: bool,
    s: St,
)
    requires
        s.depth() >= needs(m, i),
        slots.len() == m.nslots(),
        plain_instr(m, i),
    ensures
        simple(vm, m, i, this, slots, track, s) matches Some(t) && more(s.out, t.out, 0)
            && t.depth() == s.depth() + delta(m, i),
{
}

proof fn lemma_fused(cx: CtxView, sel: SymbolOop, bci: usize, inl: Option<InlineView>, s: St)
    requires
        s.out.can_block(),
    ensures
        s.depth() >= 2 ==> goes_on(s, ref_op(true, s)) && ref_op(true, s)->0.depth() == s.depth() - 1,
        s.depth() >= 2 ==> goes_on(s, ref_op(false, s)) && ref_op(false, s)->0.depth() == s.depth()
            - 1,
        s.depth() >= 1 ==> goes_on(s, not_op(cx.vm, sel, bci, inl, s)) && not_op(
            cx.vm,
            sel,
            bci,
            inl,
            s,
        )->0.depth() == s.depth(),
        s.depth() >= 2 ==> goes_on(s, array_op(cx.vm, false, bci, inl, s)) && array_op(
            cx.vm,
            false,
            bci,
            inl,
            s,
        )->0.depth() == s.depth() - 1,
        s.depth() >= 3 ==> goes_on(s, array_op(cx.vm, true, bci, inl, s)) && array_op(
            cx.vm,
            true,
            bci,
            inl,
            s,
        )->0.depth() == s.depth() - 2,
{
}

proof fn lemma_arith(
    ks: Option<SmiSendKind>,
    kd: Option<DoubleSendKind>,
    bci: usize,
    inl: Option<InlineView>,
    s: St,
)
    requires
        s.out.can_block(),
        s.depth() >= 2,
    ensures
        ks matches Some(k) ==> goes_on(s, smi_op(k, bci, inl, s)) && smi_op(k, bci, inl, s)->0.depth()
            == s.depth() - 1,
        kd matches Some(k) ==> goes_on(s, double_op(k, bci, inl, s)) && double_op(
            k,
            bci,
            inl,
            s,
        )->0.depth() == s.depth() - 1,
{
}

/// A send in a body goes on, or traps.
spec fn body_goes(s: St, argc: int, r: Option<(St, bool)>) -> bool {
    r matches Some((t, trapped)) && more(s.out, t.out, 1) && (!trapped ==> t.depth() == s.depth()
        - argc)
}

proof fn lemma_body_send(
    cx: CtxView,
    ic: InterpreterIc,
    this: VReg,
    klass: Option<KlassOop>,
    bci: usize,
    proto: InlineView,
    s: St,
)
    requires
        s.depth() >= ic.argc + 1,
        ic.argc < 255,
        cx.osr ==> s.out.osr_cold_sends < u16::MAX,
    ensures
        body_goes(s, ic.argc as int, body_send(cx, ic, this, klass, bci, seq![], proto, s)),
        body_goes(s, ic.argc as int, alloc_or_send(cx, ic, this, klass, bci, proto, s)),
{
}

proof fn lemma_nonleaf_send(
    cx: CtxView,
    m: Method,
    ic: InterpreterIc,
    this: VReg,
    klass: Option<KlassOop>,
    bci: usize,
    proto: InlineView,
    s: St,
)
    requires
        s.depth() >= ic.argc + 1,
        ic.argc < 255,
        arity_ok(cx.vm, ic),
        s.out.can_block(),
        cx.osr ==> s.out.osr_cold_sends < u16::MAX,
    ensures
        body_goes(s, ic.argc as int, nonleaf_send(cx, m, ic, this, klass, bci, proto, s)),
{
    lemma_body_send(cx, ic, this, klass, bci, proto, s);
    lemma_fused(cx, ic.selector, bci, Some(proto), s);
    if s.depth() >= 2 {
        lemma_arith(smi_kind(cx.vm, ic), double_kind(cx.vm, ic), bci, Some(proto), s);
    }
}

proof fn lemma_leaf_walk(
    vm: VmState,
    m: Method,
    this: VReg,
    slots: Seq<VReg>,
    bci: int,
    s: St,
)
    requires
        leaf_from(m, bci),
        body_returns(vm, m, bci, s.depth() as int),
        slots.len() == m.nslots(),
    ensures
        leaf_walk(vm, m, this, slots, bci, s) matches Some((t, v)) && more(s.out, t.out, 0),
    decreases m.code@.len() - bci,
{
    let i = m.instr_at(bci);
    if !(i is ReturnTos || i is ReturnSelf) {
        assert(!(i is Send));
        lemma_simple(vm, m, i, this, slots, false, s);
        let s1 = simple(vm, m, i, this, slots, false, s)->0;
        lemma_leaf_walk(vm, m, this, slots, m.next_at(bci), s1);
        let t = (leaf_walk(vm, m, this, slots, m.next_at(bci), s1)->0).0;
        lemma_more(s.out, s1.out, t.out, 0, 0);
        assert(leaf_walk(vm, m, this, slots, bci, s) == leaf_walk(
            vm,
            m,
            this,
            slots,
            m.next_at(bci),
            s1,
        ));
    }
}

proof fn lemma_nonleaf_walk(
    cx: CtxView,
    m: Method,
    this: VReg,
    klass: Option<KlassOop>,
    slots: Seq<VReg>,
    proto: InlineView,
    bci: int,
    s: St,
)
    requires
        0 <= bci,
        body_returns(cx.vm, m, bci, s.depth() as int),
        slots.len() == m.nslots(),
        s.out.blocks.len() + m.code@.len() - bci <= u32::MAX,
        cx.osr ==> s.out.osr_cold_sends + m.code@.len() - bci <= u16::MAX,
    ensures
        nonleaf_walk(cx, m, this, klass, slots, proto, bci, s) matches Some((t, v)) && more(
            s.out,
            t.out,
            m.code@.len() - bci,
        ),
    decreases m.code@.len() - bci,
{
    let i = m.instr_at(bci);
    let next = m.next_at(bci);
    let w = nonleaf_walk(cx, m, this, klass, slots, proto, bci, s);
    if i is ReturnTos || i is ReturnSelf {
    } else if let Instr::Send { ic, .. } = i {
        let site = m.ics@[ic as int];
        lemma_nonleaf_send(cx, m, site, this, klass, bci as usize, proto, s);
        let r = nonleaf_send(cx, m, site, this, klass, bci as usize, proto, s)->0;
        if r.1 {
            assert(w == Some((r.0, None::<VReg>)));
        } else {
            lemma_nonleaf_walk(cx, m, this, klass, slots, proto, next, r.0);
            let w1 = nonleaf_walk(cx, m, this, klass, slots, proto, next, r.0);
            assert(w == w1);
            lemma_more(s.out, r.0.out, (w1->0).0.out, 1, m.code@.len() - next);
        }
    } else {
        lemma_simple(cx.vm, m, i, this, slots, true, s);
        let s1 = simple(cx.vm, m, i, this, slots, true, s)->0;
        lemma_nonleaf_walk(cx, m, this, klass, slots, proto, next, s1);
        let w1 = nonleaf_walk(cx, m, this, klass, slots, proto, next, s1);
        assert(w == w1);
        lemma_more(s.out, s1.out, (w1->0).0.out, 0, m.code@.len() - next);
    }
}

proof fn lemma_nil_temps(lit: PoolLit, n: nat, s: St)
    ensures
        more(s.out, nil_temps(lit, n, s).out, 0),
    decreases n,
{
    if n > 0 {
        lemma_nil_temps(lit, (n - 1) as nat, s);
    }
}

proof fn lemma_enter(vm: VmState, x: SiteView, s: St)
    requires
        s.out.can_block(),
    ensures
        enter_body(vm, x, seq![], s) matches Some(t) && more(s.out, t.out, 1) && t.depth() == 0,
{
    let s1 = guard_op(x, seq![], s)->0;
    assert(more(s.out, s1.out, 1));
    let nil = pool_oop(vm.universe.nil_obj);
    lemma_nil_temps(s1.lit(nil), vm.m(x.callee).ntemps as nat, s1.intern(nil));
    assert(s1.intern(nil).out.blocks == s1.out.blocks);
    assert(more(s1.out, s1.intern(nil).out, 0));
    let t = nil_temps(s1.lit(nil), vm.m(x.callee).ntemps as nat, s1.intern(nil));
    lemma_more(s1.out, s1.intern(nil).out, t.out, 0, 0);
    lemma_more(s.out, s1.out, t.out, 1, 0);
}

proof fn lemma_leaf(cx: CtxView, x: SiteView, s: St)
    requires
        s.out.can_block(),
        leaf_shape(cx.vm.m(x.callee), x.args.len() as u8) && x.args.len() <= 255 ==> body_returns(
            cx.vm,
            cx.vm.m(x.callee),
            0,
            0,
        ),
    ensures
        inline_leaf(cx, x, s) matches Some((t, v)) && more(s.out, t.out, 1) && (v is Some <==> (
        single_return_block(cx.vm.m(x.callee)) && cx.vm.m(x.callee).argc == x.args.len()
            && leaf_from(cx.vm.m(x.callee), 0))),
{
    let m = cx.vm.m(x.callee);
    if single_return_block(m) && m.argc == x.args.len() && leaf_from(m, 0) {
        lemma_enter(cx.vm, x, s);
        let s1 = enter_body(cx.vm, x, seq![], s)->0;
        let slots = body_slots(cx.vm, x, s);
        lemma_leaf_walk(cx.vm, m, x.receiver, slots, 0, s1);
        let s2 = (leaf_walk(cx.vm, m, x.receiver, slots, 0, s1)->0).0;
        lemma_more(s.out, s1.out, s2.out, 1, 0);
    }
}

proof fn lemma_splices(cx: CtxView, x: SiteView, s: St, argc: u8, cap: int)
    requires
        x.args.len() == argc,
        splices_straight(cx, x.callee, argc, cap),
        s.out.blocks.len() + cap <= u32::MAX + 3,
        cx.osr ==> s.out.osr_cold_sends + cap <= u16::MAX + 3,
        cap >= 5,
    ensures
        splices(cx, x, s) matches Some((t, end)) && (end is Declined || more(
            s.out,
            t.out,
            cap - 3,
        )) && !(end is Graft),
{
    reveal(splices);
    reveal(inline_cfg);
    let m = cx.vm.m(x.callee);
    assert(s.out.can_block());
    lemma_leaf(cx, x, s);
    if !leaf_shape(m, argc) && m.eligible_nonleaf && single_return_block(m) && m.argc == argc {
        let s0 = s.intern(pool_oop(m.oop));
        assert(more(s.out, s0.out, 0));
        lemma_enter(cx.vm, x, s0);
        let s1 = enter_body(cx.vm, x, seq![], s0)->0;
        let slots = body_slots(cx.vm, x, s);
        let proto = method_proto(cx.vm, x, s);
        let klass = body_klass(cx, x);
        lemma_nonleaf_walk(cx, m, x.receiver, klass, slots, proto, 0, s1);
        let s2 = (nonleaf_walk(cx, m, x.receiver, klass, slots, proto, 0, s1)->0).0;
        lemma_more(s.out, s0.out, s1.out, 0, 1);
        lemma_more(s.out, s1.out, s2.out, 1, m.code@.len() as int);
    } else if !leaf_shape(m, argc) {
        assert(inline_nonleaf(cx, x, s) == Some((s, None::<NonLeafOutcome>)));
        assert(inline_cfg(cx, x, None, GraftView { is_block: false, parent: None }, s) matches Some(
            (_, None),
        ));
    }
}

proof fn lemma_smi(kind: SmiSendKind, fusable: bool, bci: usize, s: St)
    requires
        s.depth() >= 2,
        s.out.blocks.len() + 2 <= u32::MAX,
    ensures
        goes(s, root_smi(kind, fusable, bci, s), 2),
{
}

proof fn lemma_double(kind: DoubleSendKind, fusable: bool, bci: usize, s: St)
    requires
        s.depth() >= 2,
        s.out.can_block(),
    ensures
        goes(s, root_double(kind, fusable, bci, s), 1),
{
}

proof fn lemma_plain_send(ic: InterpreterIc, bci: usize, s: St)
    requires
        s.depth() >= ic.argc + 1,
        ic.argc < 255,
    ensures
        goes(s, plain_send(ic, bci, s), 0),
{
}

/// A static target is spliced, or the send stays.
proof fn lemma_static(
    cx: CtxView,
    ic: InterpreterIc,
    target: Option<MethodOop>,
    dep_klass: KlassOop,
    bci: usize,
    s: St,
    cap: int,
)
    requires
        s.depth() >= ic.argc + 1,
        room(cx, s.out, cap),
        cap >= 5,
        target matches Some(t) ==> !splice_shape(cx.vm, t) || splices_straight(
            cx,
            t,
            ic.argc,
            cap,
        ),
    ensures
        static_splice(cx, ic, target, dep_klass, bci, s) matches Some((t, end)) && !(end is Graft)
            && (end is Declined ==> more(s.out, t.out, 1) && t.seg.stack == s.seg.stack) && (!(
        end is Declined) ==> more(s.out, t.out, cap - 3)),
{
    if let Some(t) = target {
        if splice_shape(cx.vm, t) {
            lemma_splices(
                cx,
                site_of(ic, t, None, dep_klass, bci, s),
                s.drop(ic.argc + 1),
                ic.argc,
                cap,
            );
        }
    }
}

proof fn lemma_dominant(
    cx: CtxView,
    ic: InterpreterIc,
    klass: KlassOop,
    callee: MethodOop,
    guard: GuardKind,
    bci: usize,
    s: St,
)
    requires
        s.depth() >= ic.argc + 1,
        ic.argc < 255,
        s.out.blocks.len() + 3 <= u32::MAX,
        leaf_shape(cx.vm.m(callee), ic.argc),
        body_returns(cx.vm, cx.vm.m(callee), 0, 0),
    ensures
        goes(s, dominant_splice(cx, ic, klass, callee, guard, bci, s), 2),
{
    let n = ic.argc + 1;
    let m = cx.vm.m(callee);
    let below = s.drop(n);
    let x = site_of(ic, callee, None, klass, bci, s);
    let cont = s.out.block_id();
    let slow = s.out.new_block().block_id();
    let info = CallSiteInfo {
        selector: ic.selector,
        argc: (ic.argc + 1) as u8,
        static_klass: None,
    };
    let out = s.out.new_block().new_block().fresh(true).fresh(true).call_site(
        info,
        ic.feedback@,
    ).finish(
        slow_block(
            slow,
            bci,
            s.reg(),
            s.fresh(true).reg(),
            s.out.call_sites.len() as u16,
            s.seg.stack.subrange(s.depth() - n, s.depth() as int),
            cont,
            below.seg.stack,
        ),
    );
    let e = pool_oop(klass.0);
    let s1 = below.with_out(out.intern(e)).emit(
        Ir::GuardKlass {
            obj: x.receiver,
            expect: out.lit(e),
            fail: slow,
            kind: guard_shape(guard),
        },
    );
    assert(s1.out.blocks == out.blocks);
    assert(filled(s.out.blocks, out.blocks, cont.0 as int, 2));
    // No guard of its own, so no block of its own.
    let sx = enter_body(cx.vm, x, seq![], s1)->0;
    let nil = pool_oop(cx.vm.universe.nil_obj);
    lemma_nil_temps(s1.lit(nil), m.ntemps as nat, s1.intern(nil));
    assert(s1.intern(nil).out.blocks == s1.out.blocks);
    let slots = body_slots(cx.vm, x, s1);
    lemma_leaf_walk(cx.vm, m, x.receiver, slots, 0, sx);
    let s2 = (leaf_walk(cx.vm, m, x.receiver, slots, 0, sx)->0).0;
    assert(sx.out.blocks =~= out.blocks);
    assert(s2.out.blocks =~= out.blocks);
}

proof fn lemma_profiled(
    cx: CtxView,
    ic: InterpreterIc,
    is_static: bool,
    bci: usize,
    s: St,
    cap: int,
)
    requires
        s.depth() >= ic.argc + 1,
        s.out.blocks.len() + cap <= u32::MAX + 2,
        s.out.splice_declined_budget < u32::MAX,
        cx.osr ==> s.out.osr_cold_sends + cap <= u16::MAX + 2,
        cap >= 5,
        sends_straight(cx, ic, false, bci, cap),
    ensures
        goes(s, profiled_send(cx, ic, is_static, bci, s), cap - 2),
{
    let (s1, d) = budgeted(cx, ic, is_static, s)->0;
    assert(more(s.out, s1.out, 1) && s1.seg.stack == s.seg.stack);
    lemma_plain_send(ic, bci, s1);
    match d {
        InlineDecision::DominantWithSlowPath { case_klass, case_method, guard } => {
            if leaf_shape(cx.vm.m(case_method), ic.argc) {
                lemma_dominant(cx, ic, case_klass, case_method, guard, bci, s1);
            }
        },
        InlineDecision::Inline { callee, guard } => {
            if let SiteFeedback::Mono { klass, .. } = ic.feedback@ {
                let x = site_of(ic, callee, Some((klass, guard_shape(guard))), klass, bci, s1);
                lemma_splices(cx, x, s1.drop(ic.argc + 1), ic.argc, cap);
            }
            assert(goes(s1, guarded_splice(cx, ic, callee, guard, bci, s1), cap - 3));
        },
        _ => {},
    }
    let r = profiled_send(cx, ic, is_static, bci, s);
    assert(r is Some);
    let (t, end) = r->0;
    if grows(s1.out, t.out, end, cap - 3) {
        lemma_more_end(s.out, s1.out, t.out, end, 1, cap - 3, cap - 2);
    } else {
        assert(grows(s1.out, t.out, end, 2) || grows(s1.out, t.out, end, 0));
        assert(grows(s1.out, t.out, end, cap - 3));
    }
}

proof fn lemma_dispatch(
    cx: CtxView,
    ic: InterpreterIc,
    bci: usize,
    s: St,
    sites: Seq<Option<usize>>,
    cap: int,
)
    requires
        s.depth() >= ic.argc + 1,
        room(cx, s.out, cap),
        cap >= 5,
        sends_straight(cx, ic, false, bci, cap),
    ensures
        goes(s, dispatch_send(cx, ic, bci, s, sites), cap),
{
    let target = self_target(cx, ic, s, sites);
    lemma_static(cx, ic, target, cx.rcvr_klass, bci, s, cap);
    let (s1, end) = static_splice(cx, ic, target, cx.rcvr_klass, bci, s)->0;
    if end is Declined {
        if !(target is None && cx.cold_traps() && ic.feedback is Untaken) {
            let s2 = count_cold(cx, ic, s1)->0;
            assert(count_cold(cx, ic, s1) is Some);
            assert(more(s1.out, s2.out, 1));
            lemma_more(s.out, s1.out, s2.out, 1, 1);
            lemma_profiled(cx, ic, target is Some, bci, s2, cap);
            let (t, e) = profiled_send(cx, ic, target is Some, bci, s2)->0;
            lemma_more_end(s.out, s2.out, t.out, e, 2, cap - 2, cap);
        }
    }
}

proof fn lemma_generic(
    cx: CtxView,
    ic: InterpreterIc,
    bci: usize,
    s: St,
    sites: Seq<Option<usize>>,
    cap: int,
)
    requires
        s.depth() >= ic.argc + 1,
        room(cx, s.out, cap),
        cap >= 5,
        sends_straight(cx, ic, false, bci, cap),
    ensures
        goes(s, generic_send(cx, ic, bci, s, sites), cap),
{
    lemma_dispatch(cx, ic, bci, s, sites, cap);
    let s1 = s.with_out(alloc_out(cx.vm, s.out, ic, s.top(0), cx.self_vreg, root_klass(cx)));
    assert(s1.depth() == s.depth());
    lemma_dispatch(cx, ic, bci, s1, sites, cap);
}

proof fn lemma_super(cx: CtxView, ic: InterpreterIc, bci: usize, s: St, cap: int)
    requires
        s.depth() >= ic.argc + 1,
        room(cx, s.out, cap),
        cap >= 5,
        sends_straight(cx, ic, true, bci, cap),
    ensures
        goes(s, super_send(cx, ic, bci, s), cap),
{
    let sup = ((cx.vm.info(cx.vm.m(cx.method).holder->0))->0).superclass->0;
    lemma_static(cx, ic, cx.vm.lookup(sup, ic.selector), sup, bci, s, cap);
}

proof fn lemma_send(
    cx: CtxView,
    ic: InterpreterIc,
    is_super: bool,
    fusable: bool,
    bci: usize,
    s: St,
    sites: Seq<Option<usize>>,
    cap: int,
)
    requires
        s.depth() >= ic.argc + 1,
        room(cx, s.out, cap),
        cap >= 5,
        sends_straight(cx, ic, is_super, bci, cap),
    ensures
        goes(s, root_send(cx, ic, is_super, fusable, bci, s, sites), cap),
{
    if is_super {
        lemma_super(cx, ic, bci, s, cap);
    } else {
        lemma_generic(cx, ic, bci, s, sites, cap);
        if let Some(k) = smi_kind(cx.vm, ic) {
            lemma_smi(k, fusable, bci, s);
        }
        if let Some(k) = double_kind(cx.vm, ic) {
            lemma_double(k, fusable, bci, s);
        }
        lemma_fused(cx, ic.selector, bci, None, s);
    }
}

/// One instruction whose operands are on the stack translates.
pub proof fn law_instructions_translate(
    cx: CtxView,
    i: Instr,
    fusable: bool,
    bci: usize,
    s: St,
    sites: Seq<Option<usize>>,
    cap: int,
)
    requires
        s.depth() >= needs(cx.vm.m(cx.method), i) || i is BrTrueFwd || i is BrFalseFwd,
        sites.len() == s.depth(),
        cx.temp_vregs.len() == cx.vm.m(cx.method).nslots(),
        s.out.temp_sites.len() == cx.vm.m(cx.method).nslots(),
        cap >= 5,
        instr_ok(cx, bci, i, cap),
        room(cx, s.out, cap),
    ensures
        instr_step(cx, i, fusable, bci, s, sites) matches Some(x) && grows(
            s.out,
            x.s.out,
            x.end,
            cap,
        ),
{
    let m = cx.vm.m(cx.method);
    let s1 = match (cx.has_closures, site_step(cx, i, bci, s, sites)) {
        (true, SiteStep::Through(t)) => t,
        _ => s,
    };
    assert(s1.seg.stack == s.seg.stack);
    if let Instr::Send { ic, super_ } = i {
        lemma_send(cx, m.ics@[ic as int], super_, fusable, bci, s1, sites, cap);
    } else if i is BrTrueFwd || i is BrFalseFwd || i is JumpFwd || i is JumpBack || i is ReturnTos
        || i is BlockReturnTos || i is ReturnSelf || i is NlrTos || i is PushCtxTemp
        || i is StoreCtxTempPop || i is PushClosure {
        assert(goes(s1, value_instr(cx, i, fusable, bci, s1, sites), cap));
    } else {
        lemma_simple(cx.vm, m, i, cx.self_vreg, cx.temp_vregs, true, s1);
        assert(goes(s1, value_instr(cx, i, fusable, bci, s1, sites), cap));
    }
}

} // verus!

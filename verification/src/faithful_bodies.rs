//! Straight-line bodies with sends answer what interpreting them answers.

use vstd::prelude::*;
use crate::classify::{
    array_kind, double_kind, not_speculatable, ref_eq, smi_kind, DoubleSendKind, SmiSendKind,
};
use crate::effect::arity_ok;
use crate::faithful::{
    holds, kept, law_moves_mean_what_they_say, lemma_lit_here, placed, sees, writable,
};
use crate::faithful_sends::{
    answered, classes_known, goes_to, law_allocating_sends_allocate,
    law_array_sends_access_the_receiver, law_calls_hand_over_their_operands,
    law_cold_sends_run_again, law_double_sends_compute, law_identity_sends_compare,
    law_not_sends_flip, law_smi_sends_compute, resumes, runs_again, standing,
};
use crate::faithful_splice::{
    callee_known, fresh_set, grown, guard_fits, lemma_runs_as, runs_as, lemma_activated,
    lemma_entered, lemma_grown, lemma_sees_less, lemma_simple_grows, lemma_simple_operands,
    lemma_writable, own_operands, stores_temps,
};
use crate::ir::{GuardShape, InlineView, Ir, VReg};
use crate::machine::{extends, lemma_ran_more, ran, Env, Flow, Mach, World};
use crate::meaning::{
    activation, association_value, body_answer, does, honest, method_answer, site_honest, Frame,
};
use crate::ops::{
    alloc_op, alloc_out, alloc_site, array_op, body_send, count_cold, double_op, not_op, ref_op,
    send_op, simple, smi_op,
};
use crate::root::site_of;
use crate::splice::{
    alloc_or_send, block_send, body_klass, body_slots, enter_body, inline_nonleaf, method_proto,
    nonleaf_send, nonleaf_walk, with_operands, NonLeafOutcome, SiteView,
};
use crate::translator::{pool_oop, CtxView, OutView, St};
use crate::values::values;
use crate::world::{Instr, InterpreterIc, KlassOop, Method, MethodOop, SymbolOop, VmState};

verus! {

broadcast use crate::machine::group_runs;

/// What splicing takes for granted of the world: a global that named a class goes on naming it, and
/// a site that has cached the allocating primitive runs it for every class.
pub open spec fn steady(w: World, vm: VmState) -> bool {
    &&& forall|t: int, x: int, mem: int|
        0 <= t < vm.methods@.len() && 0 <= x < vm.methods@[t].literals@.len() ==> ((
        #[trigger] vm.methods@[t].literals@[x]).global_klass matches Some(k) ==> #[trigger] (
        w.field)(mem, (w.word)(vm.methods@[t].literals@[x].raw), association_value()) == (w.word)(
            k.0,
        ))
    &&& forall|t: int, x: int, k: KlassOop, mem: int|
        0 <= t < vm.methods@.len() && 0 <= x < vm.methods@[t].ics@.len() ==> #[trigger] makes(
            w,
            vm,
            vm.methods@[t].ics@[x],
            k,
            mem,
        )
}

pub open spec fn makes(w: World, vm: VmState, ic: InterpreterIc, k: KlassOop, mem: int) -> bool {
    ic.guard_is_klass && ic.target is Some ==> (w.method)(
        (w.class)(mem, (w.word)(k.0)),
        ic.selector,
    ) == ic.target
}

/// Registers that are known to hold a class hold it, and are not stored to.
pub open spec fn classes_held(w: World, o: OutView, wr: Set<VReg>, m: Mach) -> bool {
    forall|v: u32| #[trigger]
        o.const_class.dom().contains(v) ==> v < o.vregs.len() && !wr.contains(VReg(v)) && (m.regs)(
            VReg(v),
        ) == (w.word)(o.const_class[v].0)
}

/// The code leaves where the interpreter runs the instruction at `bci` on `f`.
pub open spec fn leaves_here(
    e: Env,
    s: St,
    t: St,
    bci: usize,
    inl: Option<InlineView>,
    this: VReg,
    slots: Seq<VReg>,
    f: Frame,
    m: Mach,
) -> bool {
    let from = s.seg.code.len() as int;
    &&& extends(s.seg.code, t.seg.code)
    &&& t.seg.code.len() == from + 1
    &&& ran(e, t.seg.code, from, m) == Flow::Leave(m)
    &&& t.seg.deopt.len() == s.seg.deopt.len() + 1
    &&& t.seg.deopt.last().0 == from as u32
    &&& resumes(t.seg.deopt.last().1, bci, inl, m, this, slots, f)
}

/// A send in a body: the answer in place of the operands, or the interpreter runs it.
pub open spec fn body_step(
    e: Env,
    s: St,
    r: Option<(St, bool)>,
    bci: usize,
    inl: Option<InlineView>,
    this: VReg,
    slots: Seq<VReg>,
    wr: Set<VReg>,
    f: Frame,
    g: Frame,
    m: Mach,
) -> bool {
    r matches Some((t, trapped)) ==> if trapped {
        leaves_here(e, s, t, bci, inl, this, slots, f, m)
    } else {
        goes_to(e, s, t, bci, inl, this, slots, wr, f, g, m)
    }
}

pub open spec fn seen(e: Env, vm: VmState, r: Option<(St, bool)>) -> bool {
    r matches Some((t, _)) ==> sees(e, vm, t.out)
}

pub(crate) open spec fn out_grown(s: St, t: St) -> bool {
    &&& grown(s.out, t.out)
    &&& extends(s.seg.code, t.seg.code)
    &&& t.out.const_class == s.out.const_class
}

pub(crate) proof fn lemma_grow_fused(
    vm: VmState,
    sel: SymbolOop,
    put: bool,
    neq: bool,
    ks: SmiSendKind,
    kd: DoubleSendKind,
    bci: usize,
    inl: Option<InlineView>,
    s: St,
)
    ensures
        array_op(vm, put, bci, inl, s) matches Some(t) ==> out_grown(s, t),
        ref_op(neq, s) matches Some(t) ==> out_grown(s, t),
        not_op(vm, sel, bci, inl, s) matches Some(t) ==> out_grown(s, t),
        smi_op(ks, bci, inl, s) matches Some(t) ==> out_grown(s, t),
        double_op(kd, bci, inl, s) matches Some(t) ==> out_grown(s, t),
{
}

proof fn lemma_grow_sends(
    cx: CtxView,
    ic: InterpreterIc,
    this: VReg,
    klass: Option<KlassOop>,
    bci: usize,
    closures: Seq<(u16, u32)>,
    proto: InlineView,
    s: St,
)
    ensures
        body_send(cx, ic, this, klass, bci, closures, proto, s) matches Some((t, _)) ==> out_grown(
            s,
            t,
        ),
        alloc_or_send(cx, ic, this, klass, bci, proto, s) matches Some((t, _)) ==> out_grown(s, t),
{
}

pub(crate) proof fn lemma_body_send(
    e: Env,
    cx: CtxView,
    ic: InterpreterIc,
    this: VReg,
    klass: Option<KlassOop>,
    bci: usize,
    closures: Seq<(u16, u32)>,
    proto: InlineView,
    slots: Seq<VReg>,
    wr: Set<VReg>,
    s: St,
    f: Frame,
    m: Mach,
)
    requires
        standing(s, this, slots, wr, f, e.w, m),
        seen(e, cx.vm, body_send(cx, ic, this, klass, bci, closures, proto, s)),
    ensures
        body_step(
            e,
            s,
            body_send(cx, ic, this, klass, bci, closures, proto, s),
            bci,
            Some(proto),
            this,
            slots,
            wr,
            f,
            answered(e.w, ic, f),
            m,
        ),
{
    if let Some(s1) = count_cold(cx, ic, s) {
        assert(s1.seg == s.seg);
        assert(s1.out.vregs == s.out.vregs && s1.out.blocks == s.out.blocks);
        assert(standing(s1, this, slots, wr, f, e.w, m));
        law_cold_sends_run_again(
            e,
            cx.vm,
            bci,
            closures,
            Some(proto),
            this,
            slots,
            wr,
            s1,
            f,
            m,
        );
        if let Some(t) = send_op(ic, None, bci, closures, Some(proto), s1) {
            if sees(e, cx.vm, t.out) {
                law_calls_hand_over_their_operands(
                    e,
                    cx.vm,
                    ic,
                    None,
                    bci,
                    closures,
                    Some(proto),
                    this,
                    slots,
                    wr,
                    s1,
                    f,
                    m,
                );
                assert(goes_to(
                    e,
                    s,
                    t,
                    bci,
                    Some(proto),
                    this,
                    slots,
                    wr,
                    f,
                    answered(e.w, ic, f),
                    m,
                ));
            }
        }
    }
}

/// Inline allocation or a send.
proof fn lemma_alloc_or_send(
    e: Env,
    cx: CtxView,
    ic: InterpreterIc,
    this: VReg,
    klass: Option<KlassOop>,
    bci: usize,
    proto: InlineView,
    slots: Seq<VReg>,
    wr: Set<VReg>,
    s: St,
    f: Frame,
    m: Mach,
)
    requires
        honest(e.w, cx.vm),
        standing(s, this, slots, wr, f, e.w, m),
        classes_held(e.w, s.out, wr, m),
        forall|k: KlassOop, mem: int| #[trigger] makes(e.w, cx.vm, ic, k, mem),
        klass matches Some(k) ==> (e.w.class)(f.mem, f.me) == k,
        seen(e, cx.vm, alloc_or_send(cx, ic, this, klass, bci, proto, s)),
    ensures
        body_step(
            e,
            s,
            alloc_or_send(cx, ic, this, klass, bci, proto, s),
            bci,
            Some(proto),
            this,
            slots,
            wr,
            f,
            answered(e.w, ic, f),
            m,
        ),
{
    let vm = cx.vm;
    if ic.argc == 0 && s.depth() > 0 {
        let s1 = s.with_out(alloc_out(vm, s.out, ic, s.top(0), this, klass));
        assert(s1.seg == s.seg && s1.out.vregs == s.out.vregs && s1.out.blocks == s.out.blocks);
        assert(standing(s1, this, slots, wr, f, e.w, m));
        match alloc_site(vm, s.out, ic, s.top(0), this, klass) {
            Some((k, n)) => {
                assert(classes_known(e, vm, s.out, ic, m)) by {
                    assert forall|v: u32| #[trigger] s.out.const_class.dom().contains(v) implies {
                        let c = (e.w.word)(s.out.const_class[v].0);
                        &&& (m.regs)(VReg(v)) == c
                        &&& ic.guard_is_klass && ic.target is Some ==> (e.w.method)(
                            (e.w.class)(m.mem, c),
                            ic.selector,
                        ) == ic.target
                    } by {
                        assert(makes(e.w, vm, ic, s.out.const_class[v], m.mem));
                    }
                }
                assert(alloc_op(k, n, bci, Some(proto), s1) is Some);
                law_allocating_sends_allocate(
                    e,
                    vm,
                    ic,
                    bci,
                    Some(proto),
                    this,
                    klass,
                    slots,
                    wr,
                    s,
                    f,
                    m,
                );
            },
            None => {
                lemma_body_send(e, cx, ic, this, klass, bci, seq![], proto, slots, wr, s1, f, m);
                let r = body_send(cx, ic, this, klass, bci, seq![], proto, s1);
                if let Some((t, trapped)) = r {
                    if trapped {
                        assert(leaves_here(e, s, t, bci, Some(proto), this, slots, f, m));
                    } else {
                        assert(goes_to(
                            e,
                            s,
                            t,
                            bci,
                            Some(proto),
                            this,
                            slots,
                            wr,
                            f,
                            answered(e.w, ic, f),
                            m,
                        ));
                    }
                }
            },
        }
    } else {
        lemma_body_send(e, cx, ic, this, klass, bci, seq![], proto, slots, wr, s, f, m);
    }
}

/// Any send inside a spliced body, whatever it compiles to, puts the answer of the send in place of
/// the operands, or has the interpreter run it on the activation as it was.
pub proof fn law_body_sends_answer(
    e: Env,
    cx: CtxView,
    mth: Method,
    ic: InterpreterIc,
    this: VReg,
    klass: Option<KlassOop>,
    bci: usize,
    proto: InlineView,
    slots: Seq<VReg>,
    wr: Set<VReg>,
    s: St,
    f: Frame,
    m: Mach,
)
    requires
        cx.vm.wf(),
        honest(e.w, cx.vm),
        site_honest(e.w, cx.vm, ic),
        arity_ok(cx.vm, ic),
        standing(s, this, slots, wr, f, e.w, m),
        classes_held(e.w, s.out, wr, m),
        forall|k: KlassOop, mem: int| #[trigger] makes(e.w, cx.vm, ic, k, mem),
        klass matches Some(k) ==> (e.w.class)(f.mem, f.me) == k,
        s.depth() >= ic.argc + 1,
    ensures
        seen(e, cx.vm, nonleaf_send(cx, mth, ic, this, klass, bci, proto, s)) ==> body_step(
            e,
            s,
            nonleaf_send(cx, mth, ic, this, klass, bci, proto, s),
            bci,
            Some(proto),
            this,
            slots,
            wr,
            f,
            answered(e.w, ic, f),
            m,
        ),
        seen(e, cx.vm, block_send(cx, ic, this, klass, bci, proto, s)) ==> body_step(
            e,
            s,
            block_send(cx, ic, this, klass, bci, proto, s),
            bci,
            Some(proto),
            this,
            slots,
            wr,
            f,
            answered(e.w, ic, f),
            m,
        ),
{
    let vm = cx.vm;
    let inl = Some(proto);
    if seen(e, vm, alloc_or_send(cx, ic, this, klass, bci, proto, s)) {
        lemma_alloc_or_send(e, cx, ic, this, klass, bci, proto, slots, wr, s, f, m);
    }
    if seen(e, vm, body_send(cx, ic, this, klass, bci, seq![], proto, s)) {
        lemma_body_send(e, cx, ic, this, klass, bci, seq![], proto, slots, wr, s, f, m);
    }
    if let Some(neq) = ref_eq(vm, ic) {
        if let Some(t) = ref_op(neq, s) {
            if sees(e, vm, t.out) {
                law_identity_sends_compare(e, vm, ic, bci, inl, this, slots, wr, s, f, m);
            }
        }
    }
    if not_speculatable(vm, ic) {
        if let Some(t) = not_op(vm, ic.selector, bci, inl, s) {
            if sees(e, vm, t.out) {
                law_not_sends_flip(e, vm, ic, bci, inl, this, slots, wr, s, f, m);
            }
        }
    }
    if let Some(put) = array_kind(vm, ic) {
        if let Some(t) = array_op(vm, put, bci, inl, s) {
            if sees(e, vm, t.out) {
                law_array_sends_access_the_receiver(e, vm, ic, bci, inl, this, slots, wr, s, f, m);
            }
        }
    }
    if let Some(k) = smi_kind(vm, ic) {
        if let Some(t) = smi_op(k, bci, inl, s) {
            if sees(e, vm, t.out) {
                law_smi_sends_compute(e, vm, ic, bci, inl, this, slots, wr, s, f, m);
            }
        }
    }
    if let Some(k) = double_kind(vm, ic) {
        law_double_sends_compute(e, vm, ic, bci, inl, this, slots, wr, s, f, m);
    }
}

/// A send inside a spliced block.
pub(crate) proof fn lemma_block_send(
    e: Env,
    cx: CtxView,
    ic: InterpreterIc,
    this: VReg,
    klass: Option<KlassOop>,
    bci: usize,
    proto: InlineView,
    slots: Seq<VReg>,
    wr: Set<VReg>,
    s: St,
    f: Frame,
    m: Mach,
)
    requires
        honest(e.w, cx.vm),
        site_honest(e.w, cx.vm, ic),
        arity_ok(cx.vm, ic),
        standing(s, this, slots, wr, f, e.w, m),
        s.depth() >= ic.argc + 1,
        seen(e, cx.vm, block_send(cx, ic, this, klass, bci, proto, s)),
    ensures
        body_step(
            e,
            s,
            block_send(cx, ic, this, klass, bci, proto, s),
            bci,
            Some(proto),
            this,
            slots,
            wr,
            f,
            answered(e.w, ic, f),
            m,
        ),
{
    let vm = cx.vm;
    let inl = Some(proto);
    if seen(e, vm, body_send(cx, ic, this, klass, bci, seq![], proto, s)) {
        lemma_body_send(e, cx, ic, this, klass, bci, seq![], proto, slots, wr, s, f, m);
    }
    if let Some(put) = array_kind(vm, ic) {
        if let Some(t) = array_op(vm, put, bci, inl, s) {
            if sees(e, vm, t.out) {
                law_array_sends_access_the_receiver(e, vm, ic, bci, inl, this, slots, wr, s, f, m);
            }
        }
    }
    if let Some(k) = smi_kind(vm, ic) {
        if let Some(t) = smi_op(k, bci, inl, s) {
            if sees(e, vm, t.out) {
                law_smi_sends_compute(e, vm, ic, bci, inl, this, slots, wr, s, f, m);
            }
        }
    }
    if let Some(k) = double_kind(vm, ic) {
        law_double_sends_compute(e, vm, ic, bci, inl, this, slots, wr, s, f, m);
    }
}

/// Interpreting from `(b0, f0)` comes to `(b1, f1)`.
pub open spec fn comes_to(
    w: World,
    vm: VmState,
    mth: Method,
    b0: int,
    f0: Frame,
    b1: int,
    f1: Frame,
) -> bool
    decreases mth.code@.len() - b0,
{
    ||| b0 == b1 && f0 == f1
    ||| 0 <= b0 < mth.code@.len() && b0 < mth.next_at(b0) <= mth.code@.len() && (does(
        w,
        vm,
        mth,
        mth.instr_at(b0),
        f0,
    ) matches Some(g) && comes_to(w, vm, mth, mth.next_at(b0), g, b1, f1))
}

/// How a body ends: with its answer, or in the interpreter, at an instruction that interpreting the
/// body comes to, on the activation that it comes there with.
#[verifier::opaque]
pub open spec fn body_ends(
    e: Env,
    vm: VmState,
    mth: Method,
    bci: int,
    f: Frame,
    s: St,
    t: St,
    v: Option<VReg>,
    proto: InlineView,
    this: VReg,
    slots: Seq<VReg>,
    wr: Set<VReg>,
    m: Mach,
) -> bool {
    match ran(e, t.seg.code, s.seg.code.len() as int, m) {
        Flow::On(m1) => v matches Some(r) && kept(m, m1, s.out.vregs.len(), wr) && body_answer(
            e.w,
            vm,
            mth,
            bci,
            f,
        ) == Some(((m1.regs)(r), m1.mem)),
        Flow::To(b, m1) => kept(m, m1, s.out.vregs.len(), wr) && exists|b1: usize, f1: Frame|
            comes_to(e.w, vm, mth, bci, f, b1 as int, f1) && #[trigger] runs_again(
                t.out.blocks,
                s.out.blocks.len(),
                b,
                b1,
                Some(proto),
                m1,
                this,
                slots,
                f1,
            ),
        Flow::Leave(m1) => v is None && kept(m, m1, s.out.vregs.len(), wr) && exists|
            b1: usize,
            f1: Frame,
        |
            comes_to(e.w, vm, mth, bci, f, b1 as int, f1) && t.seg.deopt.len() > 0
                && t.seg.deopt.last().0 == (t.seg.code.len() - 1) as u32 && #[trigger] resumes(
                t.seg.deopt.last().1,
                b1,
                Some(proto),
                m1,
                this,
                slots,
                f1,
            ),
        _ => false,
    }
}

pub(crate) proof fn lemma_nonleaf_grows(
    cx: CtxView,
    mth: Method,
    ic: InterpreterIc,
    this: VReg,
    klass: Option<KlassOop>,
    bci: usize,
    proto: InlineView,
    s: St,
)
    ensures
        nonleaf_send(cx, mth, ic, this, klass, bci, proto, s) matches Some((t, _)) ==> out_grown(s, t),
        block_send(cx, ic, this, klass, bci, proto, s) matches Some((t, _)) ==> out_grown(s, t),
{
    let vm = cx.vm;
    let ks = match smi_kind(vm, ic) {
        Some(k) => k,
        None => arbitrary(),
    };
    let kd = match double_kind(vm, ic) {
        Some(k) => k,
        None => arbitrary(),
    };
    let put = match array_kind(vm, ic) {
        Some(k) => k,
        None => arbitrary(),
    };
    let neq = match ref_eq(vm, ic) {
        Some(k) => k,
        None => arbitrary(),
    };
    lemma_grow_fused(vm, ic.selector, put, neq, ks, kd, bci, Some(proto), s);
    lemma_grow_sends(cx, ic, this, klass, bci, seq![], proto, s);
}

proof fn lemma_walk_grows(
    cx: CtxView,
    mth: Method,
    this: VReg,
    klass: Option<KlassOop>,
    slots: Seq<VReg>,
    proto: InlineView,
    bci: int,
    s: St,
)
    ensures
        nonleaf_walk(cx, mth, this, klass, slots, proto, bci, s) matches Some((t, _)) ==> grown(
            s.out,
            t.out,
        ) && extends(s.seg.code, t.seg.code),
    decreases mth.code@.len() - bci,
{
    if bci < 0 || bci >= mth.code@.len() || !(bci < mth.next_at(bci) <= mth.code@.len()) {
    } else {
        let i = mth.instr_at(bci);
        let next = mth.next_at(bci);
        let w = nonleaf_walk(cx, mth, this, klass, slots, proto, bci, s);
        if i is ReturnTos || i is ReturnSelf {
        } else if let Instr::Send { ic, .. } = i {
            let site = mth.ics@[ic as int];
            lemma_nonleaf_grows(cx, mth, site, this, klass, bci as usize, proto, s);
            let r = nonleaf_send(cx, mth, site, this, klass, bci as usize, proto, s);
            if r is Some {
                let s1 = (r->0).0;
                if !(r->0).1 {
                    lemma_walk_grows(cx, mth, this, klass, slots, proto, next, s1);
                    let w1 = nonleaf_walk(cx, mth, this, klass, slots, proto, next, s1);
                    assert(w == w1);
                    if w1 is Some {
                        lemma_grown(s.out, s1.out, (w1->0).0.out);
                    }
                }
            }
        } else {
            lemma_simple_grows(cx.vm, mth, i, this, slots, true, s);
            let r = simple(cx.vm, mth, i, this, slots, true, s);
            if r is Some {
                lemma_walk_grows(cx, mth, this, klass, slots, proto, next, r->0);
                let w1 = nonleaf_walk(cx, mth, this, klass, slots, proto, next, r->0);
                assert(w == w1);
                if w1 is Some {
                    lemma_grown(s.out, (r->0).out, (w1->0).0.out);
                }
            }
        }
    }
}

/// What a body is walked with.
pub open spec fn body_ready(e: Env, cx: CtxView, mth: Method, slots: Seq<VReg>, wr: Set<VReg>) -> bool {
    &&& cx.vm.wf()
    &&& honest(e.w, cx.vm)
    &&& mth.code_wf()
    &&& forall|b: int|
        0 <= b < mth.code@.len() && mth.code@[b] is Some ==> writable(
            #[trigger] mth.instr_at(b),
            slots,
            wr,
        ) && !(mth.instr_at(b) matches Instr::Send { super_, .. } && super_)
    &&& forall|x: int|
        0 <= x < mth.ics@.len() ==> site_honest(e.w, cx.vm, #[trigger] mth.ics@[x]) && arity_ok(
            cx.vm,
            mth.ics@[x],
        )
    &&& forall|x: int, k: KlassOop, mem: int|
        0 <= x < mth.ics@.len() ==> #[trigger] makes(e.w, cx.vm, mth.ics@[x], k, mem)
    &&& forall|x: int, mem: int|
        0 <= x < mth.literals@.len() ==> ((#[trigger] mth.literals@[x]).global_klass matches Some(k)
            ==> #[trigger] (e.w.field)(
            mem,
            (e.w.word)(mth.literals@[x].raw),
            association_value(),
        ) == (e.w.word)(k.0))
}

/// The class of the receiver stays what it is.
pub open spec fn class_fixed(w: World, me: int, klass: Option<KlassOop>) -> bool {
    klass matches Some(k) ==> forall|mem: int| #[trigger] (w.class)(mem, me) == k
}

/// What moves leave of the registers that hold classes.
pub(crate) proof fn lemma_classes_moved(
    e: Env,
    vm: VmState,
    mth: Method,
    i: Instr,
    this: VReg,
    slots: Seq<VReg>,
    wr: Set<VReg>,
    s: St,
    f: Frame,
    m: Mach,
)
    requires
        simple(vm, mth, i, this, slots, true, s) matches Some(t) && sees(e, vm, t.out),
        writable(i, slots, wr),
        placed(s.seg.stack, this, slots, wr, s.out.vregs.len()),
        holds(m, s.seg.stack, this, slots, f),
        classes_held(e.w, s.out, wr, m),
        forall|x: int, mem: int|
            0 <= x < mth.literals@.len() ==> ((#[trigger] mth.literals@[x]).global_klass matches Some(k)
                ==> #[trigger] (e.w.field)(
                mem,
                (e.w.word)(mth.literals@[x].raw),
                association_value(),
            ) == (e.w.word)(k.0)),
        mth.instr_wf(i),
    ensures
        ({
            let t = simple(vm, mth, i, this, slots, true, s)->0;
            ran(e, t.seg.code, s.seg.code.len() as int, m) matches Flow::On(m1) && classes_held(
                e.w,
                t.out,
                wr,
                m1,
            ) && (t.seg.code.len() > 0 ==> (t.seg.code.last() matches Ir::ConstSmi { dst, value }
                ==> (m1.regs)(dst) == (e.w.small)(value as int) || t.seg.code == s.seg.code)) && (
            t.seg.code == s.seg.code ==> m1 == m)
        }),
{
    law_moves_mean_what_they_say(e, vm, mth, i, this, slots, wr, true, s, f, m);
    let t = simple(vm, mth, i, this, slots, true, s)->0;
    let from = s.seg.code.len() as int;
    let m1 = ran(e, t.seg.code, from, m)->On_0;
    if let Instr::PushGlobal(x) = i {
        lemma_lit_here(e, vm, s.out, pool_oop(mth.literals@[x as int].raw));
        let lit = mth.literals@[x as int];
        let g = does(e.w, vm, mth, i, f)->0;
        let d = t.seg.stack.last();
        assert(values(m1.regs, t.seg.stack)[t.depth() - 1] == (m1.regs)(d));
    }
    assert forall|v: u32| #[trigger] t.out.const_class.dom().contains(v) implies v < t.out.vregs.len()
        && !wr.contains(VReg(v)) && (m1.regs)(VReg(v)) == (e.w.word)(t.out.const_class[v].0) by {
        if s.out.const_class.dom().contains(v) && v < s.out.vregs.len() {
            assert((m1.regs)(VReg(v)) == (m.regs)(VReg(v)));
        }
    }
}

/// The body returns here.
proof fn lemma_returned(
    e: Env,
    vm: VmState,
    mth: Method,
    bci: int,
    f: Frame,
    s: St,
    t: St,
    v: Option<VReg>,
    proto: InlineView,
    this: VReg,
    slots: Seq<VReg>,
    wr: Set<VReg>,
    m: Mach,
)
    requires
        t.seg.code == s.seg.code,
        v matches Some(r) && body_answer(e.w, vm, mth, bci, f) == Some(((m.regs)(r), m.mem)),
    ensures
        body_ends(e, vm, mth, bci, f, s, t, v, proto, this, slots, wr, m),
{
    reveal(body_ends);
    assert(ran(e, t.seg.code, s.seg.code.len() as int, m) == Flow::On(m));
}

/// The body leaves here.
proof fn lemma_left(
    e: Env,
    vm: VmState,
    mth: Method,
    bci: int,
    f: Frame,
    s: St,
    t: St,
    v: Option<VReg>,
    proto: InlineView,
    this: VReg,
    slots: Seq<VReg>,
    wr: Set<VReg>,
    m: Mach,
)
    requires
        v is None,
        0 <= bci <= usize::MAX,
        leaves_here(e, s, t, bci as usize, Some(proto), this, slots, f, m),
    ensures
        body_ends(e, vm, mth, bci, f, s, t, v, proto, this, slots, wr, m),
{
    reveal(body_ends);
    let b1 = bci as usize;
    let from = s.seg.code.len() as int;
    assert(comes_to(e.w, vm, mth, bci, f, b1 as int, f));
    assert(ran(e, t.seg.code, from, m) == Flow::Leave(m));
    assert(t.seg.code.len() - 1 == from);
    assert(t.seg.deopt.last().0 == (t.seg.code.len() - 1) as u32);
    assert(kept(m, m, s.out.vregs.len(), wr));
    assert(resumes(t.seg.deopt.last().1, b1, Some(proto), m, this, slots, f));
    assert(exists|b1: usize, f1: Frame|
        comes_to(e.w, vm, mth, bci, f, b1 as int, f1) && t.seg.deopt.len() > 0
            && t.seg.deopt.last().0 == (t.seg.code.len() - 1) as u32 && #[trigger] resumes(
            t.seg.deopt.last().1,
            b1,
            Some(proto),
            m,
            this,
            slots,
            f1,
        ));
}

/// The instruction here runs again.
proof fn lemma_again(
    e: Env,
    vm: VmState,
    mth: Method,
    bci: int,
    f: Frame,
    s: St,
    s1: St,
    t: St,
    v: Option<VReg>,
    proto: InlineView,
    this: VReg,
    slots: Seq<VReg>,
    wr: Set<VReg>,
    m: Mach,
)
    requires
        0 <= bci <= usize::MAX,
        extends(s.seg.code, s1.seg.code),
        extends(s1.seg.code, t.seg.code),
        grown(s1.out, t.out),
        ran(e, s1.seg.code, s.seg.code.len() as int, m) matches Flow::To(b, m1) && runs_again(
            s1.out.blocks,
            s.out.blocks.len(),
            b,
            bci as usize,
            Some(proto),
            m1,
            this,
            slots,
            f,
        ) && kept(m, m1, s.out.vregs.len(), wr),
    ensures
        body_ends(e, vm, mth, bci, f, s, t, v, proto, this, slots, wr, m),
{
    reveal(body_ends);
    let b1 = bci as usize;
    assert(comes_to(e.w, vm, mth, bci, f, b1 as int, f));
    lemma_ran_more(e, s1.seg.code, t.seg.code, s.seg.code.len() as int, m);
    if let Flow::To(b, m1) = ran(e, s1.seg.code, s.seg.code.len() as int, m) {
        assert(t.out.blocks[b.0 as int] == s1.out.blocks[b.0 as int]);
        assert(runs_again(
            t.out.blocks,
            s.out.blocks.len(),
            b,
            b1,
            Some(proto),
            m1,
            this,
            slots,
            f,
        ));
    }
}

/// A send in the body, with what it is walked with.
proof fn lemma_send_here(
    e: Env,
    cx: CtxView,
    mth: Method,
    this: VReg,
    klass: Option<KlassOop>,
    slots: Seq<VReg>,
    wr: Set<VReg>,
    proto: InlineView,
    bci: int,
    s: St,
    f: Frame,
    m: Mach,
)
    requires
        0 <= bci < mth.code@.len(),
        mth.code@[bci] is Some,
        mth.instr_at(bci) is Send,
        ({
            let site = mth.ics@[mth.instr_at(bci)->Send_ic as int];
            nonleaf_send(cx, mth, site, this, klass, bci as usize, proto, s) matches Some((t, _))
                && sees(e, cx.vm, t.out)
        }),
        body_ready(e, cx, mth, slots, wr),
        standing(s, this, slots, wr, f, e.w, m),
        classes_held(e.w, s.out, wr, m),
        class_fixed(e.w, f.me, klass),
    ensures
        ({
            let site = mth.ics@[mth.instr_at(bci)->Send_ic as int];
            let r = nonleaf_send(cx, mth, site, this, klass, bci as usize, proto, s);
            &&& body_step(
                e,
                s,
                r,
                bci as usize,
                Some(proto),
                this,
                slots,
                wr,
                f,
                answered(e.w, site, f),
                m,
            )
            &&& does(e.w, cx.vm, mth, mth.instr_at(bci), f) == Some(answered(e.w, site, f))
        }),
{
    let vm = cx.vm;
    let ic = mth.instr_at(bci)->Send_ic;
    let site = mth.ics@[ic as int];
    assert(mth.instr_wf(mth.instr_at(bci)));
    assert(site_honest(e.w, vm, mth.ics@[ic as int]));
    assert forall|k: KlassOop, mem: int| #[trigger] makes(e.w, vm, site, k, mem) by {
        assert(makes(e.w, vm, mth.ics@[ic as int], k, mem));
    }
    lemma_depth_needed(cx, mth, site, this, klass, bci as usize, proto, s);
    law_body_sends_answer(e, cx, mth, site, this, klass, bci as usize, proto, slots, wr, s, f, m);
    assert(values(m.regs, s.seg.stack).len() == s.depth());
}

/// What a send leaves the rest of the body with.
proof fn lemma_sent(
    e: Env,
    s: St,
    s1: St,
    this: VReg,
    slots: Seq<VReg>,
    wr: Set<VReg>,
    f: Frame,
    g: Frame,
    m: Mach,
    m1: Mach,
)
    requires
        standing(s, this, slots, wr, f, e.w, m),
        classes_held(e.w, s.out, wr, m),
        out_grown(s, s1),
        s1.out.blocks.len() < u32::MAX,
        ran(e, s1.seg.code, s.seg.code.len() as int, m) == Flow::On(m1),
        holds(m1, s1.seg.stack, this, slots, g),
        kept(m, m1, s.out.vregs.len(), wr),
        placed(s1.seg.stack, this, slots, wr, s1.out.vregs.len()),
    ensures
        standing(s1, this, slots, wr, g, e.w, m1),
        classes_held(e.w, s1.out, wr, m1),
{
    lemma_tail(e, s, s1, m, m1);
    lemma_classes_kept(e, s, s1, wr, m, m1);
}

proof fn lemma_nonleaf_answers(
    e: Env,
    cx: CtxView,
    mth: Method,
    this: VReg,
    klass: Option<KlassOop>,
    slots: Seq<VReg>,
    wr: Set<VReg>,
    proto: InlineView,
    bci: int,
    s: St,
    f: Frame,
    m: Mach,
)
    requires
        nonleaf_walk(cx, mth, this, klass, slots, proto, bci, s) matches Some((t, v)) && sees(
            e,
            cx.vm,
            t.out,
        ) && t.out.blocks.len() < u32::MAX && t.seg.code.len() <= u32::MAX,
        body_ready(e, cx, mth, slots, wr),
        mth.boundary(bci),
        standing(s, this, slots, wr, f, e.w, m),
        classes_held(e.w, s.out, wr, m),
        class_fixed(e.w, f.me, klass),
    ensures
        ({
            let (t, v) = nonleaf_walk(cx, mth, this, klass, slots, proto, bci, s)->0;
            body_ends(e, cx.vm, mth, bci, f, s, t, v, proto, this, slots, wr, m)
        }),
    decreases mth.code@.len() - bci,
{
    let vm = cx.vm;
    let w = nonleaf_walk(cx, mth, this, klass, slots, proto, bci, s);
    let (t, v) = w->0;
    let i = mth.instr_at(bci);
    let next = mth.next_at(bci);
    let from = s.seg.code.len() as int;
    assert(mth.code@[bci] is Some);
    assert(writable(mth.instr_at(bci), slots, wr));
    assert(comes_to(e.w, vm, mth, bci, f, bci, f));
    if i is ReturnTos {
        let n = s.depth();
        assert(values(m.regs, s.seg.stack)[n - 1] == (m.regs)(s.seg.stack[n - 1]));
        assert(body_answer(e.w, vm, mth, bci, f) == Some((f.top(), f.mem)));
        lemma_returned(e, vm, mth, bci, f, s, t, v, proto, this, slots, wr, m);
    } else if i is ReturnSelf {
        lemma_returned(e, vm, mth, bci, f, s, t, v, proto, this, slots, wr, m);
    } else if let Instr::Send { ic, super_ } = i {
        let site = mth.ics@[ic as int];
        let r = nonleaf_send(cx, mth, site, this, klass, bci as usize, proto, s);
        let s1 = (r->0).0;
        lemma_nonleaf_grows(cx, mth, site, this, klass, bci as usize, proto, s);
        lemma_walk_grows(cx, mth, this, klass, slots, proto, next, s1);
        lemma_sees_less(e, vm, s1.out, t.out);
        lemma_send_here(e, cx, mth, this, klass, slots, wr, proto, bci, s, f, m);
        let g = answered(e.w, site, f);
        if (r->0).1 {
            lemma_left(e, vm, mth, bci, f, s, t, v, proto, this, slots, wr, m);
        } else {
            lemma_ran_more(e, s1.seg.code, t.seg.code, from, m);
            match ran(e, s1.seg.code, from, m) {
                Flow::On(m1) => {
                    lemma_sent(e, s, s1, this, slots, wr, f, g, m, m1);
                    lemma_nonleaf_answers(
                        e,
                        cx,
                        mth,
                        this,
                        klass,
                        slots,
                        wr,
                        proto,
                        next,
                        s1,
                        g,
                        m1,
                    );
                    lemma_ends_later(
                        e,
                        vm,
                        mth,
                        bci,
                        f,
                        g,
                        s,
                        s1,
                        t,
                        v,
                        proto,
                        this,
                        slots,
                        wr,
                        m,
                        m1,
                    );
                },
                Flow::To(b, m1) => {
                    lemma_again(
                        e,
                        vm,
                        mth,
                        bci,
                        f,
                        s,
                        s1,
                        t,
                        v,
                        proto,
                        this,
                        slots,
                        wr,
                        m,
                    );
                },
                _ => {},
            }
        }
    } else {
        lemma_simple_grows(vm, mth, i, this, slots, true, s);
        let s1 = simple(vm, mth, i, this, slots, true, s)->0;
        lemma_walk_grows(cx, mth, this, klass, slots, proto, next, s1);
        lemma_sees_less(e, vm, s1.out, t.out);
        law_moves_mean_what_they_say(e, vm, mth, i, this, slots, wr, true, s, f, m);
        lemma_classes_moved(e, vm, mth, i, this, slots, wr, s, f, m);
        let m1 = ran(e, s1.seg.code, from, m)->On_0;
        let g = does(e.w, vm, mth, i, f)->0;
        lemma_ran_more(e, s1.seg.code, t.seg.code, from, m);
        assert(g.me == f.me);
        lemma_nonleaf_answers(e, cx, mth, this, klass, slots, wr, proto, next, s1, g, m1);
        lemma_ends_later(e, vm, mth, bci, f, g, s, s1, t, v, proto, this, slots, wr, m, m1);
    }
}

/// The last operation that ran was the last of the line.
pub(crate) proof fn lemma_tail(e: Env, s: St, t: St, m: Mach, m1: Mach)
    requires
        extends(s.seg.code, t.seg.code),
        ran(e, t.seg.code, s.seg.code.len() as int, m) == Flow::On(m1),
        s.seg.code.len() > 0 ==> (s.seg.code.last() matches Ir::ConstSmi { dst, value } ==> (m.regs)(
            dst,
        ) == (e.w.small)(value as int)),
    ensures
        t.seg.code.len() > 0 ==> (t.seg.code.last() matches Ir::ConstSmi { dst, value } ==> (m1.regs)(
            dst,
        ) == (e.w.small)(value as int)),
{
    let n = t.seg.code.len() as int;
    let from = s.seg.code.len() as int;
    if n > from {
        assert(crate::machine::run(e, t.seg.code, from, n, m) == Flow::On(m1));
    } else {
        assert(t.seg.code =~= s.seg.code);
    }
}

pub(crate) proof fn lemma_classes_kept(e: Env, s: St, t: St, wr: Set<VReg>, m: Mach, m1: Mach)
    requires
        classes_held(e.w, s.out, wr, m),
        t.out.const_class == s.out.const_class,
        s.out.vregs.len() <= t.out.vregs.len(),
        kept(m, m1, s.out.vregs.len(), wr),
    ensures
        classes_held(e.w, t.out, wr, m1),
{
    assert forall|v: u32| #[trigger] t.out.const_class.dom().contains(v) implies v
        < t.out.vregs.len() && !wr.contains(VReg(v)) && (m1.regs)(VReg(v)) == (e.w.word)(
        t.out.const_class[v].0,
    ) by {
        assert(s.out.const_class.dom().contains(v));
        assert((m1.regs)(VReg(v)) == (m.regs)(VReg(v)));
    }
}

/// A send that translates has its operands.
pub(crate) proof fn lemma_depth_needed(
    cx: CtxView,
    mth: Method,
    ic: InterpreterIc,
    this: VReg,
    klass: Option<KlassOop>,
    bci: usize,
    proto: InlineView,
    s: St,
)
    requires
        arity_ok(cx.vm, ic),
    ensures
        nonleaf_send(cx, mth, ic, this, klass, bci, proto, s) is Some ==> s.depth() >= ic.argc + 1,
        block_send(cx, ic, this, klass, bci, proto, s) is Some ==> s.depth() >= ic.argc + 1,
{
}

/// What holds of the rest of a body holds of the whole.
proof fn lemma_ends_later(
    e: Env,
    vm: VmState,
    mth: Method,
    bci: int,
    f: Frame,
    g: Frame,
    s: St,
    s1: St,
    t: St,
    v: Option<VReg>,
    proto: InlineView,
    this: VReg,
    slots: Seq<VReg>,
    wr: Set<VReg>,
    m: Mach,
    m1: Mach,
)
    requires
        0 <= bci < mth.code@.len(),
        bci < mth.next_at(bci) <= mth.code@.len(),
        !(mth.instr_at(bci) is ReturnTos || mth.instr_at(bci) is ReturnSelf),
        does(e.w, vm, mth, mth.instr_at(bci), f) == Some(g),
        body_ends(e, vm, mth, mth.next_at(bci), g, s1, t, v, proto, this, slots, wr, m1),
        ran(e, t.seg.code, s.seg.code.len() as int, m) == ran(
            e,
            t.seg.code,
            s1.seg.code.len() as int,
            m1,
        ),
        kept(m, m1, s.out.vregs.len(), wr),
        s.out.vregs.len() <= s1.out.vregs.len(),
        s.out.blocks.len() <= s1.out.blocks.len(),
    ensures
        body_ends(e, vm, mth, bci, f, s, t, v, proto, this, slots, wr, m),
{
    reveal(body_ends);
    let next = mth.next_at(bci);
    assert(body_answer(e.w, vm, mth, bci, f) == body_answer(e.w, vm, mth, next, g));
    assert forall|b1: int, f1: Frame| comes_to(e.w, vm, mth, next, g, b1, f1) implies #[trigger] comes_to(
        e.w,
        vm,
        mth,
        bci,
        f,
        b1,
        f1,
    ) by {}
    match ran(e, t.seg.code, s.seg.code.len() as int, m) {
        Flow::To(b, m2) => {
            let (b1, f1) = choose|b1: usize, f1: Frame|
                comes_to(e.w, vm, mth, next, g, b1 as int, f1) && #[trigger] runs_again(
                    t.out.blocks,
                    s1.out.blocks.len(),
                    b,
                    b1,
                    Some(proto),
                    m2,
                    this,
                    slots,
                    f1,
                );
            assert(comes_to(e.w, vm, mth, bci, f, b1 as int, f1));
            assert(runs_again(
                t.out.blocks,
                s.out.blocks.len(),
                b,
                b1,
                Some(proto),
                m2,
                this,
                slots,
                f1,
            ));
        },
        Flow::Leave(m2) => {
            let (b1, f1) = choose|b1: usize, f1: Frame|
                comes_to(e.w, vm, mth, next, g, b1 as int, f1) && t.seg.deopt.len() > 0
                    && t.seg.deopt.last().0 == (t.seg.code.len() - 1) as u32 && #[trigger] resumes(
                    t.seg.deopt.last().1,
                    b1,
                    Some(proto),
                    m2,
                    this,
                    slots,
                    f1,
                );
            assert(comes_to(e.w, vm, mth, bci, f, b1 as int, f1));
        },
        _ => {},
    }
}

/// The answer of a body is the receiver or in a register that was made for it.
proof fn lemma_walk_value(
    cx: CtxView,
    mth: Method,
    this: VReg,
    klass: Option<KlassOop>,
    slots: Seq<VReg>,
    proto: InlineView,
    bci: int,
    s: St,
    n: nat,
)
    requires
        own_operands(s.seg.stack, this, n, s.out.vregs.len()),
        n <= s.out.vregs.len(),
        nonleaf_walk(cx, mth, this, klass, slots, proto, bci, s) matches Some((t, v))
            && t.out.vregs.len() <= 0x1_0000_0000,
    ensures
        ({
            let (t, v) = nonleaf_walk(cx, mth, this, klass, slots, proto, bci, s)->0;
            v matches Some(r) ==> r == this || n <= r.0 < t.out.vregs.len()
        }),
    decreases mth.code@.len() - bci,
{
    let w = nonleaf_walk(cx, mth, this, klass, slots, proto, bci, s);
    let i = mth.instr_at(bci);
    let next = mth.next_at(bci);
    if i is ReturnTos {
        assert(s.seg.stack[s.depth() - 1] == s.top(0));
    } else if i is ReturnSelf {
    } else if let Instr::Send { ic, .. } = i {
        let site = mth.ics@[ic as int];
        lemma_nonleaf_grows(cx, mth, site, this, klass, bci as usize, proto, s);
        let r = nonleaf_send(cx, mth, site, this, klass, bci as usize, proto, s);
        if !(r->0).1 {
            let s1 = (r->0).0;
            lemma_walk_grows(cx, mth, this, klass, slots, proto, next, s1);
            assert(w == nonleaf_walk(cx, mth, this, klass, slots, proto, next, s1));
            lemma_send_operands(cx, mth, site, this, klass, bci as usize, proto, s, n);
            lemma_walk_value(cx, mth, this, klass, slots, proto, next, s1, n);
        }
    } else {
        lemma_simple_grows(cx.vm, mth, i, this, slots, true, s);
        let s1 = simple(cx.vm, mth, i, this, slots, true, s)->0;
        lemma_walk_grows(cx, mth, this, klass, slots, proto, next, s1);
        assert(w == nonleaf_walk(cx, mth, this, klass, slots, proto, next, s1));
        lemma_simple_operands(cx.vm, mth, i, this, slots, true, s, n);
        lemma_walk_value(cx, mth, this, klass, slots, proto, next, s1, n);
    }
}

/// The result of a send in a body is in a register that was made for it.
proof fn lemma_send_operands(
    cx: CtxView,
    mth: Method,
    ic: InterpreterIc,
    this: VReg,
    klass: Option<KlassOop>,
    bci: usize,
    proto: InlineView,
    s: St,
    n: nat,
)
    requires
        own_operands(s.seg.stack, this, n, s.out.vregs.len()),
        n <= s.out.vregs.len(),
        nonleaf_send(cx, mth, ic, this, klass, bci, proto, s) matches Some((t, trapped)) && !trapped
            && t.out.vregs.len() <= 0x1_0000_0000,
    ensures
        ({
            let (t, trapped) = nonleaf_send(cx, mth, ic, this, klass, bci, proto, s)->0;
            own_operands(t.seg.stack, this, n, t.out.vregs.len())
        }),
{
}

/// The frames of a spliced callee: the callee's own, and the caller's, which waits below it.
pub open spec fn waits(proto: InlineView, bci: usize, m: Mach, this: VReg, slots: Seq<VReg>, f: Frame, argc: int) -> bool {
    &&& proto.sender_bci == bci as u16
    &&& !proto.is_block
    &&& proto.parent is None
    &&& values(m.regs, proto.caller_pending_stack) == f.stack.subrange(0, f.stack.len() - argc - 1)
    &&& values(m.regs, slots) == f.slots
    &&& (m.regs)(this) == f.me
}

/// How a spliced straight-line body ends for its caller: with the answer of the send in place of the
/// operands; in the interpreter, before the send, where the guard did not pass; or in
/// the interpreter inside the callee, where interpreting the callee comes to, above the caller.
pub open spec fn splice_ends(
    e: Env,
    vm: VmState,
    callee: MethodOop,
    s: St,
    t: St,
    v: Option<VReg>,
    bci: usize,
    ic: InterpreterIc,
    proto: InlineView,
    this: VReg,
    slots: Seq<VReg>,
    wr: Set<VReg>,
    f: Frame,
    g: Frame,
    m: Mach,
) -> bool {
    let mth = vm.m(callee);
    let n = f.stack.len() as int;
    let h = activation(e.w, vm, mth, f.stack.subrange(n - ic.argc - 1, n), f.mem);
    &&& extends(s.seg.code, t.seg.code)
    &&& s.out.vregs.len() <= t.out.vregs.len()
    &&& v matches Some(r) ==> placed(t.seg.stack.push(r), this, slots, wr, t.out.vregs.len())
    &&& match ran(e, t.seg.code, s.seg.code.len() as int, m) {
        Flow::On(m1) => kept(m, m1, s.out.vregs.len(), wr) && (v matches Some(r) && holds(
            m1,
            t.seg.stack.push(r),
            this,
            slots,
            g,
        )),
        Flow::To(b, m1) => kept(m, m1, s.out.vregs.len(), wr) && (runs_again(
            t.out.blocks,
            s.out.blocks.len(),
            b,
            bci,
            None,
            m1,
            this,
            slots,
            f,
        ) || waits(proto, bci, m1, this, slots, f, ic.argc as int) && exists|b1: usize, f1: Frame|
            comes_to(e.w, vm, mth, 0, h, b1 as int, f1) && #[trigger] runs_again(
                t.out.blocks,
                s.out.blocks.len(),
                b,
                b1,
                Some(proto),
                m1,
                proto.receiver,
                proto.slots,
                f1,
            )),
        Flow::Leave(m1) => v is None && kept(m, m1, s.out.vregs.len(), wr) && waits(
            proto,
            bci,
            m1,
            this,
            slots,
            f,
            ic.argc as int,
        ) && exists|b1: usize, f1: Frame|
            comes_to(e.w, vm, mth, 0, h, b1 as int, f1) && t.seg.deopt.len() > 0
                && t.seg.deopt.last().0 == (t.seg.code.len() - 1) as u32 && #[trigger] resumes(
                t.seg.deopt.last().1,
                b1,
                Some(proto),
                m1,
                proto.receiver,
                proto.slots,
                f1,
            ),
        _ => false,
    }
}

/// A spliced body with sends, whatever the send that it stands for.
pub(crate) proof fn lemma_inlined_body(
    e: Env,
    cx: CtxView,
    ic: InterpreterIc,
    callee: MethodOop,
    guard: Option<(KlassOop, GuardShape)>,
    dep_klass: KlassOop,
    bci: usize,
    this: VReg,
    slots: Seq<VReg>,
    wr: Set<VReg>,
    s: St,
    f: Frame,
    g: Frame,
    m: Mach,
)
    requires
        cx.vm.wf(),
        cx.vm.has(callee),
        honest(e.w, cx.vm),
        steady(e.w, cx.vm),
        guard_fits(cx.vm, guard),
        runs_as(e.w, cx.vm, callee, ic, guard, f, g),
        cx.vm.m(callee).primitive == 0,
        stores_temps(cx.vm.m(callee)),
        sends_fit(e.w, cx.vm, cx.vm.m(callee)),
        standing(s, this, slots, wr, f, e.w, m),
        classes_held(e.w, s.out, wr, m),
        s.top(ic.argc as int) == cx.self_vreg ==> (e.w.class)(f.mem, (m.regs)(cx.self_vreg))
            == cx.rcvr_klass,
        s.depth() >= ic.argc + 1,
        ({
            let x = site_of(ic, callee, guard, dep_klass, bci, s);
            inline_nonleaf(cx, x, s.drop(ic.argc + 1)) matches Some((t, Some(o))) && sees(
                e,
                cx.vm,
                t.out,
            ) && t.out.blocks.len() < u32::MAX && t.seg.code.len() <= u32::MAX
        }),
    ensures
        ({
            let x = site_of(ic, callee, guard, dep_klass, bci, s);
            let below = s.drop(ic.argc + 1);
            let (t, o) = inline_nonleaf(cx, x, below)->0;
            let v = match o->0 {
                NonLeafOutcome::Value(r) => Some(r),
                NonLeafOutcome::Trapped => None,
            };
            splice_ends(
                e,
                cx.vm,
                callee,
                s,
                t,
                v,
                bci,
                ic,
                method_proto(cx.vm, x, below),
                this,
                slots,
                wr,
                f,
                g,
                m,
            )
        }),
{
    reveal(honest);
    let w = e.w;
    let vm = cx.vm;
    let x = site_of(ic, callee, guard, dep_klass, bci, s);
    let below = s.drop(ic.argc + 1);
    let (t, o) = inline_nonleaf(cx, x, below)->0;
    let mth = vm.m(callee);
    assert(mth == vm.methods@[callee.0 as int]);
    assert(mth.wf(vm.methods@.len() as int));
    let n = s.out.vregs.len();
    let d = f.stack.len() as int;
    assert(values(m.regs, s.seg.stack).len() == s.depth());
    let args = f.stack.subrange(d - ic.argc - 1, d);
    let s0 = below.intern(pool_oop(mth.oop));
    let s1 = enter_body(vm, x, seq![], s0)->0;
    let bs = body_slots(vm, x, below);
    let proto = method_proto(vm, x, below);
    let klass = body_klass(cx, x);
    let (s2, v) = nonleaf_walk(cx, mth, x.receiver, klass, bs, proto, 0, s1)->0;
    lemma_walk_grows(cx, mth, x.receiver, klass, bs, proto, 0, s1);
    assert(grown(s2.out, t.out));
    assert(t.seg.deopt == s2.seg.deopt && t.seg.code == s2.seg.code);
    lemma_sees_less(e, vm, s2.out, t.out);
    lemma_sees_less(e, vm, s1.out, s2.out);
    assert(grown(below.out, s0.out));
    lemma_entered(e, vm, x, seq![], s0, m);
    let from = s.seg.code.len() as int;
    lemma_ran_more(e, s1.seg.code, s2.seg.code, from, m);
    assert forall|i: int| 0 <= i < args.len() implies args[i] == (m.regs)(
        #[trigger] s.seg.stack[d - ic.argc - 1 + i],
    ) by {
        assert(values(m.regs, s.seg.stack)[d - ic.argc - 1 + i] == (m.regs)(
            s.seg.stack[d - ic.argc - 1 + i],
        ));
    }
    assert(x.receiver == s.seg.stack[d - ic.argc - 1 + 0]);
    assert forall|i: int| 0 <= i < x.args.len() implies args[1 + i] == (m.regs)(
        #[trigger] x.args[i],
    ) && x.args[i].0 < n by {
        assert(x.args[i] == s.seg.stack[d - ic.argc - 1 + (1 + i)]);
    }
    assert(with_operands(s0.seg.stack, x) =~= s.seg.stack);
    assert(bs == x.args + Seq::new(mth.ntemps as nat, |i: int| VReg((n + i) as u32)));
    if let Some(r) = v {
        lemma_walk_value(cx, mth, x.receiver, klass, bs, proto, 0, s1, n);
        assert forall|k: int| 0 <= k < t.seg.stack.push(r).len() implies (
        #[trigger] t.seg.stack.push(r)[k]).0 < t.out.vregs.len() && !wr.contains(
            t.seg.stack.push(r)[k],
        ) by {
            if k < below.seg.stack.len() {
                assert(t.seg.stack.push(r)[k] == s.seg.stack[k]);
            }
        }
    }
    let fresh = fresh_set(n, mth.ntemps as nat);
    let h = activation(w, vm, mth, args, f.mem);
    match ran(e, s1.seg.code, from, m) {
        Flow::On(m1) => {
            lemma_activated(e, vm, mth, x, n, args, m, m1);
            lemma_writable(mth, x.args, n);
            lemma_sends_fit(e, cx, callee, bs, fresh);
            assert(class_fixed(w, h.me, klass)) by {
                if let Some(k) = klass {
                    assert((w.class)(f.mem, h.me) == k);
                    assert forall|mem: int| #[trigger] (w.class)(mem, h.me) == k by {
                        assert((w.class)(mem, h.me) == (w.class)(f.mem, h.me));
                    }
                }
            }
            assert(classes_held(w, s1.out, fresh, m1)) by {
                assert(s1.out.const_class == s.out.const_class) by {
                    lemma_enter_classes(vm, x, seq![], s0);
                }
                assert forall|u: u32| #[trigger] s1.out.const_class.dom().contains(u) implies u
                    < s1.out.vregs.len() && !fresh.contains(VReg(u)) && (m1.regs)(VReg(u)) == (
                w.word)(s1.out.const_class[u].0) by {
                    assert(s.out.const_class.dom().contains(u));
                    assert((m1.regs)(VReg(u)) == (m.regs)(VReg(u)));
                }
            }
            lemma_enter_tail(vm, x, seq![], s0, s1);
            lemma_tail(e, s, s1, m, m1);
            assert(standing(s1, x.receiver, bs, fresh, h, w, m1));
            lemma_nonleaf_answers(e, cx, mth, x.receiver, klass, bs, fresh, proto, 0, s1, h, m1);
            let r2 = ran(e, s2.seg.code, from, m);
            reveal(body_ends);
            match r2 {
                Flow::On(m2) => {
                    lemma_all_kept(m, m1, m2, n, s1.out.vregs.len(), fresh);
                    assert(method_answer(w, vm, callee, args, f.mem) == Some(
                        ((m2.regs)(v->0), m2.mem),
                    ));
                    let t1 = t.push(v->0);
                    crate::faithful_sends::lemma_pushed(
                        m,
                        m2,
                        s,
                        t1,
                        this,
                        slots,
                        wr,
                        f,
                        g,
                        ic.argc + 1,
                    );
                },
                Flow::To(b, m2) => {
                    lemma_all_kept(m, m1, m2, n, s1.out.vregs.len(), fresh);
                    lemma_waits(m, m2, s, this, slots, wr, f, proto, bci, ic.argc as int);
                    let (b1, f1) = choose|b1: usize, f1: Frame|
                        comes_to(w, vm, mth, 0, h, b1 as int, f1) && #[trigger] runs_again(
                            s2.out.blocks,
                            s1.out.blocks.len(),
                            b,
                            b1,
                            Some(proto),
                            m2,
                            x.receiver,
                            bs,
                            f1,
                        );
                    assert(t.out.blocks == s2.out.blocks);
                    assert(runs_again(
                        t.out.blocks,
                        s.out.blocks.len(),
                        b,
                        b1,
                        Some(proto),
                        m2,
                        proto.receiver,
                        proto.slots,
                        f1,
                    ));
                    assert(kept(m, m2, n, wr));
                },
                Flow::Leave(m2) => {
                    lemma_all_kept(m, m1, m2, n, s1.out.vregs.len(), fresh);
                    lemma_waits(m, m2, s, this, slots, wr, f, proto, bci, ic.argc as int);
                    let (b1, f1) = choose|b1: usize, f1: Frame|
                        comes_to(w, vm, mth, 0, h, b1 as int, f1) && s2.seg.deopt.len() > 0
                            && s2.seg.deopt.last().0 == (s2.seg.code.len() - 1) as u32
                            && #[trigger] resumes(
                            s2.seg.deopt.last().1,
                            b1,
                            Some(proto),
                            m2,
                            x.receiver,
                            bs,
                            f1,
                        );
                    assert(resumes(
                        t.seg.deopt.last().1,
                        b1,
                        Some(proto),
                        m2,
                        proto.receiver,
                        proto.slots,
                        f1,
                    ));
                    assert(kept(m, m2, n, wr));
                },
                _ => {},
            }
        },
        Flow::To(b, m1) => {
            assert(s2.out.blocks[b.0 as int] == s1.out.blocks[b.0 as int]);
            assert(runs_again(
                t.out.blocks,
                s.out.blocks.len(),
                b,
                bci,
                None,
                m1,
                this,
                slots,
                f,
            ));
        },
        _ => {},
    }
}

/// A spliced body with sends answers what the send answers, or leaves every frame as the interpreter
/// needs it: the callee where interpreting it comes to, above the caller that waits for it.
pub proof fn law_inlined_bodies_answer(
    e: Env,
    cx: CtxView,
    ic: InterpreterIc,
    callee: MethodOop,
    guard: Option<(KlassOop, GuardShape)>,
    dep_klass: KlassOop,
    bci: usize,
    this: VReg,
    slots: Seq<VReg>,
    wr: Set<VReg>,
    s: St,
    f: Frame,
    m: Mach,
)
    requires
        cx.vm.wf(),
        cx.vm.has(callee),
        honest(e.w, cx.vm),
        steady(e.w, cx.vm),
        callee_known(e.w, cx.vm, ic, callee, guard, f),
        cx.vm.m(callee).primitive == 0,
        stores_temps(cx.vm.m(callee)),
        sends_fit(e.w, cx.vm, cx.vm.m(callee)),
        standing(s, this, slots, wr, f, e.w, m),
        classes_held(e.w, s.out, wr, m),
        s.top(ic.argc as int) == cx.self_vreg ==> (e.w.class)(f.mem, (m.regs)(cx.self_vreg))
            == cx.rcvr_klass,
        s.depth() >= ic.argc + 1,
        ({
            let x = site_of(ic, callee, guard, dep_klass, bci, s);
            inline_nonleaf(cx, x, s.drop(ic.argc + 1)) matches Some((t, Some(o))) && sees(
                e,
                cx.vm,
                t.out,
            ) && t.out.blocks.len() < u32::MAX && t.seg.code.len() <= u32::MAX
        }),
    ensures
        ({
            let x = site_of(ic, callee, guard, dep_klass, bci, s);
            let below = s.drop(ic.argc + 1);
            let (t, o) = inline_nonleaf(cx, x, below)->0;
            let v = match o->0 {
                NonLeafOutcome::Value(r) => Some(r),
                NonLeafOutcome::Trapped => None,
            };
            splice_ends(
                e,
                cx.vm,
                callee,
                s,
                t,
                v,
                bci,
                ic,
                method_proto(cx.vm, x, below),
                this,
                slots,
                wr,
                f,
                answered(e.w, ic, f),
                m,
            )
        }),
{
    assert(values(m.regs, s.seg.stack).len() == s.depth());
    lemma_runs_as(e.w, cx.vm, callee, ic, guard, f);
    lemma_inlined_body(
        e,
        cx,
        ic,
        callee,
        guard,
        dep_klass,
        bci,
        this,
        slots,
        wr,
        s,
        f,
        answered(e.w, ic, f),
        m,
    );
}

/// The sends of the body pass the arguments that their operations take, and their sites are honest;
/// none goes to the superclass.
pub open spec fn sends_fit(w: World, vm: VmState, mth: Method) -> bool {
    &&& forall|x: int|
        0 <= x < mth.ics@.len() ==> site_honest(w, vm, #[trigger] mth.ics@[x]) && arity_ok(
            vm,
            mth.ics@[x],
        )
    &&& forall|b: int|
        #![trigger mth.code@[b]]
        0 <= b < mth.code@.len() && mth.code@[b] is Some ==> !(mth.instr_at(b) matches Instr::Send {
            super_,
            ..
        } && super_)
}

proof fn lemma_sends_fit(e: Env, cx: CtxView, callee: MethodOop, slots: Seq<VReg>, wr: Set<VReg>)
    requires
        cx.vm.wf(),
        cx.vm.has(callee),
        honest(e.w, cx.vm),
        steady(e.w, cx.vm),
        sends_fit(e.w, cx.vm, cx.vm.m(callee)),
        forall|b: int|
            0 <= b < cx.vm.m(callee).code@.len() && cx.vm.m(callee).code@[b] is Some ==> writable(
                #[trigger] cx.vm.m(callee).instr_at(b),
                slots,
                wr,
            ),
    ensures
        body_ready(e, cx, cx.vm.m(callee), slots, wr),
{
    let mth = cx.vm.m(callee);
    let c = callee.0 as int;
    assert(mth == cx.vm.methods@[c]);
    assert(mth.wf(cx.vm.methods@.len() as int));
    assert forall|x: int, k: KlassOop, mem: int| 0 <= x < mth.ics@.len() implies #[trigger] makes(
        e.w,
        cx.vm,
        mth.ics@[x],
        k,
        mem,
    ) by {
        assert(makes(e.w, cx.vm, cx.vm.methods@[c].ics@[x], k, mem));
    }
    assert forall|x: int, mem: int| 0 <= x < mth.literals@.len() implies ((
    #[trigger] mth.literals@[x]).global_klass matches Some(k) ==> #[trigger] (e.w.field)(
        mem,
        (e.w.word)(mth.literals@[x].raw),
        association_value(),
    ) == (e.w.word)(k.0)) by {
        assert(cx.vm.methods@[c].literals@[x] == mth.literals@[x]);
    }
    assert forall|b: int| 0 <= b < mth.code@.len() && mth.code@[b] is Some implies writable(
        #[trigger] mth.instr_at(b),
        slots,
        wr,
    ) && !(mth.instr_at(b) matches Instr::Send { super_, .. } && super_) by {
        assert(mth.code@[b] is Some);
    }
}

proof fn lemma_nil_classes(lit: crate::ir::PoolLit, n: nat, s: St)
    ensures
        crate::splice::nil_temps(lit, n, s).out.const_class == s.out.const_class,
    decreases n,
{
    if n > 0 {
        lemma_nil_classes(lit, (n - 1) as nat, s);
    }
}

proof fn lemma_enter_classes(vm: VmState, x: SiteView, closures: Seq<(u16, u32)>, s: St)
    ensures
        enter_body(vm, x, closures, s) matches Some(t) ==> t.out.const_class == s.out.const_class,
{
    if let Some(s1) = crate::splice::guard_op(x, closures, s) {
        let nil = pool_oop(vm.universe.nil_obj);
        lemma_nil_classes(s1.lit(nil), vm.m(x.callee).ntemps as nat, s1.intern(nil));
    }
}

proof fn lemma_enter_tail(vm: VmState, x: SiteView, closures: Seq<(u16, u32)>, s: St, t: St)
    requires
        enter_body(vm, x, closures, s) == Some(t),
        s.out.blocks.len() < u32::MAX,
    ensures
        t.out.blocks.len() <= s.out.blocks.len() + 1,
{
    if let Some(s1) = crate::splice::guard_op(x, closures, s) {
        let nil = pool_oop(vm.universe.nil_obj);
        lemma_nil_blocks(s1.lit(nil), vm.m(x.callee).ntemps as nat, s1.intern(nil));
    }
}

proof fn lemma_nil_blocks(lit: crate::ir::PoolLit, n: nat, s: St)
    ensures
        crate::splice::nil_temps(lit, n, s).out.blocks == s.out.blocks,
    decreases n,
{
    if n > 0 {
        lemma_nil_blocks(lit, (n - 1) as nat, s);
    }
}

proof fn lemma_all_kept(m: Mach, m1: Mach, m2: Mach, n: nat, k: nat, fresh: Set<VReg>)
    requires
        n <= k,
        forall|v: VReg| v.0 < n ==> #[trigger] (m1.regs)(v) == (m.regs)(v),
        forall|v: VReg| #[trigger] fresh.contains(v) ==> v.0 >= n,
        kept(m1, m2, k, fresh),
    ensures
        kept(m, m2, n, Set::empty()),
        forall|wr: Set<VReg>| #[trigger] kept(m, m2, n, wr),
{
    assert forall|v: VReg| v.0 < n implies #[trigger] (m2.regs)(v) == (m.regs)(v) by {
        assert(!fresh.contains(v));
        assert((m1.regs)(v) == (m.regs)(v));
    }
}

proof fn lemma_waits(
    m: Mach,
    m2: Mach,
    s: St,
    this: VReg,
    slots: Seq<VReg>,
    wr: Set<VReg>,
    f: Frame,
    proto: InlineView,
    bci: usize,
    argc: int,
)
    requires
        placed(s.seg.stack, this, slots, wr, s.out.vregs.len()),
        holds(m, s.seg.stack, this, slots, f),
        kept(m, m2, s.out.vregs.len(), Set::empty()),
        0 <= argc,
        s.depth() >= argc + 1,
        proto.sender_bci == bci as u16,
        !proto.is_block,
        proto.parent is None,
        proto.caller_pending_stack == s.seg.stack.subrange(0, s.depth() - argc - 1),
    ensures
        waits(proto, bci, m2, this, slots, f, argc),
{
    let none: Set<VReg> = Set::empty();
    assert forall|v: VReg| v.0 < s.out.vregs.len() implies #[trigger] (m2.regs)(v) == (m.regs)(
        v,
    ) by {
        assert(!none.contains(v));
    }
    let p = proto.caller_pending_stack;
    assert(values(m.regs, s.seg.stack).len() == s.depth());
    assert(values(m2.regs, p) =~= f.stack.subrange(0, f.stack.len() - argc - 1)) by {
        assert forall|i: int| 0 <= i < p.len() implies (m2.regs)(#[trigger] p[i]) == f.stack[i] by {
            assert(p[i] == s.seg.stack[i]);
            assert(s.seg.stack[i].0 < s.out.vregs.len());
            assert(values(m.regs, s.seg.stack)[i] == (m.regs)(s.seg.stack[i]));
        }
    }
    assert(values(m2.regs, slots) =~= values(m.regs, slots)) by {
        assert forall|i: int| 0 <= i < slots.len() implies (m2.regs)(#[trigger] slots[i]) == (
        m.regs)(slots[i]) by {
            assert(slots[i].0 < s.out.vregs.len());
        }
    }
}

/// Fused sends of the method append to its code.
pub(crate) proof fn lemma_root_code(
    vm: VmState,
    ic: InterpreterIc,
    fuse: bool,
    bci: usize,
    s: St,
)
    ensures
        smi_kind(vm, ic) matches Some(k) ==> (crate::root::root_smi(k, fuse, bci, s) matches Some(
            (t, _),
        ) ==> extends(s.seg.code, t.seg.code)),
        double_kind(vm, ic) matches Some(k) ==> (crate::root::root_double(k, fuse, bci, s) matches Some(
            (t, _),
        ) ==> extends(s.seg.code, t.seg.code)),
        crate::classify::vec_kind(vm, ic) matches Some(k) ==> (crate::root::root_vec(k, bci, s) matches Some(
            t,
        ) ==> extends(s.seg.code, t.seg.code)),
        array_kind(vm, ic) matches Some(k) ==> (array_op(vm, k, bci, None, s) matches Some(t)
            ==> extends(s.seg.code, t.seg.code)),
        ref_eq(vm, ic) matches Some(k) ==> (ref_op(k, s) matches Some(t) ==> extends(
            s.seg.code,
            t.seg.code,
        )),
        not_op(vm, ic.selector, bci, None, s) matches Some(t) ==> extends(s.seg.code, t.seg.code),
{
}

} // verus!

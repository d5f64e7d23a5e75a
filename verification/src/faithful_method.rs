//! Blocks of a translated method run as interpreting their bytecode does.

use vstd::prelude::*;
use crate::classify::{
    array_kind, double_kind, not_speculatable, ref_eq, smi_kind, splice_shape, vec_kind,
};
use crate::effect::arity_ok;
use crate::faithful::sees;
use crate::faithful_bodies::{classes_held, leaves_here, makes};
use crate::faithful_sends::{
    answered, classes_known, goes_to, law_allocating_sends_allocate,
    law_array_sends_access_the_receiver, law_calls_hand_over_their_operands,
    law_cold_sends_run_again, law_double_sends_compute, law_identity_sends_compare,
    law_not_sends_flip, law_root_smi_sends_compute, law_vector_sends_compute, standing,
};
use crate::faithful_splice::grown;
use crate::ir::VReg;
use crate::machine::{extends, Env, Mach};
use crate::meaning::{above, honest, site_honest, Frame};
use crate::ops::{
    alloc_out, alloc_site, arg_is_pooled, array_op, count_cold, not_op, ref_op, send_op,
};
use crate::root::{
    dispatch_send, generic_send, plain_send, profiled_send, root_double, root_klass, root_send,
    root_smi, root_vec, self_target, static_splice, EndView, SpliceEnd, StepEnd,
};
use crate::translator::{CtxView, OutView, St};
use crate::world::{InterpreterIc, KlassOop, VmState};

verus! {

broadcast use crate::machine::group_runs;

/// Tables grow at their ends, and blocks stay as they are.
pub open spec fn same_below(a: OutView, b: OutView) -> bool {
    &&& grown(a, b)
    &&& forall|k: int| 0 <= k < a.blocks.len() ==> #[trigger] b.blocks[k] == a.blocks[k]
    &&& b.pending_jump_target == a.pending_jump_target
}

/// A send that nothing is spliced for and that is not left to a branch.
pub open spec fn plain_site(cx: CtxView, ic: InterpreterIc, is_super: bool, fuse: bool) -> bool {
    let vm = cx.vm;
    &&& arity_ok(vm, ic)
    &&& if is_super {
        above(vm, vm.m(cx.method)) matches Some(k) ==> (vm.lookup(k, ic.selector) matches Some(t)
            ==> !splice_shape(vm, t))
    } else {
        &&& cx.devirt(cx.rcvr_klass, ic.selector) matches Some(t) ==> !splice_shape(vm, t)
        &&& ic.decision is Call || ic.decision is Trap
        &&& fuse ==> !(smi_kind(vm, ic) matches Some(k) && k is Cmp) && !(double_kind(vm, ic) matches Some(
            k,
        ) && k is Cmp)
    }
}

/// What a send of the method leaves behind, whatever it compiles to.
pub open spec fn root_step(
    e: Env,
    s: St,
    r: Option<(St, EndView)>,
    bci: usize,
    this: VReg,
    slots: Seq<VReg>,
    wr: Set<VReg>,
    f: Frame,
    g: Frame,
    m: Mach,
) -> bool {
    r matches Some((t, end)) ==> {
        &&& same_below(s.out, t.out)
        &&& extends(s.seg.code, t.seg.code)
        &&& t.out.const_class == s.out.const_class
        &&& match end {
            StepEnd::Next => goes_to(e, s, t, bci, None, this, slots, wr, f, g, m),
            StepEnd::Split(c) => goes_to(e, s, t, bci, None, this, slots, wr, f, g, m)
                && s.out.blocks.len() <= c.0 < t.out.blocks.len() && t.out.blocks[c.0 as int] is None,
            StepEnd::Trapped => leaves_here(e, s, t, bci, None, this, slots, f, m),
            StepEnd::Compare(_) => false,
        }
    }
}

pub open spec fn seen_end(e: Env, vm: VmState, r: Option<(St, EndView)>) -> bool {
    r matches Some((t, _)) ==> sees(e, vm, t.out)
}

proof fn lemma_dispatch(
    e: Env,
    cx: CtxView,
    ic: InterpreterIc,
    bci: usize,
    s: St,
    sites: Seq<Option<usize>>,
    slots: Seq<VReg>,
    wr: Set<VReg>,
    f: Frame,
    m: Mach,
)
    requires
        plain_site(cx, ic, false, false),
        standing(s, cx.self_vreg, slots, wr, f, e.w, m),
        seen_end(e, cx.vm, dispatch_send(cx, ic, bci, s, sites)),
    ensures
        root_step(
            e,
            s,
            dispatch_send(cx, ic, bci, s, sites),
            bci,
            cx.self_vreg,
            slots,
            wr,
            f,
            answered(e.w, ic, f),
            m,
        ),
{
    let vm = cx.vm;
    let this = cx.self_vreg;
    let target = self_target(cx, ic, s, sites);
    assert(static_splice(cx, ic, target, cx.rcvr_klass, bci, s) == Some(
        (s, SpliceEnd::Declined),
    ));
    if target is None && cx.cold_traps() && ic.feedback is Untaken {
        law_cold_sends_run_again(e, vm, bci, seq![], None, this, slots, wr, s, f, m);
    } else if let Some(s2) = count_cold(cx, ic, s) {
        assert(s2.seg == s.seg && s2.out.vregs == s.out.vregs && s2.out.blocks == s.out.blocks);
        assert(standing(s2, this, slots, wr, f, e.w, m));
        assert(profiled_send(cx, ic, target is Some, bci, s2) == plain_send(ic, bci, s2));
        if let Some(t) = send_op(ic, None, bci, seq![], None, s2) {
            law_calls_hand_over_their_operands(
                e,
                vm,
                ic,
                None,
                bci,
                seq![],
                None,
                this,
                slots,
                wr,
                s2,
                f,
                m,
            );
            assert(goes_to(
                e,
                s,
                t,
                bci,
                None,
                this,
                slots,
                wr,
                f,
                answered(e.w, ic, f),
                m,
            ));
        }
    }
}

proof fn lemma_generic(
    e: Env,
    cx: CtxView,
    ic: InterpreterIc,
    bci: usize,
    s: St,
    sites: Seq<Option<usize>>,
    slots: Seq<VReg>,
    wr: Set<VReg>,
    f: Frame,
    m: Mach,
)
    requires
        honest(e.w, cx.vm),
        plain_site(cx, ic, false, false),
        standing(s, cx.self_vreg, slots, wr, f, e.w, m),
        classes_held(e.w, s.out, wr, m),
        forall|k: KlassOop, mem: int| #[trigger] makes(e.w, cx.vm, ic, k, mem),
        (e.w.class)(f.mem, f.me) == cx.rcvr_klass || cx.vm.m(cx.method).is_block,
        seen_end(e, cx.vm, generic_send(cx, ic, bci, s, sites)),
    ensures
        root_step(
            e,
            s,
            generic_send(cx, ic, bci, s, sites),
            bci,
            cx.self_vreg,
            slots,
            wr,
            f,
            answered(e.w, ic, f),
            m,
        ),
{
    let vm = cx.vm;
    let this = cx.self_vreg;
    let rk = root_klass(cx);
    if s.depth() > 0 && !crate::root::phantom_in(cx, sites, 1) {
        let s1 = s.with_out(alloc_out(vm, s.out, ic, s.top(0), this, rk));
        assert(s1.seg == s.seg && s1.out.vregs == s.out.vregs && s1.out.blocks == s.out.blocks);
        assert(standing(s1, this, slots, wr, f, e.w, m));
        match alloc_site(vm, s.out, ic, s.top(0), this, rk) {
            Some((k, n)) => {
                assert(classes_known(e, vm, s.out, ic, m)) by {
                    assert forall|v: u32| #[trigger] s.out.const_class.dom().contains(v) implies {
                        let c = (e.w.word)(s.out.const_class[v].0);
                        &&& (m.regs)(VReg(v)) == c
                        &&& ic.guard_is_klass && ic.target is Some ==> (e.w.method)(
                            (e.w.class)(m.mem, c),
                            ic.selector,
                        ) == ic.target
                    } by {
                        assert(makes(e.w, vm, ic, s.out.const_class[v], m.mem));
                    }
                }
                law_allocating_sends_allocate(
                    e,
                    vm,
                    ic,
                    bci,
                    None,
                    this,
                    rk,
                    slots,
                    wr,
                    s,
                    f,
                    m,
                );
            },
            None => {
                lemma_dispatch(e, cx, ic, bci, s1, sites, slots, wr, f, m);
                let r = dispatch_send(cx, ic, bci, s1, sites);
                assert(root_step(
                    e,
                    s,
                    r,
                    bci,
                    this,
                    slots,
                    wr,
                    f,
                    answered(e.w, ic, f),
                    m,
                ));
            },
        }
    } else {
        lemma_dispatch(e, cx, ic, bci, s, sites, slots, wr, f, m);
    }
}

pub(crate) proof fn lemma_grow_root(
    cx: CtxView,
    ic: InterpreterIc,
    fuse: bool,
    bci: usize,
    s: St,
)
    ensures
        smi_kind(cx.vm, ic) matches Some(k) ==> (root_smi(k, fuse, bci, s) matches Some((t, end))
            ==> same_below(s.out, t.out) && t.out.const_class == s.out.const_class && (
        end matches StepEnd::Split(c) ==> s.out.blocks.len() < u32::MAX && s.out.blocks.len() <= c.0
            < t.out.blocks.len() && t.out.blocks[c.0 as int] is None)),
        double_kind(cx.vm, ic) matches Some(k) ==> (root_double(k, fuse, bci, s) matches Some((t, _))
            ==> same_below(s.out, t.out) && t.out.const_class == s.out.const_class),
        vec_kind(cx.vm, ic) matches Some(k) ==> (root_vec(k, bci, s) matches Some(t) ==> same_below(
            s.out,
            t.out,
        ) && t.out.const_class == s.out.const_class),
        array_kind(cx.vm, ic) matches Some(k) ==> (array_op(cx.vm, k, bci, None, s) matches Some(t)
            ==> same_below(s.out, t.out) && t.out.const_class == s.out.const_class),
        ref_eq(cx.vm, ic) matches Some(k) ==> (ref_op(k, s) matches Some(t) ==> same_below(
            s.out,
            t.out,
        ) && t.out.const_class == s.out.const_class),
        not_op(cx.vm, ic.selector, bci, None, s) matches Some(t) ==> same_below(s.out, t.out)
            && t.out.const_class == s.out.const_class,
{
}

/// Any send of the method that is not spliced, whatever it compiles to.
pub proof fn law_plain_sends_answer(
    e: Env,
    cx: CtxView,
    ic: InterpreterIc,
    is_super: bool,
    fuse: bool,
    bci: usize,
    s: St,
    sites: Seq<Option<usize>>,
    slots: Seq<VReg>,
    wr: Set<VReg>,
    f: Frame,
    g: Frame,
    m: Mach,
)
    requires
        cx.vm.wf(),
        honest(e.w, cx.vm),
        site_honest(e.w, cx.vm, ic),
        plain_site(cx, ic, is_super, fuse),
        standing(s, cx.self_vreg, slots, wr, f, e.w, m),
        classes_held(e.w, s.out, wr, m),
        forall|k: KlassOop, mem: int| #[trigger] makes(e.w, cx.vm, ic, k, mem),
        (e.w.class)(f.mem, f.me) == cx.rcvr_klass || cx.vm.m(cx.method).is_block,
        if is_super {
            above(cx.vm, cx.vm.m(cx.method)) matches Some(k) ==> {
                let n = f.stack.len() as int;
                let (x, mem) = (e.w.send_from)(
                    k,
                    ic.selector,
                    f.stack.subrange(n - ic.argc - 1, n),
                    f.mem,
                );
                g == f.with_mem(mem).pop(ic.argc + 1).push(x)
            }
        } else {
            g == answered(e.w, ic, f)
        },
        seen_end(e, cx.vm, root_send(cx, ic, is_super, fuse, bci, s, sites)),
    ensures
        root_step(
            e,
            s,
            root_send(cx, ic, is_super, fuse, bci, s, sites),
            bci,
            cx.self_vreg,
            slots,
            wr,
            f,
            g,
            m,
        ),
{
    let vm = cx.vm;
    let this = cx.self_vreg;
    let r = root_send(cx, ic, is_super, fuse, bci, s, sites);
    lemma_grow_root(cx, ic, fuse, bci, s);
    if is_super {
        if r is Some {
            let k = above(vm, vm.m(cx.method))->0;
            law_calls_hand_over_their_operands(
                e,
                vm,
                ic,
                Some(k),
                bci,
                seq![],
                None,
                this,
                slots,
                wr,
                s,
                f,
                m,
            );
        }
    } else if smi_kind(vm, ic) is Some && !arg_is_pooled(s) {
        if r is Some {
            law_root_smi_sends_compute(e, vm, ic, fuse, bci, this, slots, wr, s, f, m);
        }
    } else if array_kind(vm, ic) is Some {
        if r is Some {
            law_array_sends_access_the_receiver(e, vm, ic, bci, None, this, slots, wr, s, f, m);
        }
    } else if double_kind(vm, ic) is Some {
        let k = double_kind(vm, ic)->0;
        assert(root_double(k, fuse, bci, s) == root_double(k, false, bci, s));
        law_double_sends_compute(e, vm, ic, bci, None, this, slots, wr, s, f, m);
    } else if ref_eq(vm, ic) is Some && !crate::root::phantom_in(cx, sites, 2) {
        if r is Some {
            law_identity_sends_compare(e, vm, ic, bci, None, this, slots, wr, s, f, m);
        }
    } else if not_speculatable(vm, ic) && !crate::root::phantom_in(cx, sites, 1) {
        if r is Some {
            law_not_sends_flip(e, vm, ic, bci, None, this, slots, wr, s, f, m);
        }
    } else if vec_kind(vm, ic) is Some {
        if r is Some {
            law_vector_sends_compute(e, vm, ic, bci, this, slots, wr, s, f, m);
        }
    } else {
        lemma_generic(e, cx, ic, bci, s, sites, slots, wr, f, m);
    }
}

} // verus!

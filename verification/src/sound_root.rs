//! Translating the instructions of the method itself keeps the output sound.

use vstd::prelude::*;
use crate::classify::{
    array_kind, double_kind, not_speculatable, ref_eq, smi_kind, vec_kind, DoubleSendKind,
    SmiSendKind,
};
use crate::graft::{inline_cfg, BlockArg, GraftView};
use crate::instr::{
    alloc_closure, blockarg_callee, blockarg_splice, capture_stores, created_block, home_ctx,
    init_store, instr_step, set_temp_site, site_step, top_site, value_body, value_instr,
    value_proto, value_splice, SiteStep,
};
use crate::ir::{CallSiteInfo, DeoptView, Ir, VReg};
use crate::ops::{alloc_out, alloc_site, arg_is_pooled, count_cold};
use crate::passes::inline_refs;
use crate::root::{
    budgeted, declined, dispatch_send, dominant_splice, generic_send, guard_shape, guarded_splice,
    phantom_in, plain_send, profiled_send, root_double, root_klass, root_send, root_smi, root_vec,
    self_target, site_of, slow_block, spliced, splices, static_splice, super_send, EndView,
    PendingCmp, SpliceEnd, Step, StepEnd,
};
use crate::scopes::SafepointKind;
use crate::kinds::{fp_ok, kinds_kept, reg_ok};
use crate::sound::{
    block_ok, group_steps, lemma_alloc_op, lemma_alloc_out, lemma_append_ops, lemma_array_op,
    lemma_count_cold, lemma_ctx_push, lemma_ctx_store, lemma_double_operands, lemma_not_op,
    lemma_out_same, lemma_ref_op, lemma_send_op, lemma_simple, lemma_trap_op, ok, op_ok, out_ok,
    raw_ok, regs_ok, steps, target_ok,
};
use crate::sound_graft::lemma_graft_cfg;
use crate::sound_splice::{
    cx_ok, lemma_block_body, lemma_inline_leaf, lemma_inline_nonleaf, lemma_nil_temps, site_ok,
};
use crate::splice::{next_regs, nil_temps, Site, SiteView};
use crate::translator::{pool_oop, CtxView, OutView, SegView, St};
use crate::world::{
    first_lookup, opt_wf, BlockArgSend, GuardKind, InlineDecision, Instr, InterpreterIc, KlassOop,
    Lookup, MethodOop, SiteFeedback, SymbolOop, VmState,
};

verus! {

broadcast use crate::kinds::group_kinds;

/// What the end of a step names exists.
pub open spec fn end_ok(e: EndView, o: OutView) -> bool {
    match e {
        StepEnd::Split(b) => target_ok(b, o),
        StepEnd::Compare(c) => pending_ok(c, o),
        _ => true,
    }
}

pub open spec fn pending_ok(c: PendingCmp<Seq<VReg>>, o: OutView) -> bool {
    match c {
        PendingCmp::Smi { a, b, stack, .. } => reg_ok(a, o) && reg_ok(b, o) && regs_ok(stack, o),
        PendingCmp::Float { a, b, .. } => fp_ok(a, o) && fp_ok(b, o),
    }
}

pub open spec fn splice_ok(e: SpliceEnd, o: OutView) -> bool {
    match e {
        SpliceEnd::Value(v) => reg_ok(v, o),
        SpliceEnd::Graft(v, enter, cont) => reg_ok(v, o) && target_ok(enter, o) && target_ok(
            cont,
            o,
        ),
        _ => true,
    }
}

/// What a step with an end promises.
pub open spec fn ends(s: St, r: Option<(St, EndView)>) -> bool {
    r matches Some((t, e)) ==> steps(s, Some(t)) && end_ok(e, t.out)
}

spec fn splice_ends(s: St, r: Option<(St, SpliceEnd)>) -> bool {
    r matches Some((t, e)) ==> steps(s, Some(t)) && splice_ok(e, t.out)
}

/// The snapshot and the fixed registers are in order.
pub open spec fn root_ok(cx: CtxView, o: OutView) -> bool {
    cx.vm.wf() && cx.vm.has(cx.method) && cx_ok(cx, o)
}

pub(crate) proof fn lemma_inline_cfg(
    cx: CtxView,
    x: SiteView,
    blockarg: Option<BlockArg>,
    mode: GraftView,
    s: St,
)
    requires
        ok(s),
        root_ok(cx, s.out),
        site_ok(x, s.out),
        cx.vm.has(x.callee),
        blockarg matches Some(a) ==> cx.vm.has(a.block),
        mode.parent is None,
    ensures
        inline_cfg(cx, x, blockarg, mode, s) matches Some((t, r)) ==> steps(s, Some(t)) && (
        r matches Some((v, enter, cont)) ==> reg_ok(v, t.out) && target_ok(enter, t.out)
            && target_ok(cont, t.out)),
{
    reveal(inline_cfg);
    lemma_graft_cfg(cx, x, blockarg, mode, s);
}

proof fn lemma_splices(cx: CtxView, x: SiteView, s: St)
    requires
        ok(s),
        root_ok(cx, s.out),
        site_ok(x, s.out),
        cx.vm.has(x.callee),
    ensures
        splice_ends(s, splices(cx, x, s)),
{
    reveal(splices);
    lemma_inline_leaf(cx, x, s);
    lemma_inline_nonleaf(cx, x, s);
    lemma_inline_cfg(cx, x, None, GraftView { is_block: false, parent: None }, s);
}

proof fn lemma_spliced(s: St, e: SpliceEnd)
    requires
        ok(s),
        splice_ok(e, s.out),
    ensures
        ends(s, Some(spliced(s, e))),
{
    broadcast use group_steps;

    match e {
        SpliceEnd::Graft(v, enter, cont) => {
            lemma_out_same(s.out, OutView { pending_jump_target: Some(enter), ..s.out });
        },
        _ => {},
    }
}

proof fn lemma_declined(s: St)
    requires
        ok(s),
    ensures
        steps(s, declined(s)),
{
    broadcast use group_steps;

    if s.out.splice_declined_budget != u32::MAX {
        lemma_out_same(
            s.out,
            OutView {
                splice_declined_budget: (s.out.splice_declined_budget + 1) as u32,
                ..s.out
            },
        );
    }
}

proof fn lemma_lookups(v: Seq<Lookup>, k: KlassOop, sel: SymbolOop, n: int)
    requires
        forall|i: int| 0 <= i < v.len() ==> (#[trigger] v[i]).method.0 < n,
    ensures
        opt_wf(first_lookup(v, k, sel), n),
    decreases v.len(),
{
    if v.len() > 0 {
        assert(v[0].method.0 < n);
        assert forall|i: int| 0 <= i < v.skip(1).len() implies (#[trigger] v.skip(1)[i]).method.0
            < n by {
            assert(v.skip(1)[i] == v[i + 1]);
        }
        lemma_lookups(v.skip(1), k, sel, n);
    }
}

/// Lookup finds methods of the snapshot.
proof fn lemma_lookup(vm: VmState, k: KlassOop, sel: SymbolOop)
    requires
        vm.wf(),
    ensures
        opt_wf(vm.lookup(k, sel), vm.methods@.len() as int),
{
    lemma_lookups(vm.lookups@, k, sel, vm.methods@.len() as int);
}

proof fn lemma_site_of(
    ic: InterpreterIc,
    callee: MethodOop,
    guard: Option<(KlassOop, crate::ir::GuardShape)>,
    dep_klass: KlassOop,
    bci: usize,
    s: St,
)
    requires
        ok(s),
        s.depth() >= ic.argc + 1,
    ensures
        site_ok(site_of(ic, callee, guard, dep_klass, bci, s), s.out),
{
    broadcast use group_steps;

}

proof fn lemma_static_splice(
    cx: CtxView,
    ic: InterpreterIc,
    target: Option<MethodOop>,
    dep_klass: KlassOop,
    bci: usize,
    s: St,
)
    requires
        ok(s),
        root_ok(cx, s.out),
        opt_wf(target, cx.vm.methods@.len() as int),
    ensures
        splice_ends(s, static_splice(cx, ic, target, dep_klass, bci, s)),
{
    broadcast use group_steps;

    lemma_declined(s);
    if target is Some && s.depth() >= ic.argc + 1 {
        let x = site_of(ic, target->0, None, dep_klass, bci, s);
        lemma_site_of(ic, target->0, None, dep_klass, bci, s);
        lemma_splices(cx, x, s.drop(ic.argc + 1));
    }
}

proof fn lemma_super_send(cx: CtxView, ic: InterpreterIc, bci: usize, s: St)
    requires
        ok(s),
        root_ok(cx, s.out),
    ensures
        ends(s, super_send(cx, ic, bci, s)),
{
    match cx.vm.m(cx.method).holder {
        None => {},
        Some(holder) => match cx.vm.info(holder) {
            None => {},
            Some(info) => match info.superclass {
                None => {},
                Some(sup) => {
                    let target = cx.vm.lookup(sup, ic.selector);
                    lemma_lookup(cx.vm, sup, ic.selector);
                    lemma_static_splice(cx, ic, target, sup, bci, s);
                    match static_splice(cx, ic, target, sup, bci, s) {
                        None => {},
                        Some((s1, e)) => {
                            lemma_send_op(ic, Some(sup), bci, seq![], None, s1);
                            lemma_spliced(s1, e);
                        },
                    }
                },
            },
        },
    }
}

proof fn lemma_root_smi(kind: SmiSendKind, fusable: bool, bci: usize, s: St)
    requires
        ok(s),
    ensures
        ends(s, root_smi(kind, fusable, bci, s)),
{
    broadcast use group_steps;

}

proof fn lemma_root_double(kind: DoubleSendKind, fusable: bool, bci: usize, s: St)
    requires
        ok(s),
    ensures
        ends(s, root_double(kind, fusable, bci, s)),
{
    broadcast use group_steps;

    lemma_double_operands(bci, None, s);
}

proof fn lemma_root_vec(
    kind: (crate::ir::VecKind, crate::ir::FArithOp),
    bci: usize,
    s: St,
)
    requires
        ok(s),
    ensures
        steps(s, root_vec(kind, bci, s)),
{
    broadcast use group_steps;

}

proof fn lemma_dominant_splice(
    cx: CtxView,
    ic: InterpreterIc,
    klass: KlassOop,
    callee: MethodOop,
    guard: GuardKind,
    bci: usize,
    s: St,
)
    requires
        ok(s),
        root_ok(cx, s.out),
    ensures
        ends(s, dominant_splice(cx, ic, klass, callee, guard, bci, s)),
{
    broadcast use group_steps;

    let n = ic.argc + 1;
    if s.depth() < n || ic.argc == 255 || !s.out.can_block() || !s.out.new_block().can_block() {
    } else {
        let below = s.drop(n);
        let x = site_of(ic, callee, None, klass, bci, s);
        lemma_site_of(ic, callee, None, klass, bci, s);
        let cont = s.out.block_id();
        let slow = s.out.new_block().block_id();
        let dst = s.reg();
        let dst_slow = s.fresh(true).reg();
        let info = CallSiteInfo {
            selector: ic.selector,
            argc: (ic.argc + 1) as u8,
            static_klass: None,
        };
        let o1 = s.out.new_block().new_block().fresh(true).fresh(true).call_site(
            info,
            ic.feedback@,
        );
        assert(out_ok(o1));
        let args = s.seg.stack.subrange(s.depth() - n, s.depth() as int);
        let blk = slow_block(
            slow,
            bci,
            dst,
            dst_slow,
            s.out.call_sites.len() as u16,
            args,
            cont,
            below.seg.stack,
        );
        assert(regs_ok(args, o1));
        assert(regs_ok(below.seg.stack, o1));
        assert forall|i: int| 0 <= i < blk.code.len() implies op_ok(#[trigger] blk.code[i], o1) by {
            if i == 0 {
                assert(op_ok(blk.code[0], o1));
            } else if i == 1 {
                assert(op_ok(blk.code[1], o1));
            } else {
                assert(op_ok(blk.code[2], o1));
            }
        }
        assert(raw_ok(blk.deopt_sites[0].1, o1));
        assert(block_ok(blk, o1));
        let out = o1.finish(blk);
        assert(out_ok(out));
        let e = pool_oop(klass.0);
        let s1 = below.with_out(out.intern(e)).emit(
            Ir::GuardKlass {
                obj: x.receiver,
                expect: out.lit(e),
                fail: slow,
                kind: guard_shape(guard),
            },
        );
        assert(ok(s1));
        assert(reg_ok(dst, o1));
        assert(reg_ok(dst, s1.out));
        assert(kinds_kept(s.out.vregs, s1.out.vregs));
        lemma_inline_leaf(cx, x, s1);
        if let Some((s2, Some(v))) = crate::splice::inline_leaf(cx, x, s1) {
            assert(reg_ok(dst, s2.out));
            assert(op_ok(Ir::<Seq<VReg>>::Move { dst, src: v }, s2.out));
            assert(kinds_kept(s.out.vregs, s2.out.vregs));
        }
    }
}

proof fn lemma_plain_send(ic: InterpreterIc, bci: usize, s: St)
    requires
        ok(s),
    ensures
        ends(s, plain_send(ic, bci, s)),
{
    lemma_send_op(ic, None, bci, seq![], None, s);
}

proof fn lemma_guarded_splice(
    cx: CtxView,
    ic: InterpreterIc,
    callee: MethodOop,
    guard: GuardKind,
    bci: usize,
    s: St,
)
    requires
        ok(s),
        root_ok(cx, s.out),
        cx.vm.has(callee),
    ensures
        ends(s, guarded_splice(cx, ic, callee, guard, bci, s)),
{
    broadcast use group_steps;

    lemma_plain_send(ic, bci, s);
    match ic.feedback@ {
        SiteFeedback::Mono { klass, .. } => {
            if s.depth() >= ic.argc + 1 {
                let g = Some((klass, guard_shape(guard)));
                let x = site_of(ic, callee, g, klass, bci, s);
                lemma_site_of(ic, callee, g, klass, bci, s);
                let below = s.drop(ic.argc + 1);
                lemma_splices(cx, x, below);
                match splices(cx, x, below) {
                    None => {},
                    Some((s1, e)) => lemma_spliced(s1, e),
                }
            }
        },
        _ => {},
    }
}

proof fn lemma_profiled_send(
    cx: CtxView,
    ic: InterpreterIc,
    is_static: bool,
    bci: usize,
    s: St,
)
    requires
        ok(s),
        root_ok(cx, s.out),
        ic.wf(cx.vm.methods@.len() as int),
    ensures
        ends(s, profiled_send(cx, ic, is_static, bci, s)),
{
    lemma_declined(s);
    match budgeted(cx, ic, is_static, s) {
        None => {},
        Some((s1, d)) => {
            lemma_plain_send(ic, bci, s1);
            match d {
                InlineDecision::DominantWithSlowPath { case_klass, case_method, guard } => {
                    lemma_dominant_splice(cx, ic, case_klass, case_method, guard, bci, s1);
                },
                InlineDecision::Inline { callee, guard } => {
                    lemma_guarded_splice(cx, ic, callee, guard, bci, s1);
                },
                _ => {},
            }
        },
    }
}

proof fn lemma_dispatch_send(
    cx: CtxView,
    ic: InterpreterIc,
    bci: usize,
    s: St,
    sites: Seq<Option<usize>>,
)
    requires
        ok(s),
        root_ok(cx, s.out),
        ic.wf(cx.vm.methods@.len() as int),
    ensures
        ends(s, dispatch_send(cx, ic, bci, s, sites)),
{
    broadcast use group_steps;

    let target = self_target(cx, ic, s, sites);
    lemma_lookup(cx.vm, cx.rcvr_klass, ic.selector);
    lemma_static_splice(cx, ic, target, cx.rcvr_klass, bci, s);
    match static_splice(cx, ic, target, cx.rcvr_klass, bci, s) {
        None => {},
        Some((s1, SpliceEnd::Declined)) => {
            lemma_trap_op(bci, seq![], None, s1);
            lemma_count_cold(cx, ic, s1);
            match count_cold(cx, ic, s1) {
                None => {},
                Some(s2) => lemma_profiled_send(cx, ic, target is Some, bci, s2),
            }
        },
        Some((s1, e)) => {
            let s2 = s1.with_out(OutView { self_devirt: true, ..s1.out });
            lemma_out_same(s1.out, s2.out);
            assert(ok(s2));
            lemma_spliced(s2, e);
        },
    }
}

proof fn lemma_generic_send(
    cx: CtxView,
    ic: InterpreterIc,
    bci: usize,
    s: St,
    sites: Seq<Option<usize>>,
)
    requires
        ok(s),
        root_ok(cx, s.out),
        ic.wf(cx.vm.methods@.len() as int),
    ensures
        ends(s, generic_send(cx, ic, bci, s, sites)),
{
    if s.depth() > 0 && !phantom_in(cx, sites, 1) {
        let s1 = s.with_out(
            alloc_out(cx.vm, s.out, ic, s.top(0), cx.self_vreg, root_klass(cx)),
        );
        lemma_alloc_out(cx.vm, s, ic, s.top(0), cx.self_vreg, root_klass(cx));
        match alloc_site(cx.vm, s.out, ic, s.top(0), cx.self_vreg, root_klass(cx)) {
            Some((k, n)) => lemma_alloc_op(k, n, bci, None, s1),
            None => lemma_dispatch_send(cx, ic, bci, s1, sites),
        }
    } else {
        lemma_dispatch_send(cx, ic, bci, s, sites);
    }
}

proof fn lemma_root_send(
    cx: CtxView,
    ic: InterpreterIc,
    is_super: bool,
    fusable: bool,
    bci: usize,
    s: St,
    sites: Seq<Option<usize>>,
)
    requires
        ok(s),
        root_ok(cx, s.out),
        ic.wf(cx.vm.methods@.len() as int),
    ensures
        ends(s, root_send(cx, ic, is_super, fusable, bci, s, sites)),
{
    let vm = cx.vm;
    if is_super {
        lemma_super_send(cx, ic, bci, s);
    } else if smi_kind(vm, ic) is Some && !arg_is_pooled(s) {
        lemma_root_smi(smi_kind(vm, ic)->0, fusable, bci, s);
    } else if array_kind(vm, ic) is Some {
        lemma_array_op(vm, array_kind(vm, ic)->0, bci, None, s);
    } else if double_kind(vm, ic) is Some {
        lemma_root_double(double_kind(vm, ic)->0, fusable, bci, s);
    } else if ref_eq(vm, ic) is Some && !phantom_in(cx, sites, 2) {
        lemma_ref_op(ref_eq(vm, ic)->0, s);
    } else if not_speculatable(vm, ic) && !phantom_in(cx, sites, 1) {
        lemma_not_op(vm, ic.selector, bci, None, s);
    } else if vec_kind(vm, ic) is Some {
        lemma_root_vec(vec_kind(vm, ic)->0, bci, s);
    } else {
        lemma_generic_send(cx, ic, bci, s, sites);
    }
}

proof fn lemma_value_body(cx: CtxView, blk: MethodOop, args: Seq<VReg>, bci: usize, s: St)
    requires
        ok(s),
        root_ok(cx, s.out),
        regs_ok(args, s.out),
    ensures
        value_body(cx, blk, args, bci, s) matches Some((t, v)) ==> steps(s, Some(t)) && (
        v matches Some(v) ==> reg_ok(v, t.out)),
{
    broadcast use group_steps;

    let m = cx.vm.m(blk);
    let nil = pool_oop(cx.vm.universe.nil_obj);
    let e = pool_oop(m.oop);
    let slots = args + next_regs(s.out, m.ntemps as nat);
    let s1 = nil_temps(s.lit(nil), m.ntemps as nat, s.intern(nil));
    lemma_nil_temps(s.lit(nil), m.ntemps as nat, s.intern(nil));
    assert(next_regs(s.intern(nil).out, m.ntemps as nat) =~= next_regs(s.out, m.ntemps as nat));
    let proto = value_proto(cx, s1.lit(e).0, slots, bci, s.seg.stack);
    let s2 = s1.intern(e);
    assert(regs_ok(inline_refs(proto), s2.out));
    lemma_block_body(cx, m, cx.self_vreg, slots, proto, s2);
}

/// Closures are made of blocks of the snapshot.
proof fn lemma_created_block(cx: CtxView, site: usize)
    requires
        cx.vm.wf(),
        cx.vm.has(cx.method),
    ensures
        opt_wf(created_block(cx, site), cx.vm.methods@.len() as int),
{
    let m = cx.vm.m(cx.method);
    assert(m.wf(cx.vm.methods@.len() as int));
    if site < m.code@.len() && m.code@[site as int] is Some {
        assert(m.instr_wf(m.instr_at(site as int)));
        match m.instr_at(site as int) {
            Instr::PushClosure { lit, .. } => {
                assert(opt_wf(m.literals@[lit as int].method, cx.vm.methods@.len() as int));
            },
            _ => {},
        }
    }
}

/// What an instruction promises.
pub open spec fn step_ok(s: St, x: Step) -> bool {
    &&& steps(s, Some(x.s))
    &&& end_ok(x.end, x.s.out)
}

proof fn lemma_value_splice(
    cx: CtxView,
    site: usize,
    ic: InterpreterIc,
    bci: usize,
    s: St,
    sites: Seq<Option<usize>>,
)
    requires
        ok(s),
        root_ok(cx, s.out),
    ensures
        value_splice(cx, site, ic, bci, s, sites) matches Some(x) ==> step_ok(s, x),
{
    broadcast use group_steps;

    let n = ic.argc + 1;
    lemma_created_block(cx, site);
    match created_block(cx, site) {
        None => {},
        Some(blk) => {
            if s.depth() >= n {
                let args = s.seg.stack.subrange(s.depth() - ic.argc, s.depth() as int);
                let below = s.drop(n);
                assert(regs_ok(args, s.out));
                let x = Site {
                    callee: blk,
                    guard: None,
                    dep_klass: cx.rcvr_klass,
                    selector: ic.selector,
                    receiver: cx.self_vreg,
                    args,
                    bci,
                };
                let mode = GraftView { is_block: true, parent: None };
                lemma_inline_cfg(cx, x, None, mode, below);
                match inline_cfg(cx, x, None, mode, below) {
                    Some((s1, Some((v, enter, cont)))) => {
                        lemma_spliced(s1, SpliceEnd::Graft(v, enter, cont));
                    },
                    _ => {},
                }
                lemma_value_body(cx, blk, args, bci, below);
            }
        },
    }
}

proof fn lemma_blockarg_splice(
    cx: CtxView,
    t: BlockArgSend,
    ic: InterpreterIc,
    bci: usize,
    s: St,
    sites: Seq<Option<usize>>,
)
    requires
        ok(s),
        root_ok(cx, s.out),
        ic.wf(cx.vm.methods@.len() as int),
    ensures
        blockarg_splice(cx, t, ic, bci, s, sites) matches Some(x) ==> step_ok(s, x),
{
    broadcast use group_steps;

    let n = ic.argc + 1;
    lemma_created_block(cx, t.site);
    lemma_lookup(cx.vm, cx.rcvr_klass, ic.selector);
    match (created_block(cx, t.site), blockarg_callee(cx, ic, t.devirt)) {
        (Some(blk), Some((guard, dep_klass, callee))) => {
            if s.depth() >= n {
                let e = pool_oop(cx.vm.m(blk).oop);
                let below = s.drop(n);
                let x = Site {
                    callee,
                    guard,
                    dep_klass,
                    selector: ic.selector,
                    receiver: s.top(ic.argc as int),
                    args: s.seg.stack.subrange(s.depth() - ic.argc, s.depth() as int),
                    bci,
                };
                let arg = Some(BlockArg { arg_ix: t.arg_ix, block: blk, pool_ix: s.lit(e).0 });
                let mode = GraftView { is_block: false, parent: None };
                assert(cx.vm.has(callee));
                lemma_inline_cfg(cx, x, arg, mode, below.intern(e));
                match inline_cfg(cx, x, arg, mode, below.intern(e)) {
                    Some((s1, Some((v, enter, cont)))) => {
                        lemma_spliced(s1, SpliceEnd::Graft(v, enter, cont));
                    },
                    _ => {},
                }
            }
        },
        _ => {},
    }
}

proof fn lemma_set_temp_site(s: St, t: u16, site: Option<usize>)
    requires
        ok(s),
    ensures
        steps(s, Some(set_temp_site(s, t, site))),
{
    broadcast use group_steps;

    lemma_out_same(s.out, set_temp_site(s, t, site).out);
}

proof fn lemma_site_step(cx: CtxView, i: Instr, bci: usize, s: St, sites: Seq<Option<usize>>)
    requires
        ok(s),
        root_ok(cx, s.out),
        cx.vm.m(cx.method).instr_wf(i),
        sites.len() == s.depth(),
    ensures
        match site_step(cx, i, bci, s, sites) {
            SiteStep::Handled(x) => step_ok(s, x),
            SiteStep::Through(t) => steps(s, Some(t)) && t.seg == s.seg,
            SiteStep::Stuck => true,
        },
{
    broadcast use group_steps;

    let m = cx.vm.m(cx.method);
    assert(m.wf(cx.vm.methods@.len() as int));
    match i {
        Instr::StoreTempPop(t) => {
            lemma_set_temp_site(s, t, None);
            if sites.len() > 0 {
                lemma_set_temp_site(s.drop(1), t, top_site(sites));
            }
        },
        Instr::StoreTemp(t) => {
            lemma_set_temp_site(s, t, None);
            lemma_set_temp_site(s, t, top_site(sites));
        },
        Instr::Send { ic, .. } => {
            let site = m.ics@[ic as int];
            match m.escape.blockarg_target(bci) {
                Some(t) => lemma_blockarg_splice(cx, t, site, bci, s, sites),
                None => match m.escape.value_target(bci) {
                    Some(v) => lemma_value_splice(cx, v, site, bci, s, sites),
                    None => {},
                },
            }
        },
        _ => {},
    }
}

proof fn lemma_alloc_closure(cx: CtxView, lit: u16, ncopied: u8, bci: usize, s: St)
    requires
        ok(s),
        root_ok(cx, s.out),
    ensures
        steps(s, alloc_closure(cx, lit, ncopied, bci, s)),
{
    broadcast use group_steps;

    let u = cx.vm.universe;
    match cx.vm.m(cx.method).literals@[lit as int].method {
        None => {},
        Some(blk) => {
            let b = cx.vm.m(blk);
            if s.depth() < ncopied || (b.captures_ctx && cx.method_ctx_vreg is None) {
            } else {
                let base = s.depth() - ncopied;
                let first: int = if b.captures_ctx {
                    2
                } else {
                    1
                };
                let total = first + ncopied;
                let e = pool_oop(u.closure_klass.0);
                let d = s.reg();
                let raw = DeoptView {
                    stack: s.seg.stack,
                    bci,
                    kind: SafepointKind::Alloc,
                    reexecute: true,
                    stack_closures: seq![],
                    inline: None,
                };
                let s1 = s.site(raw).intern(e).fresh(true).emit(
                    Ir::Alloc { dst: d, klass: s.lit(e), size_words: (5 + total) as u32 },
                );
                assert(ok(s1));
                let s2 = s1.load_oop(b.oop).emit(init_store(d, 16, s1.reg()));
                assert(ok(s2));
                let s3 = s2.fresh(false).emit(
                    Ir::ConstSmi { dst: s2.reg(), value: u.home_dead_sentinel },
                ).emit(init_store(d, 24, s2.reg()));
                assert(ok(s3));
                let s4 = s3.fresh(false).emit(
                    Ir::ConstSmi { dst: s3.reg(), value: total as i64 },
                ).emit(init_store(d, 32, s3.reg()));
                assert(ok(s4));
                let s5 = s4.emit(init_store(d, 40, cx.self_vreg));
                assert(ok(s5));
                let s6 = if b.captures_ctx {
                    s5.emit(init_store(d, 48, cx.method_ctx_vreg->0))
                } else {
                    s5
                };
                assert(ok(s6));
                let vals = s.seg.stack.subrange(base, s.depth() as int);
                let ops = capture_stores(d, first, vals);
                assert forall|i: int| 0 <= i < ops.len() implies op_ok(
                    #[trigger] ops[i],
                    s6.out,
                ) by {
                    assert(reg_ok(vals[i], s6.out));
                }
                lemma_append_ops(s6, ops);
                let s7 = St { seg: SegView { code: s6.seg.code + ops, ..s6.seg }, ..s6 };
                let stack = s.seg.stack.subrange(0, base).push(d);
                assert(regs_ok(stack, s7.out));
                assert(ok(s7.with_stack(stack)));
                assert(alloc_closure(cx, lit, ncopied, bci, s) == Some(s7.with_stack(stack)));
            }
        },
    }
}

#[verifier::rlimit(50)]
#[verifier::spinoff_prover]
proof fn lemma_value_instr(
    cx: CtxView,
    i: Instr,
    fusable: bool,
    bci: usize,
    s: St,
    sites: Seq<Option<usize>>,
)
    requires
        ok(s),
        root_ok(cx, s.out),
        cx.vm.m(cx.method).instr_wf(i),
    ensures
        ends(s, value_instr(cx, i, fusable, bci, s, sites)),
{
    broadcast use group_steps;

    let m = cx.vm.m(cx.method);
    assert(m.wf(cx.vm.methods@.len() as int));
    match i {
        Instr::Send { ic, super_ } => {
            lemma_root_send(cx, m.ics@[ic as int], super_, fusable, bci, s, sites);
        },
        Instr::PushCtxTemp { idx, .. } => lemma_ctx_push(cx, home_ctx(cx), idx, s),
        Instr::StoreCtxTempPop { idx, .. } => lemma_ctx_store(cx, home_ctx(cx), idx, s),
        Instr::PushClosure { lit, ncopied } => lemma_alloc_closure(cx, lit, ncopied, bci, s),
        Instr::JumpFwd(_) => {},
        Instr::JumpBack(_) => {},
        Instr::BrTrueFwd(_) => {},
        Instr::BrFalseFwd(_) => {},
        Instr::ReturnTos => {},
        Instr::BlockReturnTos => {},
        Instr::ReturnSelf => {
            assert(op_ok(Ir::<Seq<VReg>>::RetSelf, s.out));
        },
        Instr::NlrTos => {},
        _ => lemma_simple(cx.vm, m, i, cx.self_vreg, cx.temp_vregs, true, s),
    }
}

/// Translating one instruction keeps the output sound.
pub(crate) proof fn lemma_instr_step(
    cx: CtxView,
    i: Instr,
    fusable: bool,
    bci: usize,
    s: St,
    sites: Seq<Option<usize>>,
)
    requires
        ok(s),
        root_ok(cx, s.out),
        cx.vm.m(cx.method).instr_wf(i),
        sites.len() == s.depth(),
    ensures
        instr_step(cx, i, fusable, bci, s, sites) matches Some(x) ==> step_ok(s, x)
            && x.sites.len() == x.s.depth(),
{
    if cx.has_closures {
        lemma_site_step(cx, i, bci, s, sites);
        match site_step(cx, i, bci, s, sites) {
            SiteStep::Through(t) => lemma_value_instr(cx, i, fusable, bci, t, sites),
            _ => {},
        }
    } else {
        lemma_value_instr(cx, i, fusable, bci, s, sites);
    }
}

} // verus!

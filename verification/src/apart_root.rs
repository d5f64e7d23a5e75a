//! A whole translation keeps fail blocks apart.

use vstd::prelude::*;
use crate::apart::{
    ap, apart, apart_alloc_op, apart_array_op, apart_block_body, apart_ctx_push, apart_ctx_store,
    apart_double_operands, apart_inline_leaf, apart_inline_nonleaf, apart_nil_temps, apart_not_op,
    apart_ref_op, apart_send_op, apart_simple, blocks_use, code_apart, code_uses, ext, extends, goes,
    group_apart, lemma_alloc_out_blocks, lemma_extends_trans, ready, Blocks,
};
use crate::apart_graft::{
    advances, apart_feed, apart_graft_cfg, lemma_advances, lemma_advances_trans, lemma_append,
    lemma_block_done, lemma_finish, lemma_turns, vacant,
};
use crate::classify::{
    array_kind, double_kind, not_speculatable, ref_eq, smi_kind, vec_kind, DoubleSendKind,
    SmiSendKind,
};
use crate::convert::{
    after_instr, closure_reg, emit_all, fusable, nil_ops, param_ops, prologue, root_block,
    root_block_done, root_blocks, root_branch, root_entry, root_id, root_jump, root_start,
    root_terminator, root_walk, split_target, translated, unwrapped, Lits, Plan, RootPos,
};
use crate::copies::{all_edges, edges, fails_apart, is_fail, sites_first};
use crate::copyprop::fail_edge;
use crate::depths::feed;
use crate::graft::{dead_block, inline_cfg, BlockArg, GraftView};
use crate::instr::{
    alloc_closure, blockarg_callee, blockarg_splice, capture_stores, created_block, home_ctx,
    init_store, instr_step, site_step, value_body, value_instr, value_proto, value_splice,
    SiteStep,
};
use crate::ir::{BlockId, BlockView, CallSiteInfo, DeoptView, Ir, IrView, VReg};
use crate::ops::{alloc_out, alloc_site, arg_is_pooled, count_cold, trap_op};
use crate::root::{
    budgeted, dispatch_send, dominant_splice, generic_send, guard_shape, guarded_splice,
    phantom_in, plain_send, profiled_send, root_double, root_klass, root_send, root_smi, root_vec,
    self_target, site_of, slow_block, splices, static_splice, super_send, EndView, PendingCmp,
    SpliceEnd, Step, StepEnd,
};
use crate::scopes::SafepointKind;
use crate::splice::{inline_leaf, next_regs, nil_temps, Site, SiteView};
use crate::translator::{pool_oop, put_block, CtxView, OutView, SegView, St};
use crate::world::{
    BlockArgSend, GuardKind, InlineDecision, Instr, InterpreterIc, KlassOop, Method, MethodOop,
    SiteFeedback, Terminator,
};

verus! {

proof fn lemma_kept_vacant(s: St, t: St, b: BlockId)
    requires
        ext(s, t),
        vacant(s.out.blocks, b),
    ensures
        vacant(t.out.blocks, b),
{
    reveal(extends);
    assert(t.out.blocks[b.0 as int] == s.out.blocks[b.0 as int]);
}

/// A continuation is a new block that is not finished.
spec fn end_ap(s: St, t: St, e: EndView) -> bool {
    e matches StepEnd::Split(b) ==> vacant(t.out.blocks, b) && b.0 >= s.out.blocks.len()
}

spec fn ends(s: St, r: Option<(St, EndView)>) -> bool {
    r matches Some((t, e)) ==> goes(s, Some(t)) && end_ap(s, t, e)
}

spec fn splice_ends(s: St, r: Option<(St, SpliceEnd)>) -> bool {
    r matches Some((t, e)) ==> goes(s, Some(t)) && (e matches SpliceEnd::Graft(_, _, b) ==> vacant(
        t.out.blocks,
        b,
    ) && b.0 >= s.out.blocks.len())
}

proof fn apart_inline_cfg(
    cx: CtxView,
    x: SiteView,
    blockarg: Option<BlockArg>,
    mode: GraftView,
    s: St,
)
    requires
        ap(s),
    ensures
        inline_cfg(cx, x, blockarg, mode, s) matches Some((t, r)) ==> goes(s, Some(t)) && (
        r matches Some((_, _, cont)) ==> vacant(t.out.blocks, cont) && cont.0
            >= s.out.blocks.len()),
{
    reveal(inline_cfg);
    apart_graft_cfg(cx, x, blockarg, mode, s);
}

proof fn apart_splices(cx: CtxView, x: SiteView, s: St)
    requires
        ap(s),
    ensures
        splice_ends(s, splices(cx, x, s)),
{
    reveal(splices);
    apart_inline_leaf(cx, x, s);
    apart_inline_nonleaf(cx, x, s);
    apart_inline_cfg(cx, x, None, GraftView { is_block: false, parent: None }, s);
}

proof fn apart_static_splice(
    cx: CtxView,
    ic: InterpreterIc,
    target: Option<MethodOop>,
    dep_klass: KlassOop,
    bci: usize,
    s: St,
)
    requires
        ap(s),
    ensures
        splice_ends(s, static_splice(cx, ic, target, dep_klass, bci, s)),
{
    broadcast use group_apart;

    if target is Some {
        let x = site_of(ic, target->0, None, dep_klass, bci, s);
        apart_splices(cx, x, s.drop(ic.argc + 1));
    }
}

proof fn apart_super_send(cx: CtxView, ic: InterpreterIc, bci: usize, s: St)
    requires
        ap(s),
    ensures
        ends(s, super_send(cx, ic, bci, s)),
{
    match cx.vm.m(cx.method).holder {
        None => {},
        Some(holder) => match cx.vm.info(holder) {
            None => {},
            Some(info) => match info.superclass {
                None => {},
                Some(sup) => {
                    let target = cx.vm.lookup(sup, ic.selector);
                    apart_static_splice(cx, ic, target, sup, bci, s);
                    match static_splice(cx, ic, target, sup, bci, s) {
                        None => {},
                        Some((s1, _)) => {
                            apart_send_op(ic, Some(sup), bci, seq![], None, s1);
                            match crate::ops::send_op(ic, Some(sup), bci, seq![], None, s1) {
                                Some(t) => lemma_extends_trans(s, s1, t),
                                None => {},
                            }
                        },
                    }
                },
            },
        },
    }
}

proof fn apart_root_smi(kind: SmiSendKind, fusable: bool, bci: usize, s: St)
    requires
        ap(s),
    ensures
        ends(s, root_smi(kind, fusable, bci, s)),
{
    broadcast use group_apart;

}

proof fn apart_root_double(kind: DoubleSendKind, fusable: bool, bci: usize, s: St)
    requires
        ap(s),
    ensures
        ends(s, root_double(kind, fusable, bci, s)),
{
    broadcast use group_apart;

    apart_double_operands(bci, None, s);
}

proof fn apart_root_vec(kind: (crate::ir::VecKind, crate::ir::FArithOp), bci: usize, s: St)
    requires
        ap(s),
    ensures
        goes(s, root_vec(kind, bci, s)),
{
    broadcast use group_apart;

}

proof fn apart_dominant_splice(
    cx: CtxView,
    ic: InterpreterIc,
    klass: KlassOop,
    callee: MethodOop,
    guard: GuardKind,
    bci: usize,
    s: St,
)
    requires
        ap(s),
    ensures
        ends(s, dominant_splice(cx, ic, klass, callee, guard, bci, s)),
{
    broadcast use group_apart;

    let n = ic.argc + 1;
    if s.depth() < n || ic.argc == 255 || !s.out.can_block() || !s.out.new_block().can_block() {
    } else {
        let below = s.drop(n);
        let x = site_of(ic, callee, None, klass, bci, s);
        let cont = s.out.block_id();
        let slow = s.out.new_block().block_id();
        let info = CallSiteInfo {
            selector: ic.selector,
            argc: (ic.argc + 1) as u8,
            static_klass: None,
        };
        let blk = slow_block(
            slow,
            bci,
            s.reg(),
            s.fresh(true).reg(),
            s.out.call_sites.len() as u16,
            s.seg.stack.subrange(s.depth() - n, s.depth() as int),
            cont,
            below.seg.stack,
        );
        let out = s.out.new_block().new_block().fresh(true).fresh(true).call_site(
            info,
            ic.feedback@,
        ).finish(blk);
        let e = pool_oop(klass.0);
        let s1 = below.with_out(out.intern(e)).emit(
            Ir::GuardKlass {
                obj: x.receiver,
                expect: out.lit(e),
                fail: slow,
                kind: guard_shape(guard),
            },
        );
        assert(crate::apart::no_edges(blk));
        assert(s1.out.blocks == put_block(
            s.out.blocks.push(None).push(None),
            slow.0 as int,
            blk,
        ));
        assert(ready(s1.out.blocks, slow));
        assert(crate::apart::unused(s.out.blocks, s.seg.code, slow));
        assert(crate::apart::unused(s.out.blocks.push(None), s.seg.code, slow));
        assert(crate::apart::unused(s1.out.blocks, s.seg.code, slow));
        assert(ap(s1));
        assert(ext(s, s1));
        assert(vacant(s1.out.blocks, cont));
        apart_inline_leaf(cx, x, s1);
        match inline_leaf(cx, x, s1) {
            Some((s2, _)) => {
                lemma_extends_trans(s, s1, s2);
                lemma_kept_vacant(s1, s2, cont);
            },
            None => {},
        }
    }
}

proof fn apart_plain_send(ic: InterpreterIc, bci: usize, s: St)
    requires
        ap(s),
    ensures
        ends(s, plain_send(ic, bci, s)),
{
    apart_send_op(ic, None, bci, seq![], None, s);
}

proof fn apart_guarded_splice(
    cx: CtxView,
    ic: InterpreterIc,
    callee: MethodOop,
    guard: GuardKind,
    bci: usize,
    s: St,
)
    requires
        ap(s),
    ensures
        ends(s, guarded_splice(cx, ic, callee, guard, bci, s)),
{
    apart_plain_send(ic, bci, s);
    match ic.feedback@ {
        SiteFeedback::Mono { klass, .. } => {
            let x = site_of(ic, callee, Some((klass, guard_shape(guard))), klass, bci, s);
            apart_splices(cx, x, s.drop(ic.argc + 1));
        },
        _ => {},
    }
}

proof fn apart_profiled_send(cx: CtxView, ic: InterpreterIc, is_static: bool, bci: usize, s: St)
    requires
        ap(s),
    ensures
        ends(s, profiled_send(cx, ic, is_static, bci, s)),
{
    match budgeted(cx, ic, is_static, s) {
        None => {},
        Some((s1, d)) => {
            assert(s1.out.blocks == s.out.blocks && s1.seg == s.seg);
            apart_plain_send(ic, bci, s1);
            match d {
                InlineDecision::DominantWithSlowPath { case_klass, case_method, guard } => {
                    apart_dominant_splice(cx, ic, case_klass, case_method, guard, bci, s1);
                },
                InlineDecision::Inline { callee, guard } => {
                    apart_guarded_splice(cx, ic, callee, guard, bci, s1);
                },
                _ => {},
            }
        },
    }
}

proof fn apart_dispatch_send(
    cx: CtxView,
    ic: InterpreterIc,
    bci: usize,
    s: St,
    sites: Seq<Option<usize>>,
)
    requires
        ap(s),
    ensures
        ends(s, dispatch_send(cx, ic, bci, s, sites)),
{
    broadcast use group_apart;

    let target = self_target(cx, ic, s, sites);
    apart_static_splice(cx, ic, target, cx.rcvr_klass, bci, s);
    match static_splice(cx, ic, target, cx.rcvr_klass, bci, s) {
        None => {},
        Some((s1, SpliceEnd::Declined)) => {
            let t = trap_op(bci, seq![], None, s1);
            assert(ap(t));
            match count_cold(cx, ic, s1) {
                None => {},
                Some(s2) => {
                    assert(s2.out.blocks == s1.out.blocks && s2.seg == s1.seg);
                    apart_profiled_send(cx, ic, target is Some, bci, s2);
                    match profiled_send(cx, ic, target is Some, bci, s2) {
                        Some((u, _)) => lemma_extends_trans(s, s1, u),
                        None => {},
                    }
                },
            }
        },
        Some((s1, e)) => {},
    }
}

proof fn apart_generic_send(
    cx: CtxView,
    ic: InterpreterIc,
    bci: usize,
    s: St,
    sites: Seq<Option<usize>>,
)
    requires
        ap(s),
    ensures
        ends(s, generic_send(cx, ic, bci, s, sites)),
{
    if s.depth() > 0 && !phantom_in(cx, sites, 1) {
        let s1 = s.with_out(
            alloc_out(cx.vm, s.out, ic, s.top(0), cx.self_vreg, root_klass(cx)),
        );
        lemma_alloc_out_blocks(cx.vm, s, ic, s.top(0), cx.self_vreg, root_klass(cx));
        match alloc_site(cx.vm, s.out, ic, s.top(0), cx.self_vreg, root_klass(cx)) {
            Some((k, n)) => apart_alloc_op(k, n, bci, None, s1),
            None => apart_dispatch_send(cx, ic, bci, s1, sites),
        }
    } else {
        apart_dispatch_send(cx, ic, bci, s, sites);
    }
}

proof fn apart_root_send(
    cx: CtxView,
    ic: InterpreterIc,
    is_super: bool,
    fusable: bool,
    bci: usize,
    s: St,
    sites: Seq<Option<usize>>,
)
    requires
        ap(s),
    ensures
        ends(s, root_send(cx, ic, is_super, fusable, bci, s, sites)),
{
    let vm = cx.vm;
    if is_super {
        apart_super_send(cx, ic, bci, s);
    } else if smi_kind(vm, ic) is Some && !arg_is_pooled(s) {
        apart_root_smi(smi_kind(vm, ic)->0, fusable, bci, s);
    } else if array_kind(vm, ic) is Some {
        apart_array_op(vm, array_kind(vm, ic)->0, bci, None, s);
    } else if double_kind(vm, ic) is Some {
        apart_root_double(double_kind(vm, ic)->0, fusable, bci, s);
    } else if ref_eq(vm, ic) is Some && !phantom_in(cx, sites, 2) {
        apart_ref_op(ref_eq(vm, ic)->0, s);
    } else if not_speculatable(vm, ic) && !phantom_in(cx, sites, 1) {
        apart_not_op(vm, ic.selector, bci, None, s);
    } else if vec_kind(vm, ic) is Some {
        apart_root_vec(vec_kind(vm, ic)->0, bci, s);
    } else {
        apart_generic_send(cx, ic, bci, s, sites);
    }
}

proof fn apart_value_body(cx: CtxView, blk: MethodOop, args: Seq<VReg>, bci: usize, s: St)
    requires
        ap(s),
    ensures
        value_body(cx, blk, args, bci, s) matches Some((t, _)) ==> goes(s, Some(t)),
{
    let m = cx.vm.m(blk);
    let nil = pool_oop(cx.vm.universe.nil_obj);
    let e = pool_oop(m.oop);
    let slots = args + next_regs(s.out, m.ntemps as nat);
    let s1 = nil_temps(s.lit(nil), m.ntemps as nat, s.intern(nil));
    apart_nil_temps(s.lit(nil), m.ntemps as nat, s.intern(nil));
    let proto = value_proto(cx, s1.lit(e).0, slots, bci, s.seg.stack);
    let s2 = s1.intern(e);
    apart_block_body(cx, m, cx.self_vreg, slots, proto, s2);
    match value_body(cx, blk, args, bci, s) {
        Some((t, _)) => lemma_extends_trans(s, s2, t),
        None => {},
    }
}

spec fn step_ap(s: St, x: Step) -> bool {
    goes(s, Some(x.s)) && end_ap(s, x.s, x.end)
}

proof fn apart_value_splice(
    cx: CtxView,
    site: usize,
    ic: InterpreterIc,
    bci: usize,
    s: St,
    sites: Seq<Option<usize>>,
)
    requires
        ap(s),
    ensures
        value_splice(cx, site, ic, bci, s, sites) matches Some(x) ==> step_ap(s, x),
{
    let n = ic.argc + 1;
    match created_block(cx, site) {
        None => {},
        Some(blk) => {
            let args = s.seg.stack.subrange(s.depth() - ic.argc, s.depth() as int);
            let below = s.drop(n);
            let x = Site {
                callee: blk,
                guard: None,
                dep_klass: cx.rcvr_klass,
                selector: ic.selector,
                receiver: cx.self_vreg,
                args,
                bci,
            };
            apart_inline_cfg(cx, x, None, GraftView { is_block: true, parent: None }, below);
            apart_value_body(cx, blk, args, bci, below);
        },
    }
}

proof fn apart_blockarg_splice(
    cx: CtxView,
    t: BlockArgSend,
    ic: InterpreterIc,
    bci: usize,
    s: St,
    sites: Seq<Option<usize>>,
)
    requires
        ap(s),
    ensures
        blockarg_splice(cx, t, ic, bci, s, sites) matches Some(x) ==> step_ap(s, x),
{
    match (created_block(cx, t.site), blockarg_callee(cx, ic, t.devirt)) {
        (Some(blk), Some((guard, dep_klass, callee))) => {
            let e = pool_oop(cx.vm.m(blk).oop);
            let below = s.drop(ic.argc + 1);
            let x = Site {
                callee,
                guard,
                dep_klass,
                selector: ic.selector,
                receiver: s.top(ic.argc as int),
                args: s.seg.stack.subrange(s.depth() - ic.argc, s.depth() as int),
                bci,
            };
            let arg = Some(BlockArg { arg_ix: t.arg_ix, block: blk, pool_ix: s.lit(e).0 });
            let mode = GraftView { is_block: false, parent: None };
            apart_inline_cfg(cx, x, arg, mode, below.intern(e));
        },
        _ => {},
    }
}

proof fn apart_site_step(cx: CtxView, i: Instr, bci: usize, s: St, sites: Seq<Option<usize>>)
    requires
        ap(s),
    ensures
        match site_step(cx, i, bci, s, sites) {
            SiteStep::Handled(x) => step_ap(s, x),
            SiteStep::Through(t) => t.out.blocks == s.out.blocks && t.seg == s.seg,
            SiteStep::Stuck => true,
        },
{
    broadcast use group_apart;

    let m = cx.vm.m(cx.method);
    match i {
        Instr::Send { ic, .. } => {
            let site = m.ics@[ic as int];
            match m.escape.blockarg_target(bci) {
                Some(t) => apart_blockarg_splice(cx, t, site, bci, s, sites),
                None => match m.escape.value_target(bci) {
                    Some(v) => apart_value_splice(cx, v, site, bci, s, sites),
                    None => {},
                },
            }
        },
        _ => {},
    }
}

proof fn apart_alloc_closure(cx: CtxView, lit: u16, ncopied: u8, bci: usize, s: St)
    requires
        ap(s),
    ensures
        goes(s, alloc_closure(cx, lit, ncopied, bci, s)),
{
    broadcast use group_apart;

    let u = cx.vm.universe;
    match cx.vm.m(cx.method).literals@[lit as int].method {
        None => {},
        Some(blk) => {
            let b = cx.vm.m(blk);
            if s.depth() < ncopied || (b.captures_ctx && cx.method_ctx_vreg is None) {
            } else {
                let base = s.depth() - ncopied;
                let first: int = if b.captures_ctx {
                    2
                } else {
                    1
                };
                let total = first + ncopied;
                let e = pool_oop(u.closure_klass.0);
                let d = s.reg();
                let raw = DeoptView {
                    stack: s.seg.stack,
                    bci,
                    kind: SafepointKind::Alloc,
                    reexecute: true,
                    stack_closures: seq![],
                    inline: None,
                };
                let s1 = s.site(raw).intern(e).fresh(true).emit(
                    Ir::Alloc { dst: d, klass: s.lit(e), size_words: (5 + total) as u32 },
                );
                let s2 = s1.load_oop(b.oop).emit(init_store(d, 16, s1.reg()));
                let s3 = s2.fresh(false).emit(
                    Ir::ConstSmi { dst: s2.reg(), value: u.home_dead_sentinel },
                ).emit(init_store(d, 24, s2.reg()));
                let s4 = s3.fresh(false).emit(
                    Ir::ConstSmi { dst: s3.reg(), value: total as i64 },
                ).emit(init_store(d, 32, s3.reg()));
                let s5 = s4.emit(init_store(d, 40, cx.self_vreg));
                let s6 = if b.captures_ctx {
                    s5.emit(init_store(d, 48, cx.method_ctx_vreg->0))
                } else {
                    s5
                };
                assert(ap(s1) && ext(s, s1));
                assert(ap(s2) && ext(s, s2));
                assert(ap(s3) && ext(s, s3));
                assert(ap(s4) && ext(s, s4));
                assert(ap(s6) && ext(s, s6));
                let ops = capture_stores(d, first, s.seg.stack.subrange(base, s.depth() as int));
                assert forall|p: int| 0 <= p < ops.len() implies fail_edge(
                    #[trigger] ops[p],
                ) is None by {}
                lemma_append(s6, ops);
                assert(apart(s6.out.blocks, s6.seg.code));
                assert(extends(s.out.blocks, s.seg.code, s6.out.blocks, s6.seg.code));
            }
        },
    }
}

proof fn apart_value_instr(
    cx: CtxView,
    i: Instr,
    fusable: bool,
    bci: usize,
    s: St,
    sites: Seq<Option<usize>>,
)
    requires
        ap(s),
    ensures
        ends(s, value_instr(cx, i, fusable, bci, s, sites)),
{
    let m = cx.vm.m(cx.method);
    match i {
        Instr::Send { ic, super_ } => {
            apart_root_send(cx, m.ics@[ic as int], super_, fusable, bci, s, sites);
        },
        Instr::PushCtxTemp { idx, .. } => apart_ctx_push(cx, home_ctx(cx), idx, s),
        Instr::StoreCtxTempPop { idx, .. } => apart_ctx_store(cx, home_ctx(cx), idx, s),
        Instr::PushClosure { lit, ncopied } => apart_alloc_closure(cx, lit, ncopied, bci, s),
        Instr::JumpFwd(_) | Instr::JumpBack(_) | Instr::BrTrueFwd(_) | Instr::BrFalseFwd(_) => {
            broadcast use group_apart;

            assert(ext(s, s));
        },
        Instr::ReturnTos | Instr::BlockReturnTos | Instr::ReturnSelf | Instr::NlrTos => {
            broadcast use group_apart;

            assert(ext(s, s));
        },
        _ => apart_simple(cx.vm, m, i, cx.self_vreg, cx.temp_vregs, true, s),
    }
}

proof fn apart_instr_step(
    cx: CtxView,
    i: Instr,
    fusable: bool,
    bci: usize,
    s: St,
    sites: Seq<Option<usize>>,
)
    requires
        ap(s),
    ensures
        instr_step(cx, i, fusable, bci, s, sites) matches Some(x) ==> step_ap(s, x),
{
    if cx.has_closures {
        apart_site_step(cx, i, bci, s, sites);
        match site_step(cx, i, bci, s, sites) {
            SiteStep::Through(t) => apart_value_instr(cx, i, fusable, bci, t, sites),
            _ => {},
        }
    } else {
        apart_value_instr(cx, i, fusable, bci, s, sites);
    }
}

proof fn apart_emit_all(s: St, ops: Seq<IrView>, base: St)
    requires
        ap(s),
        ext(base, s),
        forall|p: int| 0 <= p < ops.len() ==> fail_edge(#[trigger] ops[p]) is None,
    ensures
        ap(emit_all(s, ops)),
        ext(base, emit_all(s, ops)),
{
    lemma_append(s, ops);
}

proof fn apart_prologue(cx: CtxView, m: Method, lits: Lits, s: St)
    requires
        ap(s),
    ensures
        goes(s, Some(prologue(cx, m, lits, s))),
{
    broadcast use group_apart;

    let params = param_ops(cx.temp_vregs, m.argc as nat);
    let rest = nil_ops(cx.temp_vregs.skip(m.argc as int), lits.nil);
    let ctxs = nil_ops(cx.ctx_vregs, lits.nil);
    assert forall|p: int| 0 <= p < params.len() implies fail_edge(#[trigger] params[p]) is None by {}
    assert forall|p: int| 0 <= p < rest.len() implies fail_edge(#[trigger] rest[p]) is None by {}
    assert forall|p: int| 0 <= p < ctxs.len() implies fail_edge(#[trigger] ctxs[p]) is None by {}
    if m.is_block {
        let closure = closure_reg(m)->0;
        let s0 = s.emit(Ir::Param { dst: closure, index: 0 });
        apart_emit_all(s0, params, s);
        let s1 = emit_all(s0, params).emit(
            Ir::LoadField { dst: cx.self_vreg, obj: closure, byte_off: 40 },
        );
        let s2 = match cx.block_ctx_vreg {
            Some(c) => s1.emit(Ir::LoadField { dst: c, obj: closure, byte_off: 48 }),
            None => s1,
        };
        assert(ap(s2) && ext(s, s2));
        apart_emit_all(s2, rest, s);
    } else {
        let s0 = s.emit(Ir::Param { dst: cx.self_vreg, index: 0 });
        apart_emit_all(s0, params, s);
        apart_emit_all(emit_all(s0, params), rest, s);
        let s1 = emit_all(emit_all(s0, params), rest);
        match cx.method_ctx_vreg {
            Some(ctx) => {},
            None => apart_emit_all(s1, ctxs, s),
        }
    }
}

spec fn root_pos_ap(p: RootPos) -> bool {
    ap(p.s) && vacant(p.s.out.blocks, p.cur)
}

proof fn apart_after_instr(
    b: int,
    entry: Seq<VReg>,
    next: usize,
    bci: usize,
    p: RootPos,
    x: Step,
)
    requires
        root_pos_ap(p),
        step_ap(p.s, x),
    ensures
        ({
            let q = after_instr(b, entry, next, bci, p, x).0;
            ap(q.s) && advances(p.s, p.cur, q.s, q.cur)
        }),
{
    match x.end {
        StepEnd::Split(cont) => {
            let t = split_target(x.s.out, cont);
            let s1 = x.s.emit(Ir::Jump { target: t });
            assert(ap(s1) && ext(p.s, s1)) by {
                broadcast use group_apart;

            }
            let s2 = s1.with_out(OutView { pending_jump_target: None, ..s1.out });
            let blk = root_block(b, p, entry, s1.seg);
            lemma_turns(p.s, p.cur, s2, blk, s1.seg.stack, cont);
        },
        _ => {
            lemma_advances(p.s, x.s, p.cur);
        },
    }
}

proof fn apart_root_walk(
    cx: CtxView,
    m: Method,
    pl: Plan,
    b: int,
    entry: Seq<VReg>,
    bci: int,
    p: RootPos,
)
    requires
        root_pos_ap(p),
    ensures
        root_walk(cx, m, pl, b, entry, bci, p) matches Some((q, _)) ==> ap(q.s) && advances(
            p.s,
            p.cur,
            q.s,
            q.cur,
        ),
    decreases m.code@.len() - bci,
{
    let blk = pl.cfg.blocks@[b];
    if bci >= blk.bci_end {
        assert(ext(p.s, p.s)) by {
            broadcast use group_apart;

        }
        lemma_advances(p.s, p.s, p.cur);
    } else if bci < 0 || bci >= m.code@.len() || !(bci < m.next_at(bci) <= m.code@.len()) {
    } else {
        let next = m.next_at(bci);
        let fuse = fusable(m, blk, next);
        apart_instr_step(cx, m.instr_at(bci), fuse, bci as usize, p.s, p.sites);
        match instr_step(cx, m.instr_at(bci), fuse, bci as usize, p.s, p.sites) {
            None => {},
            Some(x) => {
                apart_after_instr(b, entry, next as usize, bci as usize, p, x);
                let (q, over) = after_instr(b, entry, next as usize, bci as usize, p, x);
                if !over {
                    assert(root_pos_ap(q)) by {
                        reveal(advances);
                    }
                    apart_root_walk(cx, m, pl, b, entry, next, q);
                    match root_walk(cx, m, pl, b, entry, next, q) {
                        Some((r, _)) => lemma_advances_trans(
                            p.s,
                            p.cur,
                            q.s,
                            q.cur,
                            r.s,
                            r.cur,
                        ),
                        None => {},
                    }
                }
            },
        }
    }
}

proof fn apart_root_branch(pl: Plan, if_true: int, if_false: int, p: RootPos)
    requires
        ap(p.s),
    ensures
        goes(p.s, root_branch(pl, if_true, if_false, p)),
{
    broadcast use group_apart;

    let s = p.s;
    let exit = if p.pending is Some {
        s.seg.stack
    } else {
        s.seg.stack.drop_last()
    };
    if (p.pending is None && s.depth() == 0) || (!(p.pending matches Some(PendingCmp::Float { .. }))
        && !s.out.can_block()) {
    } else {
        apart_feed(pl.sources, pl.entry_stacks, if_true, exit, s);
        match feed(pl.sources, pl.entry_stacks, if_true, exit, s.seg) {
            None => {},
            Some(g1) => {
                let s0 = St { seg: g1, ..s };
                apart_feed(pl.sources, pl.entry_stacks, if_false, exit, s0);
                match feed(pl.sources, pl.entry_stacks, if_false, exit, g1) {
                    None => {},
                    Some(g) => {
                        assert(apart(s.out.blocks, s.seg.code));
                        assert(apart(s.out.blocks, g1.code));
                        assert(apart(s.out.blocks, g.code));
                        assert(extends(s.out.blocks, s.seg.code, s.out.blocks, s.seg.code));
                        assert(extends(s.out.blocks, s.seg.code, s.out.blocks, g1.code));
                        assert(extends(s.out.blocks, s.seg.code, s.out.blocks, g.code));
                    },
                }
            },
        }
    }
}

proof fn apart_root_jump(pl: Plan, t: int, exit: Seq<VReg>, s: St, base: St)
    requires
        ap(s),
        ext(base, s),
    ensures
        goes(base, root_jump(feed(pl.sources, pl.entry_stacks, t, exit, s.seg), s.out, t)),
{
    broadcast use group_apart;

    apart_feed(pl.sources, pl.entry_stacks, t, exit, s);
    assert(apart(s.out.blocks, s.seg.code));
    assert(extends(base.out.blocks, base.seg.code, s.out.blocks, s.seg.code));
}

proof fn apart_root_terminator(pl: Plan, b: int, p: RootPos)
    requires
        ap(p.s),
    ensures
        goes(p.s, root_terminator(pl, b, p)),
{
    broadcast use group_apart;

    let s = p.s;
    assert(ext(s, s));
    match pl.cfg.blocks@[b].terminator {
        Terminator::Return => {},
        Terminator::Fallthrough(t) => apart_root_jump(pl, t as int, s.seg.stack, s, s),
        Terminator::Jump { target, is_backward } => {
            let raw = DeoptView {
                stack: s.seg.stack,
                bci: pl.cfg.blocks@[target as int].bci_start,
                kind: SafepointKind::LoopPoll,
                reexecute: true,
                stack_closures: seq![],
                inline: None,
            };
            let s1 = if is_backward {
                s.site(raw).emit(Ir::Poll)
            } else {
                s
            };
            assert(ap(s1) && ext(s, s1));
            apart_root_jump(pl, target as int, s.seg.stack, s1, s);
        },
        Terminator::Branch { if_true, if_false } => {
            apart_root_branch(pl, if_true as int, if_false as int, p);
        },
    }
}

/// The blocks of the method from the `b`-th of `n` on are not finished.
spec fn rest_vacant(bl: Blocks, b: int, n: int) -> bool {
    n <= u32::MAX && forall|i: int| b <= i < n ==> vacant(bl, #[trigger] root_id(i))
}

proof fn apart_root_block_done(
    cx: CtxView,
    m: Method,
    pl: Plan,
    b: int,
    entry: Seq<VReg>,
    reach: Seq<bool>,
    out: OutView,
)
    requires
        apart(out.blocks, Seq::empty()),
        0 <= b < pl.cfg.blocks@.len(),
        rest_vacant(out.blocks, b, pl.cfg.blocks@.len() as int),
    ensures
        root_block_done(cx, m, pl, b, entry, reach, out) matches Some((o, _, _)) ==> apart(
            o.blocks,
            Seq::empty(),
        ) && rest_vacant(o.blocks, b + 1, pl.cfg.blocks@.len() as int),
{
    let n = pl.cfg.blocks@.len() as int;
    let blk = pl.cfg.blocks@[b];
    let bl = out.blocks;
    let s = St { out, seg: SegView { stack: entry, code: Seq::empty(), deopt: Seq::empty() } };
    let start = root_start(cx, m, pl, b, entry, out);
    let cur = root_id(b);
    assert(vacant(bl, cur));
    apart_prologue(cx, m, pl.lits, s);
    assert(ap(start.s) && ext(s, start.s)) by {
        broadcast use group_apart;

    }
    lemma_kept_vacant(s, start.s, cur);
    lemma_advances(s, start.s, cur);
    apart_root_walk(cx, m, pl, b, entry, blk.bci_start as int, start);
    match root_walk(cx, m, pl, b, entry, blk.bci_start as int, start) {
        None => {},
        Some((p, trapped)) => {
            lemma_advances_trans(s, cur, start.s, cur, p.s, p.cur);
            let done = if trapped {
                Some(p.s)
            } else {
                root_terminator(pl, b, p)
            };
            apart_root_terminator(pl, b, p);
            match done {
                None => {},
                Some(s1) => {
                    assert(ap(s1) && ext(p.s, s1)) by {
                        broadcast use group_apart;

                    }
                    let fin = root_block(b, p, entry, s1.seg);
                    lemma_block_done(s, cur, p.s, p.cur, s1, fin);
                    let o = s1.out.finish(fin);
                    assert forall|i: int| b + 1 <= i < n implies vacant(
                        o.blocks,
                        #[trigger] root_id(i),
                    ) by {
                        assert(vacant(bl, root_id(i)));
                        assert(root_id(i).0 == i && cur.0 == b);
                        assert(o.blocks[i] == bl[i]);
                    }
                },
            }
        },
    }
}

proof fn apart_root_blocks(
    cx: CtxView,
    m: Method,
    pl: Plan,
    b: int,
    exits: Seq<Option<Seq<VReg>>>,
    reach: Seq<bool>,
    out: OutView,
)
    requires
        apart(out.blocks, Seq::empty()),
        0 <= b,
        rest_vacant(out.blocks, b, pl.cfg.blocks@.len() as int),
    ensures
        root_blocks(cx, m, pl, b, exits, reach, out) matches Some(o) ==> apart(
            o.blocks,
            Seq::empty(),
        ),
    decreases pl.cfg.blocks@.len() - b,
{
    let n = pl.cfg.blocks@.len() as int;
    if b < 0 || b >= n {
    } else if !reach[b] {
        let d = dead_block(root_id(b), pl.cfg.blocks@[b].bci_start);
        let none = Seq::<IrView>::empty();
        assert(apart(out.blocks, none.push(d.code[0]))) by {
            broadcast use group_apart;

        }
        assert(none.push(d.code[0]) =~= d.code);
        assert(vacant(out.blocks, root_id(b)));
        lemma_finish(out.blocks, d.code, d);
        let o1 = out.finish(d);
        assert forall|i: int| b + 1 <= i < n implies vacant(o1.blocks, #[trigger] root_id(i)) by {
            assert(vacant(out.blocks, root_id(i)));
            assert(root_id(i).0 == i && root_id(b).0 == b);
        }
        apart_root_blocks(cx, m, pl, b + 1, exits, reach, o1);
    } else {
        match root_entry(pl, b, exits) {
            None => {},
            Some(entry) => {
                apart_root_block_done(cx, m, pl, b, entry, reach, out);
                match root_block_done(cx, m, pl, b, entry, reach, out) {
                    None => {},
                    Some((o1, exit, reach1)) => {
                        apart_root_blocks(
                            cx,
                            m,
                            pl,
                            b + 1,
                            exits.update(b, Some(exit)),
                            reach1,
                            o1,
                        );
                    },
                }
            },
        }
    }
}

/// A translation that starts with blocks none of which is finished keeps fail blocks apart.
pub(crate) proof fn apart_translated(cx: CtxView, m: Method, pl: Plan, o: OutView)
    requires
        o.blocks == Seq::new(pl.cfg.blocks@.len(), |i: int| None::<BlockView>),
        pl.cfg.blocks@.len() <= u32::MAX,
    ensures
        translated(cx, m, pl, o) matches Some(p) ==> apart(p.blocks, Seq::empty()),
{
    let n = pl.cfg.blocks@.len();
    assert(apart(o.blocks, Seq::empty())) by {
        reveal(apart);
    }
    assert(rest_vacant(o.blocks, 0, n as int));
    apart_root_blocks(
        cx,
        m,
        pl,
        0,
        Seq::new(n, |i: int| None),
        Seq::new(n, |i: int| i == 0),
        o,
    );
}

proof fn lemma_edges(code: Seq<IrView>, n: int)
    requires
        0 <= n <= code.len(),
    ensures
        forall|k: int|
            0 <= k < edges(code, n).len() ==> code_uses(code, #[trigger] edges(code, n)[k]) && exists|
                p: int,
            |
                0 <= p < n && fail_edge(#[trigger] code[p]) == Some(edges(code, n)[k]),
        code_apart(code) ==> edges(code, n).no_duplicates(),
    decreases n,
{
    if n > 0 {
        lemma_edges(code, n - 1);
        let a = edges(code, n - 1);
        let b = edges(code, n);
        assert forall|k: int| 0 <= k < b.len() implies code_uses(code, #[trigger] b[k]) && exists|
            p: int,
        |
            0 <= p < n && fail_edge(#[trigger] code[p]) == Some(b[k]) by {
            if k < a.len() {
                assert(b[k] == a[k]);
                let p = choose|p: int|
                    0 <= p < n - 1 && fail_edge(#[trigger] code[p]) == Some(a[k]);
                assert(0 <= p < n && fail_edge(code[p]) == Some(b[k]));
            } else {
                assert(fail_edge(code[n - 1]) == Some(b[k]));
            }
        }
        if code_apart(code) && fail_edge(code[n - 1]) is Some {
            assert forall|i: int, j: int| 0 <= i < j < b.len() implies b[i] != b[j] by {
                if j == a.len() {
                    let p = choose|p: int|
                        0 <= p < n - 1 && fail_edge(#[trigger] code[p]) == Some(a[i]);
                    assert(fail_edge(code[p]) != fail_edge(code[n - 1]));
                }
            }
        }
    }
}

proof fn lemma_all_edges(bl: Blocks, bs: Seq<BlockView>, k: int)
    requires
        apart(bl, Seq::empty()),
        bs == unwrapped(bl),
        forall|i: int| 0 <= i < bl.len() ==> (#[trigger] bl[i]) is Some,
        0 <= k <= bl.len(),
    ensures
        all_edges(bs, k).no_duplicates(),
        forall|x: int|
            0 <= x < all_edges(bs, k).len() ==> exists|i: int|
                0 <= i < k && code_uses((#[trigger] bs[i]).code, #[trigger] all_edges(bs, k)[x]),
    decreases k,
{
    if k > 0 {
        lemma_all_edges(bl, bs, k - 1);
        reveal(apart);
        let a = all_edges(bs, k - 1);
        let code = bs[k - 1].code;
        assert(bl[k - 1] is Some);
        assert(bs[k - 1] == bl[k - 1]->0);
        lemma_edges(code, code.len() as int);
        let b = edges(code, code.len() as int);
        let c = all_edges(bs, k);
        assert(code_apart(code));
        assert forall|x: int| 0 <= x < c.len() implies exists|i: int|
            0 <= i < k && code_uses((#[trigger] bs[i]).code, #[trigger] c[x]) by {
            if x < a.len() {
                assert(c[x] == a[x]);
                let i = choose|i: int|
                    0 <= i < k - 1 && code_uses((#[trigger] bs[i]).code, a[x]);
                assert(0 <= i < k && code_uses(bs[i].code, c[x]));
            } else {
                assert(c[x] == b[x - a.len()]);
                assert(code_uses(bs[k - 1].code, c[x]));
            }
        }
        assert forall|x: int, y: int| 0 <= x < y < c.len() implies c[x] != c[y] by {
            if y < a.len() {
                assert(c[x] == a[x] && c[y] == a[y]);
            } else if x >= a.len() {
                assert(c[x] == b[x - a.len()] && c[y] == b[y - a.len()]);
            } else {
                assert(c[x] == a[x] && c[y] == b[y - a.len()]);
                let i = choose|i: int|
                    0 <= i < k - 1 && code_uses((#[trigger] bs[i]).code, a[x]);
                assert(bl[i] is Some);
                assert(bs[i] == bl[i]->0);
                if c[x] == c[y] {
                    assert(code_uses((bl[i]->0).code, c[x]));
                    assert(code_uses((bl[k - 1]->0).code, c[x]));
                }
            }
        }
    }
}

/// Blocks that are apart make a method with fail blocks apart.
pub(crate) proof fn lemma_fails_apart(bl: Blocks)
    requires
        apart(bl, Seq::empty()),
        bl.len() <= u32::MAX,
        forall|i: int|
            0 <= i < bl.len() ==> (#[trigger] bl[i]) is Some && (bl[i]->0).id.0 == i,
    ensures
        fails_apart(unwrapped(bl)),
{
    let bs = unwrapped(bl);
    let n = bl.len() as int;
    lemma_all_edges(bl, bs, n);
    let es = all_edges(bs, n);
    assert forall|k: int| 0 <= k < bs.len() implies (#[trigger] bs[k]).id.0 == k by {
        assert(bl[k] is Some);
    }
    assert forall|k: int| 0 <= k < bs.len() && is_fail(bs, k) implies sites_first(
        #[trigger] bs[k],
    ) by {
        reveal(apart);
        let e = BlockId(k as u32);
        let x = choose|x: int| 0 <= x < es.len() && es[x] == e;
        assert(es[x] == e);
        let i = choose|i: int| 0 <= i < n && code_uses((#[trigger] bs[i]).code, es[x]);
        assert(bl[i] is Some);
        assert(bs[i] == bl[i]->0);
        assert(blocks_use(bl, e));
        assert(ready(bl, e));
        assert(bs[k] == bl[k]->0);
    }
}

} // verus!

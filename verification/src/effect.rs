//! The translation follows the depth accounting: one instruction moves the simulated stack as far as
//! its net effect says.

use vstd::prelude::*;
use crate::classify::{array_kind, double_kind, smi_kind, vec_kind};
use crate::depths::delta;
use crate::graft::{graft_cfg, inline_cfg, BlockArg, GraftView};
use crate::instr::{
    blockarg_callee, blockarg_splice, created_block, instr_step, site_step, value_instr,
    value_splice, SiteStep,
};
use crate::ops::{alloc_out, count_cold};
use crate::root::{
    budgeted, dispatch_send, dominant_splice, generic_send, guard_shape, guarded_splice,
    profiled_send, root_klass, root_send, self_target, site_of, splices, static_splice, super_send,
    EndView, SpliceEnd, Step, StepEnd,
};
use crate::splice::{lemma_nil_temps, Site, SiteView};
use crate::translator::{pool_oop, CtxView, St};
use crate::world::{
    BlockArgSend, InlineDecision, Instr, InterpreterIc, KlassOop, MethodOop, SiteFeedback, VmState,
};

verus! {

/// Sites that fuse into one operation pass as many arguments as the primitive behind them takes.
pub open spec fn arity_ok(vm: VmState, ic: InterpreterIc) -> bool {
    &&& smi_kind(vm, ic) is Some ==> ic.argc == 1
    &&& array_kind(vm, ic) matches Some(put) ==> ic.argc == (if put {
        2int
    } else {
        1
    })
    &&& double_kind(vm, ic) is Some ==> ic.argc == 1
    &&& vec_kind(vm, ic) is Some ==> ic.argc == 1
}

/// The depth that a step leaves is `d`. A comparison left to its branch takes the branch's pop along.
/// Behind a trap no depth is owed.
pub open spec fn leaves(d: int, s: St, end: EndView) -> bool {
    match end {
        StepEnd::Next => s.depth() == d,
        StepEnd::Split(_) => s.depth() == d,
        StepEnd::Compare(_) => s.depth() == d - 1,
        StepEnd::Trapped => true,
    }
}

spec fn moved(d: int, r: Option<(St, EndView)>) -> bool {
    r matches Some((s, end)) ==> leaves(d, s, end)
}

spec fn stepped(d: int, r: Option<Step>) -> bool {
    r matches Some(x) ==> leaves(d, x.s, x.end)
}

proof fn lemma_cfg_stack(
    cx: CtxView,
    x: SiteView,
    blockarg: Option<BlockArg>,
    mode: GraftView,
    s: St,
)
    ensures
        inline_cfg(cx, x, blockarg, mode, s) matches Some(r) ==> r.0.seg.stack == s.seg.stack,
{
    reveal(inline_cfg);
    assert(graft_cfg(cx, x, blockarg, mode, s) matches Some(r) ==> r.0.seg.stack == s.seg.stack);
}

proof fn lemma_splices_stack(cx: CtxView, x: SiteView, s: St)
    ensures
        splices(cx, x, s) matches Some(r) ==> r.0.seg.stack == s.seg.stack,
{
    reveal(splices);
    lemma_cfg_stack(cx, x, None, GraftView { is_block: false, parent: None }, s);
}

proof fn lemma_static_splice(
    cx: CtxView,
    ic: InterpreterIc,
    target: Option<MethodOop>,
    dep_klass: KlassOop,
    bci: usize,
    s: St,
)
    ensures
        static_splice(cx, ic, target, dep_klass, bci, s) matches Some(r) ==> (match r.1 {
            SpliceEnd::Declined => r.0.depth() == s.depth(),
            _ => r.0.depth() == s.depth() - ic.argc - 1,
        }),
{
    if let Some(t) = target {
        lemma_splices_stack(
            cx,
            site_of(ic, t, None, dep_klass, bci, s),
            s.drop(ic.argc + 1),
        );
    }
}

proof fn lemma_profiled_send(cx: CtxView, ic: InterpreterIc, is_static: bool, bci: usize, s: St)
    ensures
        moved(s.depth() - ic.argc, profiled_send(cx, ic, is_static, bci, s)),
{
    match budgeted(cx, ic, is_static, s) {
        None => {},
        Some((s1, d)) => {
            assert(s1.depth() == s.depth());
            match d {
                InlineDecision::Inline { callee, guard } => {
                    if let SiteFeedback::Mono { klass, .. } = ic.feedback@ {
                        lemma_splices_stack(
                            cx,
                            site_of(
                                ic,
                                callee,
                                Some((klass, guard_shape(guard))),
                                klass,
                                bci,
                                s1,
                            ),
                            s1.drop(ic.argc + 1),
                        );
                    }
                    assert(moved(
                        s.depth() - ic.argc,
                        guarded_splice(cx, ic, callee, guard, bci, s1),
                    ));
                },
                InlineDecision::DominantWithSlowPath {
                    case_klass,
                    case_method,
                    guard,
                } => {
                    assert(moved(
                        s.depth() - ic.argc,
                        dominant_splice(cx, ic, case_klass, case_method, guard, bci, s1),
                    ));
                },
                _ => {},
            }
        },
    }
}

proof fn lemma_dispatch_send(
    cx: CtxView,
    ic: InterpreterIc,
    bci: usize,
    s: St,
    sites: Seq<Option<usize>>,
)
    ensures
        moved(s.depth() - ic.argc, dispatch_send(cx, ic, bci, s, sites)),
{
    let target = self_target(cx, ic, s, sites);
    lemma_static_splice(cx, ic, target, cx.rcvr_klass, bci, s);
    if let Some((s1, end)) = static_splice(cx, ic, target, cx.rcvr_klass, bci, s) {
        if let Some(s2) = count_cold(cx, ic, s1) {
            lemma_profiled_send(cx, ic, target is Some, bci, s2);
        }
    }
}

proof fn lemma_root_send(
    cx: CtxView,
    ic: InterpreterIc,
    is_super: bool,
    fusable: bool,
    bci: usize,
    s: St,
    sites: Seq<Option<usize>>,
)
    requires
        arity_ok(cx.vm, ic),
    ensures
        moved(s.depth() - ic.argc, root_send(cx, ic, is_super, fusable, bci, s, sites)),
{
    let d = s.depth() - ic.argc;
    if is_super {
        if let Some(holder) = cx.vm.m(cx.method).holder {
            if let Some(info) = cx.vm.info(holder) {
                if let Some(sup) = info.superclass {
                    lemma_static_splice(cx, ic, cx.vm.lookup(sup, ic.selector), sup, bci, s);
                }
            }
        }
        assert(moved(d, super_send(cx, ic, bci, s)));
    } else {
        lemma_dispatch_send(cx, ic, bci, s, sites);
        let s1 = s.with_out(
            alloc_out(
                cx.vm,
                s.out,
                ic,
                s.top(0),
                cx.self_vreg,
                root_klass(cx),
            ),
        );
        lemma_dispatch_send(cx, ic, bci, s1, sites);
        assert(moved(d, generic_send(cx, ic, bci, s, sites)));
    }
}

proof fn lemma_site_step(cx: CtxView, i: Instr, bci: usize, s: St, sites: Seq<Option<usize>>)
    requires
        sites.len() == s.depth(),
    ensures
        site_step(cx, i, bci, s, sites) matches SiteStep::Handled(x) ==> leaves(
            s.depth() + delta(cx.vm.m(cx.method), i),
            x.s,
            x.end,
        ),
        site_step(cx, i, bci, s, sites) matches SiteStep::Through(s1) ==> s1.seg.stack
            == s.seg.stack,
{
    if let Instr::Send { ic, .. } = i {
        let m = cx.vm.m(cx.method);
        let ic = m.ics@[ic as int];
        if let Some(t) = m.escape.blockarg_target(bci) {
            lemma_blockarg_splice(cx, t, ic, bci, s, sites);
        } else if let Some(site) = m.escape.value_target(bci) {
            lemma_value_splice(cx, site, ic, bci, s, sites);
        }
    }
}

proof fn lemma_blockarg_splice(
    cx: CtxView,
    t: BlockArgSend,
    ic: InterpreterIc,
    bci: usize,
    s: St,
    sites: Seq<Option<usize>>,
)
    ensures
        stepped(s.depth() - ic.argc, blockarg_splice(cx, t, ic, bci, s, sites)),
{
    let n = ic.argc + 1;
    match (created_block(cx, t.site), blockarg_callee(
        cx,
        ic,
        t.devirt,
    )) {
        (Some(blk), Some((guard, dep_klass, callee))) => {
            if s.depth() >= n {
                let e = pool_oop(cx.vm.m(blk).oop);
                lemma_cfg_stack(
                    cx,
                    site_of(ic, callee, guard, dep_klass, bci, s),
                    Some(BlockArg { arg_ix: t.arg_ix, block: blk, pool_ix: s.lit(e).0 }),
                    GraftView { is_block: false, parent: None },
                    s.drop(n).intern(e),
                );
            }
        },
        _ => {},
    }
}

proof fn lemma_value_splice(
    cx: CtxView,
    site: usize,
    ic: InterpreterIc,
    bci: usize,
    s: St,
    sites: Seq<Option<usize>>,
)
    ensures
        stepped(s.depth() - ic.argc, value_splice(cx, site, ic, bci, s, sites)),
{
    let n = ic.argc + 1;
    if let Some(blk) = created_block(cx, site) {
        if s.depth() >= n {
            let args = s.seg.stack.subrange(s.depth() - ic.argc, s.depth() as int);
            let below = s.drop(n);
            lemma_cfg_stack(
                cx,
                Site {
                    callee: blk,
                    guard: None,
                    dep_klass: cx.rcvr_klass,
                    selector: ic.selector,
                    receiver: cx.self_vreg,
                    args,
                    bci,
                },
                None,
                GraftView { is_block: true, parent: None },
                below,
            );
            let m = cx.vm.m(blk);
            let nil = pool_oop(cx.vm.universe.nil_obj);
            lemma_nil_temps(below.lit(nil), m.ntemps as nat, below.intern(nil));
        }
    }
}

proof fn lemma_value_instr(
    cx: CtxView,
    i: Instr,
    fusable: bool,
    bci: usize,
    s: St,
    sites: Seq<Option<usize>>,
)
    requires
        i matches Instr::Send { ic, .. } ==> arity_ok(cx.vm, cx.vm.m(cx.method).ics@[ic as int]),
        !(i is BrTrueFwd || i is BrFalseFwd),
    ensures
        moved(
            s.depth() + delta(cx.vm.m(cx.method), i),
            value_instr(cx, i, fusable, bci, s, sites),
        ),
{
    if let Instr::Send { ic, super_ } = i {
        lemma_root_send(cx, cx.vm.m(cx.method).ics@[ic as int], super_, fusable, bci, s, sites);
    }
}

/// One instruction moves the stack by its net effect, and the shadow of the stack stays as long as
/// the stack. A branch does not move it: its condition is taken off where the block ends. A
/// comparison that is left to its branch takes the condition off already. Behind a trap nothing
/// follows. Fused sends must pass the arguments that their operation takes.
pub proof fn law_instructions_move_the_stack(
    cx: CtxView,
    i: Instr,
    fusable: bool,
    bci: usize,
    s: St,
    sites: Seq<Option<usize>>,
)
    requires
        instr_step(cx, i, fusable, bci, s, sites) is Some,
        sites.len() == s.depth(),
        i matches Instr::Send { ic, .. } ==> arity_ok(cx.vm, cx.vm.m(cx.method).ics@[ic as int]),
    ensures
        ({
            let x = instr_step(cx, i, fusable, bci, s, sites)->0;
            &&& x.sites.len() == x.s.depth()
            &&& if i is BrTrueFwd || i is BrFalseFwd {
                x.end is Next && x.s.depth() == s.depth()
            } else {
                leaves(s.depth() + delta(cx.vm.m(cx.method), i), x.s, x.end)
            }
        }),
{
    lemma_site_step(cx, i, bci, s, sites);
    if !(i is BrTrueFwd || i is BrFalseFwd) {
        lemma_value_instr(cx, i, fusable, bci, s, sites);
        if let SiteStep::Through(s1) = site_step(cx, i, bci, s, sites) {
            lemma_value_instr(cx, i, fusable, bci, s1, sites);
        }
    }
}

} // verus!

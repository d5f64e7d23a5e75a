//! How the instructions of the method itself translate: sends are spliced, fused or left as sends,
//! and closures that never leave the method are not created at all.

use vstd::prelude::*;
use crate::classify::{
    array_kind, array_op_kind, bool_not_speculatable, classify_double_send, classify_smi_send,
    classify_vec_send, double_kind, has_splice_shape, is_single_return_block,
    leaf_body_is_spliceable, leaf_from, not_speculatable, ref_eq, ref_eq_kind, single_return_block,
    smi_kind, splice_shape, vec_kind, DoubleSendKind, SmiSendKind,
};
use crate::graft::{inline_cfg, GraftMode, GraftView};
use crate::ir::{
    copy_regs, BlockId, BlockView, CallSiteInfo, CmpOp, DeoptRaw, DeoptView, GuardShape, Ir,
    IrBlock, VReg,
};
use crate::ops::{
    alloc_op, alloc_out, alloc_site, arg_is_pooled, array_op, count_cold, double_operands, not_op,
    ref_op, send_op, trap_op,
};
use crate::scopes::SafepointKind;
use crate::splice::{inline_leaf, inline_nonleaf, NonLeafOutcome, Site, SiteView};
use crate::translator::{pool_oop, st, Ctx, CtxView, OutView, Seg, St, Translator};
use crate::world::{
    GuardKind, InlineDecision, InterpreterIc, KlassOop, Method, MethodOop, SiteFeedback,
};

verus! {

/// A comparison whose only consumer is the branch that ends the block: the branch and the
/// comparison become one operation.
#[derive(Debug)]
pub enum PendingCmp<L = Vec<VReg>> {
    /// Fallible: a failure runs the send at `bci` again, on `stack`.
    Smi { op: CmpOp, a: VReg, b: VReg, bci: usize, stack: L },
    /// The operands are unboxed already, so nothing can fail.
    Float { op: CmpOp, a: VReg, b: VReg },
}

/// What follows an instruction.
pub enum StepEnd<L = Vec<VReg>> {
    /// The next instruction, in the same block.
    Next,
    /// The next instruction, in this block.
    Split(BlockId),
    /// Nothing: control left compiled code.
    Trapped,
    /// The branch that consumes this comparison.
    Compare(PendingCmp<L>),
}

impl View for PendingCmp {
    type V = PendingCmp<Seq<VReg>>;

    open spec fn view(&self) -> PendingCmp<Seq<VReg>> {
        match *self {
            PendingCmp::Smi { op, a, b, bci, stack } => PendingCmp::Smi {
                op,
                a,
                b,
                bci,
                stack: stack@,
            },
            PendingCmp::Float { op, a, b } => PendingCmp::Float { op, a, b },
        }
    }
}

impl View for StepEnd {
    type V = StepEnd<Seq<VReg>>;

    open spec fn view(&self) -> StepEnd<Seq<VReg>> {
        match *self {
            StepEnd::Next => StepEnd::Next,
            StepEnd::Split(b) => StepEnd::Split(b),
            StepEnd::Trapped => StepEnd::Trapped,
            StepEnd::Compare(c) => StepEnd::Compare(c@),
        }
    }
}

pub type EndView = StepEnd<Seq<VReg>>;

/// The state after an instruction. `sites` shadows the stack: where an elided closure lies, it
/// names the position that created it.
pub ghost struct Step {
    pub s: St,
    pub sites: Seq<Option<usize>>,
    pub end: EndView,
}

/// How the attempt to splice a callee ended.
pub enum SpliceEnd {
    /// No splice takes this callee.
    Declined,
    Value(VReg),
    Trapped,
    /// The value, the block to enter and the block to continue in.
    Graft(VReg, BlockId, BlockId),
}

/// The splices, cheapest first.
#[verifier::opaque]
pub open spec fn splices(cx: CtxView, x: SiteView, s: St) -> Option<(St, SpliceEnd)> {
    match inline_leaf(cx, x, s) {
        None => None,
        Some((s1, Some(v))) => Some((s1, SpliceEnd::Value(v))),
        Some((_, None)) => match inline_nonleaf(cx, x, s) {
            None => None,
            Some((s1, Some(NonLeafOutcome::Value(v)))) => Some((s1, SpliceEnd::Value(v))),
            Some((s1, Some(NonLeafOutcome::Trapped))) => Some((s1, SpliceEnd::Trapped)),
            Some((_, None)) => match inline_cfg(
                cx,
                x,
                None,
                GraftView { is_block: false, parent: None },
                s,
            ) {
                None => None,
                Some((s1, Some((v, enter, cont)))) => Some(
                    (s1, SpliceEnd::Graft(v, enter, cont)),
                ),
                Some((s1, None)) => Some((s1, SpliceEnd::Declined)),
            },
        },
    }
}

/// The state and the continuation after a splice that took the callee.
pub open spec fn spliced(s: St, end: SpliceEnd) -> (St, EndView) {
    match end {
        SpliceEnd::Declined => (s, StepEnd::Next),
        SpliceEnd::Value(v) => (s.push(v), StepEnd::Next),
        SpliceEnd::Trapped => (s, StepEnd::Trapped),
        SpliceEnd::Graft(v, enter, cont) => (
            s.with_out(OutView { pending_jump_target: Some(enter), ..s.out }).push(v),
            StepEnd::Split(cont),
        ),
    }
}

/// Counts a splice that the budget declined.
pub open spec fn declined(s: St) -> Option<St> {
    if s.out.splice_declined_budget == u32::MAX {
        None
    } else {
        Some(
            s.with_out(
                OutView {
                    splice_declined_budget: (s.out.splice_declined_budget + 1) as u32,
                    ..s.out
                },
            ),
        )
    }
}

/// The splice that replaces a send of the operands on the stack.
pub open spec fn site_of(
    ic: InterpreterIc,
    callee: MethodOop,
    guard: Option<(KlassOop, GuardShape)>,
    dep_klass: KlassOop,
    bci: usize,
    s: St,
) -> SiteView {
    let n = s.depth();
    Site {
        callee,
        guard,
        dep_klass,
        selector: ic.selector,
        receiver: s.top(ic.argc as int),
        args: s.seg.stack.subrange(n - ic.argc, n as int),
        bci,
    }
}

/// Splices a statically resolved callee without a guard, if shape and budget allow. `Declined`
/// leaves the operands on the stack.
pub open spec fn static_splice(
    cx: CtxView,
    ic: InterpreterIc,
    target: Option<MethodOop>,
    dep_klass: KlassOop,
    bci: usize,
    s: St,
) -> Option<(St, SpliceEnd)> {
    match target {
        None => Some((s, SpliceEnd::Declined)),
        Some(t) => if !splice_shape(cx.vm, t) {
            Some((s, SpliceEnd::Declined))
        } else if s.out.over_budget(cx.vm, t) {
            match declined(s) {
                Some(s1) => Some((s1, SpliceEnd::Declined)),
                None => None,
            }
        } else if s.depth() < ic.argc + 1 {
            None
        } else {
            match splices(cx, site_of(ic, t, None, dep_klass, bci, s), s.drop(ic.argc + 1)) {
                None => None,
                Some((s1, SpliceEnd::Declined)) => Some((s, SpliceEnd::Declined)),
                Some((s1, end)) => Some((s1, end)),
            }
        },
    }
}

/// A send to the superclass of the method's holder: the target is known now.
pub open spec fn super_send(cx: CtxView, ic: InterpreterIc, bci: usize, s: St) -> Option<
    (St, EndView),
> {
    match cx.vm.m(cx.method).holder {
        None => None,
        Some(holder) => match cx.vm.info(holder) {
            None => None,
            Some(info) => match info.superclass {
                None => None,
                Some(sup) => match static_splice(
                    cx,
                    ic,
                    cx.vm.lookup(sup, ic.selector),
                    sup,
                    bci,
                    s,
                ) {
                    None => None,
                    Some((s1, SpliceEnd::Declined)) => match send_op(
                        ic,
                        Some(sup),
                        bci,
                        seq![],
                        None,
                        s1,
                    ) {
                        None => None,
                        Some(s2) => Some((s2, StepEnd::Next)),
                    },
                    Some((s1, end)) => Some(spliced(s1, end)),
                },
            },
        },
    }
}

/// Fused small-integer operation: a comparison waits for its branch, anything else continues in a
/// new block.
pub open spec fn root_smi(kind: SmiSendKind, fusable: bool, bci: usize, s: St) -> Option<
    (St, EndView),
> {
    if s.depth() < 2 {
        None
    } else {
        let a = s.top(1);
        let b = s.top(0);
        let s1 = s.drop(2);
        if kind is Cmp && fusable {
            Some(
                (
                    s1,
                    StepEnd::Compare(
                        PendingCmp::Smi { op: kind->Cmp_0, a, b, bci, stack: s.seg.stack },
                    ),
                ),
            )
        } else if !s.out.can_block() || !s.out.new_block().can_block() {
            None
        } else {
            let cont = s.out.block_id();
            let fail = s.out.new_block().block_id();
            let s2 = s1.with_out(
                s.out.new_block().trap(bci, s.seg.stack, seq![], None),
            ).fresh(true).emit(crate::ops::smi_ir(kind, s.reg(), a, b, fail)).push(s.reg());
            Some((s2, StepEnd::Split(cont)))
        }
    }
}

/// Fused Double operation.
pub open spec fn root_double(kind: DoubleSendKind, fusable: bool, bci: usize, s: St) -> Option<
    (St, EndView),
> {
    match double_operands(bci, None, s) {
        None => None,
        Some(s1) => {
            let a = s.reg();
            let b = s.fresh_fp().reg();
            match kind {
                DoubleSendKind::Arith(op) => {
                    let fd = s1.reg();
                    let s2 = s1.fresh_fp().emit(Ir::FArith { op, dst: fd, a, b });
                    let d = s2.reg();
                    Some(
                        (
                            s2.fresh(true).emit(Ir::FBox { dst: d, src: fd }).push(d),
                            StepEnd::Next,
                        ),
                    )
                },
                DoubleSendKind::Cmp(op) => if fusable {
                    Some((s1, StepEnd::Compare(PendingCmp::Float { op, a, b })))
                } else {
                    let d = s1.reg();
                    Some(
                        (
                            s1.fresh(true).emit(Ir::FCmpVal { op, dst: d, a, b }).push(d),
                            StepEnd::Next,
                        ),
                    )
                },
            }
        },
    }
}

/// Fused vector operation.
pub open spec fn root_vec(
    kind: (crate::ir::VecKind, crate::ir::FArithOp),
    bci: usize,
    s: St,
) -> Option<St> {
    if s.depth() < 2 || !s.out.can_block() {
        None
    } else {
        Some(
            s.drop(2).with_out(s.out.trap(bci, s.seg.stack, seq![], None)).fresh(true).emit(
                Ir::VecArith {
                    kind: kind.0,
                    op: kind.1,
                    dst: s.reg(),
                    a: s.top(1),
                    b: s.top(0),
                    fail: s.out.block_id(),
                },
            ).push(s.reg()),
        )
    }
}

/// One of the last `n` stack entries is an elided closure.
pub open spec fn phantom_in(cx: CtxView, sites: Seq<Option<usize>>, n: int) -> bool {
    cx.has_closures && sites.len() >= n && exists|i: int|
        sites.len() - n <= i < sites.len() && #[trigger] sites[i] is Some
}

pub open spec fn guard_shape(g: GuardKind) -> GuardShape {
    match g {
        GuardKind::SmiTest => GuardShape::SmiTest,
        _ => GuardShape::KlassTest,
    }
}

/// The class of the method's own receiver, where it is known.
pub open spec fn root_klass(cx: CtxView) -> Option<KlassOop> {
    if cx.vm.m(cx.method).is_block {
        None
    } else {
        Some(cx.rcvr_klass)
    }
}

/// The static target of a send whose receiver is the method's own.
pub open spec fn self_target(
    cx: CtxView,
    ic: InterpreterIc,
    s: St,
    sites: Seq<Option<usize>>,
) -> Option<MethodOop> {
    let at = s.depth() - 1 - ic.argc;
    if at >= 0 && s.seg.stack[at] == cx.self_vreg && !(cx.has_closures && sites[at] is Some) {
        cx.devirt(cx.rcvr_klass, ic.selector)
    } else {
        None
    }
}

/// The rejoining slow path of a site with a dominant class.
pub open spec fn slow_block(
    id: BlockId,
    bci: usize,
    dst: VReg,
    dst_slow: VReg,
    site: u16,
    args: Seq<VReg>,
    cont: BlockId,
    below: Seq<VReg>,
) -> BlockView {
    BlockView {
        id,
        bci,
        code: seq![
            Ir::CallSend { dst: dst_slow, site, args },
            Ir::Move { dst, src: dst_slow },
            Ir::Jump { target: cont },
        ],
        entry_stack: seq![],
        deopt_sites: seq![
            (
                0u32,
                DeoptView {
                    stack: below,
                    bci,
                    kind: SafepointKind::Call,
                    reexecute: false,
                    stack_closures: seq![],
                    inline: None,
                },
            ),
        ],
    }
}

/// A site with a dominant class: its leaf body behind a guard, a full send for the others, and both
/// leave the value in one register.
pub open spec fn dominant_splice(
    cx: CtxView,
    ic: InterpreterIc,
    klass: KlassOop,
    callee: MethodOop,
    guard: GuardKind,
    bci: usize,
    s: St,
) -> Option<(St, EndView)> {
    let n = ic.argc + 1;
    if s.depth() < n || ic.argc == 255 || !s.out.can_block() || !s.out.new_block().can_block() {
        None
    } else {
        let below = s.drop(n);
        let x = site_of(ic, callee, None, klass, bci, s);
        let cont = s.out.block_id();
        let slow = s.out.new_block().block_id();
        let dst = s.reg();
        let dst_slow = s.fresh(true).reg();
        let info = CallSiteInfo {
            selector: ic.selector,
            argc: (ic.argc + 1) as u8,
            static_klass: None,
        };
        let out = s.out.new_block().new_block().fresh(true).fresh(true).call_site(
            info,
            ic.feedback@,
        ).finish(
            slow_block(
                slow,
                bci,
                dst,
                dst_slow,
                s.out.call_sites.len() as u16,
                s.seg.stack.subrange(s.depth() - n, s.depth() as int),
                cont,
                below.seg.stack,
            ),
        );
        let e = pool_oop(klass.0);
        let s1 = below.with_out(out.intern(e)).emit(
            Ir::GuardKlass {
                obj: x.receiver,
                expect: out.lit(e),
                fail: slow,
                kind: guard_shape(guard),
            },
        );
        match inline_leaf(cx, x, s1) {
            Some((s2, Some(v))) => Some(
                (s2.emit(Ir::Move { dst, src: v }).push(dst), StepEnd::Split(cont)),
            ),
            _ => None,
        }
    }
}

/// A callee that the profile names: behind a guard on the class seen, or a plain send if no splice
/// takes it.
pub open spec fn guarded_splice(
    cx: CtxView,
    ic: InterpreterIc,
    callee: MethodOop,
    guard: GuardKind,
    bci: usize,
    s: St,
) -> Option<(St, EndView)> {
    match ic.feedback@ {
        SiteFeedback::Mono { klass, .. } => if s.depth() < ic.argc + 1 {
            None
        } else {
            match splices(
                cx,
                site_of(ic, callee, Some((klass, guard_shape(guard))), klass, bci, s),
                s.drop(ic.argc + 1),
            ) {
                None => None,
                Some((s1, SpliceEnd::Declined)) => plain_send(ic, bci, s),
                Some((s1, end)) => Some(spliced(s1, end)),
            }
        },
        _ => None,
    }
}

pub open spec fn plain_send(ic: InterpreterIc, bci: usize, s: St) -> Option<(St, EndView)> {
    match send_op(ic, None, bci, seq![], None, s) {
        Some(s1) => Some((s1, StepEnd::Next)),
        None => None,
    }
}

/// What the profile asks for, held against the budget; the state counts a decline.
pub open spec fn budgeted(cx: CtxView, ic: InterpreterIc, is_static: bool, s: St) -> Option<
    (St, InlineDecision),
> {
    if is_static {
        Some((s, InlineDecision::Call))
    } else {
        let callee = match ic.decision {
            InlineDecision::Inline { callee, .. } => Some(callee),
            InlineDecision::DominantWithSlowPath { case_method, .. } => Some(case_method),
            _ => None,
        };
        match callee {
            Some(c) => if s.out.over_budget(cx.vm, c) {
                match declined(s) {
                    Some(s1) => Some((s1, InlineDecision::Call)),
                    None => None,
                }
            } else {
                Some((s, ic.decision))
            },
            None => Some((s, ic.decision)),
        }
    }
}

pub open spec fn leaf_shape(m: Method, argc: u8) -> bool {
    single_return_block(m) && m.argc == argc && leaf_from(m, 0)
}

/// A send by profile: spliced as the profile asks, or plain.
pub open spec fn profiled_send(
    cx: CtxView,
    ic: InterpreterIc,
    is_static: bool,
    bci: usize,
    s: St,
) -> Option<(St, EndView)> {
    match budgeted(cx, ic, is_static, s) {
        None => None,
        Some((s1, d)) => match d {
            InlineDecision::DominantWithSlowPath { case_klass, case_method, guard } => if leaf_shape(
                cx.vm.m(case_method),
                ic.argc,
            ) {
                dominant_splice(cx, ic, case_klass, case_method, guard, bci, s1)
            } else {
                plain_send(ic, bci, s1)
            },
            InlineDecision::Inline { callee, guard } => guarded_splice(
                cx,
                ic,
                callee,
                guard,
                bci,
                s1,
            ),
            _ => plain_send(ic, bci, s1),
        },
    }
}

/// A send that is not fused and no allocation: to the method's own receiver it is resolved now,
/// else the profile decides. A send that was never taken becomes a trap.
pub open spec fn dispatch_send(
    cx: CtxView,
    ic: InterpreterIc,
    bci: usize,
    s: St,
    sites: Seq<Option<usize>>,
) -> Option<(St, EndView)> {
    let target = self_target(cx, ic, s, sites);
    match static_splice(cx, ic, target, cx.rcvr_klass, bci, s) {
        None => None,
        Some((s1, SpliceEnd::Declined)) => if target is None && cx.cold_traps()
            && ic.feedback is Untaken {
            Some((trap_op(bci, seq![], None, s1), StepEnd::Trapped))
        } else {
            match count_cold(cx, ic, s1) {
                None => None,
                Some(s2) => profiled_send(cx, ic, target is Some, bci, s2),
            }
        },
        Some((s1, end)) => Some(
            spliced(s1.with_out(OutView { self_devirt: true, ..s1.out }), end),
        ),
    }
}

/// A send that is not fused.
pub open spec fn generic_send(
    cx: CtxView,
    ic: InterpreterIc,
    bci: usize,
    s: St,
    sites: Seq<Option<usize>>,
) -> Option<(St, EndView)> {
    if s.depth() > 0 && !phantom_in(cx, sites, 1) {
        let s1 = s.with_out(
            alloc_out(cx.vm, s.out, ic, s.top(0), cx.self_vreg, root_klass(cx)),
        );
        match alloc_site(cx.vm, s.out, ic, s.top(0), cx.self_vreg, root_klass(cx)) {
            Some((k, n)) => match alloc_op(k, n, bci, None, s1) {
                Some(s2) => Some((s2, StepEnd::Next)),
                None => None,
            },
            None => dispatch_send(cx, ic, bci, s1, sites),
        }
    } else {
        dispatch_send(cx, ic, bci, s, sites)
    }
}

pub open spec fn next_end(s: Option<St>) -> Option<(St, EndView)> {
    match s {
        Some(x) => Some((x, StepEnd::Next)),
        None => None,
    }
}

/// A send of the method itself.
pub open spec fn root_send(
    cx: CtxView,
    ic: InterpreterIc,
    is_super: bool,
    fusable: bool,
    bci: usize,
    s: St,
    sites: Seq<Option<usize>>,
) -> Option<(St, EndView)> {
    let vm = cx.vm;
    if is_super {
        super_send(cx, ic, bci, s)
    } else if smi_kind(vm, ic) is Some && !arg_is_pooled(s) {
        root_smi(smi_kind(vm, ic)->0, fusable, bci, s)
    } else if array_kind(vm, ic) is Some {
        next_end(array_op(vm, array_kind(vm, ic)->0, bci, None, s))
    } else if double_kind(vm, ic) is Some {
        root_double(double_kind(vm, ic)->0, fusable, bci, s)
    } else if ref_eq(vm, ic) is Some && !phantom_in(cx, sites, 2) {
        next_end(ref_op(ref_eq(vm, ic)->0, s))
    } else if not_speculatable(vm, ic) && !phantom_in(cx, sites, 1) {
        next_end(not_op(vm, ic.selector, bci, None, s))
    } else if vec_kind(vm, ic) is Some {
        next_end(root_vec(vec_kind(vm, ic)->0, bci, s))
    } else {
        generic_send(cx, ic, bci, s, sites)
    }
}

impl Translator {
    /// Splices a callee if one of the splices takes it.
    pub(crate) fn try_splices(&mut self, cx: &Ctx, x: &Site<Vec<VReg>>, seg: &mut Seg) -> (r: SpliceEnd)
        requires
            cx.wf(),
            cx.vm.has(x.callee),
            splices(cx@, x@, st(*old(self), *old(seg))) is Some,
        ensures
            splices(cx@, x@, st(*old(self), *old(seg))) == Some(
                (st(*final(self), *final(seg)), r),
            ),
    {
        proof {
            reveal(splices);
        }
        if let Some(v) = self.try_inline_leaf(cx, x, seg) {
            return SpliceEnd::Value(v);
        }
        match self.try_inline_nonleaf(cx, x, seg) {
            Some(NonLeafOutcome::Value(v)) => return SpliceEnd::Value(v),
            Some(NonLeafOutcome::Trapped) => return SpliceEnd::Trapped,
            None => {},
        }
        match self.try_inline_cfg(cx, x, None, GraftMode::Method, seg) {
            Some((v, enter, cont)) => SpliceEnd::Graft(v, enter, cont),
            None => SpliceEnd::Declined,
        }
    }

    /// Takes up the state that a splice left.
    fn adopt(&mut self, end: SpliceEnd, seg: &mut Seg) -> (r: StepEnd)
        ensures
            spliced(st(*old(self), *old(seg)), end) == (st(*final(self), *final(seg)), r@),
    {
        match end {
            SpliceEnd::Declined => StepEnd::Next,
            SpliceEnd::Value(v) => {
                seg.push(v);
                StepEnd::Next
            },
            SpliceEnd::Trapped => StepEnd::Trapped,
            SpliceEnd::Graft(v, enter, cont) => {
                seg.push(v);
                self.pending_jump_target = Some(enter);
                StepEnd::Split(cont)
            },
        }
    }

    fn count_declined(&mut self, seg: &Seg)
        requires
            declined(st(*old(self), *seg)) is Some,
        ensures
            declined(st(*old(self), *seg)) == Some(st(*final(self), *seg)),
    {
        self.splice_declined_budget = self.splice_declined_budget + 1;
    }

    /// Splices a statically resolved callee, if shape and budget allow.
    fn try_static_splice(
        &mut self,
        cx: &Ctx,
        ic: &InterpreterIc,
        target: Option<MethodOop>,
        dep_klass: KlassOop,
        bci: usize,
        seg: &mut Seg,
    ) -> (r: SpliceEnd)
        requires
            cx.wf(),
            target is Some ==> cx.vm.has(target->0),
            static_splice(cx@, *ic, target, dep_klass, bci, st(*old(self), *old(seg))) is Some,
        ensures
            static_splice(cx@, *ic, target, dep_klass, bci, st(*old(self), *old(seg))) == Some(
                (st(*final(self), *final(seg)), r),
            ),
    {
        let t = match target {
            Some(t) => t,
            None => return SpliceEnd::Declined,
        };
        if !has_splice_shape(cx.vm, t) {
            return SpliceEnd::Declined;
        }
        if self.budget_would_exceed(cx.vm, t) {
            self.count_declined(seg);
            return SpliceEnd::Declined;
        }
        let ghost s = st(*self, *seg);
        let args = seg.pop_n(ic.argc as usize);
        let receiver = seg.pop();
        assert(seg@.stack =~= s.drop(ic.argc + 1).seg.stack);
        let mut x = Site {
            callee: t,
            guard: None,
            dep_klass,
            selector: ic.selector,
            receiver,
            args,
            bci,
        };
        assert(x@ == site_of(*ic, t, None, dep_klass, bci, s));
        let ghost s0 = st(*self, *seg);
        proof {
            lemma_declined_splices(cx@, x@, s0);
        }
        let end = self.try_splices(cx, &x, seg);
        if let SpliceEnd::Declined = end {
            seg.push(x.receiver);
            seg.stack.append(&mut x.args);
            assert(seg@.stack =~= s.seg.stack);
        }
        end
    }
}

/// A splice that declines leaves the state as it was.
proof fn lemma_declined_splices(cx: CtxView, x: SiteView, s: St)
    ensures
        splices(cx, x, s) matches Some((s1, SpliceEnd::Declined)) ==> s1 == s,
{
    reveal(splices);
    reveal(inline_cfg);
}

/// Is one of the last `n` stack entries an elided closure?
fn has_phantom_in(cx: &Ctx, sites: &Vec<Option<usize>>, n: usize) -> (r: bool)
    ensures
        r == phantom_in(cx@, sites@, n as int),
{
    let len: usize = sites.len();
    if !cx.has_closures || len < n {
        return false;
    }
    let mut i: usize = len - n;
    while i < len
        invariant
            len == sites@.len(),
            n <= len,
            len - n <= i <= len,
            cx.has_closures,
            forall|j: int| len - n <= j < i ==> !(#[trigger] sites@[j] is Some),
        decreases len - i,
    {
        if sites[i].is_some() {
            assert(sites@[i as int] is Some);
            return true;
        }
        i = i + 1;
    }
    false
}

fn shape_of(g: GuardKind) -> (r: GuardShape)
    ensures
        r == guard_shape(g),
{
    match g {
        GuardKind::SmiTest => GuardShape::SmiTest,
        _ => GuardShape::KlassTest,
    }
}

impl Translator {
    /// Translates a send to the superclass.
    fn translate_super_send(
        &mut self,
        cx: &Ctx,
        ic: &InterpreterIc,
        bci: usize,
        seg: &mut Seg,
    ) -> (r: StepEnd)
        requires
            cx.wf(),
            super_send(cx@, *ic, bci, st(*old(self), *old(seg))) is Some,
        ensures
            super_send(cx@, *ic, bci, st(*old(self), *old(seg))) == Some(
                (st(*final(self), *final(seg)), r@),
            ),
    {
        let holder = cx.vm.method(cx.method).holder.unwrap();
        let sup = cx.vm.klass_info(holder).unwrap().superclass.unwrap();
        let target = cx.vm.resolve_method(sup, ic.selector);
        let end = self.try_static_splice(cx, ic, target, sup, bci, seg);
        if let SpliceEnd::Declined = end {
            self.emit_send_op(ic, Some(sup), bci, Vec::new(), None, seg);
            return StepEnd::Next;
        }
        self.adopt(end, seg)
    }

    /// Translates a fused small-integer operation.
    fn translate_root_smi(
        &mut self,
        kind: SmiSendKind,
        fusable: bool,
        bci: usize,
        seg: &mut Seg,
    ) -> (r: StepEnd)
        requires
            root_smi(kind, fusable, bci, st(*old(self), *old(seg))) is Some,
        ensures
            root_smi(kind, fusable, bci, st(*old(self), *old(seg))) == Some(
                (st(*final(self), *final(seg)), r@),
            ),
    {
        let reexec = copy_regs(&seg.stack);
        let b = seg.pop();
        let a = seg.pop();
        assert(seg@.stack =~= st(*old(self), *old(seg)).drop(2).seg.stack);
        match kind {
            SmiSendKind::Cmp(op) if fusable => StepEnd::Compare(
                PendingCmp::Smi { op, a, b, bci, stack: reexec },
            ),
            _ => {
                let (fail, cont) = self.fail_and_continue(bci, reexec);
                let dst = self.fresh(true);
                match kind {
                    SmiSendKind::Arith(op) => seg.emit(Ir::SmiArith { op, dst, a, b, fail }),
                    SmiSendKind::Cmp(op) => seg.emit(Ir::SmiCmpVal { op, dst, a, b, fail }),
                }
                seg.push(dst);
                StepEnd::Split(cont)
            },
        }
    }

    /// A trap block for a failing operation, and the block in which the success continues.
    fn fail_and_continue(&mut self, bci: usize, reexec: Vec<VReg>) -> (r: (BlockId, BlockId))
        requires
            old(self)@.can_block(),
            old(self)@.new_block().can_block(),
        ensures
            final(self)@ == old(self)@.new_block().trap(bci, reexec@, seq![], None),
            r.1 == old(self)@.block_id(),
            r.0 == old(self)@.new_block().block_id(),
    {
        let cont = self.fresh_block_id();
        let closures: Vec<(u16, u32)> = Vec::new();
        let fail = self.fresh_trap_block(bci, reexec, closures, None);
        assert(closures@ =~= seq![]);
        (fail, cont)
    }

    /// Translates a fused Double operation.
    fn translate_root_double(
        &mut self,
        kind: DoubleSendKind,
        fusable: bool,
        bci: usize,
        seg: &mut Seg,
    ) -> (r: StepEnd)
        requires
            root_double(kind, fusable, bci, st(*old(self), *old(seg))) is Some,
        ensures
            root_double(kind, fusable, bci, st(*old(self), *old(seg))) == Some(
                (st(*final(self), *final(seg)), r@),
            ),
    {
        let (a, b) = self.emit_double_operands(bci, None, seg);
        match kind {
            DoubleSendKind::Arith(op) => {
                let fd = self.fresh_fp();
                seg.emit(Ir::FArith { op, dst: fd, a, b });
                let dst = self.fresh(true);
                seg.emit(Ir::FBox { dst, src: fd });
                seg.push(dst);
                StepEnd::Next
            },
            DoubleSendKind::Cmp(op) => {
                if fusable {
                    return StepEnd::Compare(PendingCmp::Float { op, a, b });
                }
                let dst = self.fresh(true);
                seg.emit(Ir::FCmpVal { op, dst, a, b });
                seg.push(dst);
                StepEnd::Next
            },
        }
    }

    /// Translates a fused vector operation.
    fn translate_root_vec(
        &mut self,
        kind: (crate::ir::VecKind, crate::ir::FArithOp),
        bci: usize,
        seg: &mut Seg,
    )
        requires
            root_vec(kind, bci, st(*old(self), *old(seg))) is Some,
        ensures
            root_vec(kind, bci, st(*old(self), *old(seg))) == Some(st(*final(self), *final(seg))),
    {
        let ghost s0 = seg@;
        let reexec = copy_regs(&seg.stack);
        let closures: Vec<(u16, u32)> = Vec::new();
        assert(closures@ =~= seq![]);
        let fail = self.fresh_trap_block(bci, reexec, closures, None);
        let b = seg.pop();
        let a = seg.pop();
        assert(seg@.stack =~= s0.stack.subrange(0, s0.stack.len() - 2));
        let dst = self.fresh(true);
        seg.emit(Ir::VecArith { kind: kind.0, op: kind.1, dst, a, b, fail });
        seg.push(dst);
    }

    /// Files the rejoining slow path of a site with a dominant class.
    fn finish_slow_block(
        &mut self,
        id: BlockId,
        bci: usize,
        dst: VReg,
        dst_slow: VReg,
        site: u16,
        args: Vec<VReg>,
        cont: BlockId,
        below: Vec<VReg>,
    )
        ensures
            final(self)@ == old(self)@.finish(
                slow_block(id, bci, dst, dst_slow, site, args@, cont, below@),
            ),
    {
        let mut code: Vec<Ir> = Vec::new();
        code.push(Ir::CallSend { dst: dst_slow, site, args });
        code.push(Ir::Move { dst, src: dst_slow });
        code.push(Ir::Jump { target: cont });
        let mut sites: Vec<(u32, DeoptRaw)> = Vec::new();
        sites.push(
            (
                0,
                DeoptRaw {
                    stack: below,
                    bci,
                    kind: SafepointKind::Call,
                    reexecute: false,
                    stack_closures: Vec::new(),
                    inline: None,
                },
            ),
        );
        let block = IrBlock { id, bci, code, entry_stack: Vec::new(), deopt_sites: sites };
        proof {
            let want = slow_block(id, bci, dst, dst_slow, site, args@, cont, below@);
            assert(block@.code =~= want.code);
            assert(block@.entry_stack =~= want.entry_stack);
            assert(block@.deopt_sites[0].1.stack_closures =~= seq![]);
            assert(block@.deopt_sites =~= want.deopt_sites);
        }
        self.finish_block(block);
    }

    /// Splices the dominant case of a site.
    fn translate_dominant(
        &mut self,
        cx: &Ctx,
        ic: &InterpreterIc,
        klass: KlassOop,
        callee: MethodOop,
        guard: GuardKind,
        bci: usize,
        seg: &mut Seg,
    ) -> (r: StepEnd)
        requires
            cx.wf(),
            cx.vm.has(callee),
            dominant_splice(cx@, *ic, klass, callee, guard, bci, st(*old(self), *old(seg))) is Some,
        ensures
            dominant_splice(cx@, *ic, klass, callee, guard, bci, st(*old(self), *old(seg)))
                == Some((st(*final(self), *final(seg)), r@)),
    {
        let ghost s = st(*self, *seg);
        let send_args = seg.pop_n(ic.argc as usize + 1);
        let receiver = send_args[0];
        let mut args: Vec<VReg> = copy_regs(&send_args);
        let args = args.split_off(1);
        assert(args@ =~= s.seg.stack.subrange(s.depth() - ic.argc, s.depth() as int));
        let cont = self.fresh_block_id();
        let slow = self.fresh_block_id();
        let dst = self.fresh(true);
        let dst_slow = self.fresh(true);
        let site = self.add_call_site(
            CallSiteInfo { selector: ic.selector, argc: ic.argc + 1, static_klass: None },
            ic.feedback.copy(),
        );
        self.finish_slow_block(
            slow,
            bci,
            dst,
            dst_slow,
            site,
            send_args,
            cont,
            copy_regs(&seg.stack),
        );
        let expect = self.intern_oop(klass.0);
        seg.emit(Ir::GuardKlass { obj: receiver, expect, fail: slow, kind: shape_of(guard) });
        let x = Site {
            callee,
            guard: None,
            dep_klass: klass,
            selector: ic.selector,
            receiver,
            args,
            bci,
        };
        assert(x@ == site_of(*ic, callee, None, klass, bci, s));
        let v = self.try_inline_leaf(cx, &x, seg).unwrap();
        seg.emit(Ir::Move { dst, src: v });
        seg.push(dst);
        StepEnd::Split(cont)
    }

    /// Emits a plain send of the method itself.
    fn translate_plain_send(&mut self, ic: &InterpreterIc, bci: usize, seg: &mut Seg) -> (r:
        StepEnd)
        requires
            plain_send(*ic, bci, st(*old(self), *old(seg))) is Some,
        ensures
            plain_send(*ic, bci, st(*old(self), *old(seg))) == Some(
                (st(*final(self), *final(seg)), r@),
            ),
    {
        self.emit_send_op(ic, None, bci, Vec::new(), None, seg);
        StepEnd::Next
    }

    /// Splices the callee that the profile names.
    fn translate_guarded(
        &mut self,
        cx: &Ctx,
        ic: &InterpreterIc,
        callee: MethodOop,
        guard: GuardKind,
        bci: usize,
        seg: &mut Seg,
    ) -> (r: StepEnd)
        requires
            cx.wf(),
            cx.vm.has(callee),
            guarded_splice(cx@, *ic, callee, guard, bci, st(*old(self), *old(seg))) is Some,
        ensures
            guarded_splice(cx@, *ic, callee, guard, bci, st(*old(self), *old(seg))) == Some(
                (st(*final(self), *final(seg)), r@),
            ),
    {
        let klass = match &ic.feedback {
            SiteFeedback::Mono { klass, .. } => *klass,
            _ => return StepEnd::Next,
        };
        let ghost s = st(*self, *seg);
        let args = seg.pop_n(ic.argc as usize);
        let receiver = seg.pop();
        assert(seg@.stack =~= s.drop(ic.argc + 1).seg.stack);
        let mut x = Site {
            callee,
            guard: Some((klass, shape_of(guard))),
            dep_klass: klass,
            selector: ic.selector,
            receiver,
            args,
            bci,
        };
        proof {
            lemma_declined_splices(cx@, x@, st(*self, *seg));
        }
        let end = self.try_splices(cx, &x, seg);
        if let SpliceEnd::Declined = end {
            seg.push(x.receiver);
            seg.stack.append(&mut x.args);
            assert(seg@.stack =~= s.seg.stack);
            return self.translate_plain_send(ic, bci, seg);
        }
        self.adopt(end, seg)
    }

    /// Holds the profile's wish against the budget.
    fn budgeted_decision(&mut self, cx: &Ctx, ic: &InterpreterIc, is_static: bool, seg: &Seg) -> (r:
        InlineDecision)
        requires
            cx.wf(),
            ic.wf(cx.vm.methods@.len() as int),
            budgeted(cx@, *ic, is_static, st(*old(self), *seg)) is Some,
        ensures
            budgeted(cx@, *ic, is_static, st(*old(self), *seg)) == Some((st(*final(self), *seg), r)),
            r.wf(cx.vm.methods@.len() as int),
    {
        if is_static {
            return InlineDecision::Call;
        }
        let callee = match ic.decision {
            InlineDecision::Inline { callee, .. } => callee,
            InlineDecision::DominantWithSlowPath { case_method, .. } => case_method,
            _ => return ic.decision,
        };
        if self.budget_would_exceed(cx.vm, callee) {
            self.count_declined(seg);
            return InlineDecision::Call;
        }
        ic.decision
    }

    /// Translates a send by its profile.
    fn translate_profiled_send(
        &mut self,
        cx: &Ctx,
        ic: &InterpreterIc,
        is_static: bool,
        bci: usize,
        seg: &mut Seg,
    ) -> (r: StepEnd)
        requires
            cx.wf(),
            ic.wf(cx.vm.methods@.len() as int),
            profiled_send(cx@, *ic, is_static, bci, st(*old(self), *old(seg))) is Some,
        ensures
            profiled_send(cx@, *ic, is_static, bci, st(*old(self), *old(seg))) == Some(
                (st(*final(self), *final(seg)), r@),
            ),
    {
        match self.budgeted_decision(cx, ic, is_static, seg) {
            InlineDecision::DominantWithSlowPath { case_klass, case_method, guard } => {
                let m = cx.vm.method(case_method);
                if is_single_return_block(m) && m.argc == ic.argc && leaf_body_is_spliceable(m) {
                    self.translate_dominant(cx, ic, case_klass, case_method, guard, bci, seg)
                } else {
                    self.translate_plain_send(ic, bci, seg)
                }
            },
            InlineDecision::Inline { callee, guard } => self.translate_guarded(
                cx,
                ic,
                callee,
                guard,
                bci,
                seg,
            ),
            _ => self.translate_plain_send(ic, bci, seg),
        }
    }

    /// Translates a send that is neither fused nor an allocation.
    fn translate_dispatch(
        &mut self,
        cx: &Ctx,
        ic: &InterpreterIc,
        bci: usize,
        seg: &mut Seg,
        sites: &Vec<Option<usize>>,
    ) -> (r: StepEnd)
        requires
            cx.wf(),
            ic.wf(cx.vm.methods@.len() as int),
            sites@.len() == old(seg)@.stack.len(),
            dispatch_send(cx@, *ic, bci, st(*old(self), *old(seg)), sites@) is Some,
        ensures
            dispatch_send(cx@, *ic, bci, st(*old(self), *old(seg)), sites@) == Some(
                (st(*final(self), *final(seg)), r@),
            ),
    {
        let n: usize = ic.argc as usize + 1;
        let len: usize = seg.stack.len();
        let target: Option<MethodOop> = if len >= n && seg.stack[len - n] == cx.self_vreg && !(
        cx.has_closures && sites[len - n].is_some()) {
            cx.devirt_self_target(cx.rcvr_klass, ic.selector)
        } else {
            None
        };
        let end = self.try_static_splice(cx, ic, target, cx.rcvr_klass, bci, seg);
        match end {
            SpliceEnd::Declined => {},
            _ => {
                self.self_devirt = true;
                return self.adopt(end, seg);
            },
        }
        if target.is_none() && cx.cold_send_traps() && matches!(
            ic.feedback,
            SiteFeedback::Untaken
        ) {
            let closures: Vec<(u16, u32)> = Vec::new();
            assert(closures@ =~= seq![]);
            self.emit_trap_op(bci, closures, None, seg);
            return StepEnd::Trapped;
        }
        self.count_cold_send(cx, ic, seg);
        self.translate_profiled_send(cx, ic, target.is_some(), bci, seg)
    }

    /// Translates a send that is not fused.
    fn translate_generic_send(
        &mut self,
        cx: &Ctx,
        ic: &InterpreterIc,
        bci: usize,
        seg: &mut Seg,
        sites: &Vec<Option<usize>>,
    ) -> (r: StepEnd)
        requires
            cx.wf(),
            ic.wf(cx.vm.methods@.len() as int),
            sites@.len() == old(seg)@.stack.len(),
            generic_send(cx@, *ic, bci, st(*old(self), *old(seg)), sites@) is Some,
        ensures
            generic_send(cx@, *ic, bci, st(*old(self), *old(seg)), sites@) == Some(
                (st(*final(self), *final(seg)), r@),
            ),
    {
        if seg.stack.len() > 0 && !has_phantom_in(cx, sites, 1) {
            let receiver = seg.stack[seg.stack.len() - 1];
            let klass: Option<KlassOop> = if cx.vm.method(cx.method).is_block {
                None
            } else {
                Some(cx.rcvr_klass)
            };
            if let Some((k, n)) = self.alloc_site_klass(cx.vm, ic, receiver, cx.self_vreg, klass) {
                self.emit_alloc_op(k, n, bci, None, seg);
                return StepEnd::Next;
            }
        }
        self.translate_dispatch(cx, ic, bci, seg, sites)
    }

    /// Translates a send of the method itself.
    pub(crate) fn translate_root_send(
        &mut self,
        cx: &Ctx,
        ic: &InterpreterIc,
        is_super: bool,
        fusable: bool,
        bci: usize,
        seg: &mut Seg,
        sites: &Vec<Option<usize>>,
    ) -> (r: StepEnd)
        requires
            cx.wf(),
            ic.wf(cx.vm.methods@.len() as int),
            sites@.len() == old(seg)@.stack.len(),
            root_send(cx@, *ic, is_super, fusable, bci, st(*old(self), *old(seg)), sites@) is Some,
        ensures
            root_send(cx@, *ic, is_super, fusable, bci, st(*old(self), *old(seg)), sites@) == Some(
                (st(*final(self), *final(seg)), r@),
            ),
    {
        let vm = cx.vm;
        if is_super {
            return self.translate_super_send(cx, ic, bci, seg);
        }
        let pooled = seg.smi_fuse_arg_is_pooled();
        assert(pooled == arg_is_pooled(st(*self, *seg)));
        if let Some(kind) = classify_smi_send(vm, ic) {
            if !pooled {
                return self.translate_root_smi(kind, fusable, bci, seg);
            }
        }
        if let Some(is_put) = array_op_kind(vm, ic) {
            self.emit_array_op(vm, is_put, bci, None, seg);
            return StepEnd::Next;
        }
        if let Some(kind) = classify_double_send(vm, ic) {
            return self.translate_root_double(kind, fusable, bci, seg);
        }
        if let Some(neq) = ref_eq_kind(vm, ic) {
            if !has_phantom_in(cx, sites, 2) {
                self.emit_ref_op(neq, seg);
                return StepEnd::Next;
            }
        }
        if bool_not_speculatable(vm, ic) && !has_phantom_in(cx, sites, 1) {
            self.emit_not_op(vm, ic.selector, bci, None, seg);
            return StepEnd::Next;
        }
        if let Some(kind) = classify_vec_send(vm, ic) {
            self.translate_root_vec(kind, bci, seg);
            return StepEnd::Next;
        }
        self.translate_generic_send(cx, ic, bci, seg, sites)
    }
}

} // verus!

//! Splicing straight-line callee bodies into the block being filled: leaf methods, methods with
//! sends of their own, and literal blocks.

use vstd::prelude::*;
use crate::classify::{
    array_kind, array_op_kind, bool_not_speculatable, classify_double_send, classify_smi_send,
    double_kind, is_single_return_block, leaf_body_is_spliceable, leaf_from, not_speculatable,
    ref_eq, ref_eq_kind, single_return_block, smi_kind,
};
use crate::ir::{copy_regs, GuardShape, InlineSite, InlineView, Ir, PoolLit, VReg};
use crate::ops::{
    alloc_op, alloc_out, alloc_site, arg_is_pooled, array_op, body_send, ctx_push, ctx_store,
    double_op, not_op, ref_op, simple, smi_op,
};
use crate::translator::{pool_oop, st, Ctx, CtxView, OutView, Seg, St, Translator};
use crate::world::{Instr, InterpreterIc, KlassOop, Method, MethodOop, SymbolOop, VmState};

verus! {

/// What a splice needs to know of the send it replaces. The operands are off the simulated stack,
/// which holds what lies below them.
pub struct Site<L> {
    pub callee: MethodOop,
    /// The class to test the receiver for, unless its class is known.
    pub guard: Option<(KlassOop, GuardShape)>,
    /// The class whose lookup of `selector` the splice relies on.
    pub dep_klass: KlassOop,
    pub selector: SymbolOop,
    pub receiver: VReg,
    pub args: L,
    pub bci: usize,
}

pub type SiteView = Site<Seq<VReg>>;

impl View for Site<Vec<VReg>> {
    type V = SiteView;

    open spec fn view(&self) -> SiteView {
        Site {
            callee: self.callee,
            guard: self.guard,
            dep_klass: self.dep_klass,
            selector: self.selector,
            receiver: self.receiver,
            args: self.args@,
            bci: self.bci,
        }
    }
}

/// The class that the receiver of the spliced body is known to have.
pub open spec fn body_klass(cx: CtxView, x: SiteView) -> Option<KlassOop> {
    match x.guard {
        Some((k, _)) => Some(k),
        None => if x.receiver == cx.self_vreg {
            Some(cx.rcvr_klass)
        } else {
            None
        },
    }
}

/// The operand stack with the send's operands still on it.
pub open spec fn with_operands(below: Seq<VReg>, x: SiteView) -> Seq<VReg> {
    below.push(x.receiver) + x.args
}

/// The receiver test in front of a spliced body; on a mismatch the send runs in the interpreter.
pub open spec fn guard_op(x: SiteView, closures: Seq<(u16, u32)>, s: St) -> Option<St> {
    match x.guard {
        None => Some(s),
        Some((k, kind)) => if !s.out.can_block() {
            None
        } else {
            let e = pool_oop(k.0);
            Some(
                s.with_out(
                    s.out.intern(e).trap(x.bci, with_operands(s.seg.stack, x), closures, None),
                ).emit(
                    Ir::GuardKlass {
                        obj: x.receiver,
                        expect: s.lit(e),
                        fail: s.out.block_id(),
                        kind,
                    },
                ),
            )
        },
    }
}

/// Sets `n` fresh registers to `nil`.
pub open spec fn nil_temps(lit: PoolLit, n: nat, s: St) -> St
    decreases n,
{
    if n == 0 {
        s
    } else {
        let s1 = nil_temps(lit, (n - 1) as nat, s);
        s1.fresh(true).emit(Ir::ConstPool { dst: s1.reg(), lit })
    }
}

/// The next `n` registers.
pub open spec fn next_regs(out: OutView, n: nat) -> Seq<VReg> {
    Seq::new(n, |i: int| VReg((out.vregs.len() + i) as u32))
}

/// The state in which a body starts: guarded, its own temporaries set to `nil`, on an empty stack.
pub open spec fn enter_body(vm: VmState, x: SiteView, closures: Seq<(u16, u32)>, s: St) -> Option<St> {
    match guard_op(x, closures, s) {
        None => None,
        Some(s1) => {
            let nil = pool_oop(vm.universe.nil_obj);
            Some(
                nil_temps(s1.lit(nil), vm.m(x.callee).ntemps as nat, s1.intern(nil)).with_stack(
                    seq![],
                ),
            )
        },
    }
}

/// The slots of a spliced body: the operands themselves, then its own temporaries.
pub open spec fn body_slots(vm: VmState, x: SiteView, s: St) -> Seq<VReg> {
    x.args + next_regs(s.out, vm.m(x.callee).ntemps as nat)
}

/// The extent that every safepoint of a spliced method body names.
pub open spec fn method_proto(vm: VmState, x: SiteView, s: St) -> InlineView {
    InlineView {
        method_pool_ix: s.lit(pool_oop(vm.m(x.callee).oop)).0,
        receiver: x.receiver,
        slots: body_slots(vm, x, s),
        sender_bci: x.bci as u16,
        caller_pending_stack: s.seg.stack,
        is_block: false,
        parent: None,
        slot_closures: seq![],
    }
}

/// A leaf body from `bci` on: the state at its return, and the value returned.
pub open spec fn leaf_walk(
    vm: VmState,
    m: Method,
    this: VReg,
    slots: Seq<VReg>,
    bci: int,
    s: St,
) -> Option<(St, VReg)>
    decreases m.code@.len() - bci,
{
    if bci < 0 || bci >= m.code@.len() || !(bci < m.next_at(bci) <= m.code@.len()) {
        None
    } else {
        match m.instr_at(bci) {
            Instr::ReturnTos => if s.depth() > 0 {
                Some((s.drop(1), s.top(0)))
            } else {
                None
            },
            Instr::ReturnSelf => Some((s, this)),
            i => match simple(vm, m, i, this, slots, false, s) {
                Some(s1) => leaf_walk(vm, m, this, slots, m.next_at(bci), s1),
                None => None,
            },
        }
    }
}

/// Splices a leaf body: straight-line code without sends. The value is that of the body; `None`
/// leaves the state as it was, the callee being of another shape.
pub open spec fn inline_leaf(cx: CtxView, x: SiteView, s: St) -> Option<(St, Option<VReg>)> {
    let m = cx.vm.m(x.callee);
    if !(single_return_block(m) && m.argc == x.args.len() && leaf_from(m, 0)) {
        Some((s, None))
    } else {
        match enter_body(cx.vm, x, seq![], s) {
            None => None,
            Some(s1) => match leaf_walk(
                cx.vm,
                m,
                x.receiver,
                body_slots(cx.vm, x, s),
                0,
                s1,
            ) {
                None => None,
                Some((s2, v)) => Some(
                    (
                        s2.with_stack(s.seg.stack).with_out(
                            s2.out.commit(m.inline_cost).dep(x.dep_klass, x.selector),
                        ),
                        Some(v),
                    ),
                ),
            },
        }
    }
}

/// A send inside a spliced method body. The flag tells that it became a terminating trap.
pub open spec fn nonleaf_send(
    cx: CtxView,
    m: Method,
    ic: InterpreterIc,
    this: VReg,
    klass: Option<KlassOop>,
    bci: usize,
    proto: InlineView,
    s: St,
) -> Option<(St, bool)> {
    let vm = cx.vm;
    if ref_eq(vm, ic) is Some {
        plain(ref_op(ref_eq(vm, ic)->0, s))
    } else if not_speculatable(vm, ic) {
        plain(not_op(vm, ic.selector, bci, Some(proto), s))
    } else if array_kind(vm, ic) is Some {
        plain(array_op(vm, array_kind(vm, ic)->0, bci, Some(proto), s))
    } else if smi_kind(vm, ic) is Some && !arg_is_pooled(s) {
        plain(smi_op(smi_kind(vm, ic)->0, bci, Some(proto), s))
    } else if double_kind(vm, ic) is Some {
        plain(double_op(double_kind(vm, ic)->0, bci, Some(proto), s))
    } else {
        alloc_or_send(cx, ic, this, klass, bci, proto, s)
    }
}

/// Inline allocation where the site stands for one, else a send.
pub open spec fn alloc_or_send(
    cx: CtxView,
    ic: InterpreterIc,
    this: VReg,
    klass: Option<KlassOop>,
    bci: usize,
    proto: InlineView,
    s: St,
) -> Option<(St, bool)> {
    if ic.argc == 0 && s.depth() > 0 {
        let s1 = s.with_out(alloc_out(cx.vm, s.out, ic, s.top(0), this, klass));
        match alloc_site(cx.vm, s.out, ic, s.top(0), this, klass) {
            Some((k, n)) => plain(alloc_op(k, n, bci, Some(proto), s1)),
            None => body_send(cx, ic, this, klass, bci, seq![], proto, s1),
        }
    } else {
        body_send(cx, ic, this, klass, bci, seq![], proto, s)
    }
}

pub open spec fn plain(s: Option<St>) -> Option<(St, bool)> {
    match s {
        Some(x) => Some((x, false)),
        None => None,
    }
}

/// A method body with sends, from `bci` on. Ends with the value returned, or with `None` when a
/// trap ended it.
pub open spec fn nonleaf_walk(
    cx: CtxView,
    m: Method,
    this: VReg,
    klass: Option<KlassOop>,
    slots: Seq<VReg>,
    proto: InlineView,
    bci: int,
    s: St,
) -> Option<(St, Option<VReg>)>
    decreases m.code@.len() - bci,
{
    if bci < 0 || bci >= m.code@.len() || !(bci < m.next_at(bci) <= m.code@.len()) {
        None
    } else {
        match m.instr_at(bci) {
            Instr::ReturnTos => if s.depth() > 0 {
                Some((s.drop(1), Some(s.top(0))))
            } else {
                None
            },
            Instr::ReturnSelf => Some((s, Some(this))),
            Instr::Send { ic, .. } => match nonleaf_send(
                cx,
                m,
                m.ics@[ic as int],
                this,
                klass,
                bci as usize,
                proto,
                s,
            ) {
                Some((s1, trapped)) => if trapped {
                    Some((s1, None))
                } else {
                    nonleaf_walk(cx, m, this, klass, slots, proto, m.next_at(bci), s1)
                },
                None => None,
            },
            i => match simple(cx.vm, m, i, this, slots, true, s) {
                Some(s1) => nonleaf_walk(cx, m, this, klass, slots, proto, m.next_at(bci), s1),
                None => None,
            },
        }
    }
}

/// How a spliced body with sends ended.
pub enum NonLeafOutcome {
    Value(VReg),
    /// A send in the body became a terminating trap.
    Trapped,
}

/// Splices a straight-line body that has sends of its own. `None` leaves the state as it was.
pub open spec fn inline_nonleaf(cx: CtxView, x: SiteView, s: St) -> Option<(St, Option<NonLeafOutcome>)> {
    let m = cx.vm.m(x.callee);
    if !(m.eligible_nonleaf && single_return_block(m) && m.argc == x.args.len()) {
        Some((s, None))
    } else {
        let s0 = s.intern(pool_oop(m.oop));
        match enter_body(cx.vm, x, seq![], s0) {
            None => None,
            Some(s1) => match nonleaf_walk(
                cx,
                m,
                x.receiver,
                body_klass(cx, x),
                body_slots(cx.vm, x, s),
                method_proto(cx.vm, x, s),
                0,
                s1,
            ) {
                None => None,
                Some((s2, v)) => Some(
                    (
                        s2.with_stack(s.seg.stack).with_out(
                            s2.out.commit(m.inline_cost).dep(x.dep_klass, x.selector),
                        ),
                        match v {
                            Some(r) => Some(NonLeafOutcome::Value(r)),
                            None => Some(NonLeafOutcome::Trapped),
                        },
                    ),
                ),
            },
        }
    }
}

/// A send inside a spliced block body.
pub open spec fn block_send(
    cx: CtxView,
    ic: InterpreterIc,
    this: VReg,
    klass: Option<KlassOop>,
    bci: usize,
    proto: InlineView,
    s: St,
) -> Option<(St, bool)> {
    let vm = cx.vm;
    if array_kind(vm, ic) is Some {
        plain(array_op(vm, array_kind(vm, ic)->0, bci, Some(proto), s))
    } else if smi_kind(vm, ic) is Some && !arg_is_pooled(s) {
        plain(smi_op(smi_kind(vm, ic)->0, bci, Some(proto), s))
    } else if double_kind(vm, ic) is Some {
        plain(double_op(double_kind(vm, ic)->0, bci, Some(proto), s))
    } else {
        body_send(cx, ic, this, klass, bci, seq![], proto, s)
    }
}

/// A return out of the compiled method from inside a spliced block.
pub open spec fn nlr_op(s: St) -> Option<St> {
    if s.depth() == 0 || s.out.spliced_nlr == u32::MAX {
        None
    } else {
        Some(
            s.drop(1).with_out(
                OutView { spliced_nlr: (s.out.spliced_nlr + 1) as u32, ..s.out },
            ).emit(Ir::Ret { val: s.top(0) }),
        )
    }
}

/// A straight-line block body from `bci` on. Ends with the block's value, or with `None` when a
/// trap or a non-local return ended it.
pub open spec fn block_walk(
    cx: CtxView,
    m: Method,
    this: VReg,
    klass: Option<KlassOop>,
    slots: Seq<VReg>,
    proto: InlineView,
    bci: int,
    s: St,
) -> Option<(St, Option<VReg>)>
    decreases m.code@.len() - bci,
{
    if bci < 0 || bci >= m.code@.len() || !(bci < m.next_at(bci) <= m.code@.len()) {
        None
    } else {
        let next = m.next_at(bci);
        match m.instr_at(bci) {
            Instr::ReturnTos => if s.depth() > 0 {
                Some((s.drop(1), Some(s.top(0))))
            } else {
                None
            },
            Instr::BlockReturnTos => if s.depth() > 0 {
                Some((s.drop(1), Some(s.top(0))))
            } else {
                None
            },
            Instr::ReturnSelf => Some((s, Some(this))),
            Instr::NlrTos => match nlr_op(s) {
                Some(s1) => Some((s1, None)),
                None => None,
            },
            Instr::Send { ic, .. } => match block_send(
                cx,
                m.ics@[ic as int],
                this,
                klass,
                bci as usize,
                proto,
                s,
            ) {
                Some((s1, trapped)) => if trapped {
                    Some((s1, None))
                } else {
                    block_walk(cx, m, this, klass, slots, proto, next, s1)
                },
                None => None,
            },
            Instr::PushCtxTemp { idx, .. } => match ctx_push(cx, cx.method_ctx_vreg, idx, s) {
                Some(s1) => block_walk(cx, m, this, klass, slots, proto, next, s1),
                None => None,
            },
            Instr::StoreCtxTempPop { idx, .. } => match ctx_store(
                cx,
                cx.method_ctx_vreg,
                idx,
                s,
            ) {
                Some(s1) => block_walk(cx, m, this, klass, slots, proto, next, s1),
                None => None,
            },
            i => match simple(cx.vm, m, i, this, slots, false, s) {
                Some(s1) => block_walk(cx, m, this, klass, slots, proto, next, s1),
                None => None,
            },
        }
    }
}

/// A whole straight-line block body, spliced with receiver `this`, on the state's own stack left
/// untouched.
pub open spec fn block_body(
    cx: CtxView,
    m: Method,
    this: VReg,
    slots: Seq<VReg>,
    proto: InlineView,
    s: St,
) -> Option<(St, Option<VReg>)> {
    let klass = if this == cx.self_vreg {
        Some(cx.rcvr_klass)
    } else {
        None
    };
    match block_walk(
        cx,
        m,
        this,
        klass,
        slots,
        proto,
        0,
        s.with_out(s.out.commit(m.inline_cost)).with_stack(seq![]),
    ) {
        Some((s1, v)) => Some((s1.with_stack(s.seg.stack), v)),
        None => None,
    }
}

pub(crate) proof fn lemma_nil_temps(lit: PoolLit, n: nat, s: St)
    ensures
        nil_temps(lit, n, s).out.vregs.len() == s.out.vregs.len() + n,
        nil_temps(lit, n, s).seg.stack == s.seg.stack,
    decreases n,
{
    if n > 0 {
        lemma_nil_temps(lit, (n - 1) as nat, s);
    }
}

impl Translator {
    /// Emits the receiver test in front of a spliced body.
    pub(crate) fn emit_guard(&mut self, x: &Site<Vec<VReg>>, closures: Vec<(u16, u32)>, seg: &mut Seg)
        requires
            guard_op(x@, closures@, st(*old(self), *old(seg))) is Some,
        ensures
            guard_op(x@, closures@, st(*old(self), *old(seg))) == Some(
                st(*final(self), *final(seg)),
            ),
    {
        if let Some((k, kind)) = x.guard {
            let expect = self.intern_oop(k.0);
            let mut stack = copy_regs(&seg.stack);
            stack.push(x.receiver);
            let mut args = copy_regs(&x.args);
            stack.append(&mut args);
            let fail = self.fresh_trap_block(x.bci, stack, closures, None);
            seg.emit(Ir::GuardKlass { obj: x.receiver, expect, fail, kind });
        }
    }

    /// Sets `n` fresh registers to `nil` and appends them to `slots`.
    pub(crate) fn emit_nil_temps(&mut self, lit: PoolLit, n: u8, slots: &mut Vec<VReg>, seg: &mut Seg)
        ensures
            st(*final(self), *final(seg)) == nil_temps(lit, n as nat, st(*old(self), *old(seg))),
            final(slots)@ == old(slots)@ + next_regs(old(self)@, n as nat),
    {
        let ghost s0 = st(*self, *seg);
        assert(slots@ =~= old(slots)@ + next_regs(old(self)@, 0));
        for k in 0..n
            invariant
                s0 == st(*old(self), *old(seg)),
                st(*self, *seg) == nil_temps(lit, k as nat, s0),
                slots@ == old(slots)@ + next_regs(old(self)@, k as nat),
        {
            proof {
                lemma_nil_temps(lit, k as nat, s0);
            }
            let t = self.fresh(true);
            seg.emit(Ir::ConstPool { dst: t, lit });
            slots.push(t);
            assert(slots@ =~= old(slots)@ + next_regs(old(self)@, (k + 1) as nat));
        }
    }

    /// Emits guard and temporaries; the body starts on an empty stack. Returns the body's slots and
    /// the caller's stack.
    pub(crate) fn enter_spliced_body(
        &mut self,
        vm: &VmState,
        x: &Site<Vec<VReg>>,
        closures: Vec<(u16, u32)>,
        seg: &mut Seg,
    ) -> (r: (Vec<VReg>, Vec<VReg>))
        requires
            vm.wf(),
            vm.has(x.callee),
            enter_body(*vm, x@, closures@, st(*old(self), *old(seg))) is Some,
        ensures
            enter_body(*vm, x@, closures@, st(*old(self), *old(seg))) == Some(
                st(*final(self), *final(seg)),
            ),
            r.0@ == body_slots(*vm, x@, st(*old(self), *old(seg))),
            r.1@ == old(seg)@.stack,
    {
        self.emit_guard(x, closures, seg);
        let lit = self.intern_oop(vm.universe.nil_obj);
        let mut slots = copy_regs(&x.args);
        self.emit_nil_temps(lit, vm.method(x.callee).ntemps, &mut slots, seg);
        proof {
            let s1 = guard_op(x@, closures@, st(*old(self), *old(seg)))->0;
            let nil = pool_oop(vm.universe.nil_obj);
            lemma_nil_temps(s1.lit(nil), vm.m(x.callee).ntemps as nat, s1.intern(nil));
            assert(next_regs(s1.intern(nil).out, vm.m(x.callee).ntemps as nat) =~= next_regs(
                old(self)@,
                vm.m(x.callee).ntemps as nat,
            ));
        }
        let mut stack: Vec<VReg> = Vec::new();
        core::mem::swap(&mut stack, &mut seg.stack);
        (slots, stack)
    }

    /// Splices a leaf body. Nothing is emitted when the callee is not one.
    pub(crate) fn try_inline_leaf(&mut self, cx: &Ctx, x: &Site<Vec<VReg>>, seg: &mut Seg) -> (r: Option<VReg>)
        requires
            cx.wf(),
            cx.vm.has(x.callee),
            inline_leaf(cx@, x@, st(*old(self), *old(seg))) is Some,
        ensures
            inline_leaf(cx@, x@, st(*old(self), *old(seg))) == Some(
                (st(*final(self), *final(seg)), r),
            ),
    {
        let m = cx.vm.method(x.callee);
        if !(is_single_return_block(m) && m.argc as usize == x.args.len()
            && leaf_body_is_spliceable(m)) {
            return None;
        }
        let ghost s = st(*self, *seg);
        let (slots, mut below) = self.enter_spliced_body(cx.vm, x, Vec::new(), seg);
        let ghost want = leaf_walk(*cx.vm, *m, x.receiver, slots@, 0, st(*self, *seg));
        let mut result: Option<VReg> = None;
        let mut bci: usize = 0;
        while bci < m.code.len()
            invariant_except_break
                want == leaf_walk(*cx.vm, *m, x.receiver, slots@, bci as int, st(*self, *seg)),
                result is None,
            invariant
                m.code_wf(),
                m.boundary(bci as int),
                want is Some,
            ensures
                result is Some,
                want == Some((st(*self, *seg), result->0)),
            decreases m.code@.len() - bci,
        {
            let (instr, next) = m.decode_at(bci);
            match instr {
                Instr::ReturnTos => {
                    result = Some(seg.pop());
                    break;
                },
                Instr::ReturnSelf => {
                    result = Some(x.receiver);
                    break;
                },
                _ => {
                    self.translate_simple(cx.vm, m, &instr, x.receiver, &slots, false, seg);
                },
            }
            bci = next;
        }
        core::mem::swap(&mut below, &mut seg.stack);
        self.budget_commit(m.inline_cost);
        self.record_inline_dep(x.dep_klass, x.selector);
        result
    }
}

impl Translator {
    /// Emits an inline allocation where the site stands for one, else a send; true when the send
    /// became a trap.
    pub(crate) fn emit_alloc_or_send(
        &mut self,
        cx: &Ctx,
        ic: &InterpreterIc,
        this: VReg,
        klass: Option<KlassOop>,
        bci: usize,
        proto: &InlineSite,
        seg: &mut Seg,
    ) -> (r: bool)
        requires
            cx.wf(),
            ic.wf(cx.vm.methods@.len() as int),
            alloc_or_send(cx@, *ic, this, klass, bci, proto.model(), st(*old(self), *old(seg))) is Some,
        ensures
            alloc_or_send(cx@, *ic, this, klass, bci, proto.model(), st(*old(self), *old(seg)))
                == Some((st(*final(self), *final(seg)), r)),
    {
        if ic.argc == 0 && seg.stack.len() > 0 {
            let recv = seg.stack[seg.stack.len() - 1];
            if let Some((k, n)) = self.alloc_site_klass(cx.vm, ic, recv, this, klass) {
                self.emit_alloc_op(k, n, bci, Some(proto.copy()), seg);
                return false;
            }
        }
        self.emit_body_send(cx, ic, this, klass, bci, Vec::new(), proto, seg)
    }

    /// Translates a send of a spliced method body; true when it became a trap.
    pub(crate) fn translate_nonleaf_send(
        &mut self,
        cx: &Ctx,
        m: &Method,
        ic: &InterpreterIc,
        this: VReg,
        klass: Option<KlassOop>,
        bci: usize,
        proto: &InlineSite,
        seg: &mut Seg,
    ) -> (r: bool)
        requires
            cx.wf(),
            ic.wf(cx.vm.methods@.len() as int),
            nonleaf_send(
                cx@,
                *m,
                *ic,
                this,
                klass,
                bci,
                proto.model(),
                st(*old(self), *old(seg)),
            ) is Some,
        ensures
            nonleaf_send(
                cx@,
                *m,
                *ic,
                this,
                klass,
                bci,
                proto.model(),
                st(*old(self), *old(seg)),
            ) == Some((st(*final(self), *final(seg)), r)),
    {
        let vm = cx.vm;
        if let Some(neq) = ref_eq_kind(vm, ic) {
            self.emit_ref_op(neq, seg);
            return false;
        }
        if bool_not_speculatable(vm, ic) {
            self.emit_not_op(vm, ic.selector, bci, Some(proto.copy()), seg);
            return false;
        }
        if let Some(is_put) = array_op_kind(vm, ic) {
            self.emit_array_op(vm, is_put, bci, Some(proto.copy()), seg);
            return false;
        }
        let pooled = seg.smi_fuse_arg_is_pooled();
        assert(pooled == arg_is_pooled(st(*self, *seg)));
        if let Some(kind) = classify_smi_send(vm, ic) {
            if !pooled {
                self.emit_smi_op(kind, bci, Some(proto.copy()), seg);
                return false;
            }
        }
        if let Some(kind) = classify_double_send(vm, ic) {
            self.emit_double_op(kind, bci, Some(proto.copy()), seg);
            return false;
        }
        self.emit_alloc_or_send(cx, ic, this, klass, bci, proto, seg)
    }

    /// Splices a straight-line body with sends. Nothing is emitted when the callee is not one.
    pub(crate) fn try_inline_nonleaf(&mut self, cx: &Ctx, x: &Site<Vec<VReg>>, seg: &mut Seg) -> (r: Option<
        NonLeafOutcome,
    >)
        requires
            cx.wf(),
            cx.vm.has(x.callee),
            inline_nonleaf(cx@, x@, st(*old(self), *old(seg))) is Some,
        ensures
            inline_nonleaf(cx@, x@, st(*old(self), *old(seg))) == Some(
                (st(*final(self), *final(seg)), r),
            ),
    {
        let m = cx.vm.method(x.callee);
        if !(m.eligible_nonleaf && is_single_return_block(m) && m.argc as usize == x.args.len()) {
            return None;
        }
        let ghost s = st(*self, *seg);
        let callee_pool_ix: u32 = self.intern_oop(m.oop).0;
        let klass: Option<KlassOop> = match x.guard {
            Some((k, _)) => Some(k),
            None => if x.receiver == cx.self_vreg {
                Some(cx.rcvr_klass)
            } else {
                None
            },
        };
        let pending = copy_regs(&seg.stack);
        let (slots, mut below) = self.enter_spliced_body(cx.vm, x, Vec::new(), seg);
        assert(slots@ =~= body_slots(*cx.vm, x@, s));
        let proto = InlineSite {
            method_pool_ix: callee_pool_ix,
            receiver: x.receiver,
            slots: copy_regs(&slots),
            sender_bci: x.bci as u16,
            caller_pending_stack: pending,
            is_block: false,
            parent: None,
            slot_closures: Vec::new(),
        };
        assert(proto.model().slot_closures =~= seq![]);
        assert(proto.model() == method_proto(*cx.vm, x@, s));
        let ghost want = nonleaf_walk(
            cx@,
            *m,
            x.receiver,
            klass,
            slots@,
            proto.model(),
            0,
            st(*self, *seg),
        );
        let mut result: Option<VReg> = None;
        let mut bci: usize = 0;
        while bci < m.code.len()
            invariant_except_break
                want == nonleaf_walk(
                    cx@,
                    *m,
                    x.receiver,
                    klass,
                    slots@,
                    proto.model(),
                    bci as int,
                    st(*self, *seg),
                ),
                result is None,
            invariant
                cx.wf(),
                m.wf(cx.vm.methods@.len() as int),
                m.boundary(bci as int),
                want is Some,
            ensures
                want == Some((st(*self, *seg), result)),
            decreases m.code@.len() - bci,
        {
            let (instr, next) = m.decode_at(bci);
            match instr {
                Instr::ReturnTos => {
                    result = Some(seg.pop());
                    break;
                },
                Instr::ReturnSelf => {
                    result = Some(x.receiver);
                    break;
                },
                Instr::Send { ic, .. } => {
                    let trapped = self.translate_nonleaf_send(
                        cx,
                        m,
                        &m.ics[ic as usize],
                        x.receiver,
                        klass,
                        bci,
                        &proto,
                        seg,
                    );
                    if trapped {
                        break;
                    }
                },
                _ => {
                    self.translate_simple(cx.vm, m, &instr, x.receiver, &slots, true, seg);
                },
            }
            bci = next;
        }
        core::mem::swap(&mut below, &mut seg.stack);
        self.budget_commit(m.inline_cost);
        self.record_inline_dep(x.dep_klass, x.selector);
        match result {
            Some(v) => Some(NonLeafOutcome::Value(v)),
            None => Some(NonLeafOutcome::Trapped),
        }
    }

    /// Translates a send of a spliced block body; true when it became a trap.
    pub(crate) fn translate_block_send(
        &mut self,
        cx: &Ctx,
        ic: &InterpreterIc,
        this: VReg,
        klass: Option<KlassOop>,
        bci: usize,
        proto: &InlineSite,
        seg: &mut Seg,
    ) -> (r: bool)
        requires
            cx.wf(),
            ic.wf(cx.vm.methods@.len() as int),
            block_send(cx@, *ic, this, klass, bci, proto.model(), st(*old(self), *old(seg))) is Some,
        ensures
            block_send(cx@, *ic, this, klass, bci, proto.model(), st(*old(self), *old(seg)))
                == Some((st(*final(self), *final(seg)), r)),
    {
        let vm = cx.vm;
        if let Some(is_put) = array_op_kind(vm, ic) {
            self.emit_array_op(vm, is_put, bci, Some(proto.copy()), seg);
            return false;
        }
        let pooled = seg.smi_fuse_arg_is_pooled();
        assert(pooled == arg_is_pooled(st(*self, *seg)));
        if let Some(kind) = classify_smi_send(vm, ic) {
            if !pooled {
                self.emit_smi_op(kind, bci, Some(proto.copy()), seg);
                return false;
            }
        }
        if let Some(kind) = classify_double_send(vm, ic) {
            self.emit_double_op(kind, bci, Some(proto.copy()), seg);
            return false;
        }
        self.emit_body_send(cx, ic, this, klass, bci, Vec::new(), proto, seg)
    }

    /// Emits a return out of the compiled method from inside a spliced block.
    pub(crate) fn emit_nlr(&mut self, seg: &mut Seg)
        requires
            nlr_op(st(*old(self), *old(seg))) is Some,
        ensures
            nlr_op(st(*old(self), *old(seg))) == Some(st(*final(self), *final(seg))),
    {
        let val = seg.pop();
        self.spliced_nlr = self.spliced_nlr + 1;
        seg.emit(Ir::Ret { val });
    }

    /// Splices a straight-line block body; `None` when a trap or a non-local return ended it.
    pub(crate) fn translate_spliced_block_body(
        &mut self,
        cx: &Ctx,
        m: &Method,
        this: VReg,
        slots: &Vec<VReg>,
        proto: &InlineSite,
        seg: &mut Seg,
    ) -> (r: Option<VReg>)
        requires
            cx.wf(),
            m.wf(cx.vm.methods@.len() as int),
            block_body(cx@, *m, this, slots@, proto.model(), st(*old(self), *old(seg))) is Some,
        ensures
            block_body(cx@, *m, this, slots@, proto.model(), st(*old(self), *old(seg))) == Some(
                (st(*final(self), *final(seg)), r),
            ),
    {
        self.budget_commit(m.inline_cost);
        let klass: Option<KlassOop> = if this == cx.self_vreg {
            Some(cx.rcvr_klass)
        } else {
            None
        };
        let mut below: Vec<VReg> = Vec::new();
        core::mem::swap(&mut below, &mut seg.stack);
        let ghost want = block_walk(
            cx@,
            *m,
            this,
            klass,
            slots@,
            proto.model(),
            0,
            st(*self, *seg),
        );
        let mut result: Option<VReg> = None;
        let mut bci: usize = 0;
        while bci < m.code.len()
            invariant_except_break
                want == block_walk(
                    cx@,
                    *m,
                    this,
                    klass,
                    slots@,
                    proto.model(),
                    bci as int,
                    st(*self, *seg),
                ),
                result is None,
            invariant
                cx.wf(),
                m.wf(cx.vm.methods@.len() as int),
                m.boundary(bci as int),
                want is Some,
            ensures
                want == Some((st(*self, *seg), result)),
            decreases m.code@.len() - bci,
        {
            let (instr, next) = m.decode_at(bci);
            match instr {
                Instr::ReturnTos | Instr::BlockReturnTos => {
                    result = Some(seg.pop());
                    break;
                },
                Instr::ReturnSelf => {
                    result = Some(this);
                    break;
                },
                Instr::NlrTos => {
                    self.emit_nlr(seg);
                    break;
                },
                Instr::Send { ic, .. } => {
                    let trapped = self.translate_block_send(
                        cx,
                        &m.ics[ic as usize],
                        this,
                        klass,
                        bci,
                        proto,
                        seg,
                    );
                    if trapped {
                        break;
                    }
                },
                Instr::PushCtxTemp { idx, .. } => {
                    self.push_ctx_temp(cx, cx.method_ctx_vreg, idx, seg);
                },
                Instr::StoreCtxTempPop { idx, .. } => {
                    self.store_ctx_temp(cx, cx.method_ctx_vreg, idx, seg);
                },
                _ => {
                    self.translate_simple(cx.vm, m, &instr, this, slots, false, seg);
                },
            }
            bci = next;
        }
        core::mem::swap(&mut below, &mut seg.stack);
        result
    }
}

} // verus!

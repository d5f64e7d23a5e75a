//! How single bytecodes translate. Each function here is used for the method itself and for the
//! bodies spliced into it; what differs (the receiver, the slots, the enclosing spliced extent) is
//! a parameter.

use vstd::prelude::*;
use crate::classify::{DoubleSendKind, SmiSendKind};
use crate::fconst::{double_encoding, smi_to_double_bits};
use crate::ir::{
    copy_regs, inline_model, BlockId, CallSiteInfo, DeoptRaw, DeoptView, InlineSite, InlineView,
    Ir, IrView, VReg,
};
use crate::scopes::SafepointKind;
use crate::translator::{pool_oop, st, Ctx, CtxView, OutView, Seg, St, Translator};
use crate::world::{
    Instr, InterpreterIc, KlassOop, Method, SiteFeedback, SymbolOop, VmState, ASSOC_VALUE_OFFSET,
    BODY_OFFSET, HEADER_WORDS, PRIM_BASIC_NEW, WORD_SIZE,
};

verus! {

broadcast use vstd::std_specs::hash::group_hash_axioms;

pub open spec fn field_off(n: u16) -> i32 {
    (16 + 8 * n) as i32
}

/// Slot `idx` of a context object: two words precede the slots.
pub open spec fn ctx_off(idx: u16) -> i32 {
    (16 + 8 * (2 + idx)) as i32
}

/// A simple instruction of method `m`, run with receiver `this` and slots `slots`. With `track`,
/// registers that hold a class constant are remembered. Pushing a temporary copies it, since the
/// slot may be written again before the copy is consumed.
pub open spec fn simple(
    vm: VmState,
    m: Method,
    i: Instr,
    this: VReg,
    slots: Seq<VReg>,
    track: bool,
    s: St,
) -> Option<St> {
    match i {
        Instr::PushSelf => Some(s.push(this)),
        Instr::PushNil => Some(s.load_oop(vm.universe.nil_obj).push(s.reg())),
        Instr::PushTrue => Some(s.load_oop(vm.universe.true_obj).push(s.reg())),
        Instr::PushFalse => Some(s.load_oop(vm.universe.false_obj).push(s.reg())),
        Instr::PushSmi(v) => Some(
            s.fresh(true).emit(Ir::ConstSmi { dst: s.reg(), value: v as i64 }).push(s.reg()),
        ),
        Instr::PushLiteral(x) => Some(s.load_oop(m.literals@[x as int].raw).push(s.reg())),
        Instr::PushGlobal(x) => {
            let lit = m.literals@[x as int];
            let s1 = s.load_oop(lit.raw);
            let d = s1.reg();
            let s2 = s1.fresh(true).emit(
                Ir::LoadField { dst: d, obj: s.reg(), byte_off: ASSOC_VALUE_OFFSET },
            );
            Some(remember_class(s2, track, d, lit.global_klass).push(d))
        },
        Instr::PushTemp(n) => if n < slots.len() {
            Some(
                s.fresh(true).emit(Ir::Move { dst: s.reg(), src: slots[n as int] }).push(s.reg()),
            )
        } else {
            None
        },
        Instr::StoreTemp(n) => if n < slots.len() && s.depth() > 0 {
            Some(s.emit(Ir::Move { dst: slots[n as int], src: s.top(0) }))
        } else {
            None
        },
        Instr::StoreTempPop(n) => if n < slots.len() && s.depth() > 0 {
            Some(s.drop(1).emit(Ir::Move { dst: slots[n as int], src: s.top(0) }))
        } else {
            None
        },
        Instr::PushInstvar(n) => Some(
            s.fresh(true).emit(
                Ir::LoadField { dst: s.reg(), obj: this, byte_off: field_off(n) },
            ).push(s.reg()),
        ),
        Instr::StoreInstvarPop(n) => if s.depth() > 0 {
            Some(
                s.drop(1).emit(
                    Ir::StoreField {
                        obj: this,
                        byte_off: field_off(n),
                        val: s.top(0),
                        barrier: true,
                    },
                ),
            )
        } else {
            None
        },
        Instr::StoreGlobalPop(x) => if s.depth() > 0 {
            Some(
                s.load_oop(m.literals@[x as int].raw).drop(1).emit(
                    Ir::StoreField {
                        obj: s.reg(),
                        byte_off: ASSOC_VALUE_OFFSET,
                        val: s.top(0),
                        barrier: true,
                    },
                ),
            )
        } else {
            None
        },
        Instr::Pop => if s.depth() > 0 {
            Some(s.drop(1))
        } else {
            None
        },
        Instr::Dup => if s.depth() > 0 {
            Some(s.push(s.top(0)))
        } else {
            None
        },
        _ => None,
    }
}

pub open spec fn remember_class(s: St, track: bool, d: VReg, k: Option<KlassOop>) -> St {
    match k {
        Some(klass) => if track {
            s.with_out(OutView { const_class: s.out.const_class.insert(d.0, klass), ..s.out })
        } else {
            s
        },
        None => s,
    }
}

/// Reads captured temporary `idx`: from the context object `ctx`, or from the register that stands
/// for it when the context is elided.
pub open spec fn ctx_push(cx: CtxView, ctx: Option<VReg>, idx: u16, s: St) -> Option<St> {
    match ctx {
        Some(c) => Some(
            s.fresh(true).emit(
                Ir::LoadField { dst: s.reg(), obj: c, byte_off: ctx_off(idx) },
            ).push(s.reg()),
        ),
        None => if idx < cx.ctx_vregs.len() {
            Some(
                s.fresh(true).emit(
                    Ir::Move { dst: s.reg(), src: cx.ctx_vregs[idx as int] },
                ).push(s.reg()),
            )
        } else {
            None
        },
    }
}

/// Writes captured temporary `idx`.
pub open spec fn ctx_store(cx: CtxView, ctx: Option<VReg>, idx: u16, s: St) -> Option<St> {
    if s.depth() == 0 {
        None
    } else {
        match ctx {
            Some(c) => Some(
                s.drop(1).emit(
                    Ir::StoreField {
                        obj: c,
                        byte_off: ctx_off(idx),
                        val: s.top(0),
                        barrier: true,
                    },
                ),
            ),
            None => if idx < cx.ctx_vregs.len() {
                Some(s.drop(1).emit(Ir::Move { dst: cx.ctx_vregs[idx as int], src: s.top(0) }))
            } else {
                None
            },
        }
    }
}

/// Array element access. The fail edge runs the whole send again, its operands still on the stack.
pub open spec fn array_op(
    vm: VmState,
    is_put: bool,
    bci: usize,
    inline: Option<InlineView>,
    s: St,
) -> Option<St> {
    let n: int = if is_put {
        3
    } else {
        2
    };
    if s.depth() < n || !s.out.can_block() {
        None
    } else {
        let e = pool_oop(vm.universe.array_klass.0);
        let s1 = s.drop(n).with_out(s.out.trap(bci, s.seg.stack, seq![], inline));
        let d = s1.reg();
        let klass = s1.lit(e);
        let fail = s.out.block_id();
        let op = if is_put {
            Ir::ArrayAtPut { dst: d, arr: s.top(2), idx: s.top(1), val: s.top(0), klass, fail }
        } else {
            Ir::ArrayAt { dst: d, arr: s.top(1), idx: s.top(0), klass, fail }
        };
        Some(s1.intern(e).fresh(true).emit(op).push(d))
    }
}

/// Identity comparison.
pub open spec fn ref_op(neq: bool, s: St) -> Option<St> {
    if s.depth() < 2 {
        None
    } else {
        Some(
            s.drop(2).fresh(true).emit(
                Ir::RefCmpVal { dst: s.reg(), a: s.top(1), b: s.top(0), neq },
            ).push(s.reg()),
        )
    }
}

/// Guarded boolean negation; both flips become dependencies.
pub open spec fn not_op(
    vm: VmState,
    sel: SymbolOop,
    bci: usize,
    inline: Option<InlineView>,
    s: St,
) -> Option<St> {
    if s.depth() < 1 || !s.out.can_block() {
        None
    } else {
        let out = s.out.dep(vm.universe.true_klass, sel).dep(vm.universe.false_klass, sel);
        Some(
            s.drop(1).with_out(out.trap(bci, s.seg.stack, seq![], inline)).fresh(true).emit(
                Ir::BoolNot { dst: s.reg(), src: s.top(0), fail: s.out.block_id() },
            ).push(s.reg()),
        )
    }
}

/// The operand on top was just loaded from the pool, so it is no small integer, and a fused
/// operation on it would always fail.
pub open spec fn arg_is_pooled(s: St) -> bool {
    s.depth() > 0 && s.seg.code.len() > 0 && match s.seg.code.last() {
        Ir::ConstPool { dst, .. } => dst == s.top(0),
        _ => false,
    }
}

/// The small integer that the operand on top was just set to.
pub open spec fn arg_const_smi(s: St) -> Option<i64> {
    if s.depth() > 0 && s.seg.code.len() > 0 {
        match s.seg.code.last() {
            Ir::ConstSmi { dst, value } => if dst == s.top(0) {
                Some(value)
            } else {
                None
            },
            _ => None,
        }
    } else {
        None
    }
}

pub open spec fn smi_ir(kind: SmiSendKind, dst: VReg, a: VReg, b: VReg, fail: BlockId) -> IrView {
    match kind {
        SmiSendKind::Arith(op) => Ir::SmiArith { op, dst, a, b, fail },
        SmiSendKind::Cmp(op) => Ir::SmiCmpVal { op, dst, a, b, fail },
    }
}

/// Fused small-integer operation in a spliced body.
pub open spec fn smi_op(kind: SmiSendKind, bci: usize, inline: Option<InlineView>, s: St) -> Option<
    St,
> {
    if s.depth() < 2 || !s.out.can_block() {
        None
    } else {
        Some(
            s.drop(2).with_out(s.out.trap(bci, s.seg.stack, seq![], inline)).fresh(true).emit(
                smi_ir(kind, s.reg(), s.top(1), s.top(0), s.out.block_id()),
            ).push(s.reg()),
        )
    }
}

/// The operands of a fused Double operation, unboxed. The first register is `s.reg()`, the second
/// the next one. A small-integer constant is converted at compile time: unboxing it would always
/// fail.
pub open spec fn double_operands(bci: usize, inline: Option<InlineView>, s: St) -> Option<St> {
    if s.depth() < 2 || !s.out.can_block() {
        None
    } else {
        let fail = s.out.block_id();
        let ua = s.reg();
        let ub = s.fresh_fp().reg();
        let second = match arg_const_smi(s) {
            Some(v) => Ir::FConst { dst: ub, bits: double_encoding(v as int) as u64 },
            None => Ir::FUnbox { dst: ub, src: s.top(0), fail },
        };
        Some(
            s.drop(2).with_out(
                s.out.trap(bci, s.seg.stack, seq![], inline),
            ).fresh_fp().fresh_fp().emit(Ir::FUnbox { dst: ua, src: s.top(1), fail }).emit(second),
        )
    }
}

/// Fused Double operation in a spliced body.
pub open spec fn double_op(
    kind: DoubleSendKind,
    bci: usize,
    inline: Option<InlineView>,
    s: St,
) -> Option<St> {
    match double_operands(bci, inline, s) {
        None => None,
        Some(s1) => {
            let ua = s.reg();
            let ub = s.fresh_fp().reg();
            let d = s1.reg();
            let s2 = s1.fresh(true);
            match kind {
                DoubleSendKind::Arith(op) => {
                    let fd = s2.reg();
                    Some(
                        s2.fresh_fp().emit(Ir::FArith { op, dst: fd, a: ua, b: ub }).emit(
                            Ir::FBox { dst: d, src: fd },
                        ).push(d),
                    )
                },
                DoubleSendKind::Cmp(op) => Some(
                    s2.emit(Ir::FCmpVal { op, dst: d, a: ua, b: ub }).push(d),
                ),
            }
        },
    }
}

/// The class that a send of `basicNew` instantiates, if that is known now: the receiver is a class
/// constant and the warm site resolves to the primitive, or the receiver is the body's own receiver
/// and a metaclass is its class.
pub open spec fn alloc_class(
    vm: VmState,
    out: OutView,
    ic: InterpreterIc,
    receiver: VReg,
    this: VReg,
    this_klass: Option<KlassOop>,
) -> Option<(KlassOop, bool)> {
    if ic.argc != 0 {
        None
    } else if out.const_class.dom().contains(receiver.0) {
        match ic.target {
            Some(t) => if ic.guard_is_klass && vm.m(t).primitive == PRIM_BASIC_NEW {
                Some((out.const_class[receiver.0], false))
            } else {
                None
            },
            None => None,
        }
    } else if receiver != this {
        None
    } else {
        match this_klass {
            Some(meta) => match vm.info(meta) {
                Some(info) => match (info.sole_instance, vm.lookup(meta, ic.selector)) {
                    (Some(sole), Some(t)) => if vm.m(t).primitive == PRIM_BASIC_NEW {
                        Some((sole, true))
                    } else {
                        None
                    },
                    _ => None,
                },
                None => None,
            },
            None => None,
        }
    }
}

/// Instances have a fixed size that the inline allocation sequence can encode.
pub open spec fn alloc_size(vm: VmState, k: KlassOop) -> Option<u32> {
    match vm.info(k) {
        Some(info) => if info.slots_format && info.non_indexable_size >= 2
            && info.non_indexable_size * 8 < 4096 {
            Some(info.non_indexable_size as u32)
        } else {
            None
        },
        None => None,
    }
}

/// The inline allocation that a site stands for: class and size in words.
pub open spec fn alloc_site(
    vm: VmState,
    out: OutView,
    ic: InterpreterIc,
    receiver: VReg,
    this: VReg,
    this_klass: Option<KlassOop>,
) -> Option<(KlassOop, u32)> {
    match alloc_class(vm, out, ic, receiver, this, this_klass) {
        Some((k, _)) => match alloc_size(vm, k) {
            Some(n) => Some((k, n)),
            None => None,
        },
        None => None,
    }
}

/// Asking about a metaclass receiver makes the answer a dependency.
pub open spec fn alloc_out(
    vm: VmState,
    out: OutView,
    ic: InterpreterIc,
    receiver: VReg,
    this: VReg,
    this_klass: Option<KlassOop>,
) -> OutView {
    match alloc_class(vm, out, ic, receiver, this, this_klass) {
        Some((_, by_self)) => if by_self {
            out.dep(this_klass->0, ic.selector)
        } else {
            out
        },
        None => out,
    }
}

/// Inline allocation; a deoptimization there runs the send again.
pub open spec fn alloc_op(
    k: KlassOop,
    size_words: u32,
    bci: usize,
    inline: Option<InlineView>,
    s: St,
) -> Option<St> {
    if s.depth() < 1 {
        None
    } else {
        let e = pool_oop(k.0);
        Some(
            s.drop(1).site(
                DeoptView {
                    stack: s.seg.stack,
                    bci,
                    kind: SafepointKind::Alloc,
                    reexecute: true,
                    stack_closures: seq![],
                    inline,
                },
            ).intern(e).fresh(true).emit(
                Ir::Alloc { dst: s.reg(), klass: s.lit(e), size_words },
            ).push(s.reg()),
        )
    }
}

/// A plain send of the operands on the stack. Its call-return site records what lies below them.
pub open spec fn send_op(
    ic: InterpreterIc,
    static_klass: Option<KlassOop>,
    bci: usize,
    closures: Seq<(u16, u32)>,
    inline: Option<InlineView>,
    s: St,
) -> Option<St> {
    let n = ic.argc + 1;
    if s.depth() < n || ic.argc == 255 {
        None
    } else {
        let s1 = s.drop(n);
        let info = CallSiteInfo {
            selector: ic.selector,
            argc: (ic.argc + 1) as u8,
            static_klass,
        };
        Some(
            s1.with_out(s1.out.call_site(info, ic.feedback@)).fresh(true).site(
                DeoptView {
                    stack: s1.seg.stack,
                    bci,
                    kind: SafepointKind::Call,
                    reexecute: false,
                    stack_closures: closures,
                    inline,
                },
            ).emit(
                Ir::CallSend {
                    dst: s.reg(),
                    site: s.out.call_sites.len() as u16,
                    args: s.seg.stack.subrange(s.depth() - n, s.depth() as int),
                },
            ).push(s.reg()),
        )
    }
}

/// A send that was never taken, turned into a trap that runs it in the interpreter.
pub open spec fn trap_op(
    bci: usize,
    closures: Seq<(u16, u32)>,
    inline: Option<InlineView>,
    s: St,
) -> St {
    s.site(
        DeoptView {
            stack: s.seg.stack,
            bci,
            kind: SafepointKind::UncommonTrap,
            reexecute: true,
            stack_closures: closures,
            inline,
        },
    ).emit(Ir::UncommonTrap { bci })
}

/// Counts a never-taken send that an on-stack-replacement compilation keeps as a send.
pub open spec fn count_cold(cx: CtxView, ic: InterpreterIc, s: St) -> Option<St> {
    if cx.osr && ic.feedback is Untaken {
        if s.out.osr_cold_sends == u16::MAX {
            None
        } else {
            Some(
                s.with_out(
                    OutView { osr_cold_sends: (s.out.osr_cold_sends + 1) as u16, ..s.out },
                ),
            )
        }
    } else {
        Some(s)
    }
}

/// A send in a spliced body that nothing better takes: a trap if it was never taken and traps are
/// in order (the flag is then true, and the operands are gone), else a plain send.
pub open spec fn body_send(
    cx: CtxView,
    ic: InterpreterIc,
    this: VReg,
    this_klass: Option<KlassOop>,
    bci: usize,
    closures: Seq<(u16, u32)>,
    proto: InlineView,
    s: St,
) -> Option<(St, bool)> {
    let n = ic.argc + 1;
    match count_cold(cx, ic, s) {
        None => None,
        Some(s1) => if s1.depth() < n {
            None
        } else {
            let static_self = s1.top(ic.argc as int) == this && this_klass is Some && cx.devirt(
                this_klass->0,
                ic.selector,
            ) is Some;
            if !static_self && cx.inlined_cold_traps() && ic.feedback is Untaken {
                Some((trap_op(bci, closures, Some(proto), s1).drop(n), true))
            } else {
                match send_op(ic, None, bci, closures, Some(proto), s1) {
                    Some(s2) => Some((s2, false)),
                    None => None,
                }
            }
        },
    }
}

impl Translator {
    /// Translates one simple instruction.
    pub(crate) fn translate_simple(
        &mut self,
        vm: &VmState,
        m: &Method,
        i: &Instr,
        this: VReg,
        slots: &Vec<VReg>,
        track: bool,
        seg: &mut Seg,
    )
        requires
            m.instr_wf(*i),
            simple(*vm, *m, *i, this, slots@, track, st(*old(self), *old(seg))) is Some,
        ensures
            simple(*vm, *m, *i, this, slots@, track, st(*old(self), *old(seg))) == Some(
                st(*final(self), *final(seg)),
            ),
    {
        match *i {
            Instr::PushSelf => seg.push(this),
            Instr::PushNil => {
                let d = self.push_well_known(vm.universe.nil_obj, seg);
                seg.push(d);
            },
            Instr::PushTrue => {
                let d = self.push_well_known(vm.universe.true_obj, seg);
                seg.push(d);
            },
            Instr::PushFalse => {
                let d = self.push_well_known(vm.universe.false_obj, seg);
                seg.push(d);
            },
            Instr::PushSmi(v) => {
                let dst = self.fresh(true);
                seg.emit(Ir::ConstSmi { dst, value: v as i64 });
                seg.push(dst);
            },
            Instr::PushLiteral(x) => {
                let d = self.push_well_known(m.literals[x as usize].raw, seg);
                seg.push(d);
            },
            Instr::PushGlobal(x) => {
                let lit = m.literals[x as usize];
                let assoc = self.push_well_known(lit.raw, seg);
                let dst = self.fresh(true);
                seg.emit(Ir::LoadField { dst, obj: assoc, byte_off: ASSOC_VALUE_OFFSET });
                if track {
                    if let Some(k) = lit.global_klass {
                        self.const_class.insert(dst.0, k);
                    }
                }
                seg.push(dst);
            },
            Instr::PushTemp(n) => {
                let dst = self.fresh(true);
                seg.emit(Ir::Move { dst, src: slots[n as usize] });
                seg.push(dst);
            },
            Instr::StoreTemp(n) => {
                let src = seg.stack[seg.stack.len() - 1];
                seg.emit(Ir::Move { dst: slots[n as usize], src });
            },
            Instr::StoreTempPop(n) => {
                let src = seg.pop();
                seg.emit(Ir::Move { dst: slots[n as usize], src });
            },
            Instr::PushInstvar(n) => {
                let dst = self.fresh(true);
                seg.emit(Ir::LoadField { dst, obj: this, byte_off: BODY_OFFSET + 8 * (n as i32) });
                seg.push(dst);
            },
            Instr::StoreInstvarPop(n) => {
                let val = seg.pop();
                seg.emit(
                    Ir::StoreField {
                        obj: this,
                        byte_off: BODY_OFFSET + 8 * (n as i32),
                        val,
                        barrier: true,
                    },
                );
            },
            Instr::StoreGlobalPop(x) => {
                let assoc = self.push_well_known(m.literals[x as usize].raw, seg);
                let val = seg.pop();
                seg.emit(
                    Ir::StoreField {
                        obj: assoc,
                        byte_off: ASSOC_VALUE_OFFSET,
                        val,
                        barrier: true,
                    },
                );
            },
            Instr::Pop => {
                let _ = seg.pop();
            },
            Instr::Dup => {
                let v = seg.stack[seg.stack.len() - 1];
                seg.push(v);
            },
            _ => {},
        }
    }

    /// Reads a captured temporary.
    pub(crate) fn push_ctx_temp(&mut self, cx: &Ctx, ctx: Option<VReg>, idx: u16, seg: &mut Seg)
        requires
            ctx_push(cx@, ctx, idx, st(*old(self), *old(seg))) is Some,
        ensures
            ctx_push(cx@, ctx, idx, st(*old(self), *old(seg))) == Some(
                st(*final(self), *final(seg)),
            ),
    {
        let dst = self.fresh(true);
        match ctx {
            Some(c) => seg.emit(
                Ir::LoadField { dst, obj: c, byte_off: BODY_OFFSET + 8 * (2 + idx as i32) },
            ),
            None => seg.emit(Ir::Move { dst, src: cx.ctx_vregs[idx as usize] }),
        }
        seg.push(dst);
    }

    /// Writes a captured temporary.
    pub(crate) fn store_ctx_temp(&mut self, cx: &Ctx, ctx: Option<VReg>, idx: u16, seg: &mut Seg)
        requires
            ctx_store(cx@, ctx, idx, st(*old(self), *old(seg))) is Some,
        ensures
            ctx_store(cx@, ctx, idx, st(*old(self), *old(seg))) == Some(
                st(*final(self), *final(seg)),
            ),
    {
        let v = seg.pop();
        match ctx {
            Some(c) => seg.emit(
                Ir::StoreField {
                    obj: c,
                    byte_off: BODY_OFFSET + 8 * (2 + idx as i32),
                    val: v,
                    barrier: true,
                },
            ),
            None => seg.emit(Ir::Move { dst: cx.ctx_vregs[idx as usize], src: v }),
        }
    }
}

impl Seg {
    /// Was the operand on top just loaded from the pool?
    pub(crate) fn smi_fuse_arg_is_pooled(&self) -> (r: bool)
        ensures
            forall|o: OutView| r == #[trigger] arg_is_pooled(St { out: o, seg: self@ }),
    {
        let n: usize = self.stack.len();
        let c: usize = self.code.len();
        if n == 0 || c == 0 {
            return false;
        }
        assert(self@.code.last() == self.code@[c - 1]@);
        match &self.code[c - 1] {
            Ir::ConstPool { dst, .. } => *dst == self.stack[n - 1],
            _ => false,
        }
    }

    /// The small integer that the operand on top was just set to.
    pub(crate) fn const_smi_arg(&self) -> (r: Option<i64>)
        ensures
            forall|o: OutView| r == #[trigger] arg_const_smi(St { out: o, seg: self@ }),
    {
        let n: usize = self.stack.len();
        let c: usize = self.code.len();
        if n == 0 || c == 0 {
            return None;
        }
        assert(self@.code.last() == self.code@[c - 1]@);
        match &self.code[c - 1] {
            Ir::ConstSmi { dst, value } => if *dst == self.stack[n - 1] {
                Some(*value)
            } else {
                None
            },
            _ => None,
        }
    }

    /// Takes the last `n` operands off the stack, in order.
    pub(crate) fn pop_n(&mut self, n: usize) -> (r: Vec<VReg>)
        requires
            n <= old(self)@.stack.len(),
        ensures
            r@ == old(self)@.stack.subrange(
                old(self)@.stack.len() - n,
                old(self)@.stack.len() as int,
            ),
            final(self)@ == old(self)@.with_stack(
                old(self)@.stack.subrange(0, old(self)@.stack.len() - n),
            ),
    {
        let at: usize = self.stack.len() - n;
        self.stack.split_off(at)
    }
}

impl Translator {
    /// Emits array element access.
    pub(crate) fn emit_array_op(
        &mut self,
        vm: &VmState,
        is_put: bool,
        bci: usize,
        inline: Option<InlineSite>,
        seg: &mut Seg,
    )
        requires
            array_op(*vm, is_put, bci, inline_model(inline), st(*old(self), *old(seg))) is Some,
        ensures
            array_op(*vm, is_put, bci, inline_model(inline), st(*old(self), *old(seg))) == Some(
                st(*final(self), *final(seg)),
            ),
    {
        let reexec = copy_regs(&seg.stack);
        let fail = self.fresh_trap_block(bci, reexec, Vec::new(), inline);
        let klass = self.intern_oop(vm.universe.array_klass.0);
        let dst = self.fresh(true);
        let ghost s0 = seg@;
        if is_put {
            let val = seg.pop();
            let idx = seg.pop();
            let arr = seg.pop();
            assert(seg@.stack =~= s0.stack.subrange(0, s0.stack.len() - 3));
            seg.emit(Ir::ArrayAtPut { dst, arr, idx, val, klass, fail });
        } else {
            let idx = seg.pop();
            let arr = seg.pop();
            assert(seg@.stack =~= s0.stack.subrange(0, s0.stack.len() - 2));
            seg.emit(Ir::ArrayAt { dst, arr, idx, klass, fail });
        }
        seg.push(dst);
    }

    /// Emits an identity comparison.
    pub(crate) fn emit_ref_op(&mut self, neq: bool, seg: &mut Seg)
        requires
            ref_op(neq, st(*old(self), *old(seg))) is Some,
        ensures
            ref_op(neq, st(*old(self), *old(seg))) == Some(st(*final(self), *final(seg))),
    {
        let ghost s0 = seg@;
        let b = seg.pop();
        let a = seg.pop();
        assert(seg@.stack =~= s0.stack.subrange(0, s0.stack.len() - 2));
        let dst = self.fresh(true);
        seg.emit(Ir::RefCmpVal { dst, a, b, neq });
        seg.push(dst);
    }

    /// Emits a guarded boolean negation.
    pub(crate) fn emit_not_op(
        &mut self,
        vm: &VmState,
        sel: SymbolOop,
        bci: usize,
        inline: Option<InlineSite>,
        seg: &mut Seg,
    )
        requires
            not_op(*vm, sel, bci, inline_model(inline), st(*old(self), *old(seg))) is Some,
        ensures
            not_op(*vm, sel, bci, inline_model(inline), st(*old(self), *old(seg))) == Some(
                st(*final(self), *final(seg)),
            ),
    {
        self.record_inline_dep(vm.universe.true_klass, sel);
        self.record_inline_dep(vm.universe.false_klass, sel);
        let reexec = copy_regs(&seg.stack);
        let fail = self.fresh_trap_block(bci, reexec, Vec::new(), inline);
        let src = seg.pop();
        let dst = self.fresh(true);
        seg.emit(Ir::BoolNot { dst, src, fail });
        seg.push(dst);
    }

    /// Emits a fused small-integer operation of a spliced body.
    pub(crate) fn emit_smi_op(
        &mut self,
        kind: SmiSendKind,
        bci: usize,
        inline: Option<InlineSite>,
        seg: &mut Seg,
    )
        requires
            smi_op(kind, bci, inline_model(inline), st(*old(self), *old(seg))) is Some,
        ensures
            smi_op(kind, bci, inline_model(inline), st(*old(self), *old(seg))) == Some(
                st(*final(self), *final(seg)),
            ),
    {
        let ghost s0 = seg@;
        let reexec = copy_regs(&seg.stack);
        let fail = self.fresh_trap_block(bci, reexec, Vec::new(), inline);
        let b = seg.pop();
        let a = seg.pop();
        assert(seg@.stack =~= s0.stack.subrange(0, s0.stack.len() - 2));
        let dst = self.fresh(true);
        match kind {
            SmiSendKind::Arith(op) => seg.emit(Ir::SmiArith { op, dst, a, b, fail }),
            SmiSendKind::Cmp(op) => seg.emit(Ir::SmiCmpVal { op, dst, a, b, fail }),
        }
        seg.push(dst);
    }

    /// Unboxes the operands of a fused Double operation.
    pub(crate) fn emit_double_operands(
        &mut self,
        bci: usize,
        inline: Option<InlineSite>,
        seg: &mut Seg,
    ) -> (r: (VReg, VReg))
        requires
            double_operands(bci, inline_model(inline), st(*old(self), *old(seg))) is Some,
        ensures
            double_operands(bci, inline_model(inline), st(*old(self), *old(seg))) == Some(
                st(*final(self), *final(seg)),
            ),
            r.0 == old(self)@.reg(),
            r.1 == old(self)@.fresh_fp().reg(),
    {
        let ghost s0 = seg@;
        let konst = seg.const_smi_arg();
        assert(konst == arg_const_smi(st(*self, *seg)));
        let reexec = copy_regs(&seg.stack);
        let fail = self.fresh_trap_block(bci, reexec, Vec::new(), inline);
        let b = seg.pop();
        let a = seg.pop();
        assert(seg@.stack =~= s0.stack.subrange(0, s0.stack.len() - 2));
        let ua = self.fresh_fp();
        let ub = self.fresh_fp();
        seg.emit(Ir::FUnbox { dst: ua, src: a, fail });
        match konst {
            Some(v) => {
                let bits: u64 = smi_to_double_bits(v);
                seg.emit(Ir::FConst { dst: ub, bits });
            },
            None => seg.emit(Ir::FUnbox { dst: ub, src: b, fail }),
        }
        (ua, ub)
    }

    /// Emits a fused Double operation of a spliced body.
    pub(crate) fn emit_double_op(
        &mut self,
        kind: DoubleSendKind,
        bci: usize,
        inline: Option<InlineSite>,
        seg: &mut Seg,
    )
        requires
            double_op(kind, bci, inline_model(inline), st(*old(self), *old(seg))) is Some,
        ensures
            double_op(kind, bci, inline_model(inline), st(*old(self), *old(seg))) == Some(
                st(*final(self), *final(seg)),
            ),
    {
        let (ua, ub) = self.emit_double_operands(bci, inline, seg);
        let dst = self.fresh(true);
        match kind {
            DoubleSendKind::Arith(op) => {
                let fd = self.fresh_fp();
                seg.emit(Ir::FArith { op, dst: fd, a: ua, b: ub });
                seg.emit(Ir::FBox { dst, src: fd });
            },
            DoubleSendKind::Cmp(op) => {
                seg.emit(Ir::FCmpVal { op, dst, a: ua, b: ub });
            },
        }
        seg.push(dst);
    }

    /// The inline allocation that a site stands for.
    pub(crate) fn alloc_site_klass(
        &mut self,
        vm: &VmState,
        ic: &InterpreterIc,
        receiver: VReg,
        this: VReg,
        this_klass: Option<KlassOop>,
    ) -> (r: Option<(KlassOop, u32)>)
        requires
            vm.wf(),
            ic.wf(vm.methods@.len() as int),
        ensures
            r == alloc_site(*vm, old(self)@, *ic, receiver, this, this_klass),
            final(self)@ == alloc_out(*vm, old(self)@, *ic, receiver, this, this_klass),
    {
        if ic.argc != 0 {
            return None;
        }
        let known: Option<KlassOop> = match self.const_class.get(&receiver.0) {
            Some(k) => Some(*k),
            None => None,
        };
        let klass: KlassOop = if let Some(k) = known {
            match ic.target {
                Some(t) => {
                    if !ic.guard_is_klass || vm.method(t).primitive != PRIM_BASIC_NEW {
                        return None;
                    }
                    k
                },
                None => return None,
            }
        } else {
            if receiver != this {
                return None;
            }
            let meta = match this_klass {
                Some(k) => k,
                None => return None,
            };
            let sole = match vm.klass_info(meta) {
                Some(info) => match info.sole_instance {
                    Some(x) => x,
                    None => return None,
                },
                None => return None,
            };
            match vm.resolve_method(meta, ic.selector) {
                Some(t) => {
                    if vm.method(t).primitive != PRIM_BASIC_NEW {
                        return None;
                    }
                },
                None => return None,
            }
            self.record_inline_dep(meta, ic.selector);
            sole
        };
        match vm.klass_info(klass) {
            Some(info) => {
                let n: usize = info.non_indexable_size;
                if !info.slots_format || n < HEADER_WORDS || n >= 4096 || n * WORD_SIZE >= 4096 {
                    None
                } else {
                    Some((klass, n as u32))
                }
            },
            None => None,
        }
    }

    /// Emits an inline allocation.
    pub(crate) fn emit_alloc_op(
        &mut self,
        k: KlassOop,
        size_words: u32,
        bci: usize,
        inline: Option<InlineSite>,
        seg: &mut Seg,
    )
        requires
            alloc_op(k, size_words, bci, inline_model(inline), st(*old(self), *old(seg))) is Some,
        ensures
            alloc_op(k, size_words, bci, inline_model(inline), st(*old(self), *old(seg))) == Some(
                st(*final(self), *final(seg)),
            ),
    {
        let stack = copy_regs(&seg.stack);
        let _ = seg.pop();
        seg.site(
            DeoptRaw {
                stack,
                bci,
                kind: SafepointKind::Alloc,
                reexecute: true,
                stack_closures: Vec::new(),
                inline,
            },
        );
        let klass = self.intern_oop(k.0);
        let dst = self.fresh(true);
        seg.emit(Ir::Alloc { dst, klass, size_words });
        seg.push(dst);
    }

    /// Emits a plain send.
    pub(crate) fn emit_send_op(
        &mut self,
        ic: &InterpreterIc,
        static_klass: Option<KlassOop>,
        bci: usize,
        closures: Vec<(u16, u32)>,
        inline: Option<InlineSite>,
        seg: &mut Seg,
    )
        requires
            send_op(
                *ic,
                static_klass,
                bci,
                closures@,
                inline_model(inline),
                st(*old(self), *old(seg)),
            ) is Some,
        ensures
            send_op(
                *ic,
                static_klass,
                bci,
                closures@,
                inline_model(inline),
                st(*old(self), *old(seg)),
            ) == Some(st(*final(self), *final(seg))),
    {
        let args = seg.pop_n(ic.argc as usize + 1);
        let site = self.add_call_site(
            CallSiteInfo { selector: ic.selector, argc: ic.argc + 1, static_klass },
            ic.feedback.copy(),
        );
        let dst = self.fresh(true);
        let stack = copy_regs(&seg.stack);
        seg.site(
            DeoptRaw {
                stack,
                bci,
                kind: SafepointKind::Call,
                reexecute: false,
                stack_closures: closures,
                inline,
            },
        );
        seg.emit(Ir::CallSend { dst, site, args });
        seg.push(dst);
    }

    /// Emits a trap in place of a send.
    pub(crate) fn emit_trap_op(
        &mut self,
        bci: usize,
        closures: Vec<(u16, u32)>,
        inline: Option<InlineSite>,
        seg: &mut Seg,
    )
        ensures
            st(*final(self), *final(seg)) == trap_op(
                bci,
                closures@,
                inline_model(inline),
                st(*old(self), *old(seg)),
            ),
    {
        let stack = copy_regs(&seg.stack);
        seg.site(
            DeoptRaw {
                stack,
                bci,
                kind: SafepointKind::UncommonTrap,
                reexecute: true,
                stack_closures: closures,
                inline,
            },
        );
        seg.emit(Ir::UncommonTrap { bci });
    }

    /// Counts a never-taken send that stays a send.
    pub(crate) fn count_cold_send(&mut self, cx: &Ctx, ic: &InterpreterIc, seg: &Seg)
        requires
            count_cold(cx@, *ic, st(*old(self), *seg)) is Some,
        ensures
            count_cold(cx@, *ic, st(*old(self), *seg)) == Some(st(*final(self), *seg)),
    {
        if cx.osr && matches!(ic.feedback, SiteFeedback::Untaken) {
            self.osr_cold_sends = self.osr_cold_sends + 1;
        }
    }

    /// Emits the send of a spliced body that nothing better takes; true when it became a trap.
    pub(crate) fn emit_body_send(
        &mut self,
        cx: &Ctx,
        ic: &InterpreterIc,
        this: VReg,
        this_klass: Option<KlassOop>,
        bci: usize,
        closures: Vec<(u16, u32)>,
        proto: &InlineSite,
        seg: &mut Seg,
    ) -> (r: bool)
        requires
            cx.wf(),
            body_send(
                cx@,
                *ic,
                this,
                this_klass,
                bci,
                closures@,
                proto.model(),
                st(*old(self), *old(seg)),
            ) is Some,
        ensures
            body_send(
                cx@,
                *ic,
                this,
                this_klass,
                bci,
                closures@,
                proto.model(),
                st(*old(self), *old(seg)),
            ) == Some((st(*final(self), *final(seg)), r)),
    {
        self.count_cold_send(cx, ic, seg);
        let n: usize = ic.argc as usize + 1;
        let recv = seg.stack[seg.stack.len() - n];
        let static_self = recv == this && match this_klass {
            Some(k) => cx.devirt_self_target(k, ic.selector).is_some(),
            None => false,
        };
        if !static_self && cx.inlined_cold_send_traps() && matches!(
            ic.feedback,
            SiteFeedback::Untaken
        ) {
            self.emit_trap_op(bci, closures, Some(proto.copy()), seg);
            let _ = seg.pop_n(n);
            true
        } else {
            self.emit_send_op(ic, None, bci, closures, Some(proto.copy()), seg);
            false
        }
    }
}

} // verus!

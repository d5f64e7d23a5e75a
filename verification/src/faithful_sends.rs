//! Fused sends, calls and allocation compute what the send answers.

use vstd::prelude::*;
use crate::classify::{
    array_kind, double_kind, not_speculatable, ref_eq, returns_constant, smi_kind, smi_target,
    vec_kind, DoubleSendKind,
};
use crate::faithful::{holds, kept, lemma_lit, placed, sees};
use crate::ir::{BlockId, BlockView, DeoptView, InlineView, Ir, IrView, VReg};
use crate::machine::{exec, extends, ran, Env, Flow, Mach, World};
use crate::meaning::{
    activation, body_answer, does, honest, method_answer, primitive_answer, send_runs, site_honest,
    Frame,
};
use crate::ops::{
    alloc_op, alloc_out, alloc_site, arg_const_smi, array_op, double_op, double_operands,
    not_op, ref_op, send_op, smi_op, trap_op,
};
use crate::root::{root_double, root_smi, root_vec};
use crate::translator::{pool_oop, OutView, St};
use crate::values::values;
use crate::world::{InterpreterIc, KlassOop, MethodOop, VmState};

verus! {

broadcast use crate::machine::group_runs;

/// The activation after the send: the answer is in place of the operands.
pub open spec fn answered(w: World, ic: InterpreterIc, f: Frame) -> Frame {
    let n = f.stack.len() as int;
    let (x, mem) = (w.send)(ic.selector, f.stack.subrange(n - ic.argc - 1, n), f.mem);
    f.with_mem(mem).pop(ic.argc + 1).push(x)
}

/// Block `b` is new, and leaves compiled code so that the interpreter runs the instruction at `bci`
/// again, on the activation as it was before it.
pub open spec fn runs_again(
    blocks: Seq<Option<BlockView>>,
    old_len: nat,
    b: BlockId,
    bci: usize,
    inl: Option<InlineView>,
    m: Mach,
    this: VReg,
    slots: Seq<VReg>,
    f: Frame,
) -> bool {
    &&& old_len <= b.0 < blocks.len()
    &&& blocks[b.0 as int] matches Some(blk) && {
        &&& blk.code == seq![Ir::<Seq<VReg>>::UncommonTrap { bci }]
        &&& blk.deopt_sites.len() == 1
        &&& blk.deopt_sites[0].0 == 0
        &&& resumes(blk.deopt_sites[0].1, bci, inl, m, this, slots, f)
    }
}

/// The site describes the activation before the instruction at `bci`, which is to run again.
pub open spec fn resumes(
    d: DeoptView,
    bci: usize,
    inl: Option<InlineView>,
    m: Mach,
    this: VReg,
    slots: Seq<VReg>,
    f: Frame,
) -> bool {
    &&& d.bci == bci
    &&& d.reexecute
    &&& d.inline == inl
    &&& holds(m, d.stack, this, slots, f)
}

/// The code added between `s` and `t` takes the machine from activation `f` to `g`, or leaves to have
/// the instruction at `bci` run again on `f`.
pub open spec fn goes_to(
    e: Env,
    s: St,
    t: St,
    bci: usize,
    inl: Option<InlineView>,
    this: VReg,
    slots: Seq<VReg>,
    wr: Set<VReg>,
    f: Frame,
    g: Frame,
    m: Mach,
) -> bool {
    &&& extends(s.seg.code, t.seg.code)
    &&& s.out.vregs.len() <= t.out.vregs.len()
    &&& placed(t.seg.stack, this, slots, wr, t.out.vregs.len())
    &&& match ran(e, t.seg.code, s.seg.code.len() as int, m) {
        Flow::On(m1) => holds(m1, t.seg.stack, this, slots, g) && kept(
            m,
            m1,
            s.out.vregs.len(),
            wr,
        ),
        Flow::To(b, m1) => runs_again(
            t.out.blocks,
            s.out.blocks.len(),
            b,
            bci,
            inl,
            m1,
            this,
            slots,
            f,
        ) && kept(m, m1, s.out.vregs.len(), wr),
        _ => false,
    }
}

/// The machine is about to run what comes after `s`: it holds `f`, and the constant loaded last.
pub open spec fn standing(s: St, this: VReg, slots: Seq<VReg>, wr: Set<VReg>, f: Frame, w: World, m: Mach) -> bool {
    &&& placed(s.seg.stack, this, slots, wr, s.out.vregs.len())
    &&& holds(m, s.seg.stack, this, slots, f)
    &&& s.out.blocks.len() < u32::MAX
    &&& s.seg.code.len() > 0 ==> (s.seg.code.last() matches Ir::ConstSmi { dst, value } ==> (m.regs)(
        dst,
    ) == (w.small)(value as int))
}

/// What a primitive of the method that the receiver's class runs answers, the send answers.
pub(crate) proof fn lemma_primitive(w: World, vm: VmState, ic: InterpreterIc, f: Frame, k: KlassOop, t: MethodOop)
    requires
        honest(w, vm),
        f.stack.len() >= ic.argc + 1,
        ({
            let n = f.stack.len() as int;
            let args = f.stack.subrange(n - ic.argc - 1, n);
            &&& (w.class)(f.mem, args[0]) == k
            &&& (w.method)(k, ic.selector) == Some(t)
            &&& vm.m(t).primitive != 0
            &&& primitive_answer(w, vm.universe, vm.m(t).primitive, args, f.mem) is Some
        }),
    ensures
        ({
            let n = f.stack.len() as int;
            let args = f.stack.subrange(n - ic.argc - 1, n);
            (w.send)(ic.selector, args, f.mem) == primitive_answer(
                w,
                vm.universe,
                vm.m(t).primitive,
                args,
                f.mem,
            )->0
        }),
{
    reveal(honest);
    let n = f.stack.len() as int;
    let args = f.stack.subrange(n - ic.argc - 1, n);
    assert(send_runs(w, vm, ic.selector, args, f.mem));
}

/// The operands of a send are on top of the stack.
pub(crate) proof fn lemma_operands(m: Mach, s: St, f: Frame, k: int)
    requires
        values(m.regs, s.seg.stack) == f.stack,
        0 <= k < s.depth(),
    ensures
        f.stack.len() == s.depth(),
        f.stack[f.stack.len() - 1 - k] == (m.regs)(s.top(k)),
{
    assert(values(m.regs, s.seg.stack)[s.depth() - 1 - k] == (m.regs)(s.top(k)));
}

proof fn lemma_matches(m1: Mach, t: St, this: VReg, slots: Seq<VReg>, g: Frame)
    requires
        t.depth() == g.stack.len(),
        forall|i: int|
            0 <= i < t.depth() ==> (m1.regs)(#[trigger] t.seg.stack[i]) == g.stack[i],
        g.slots == values(m1.regs, slots),
        (m1.regs)(this) == g.me,
        m1.mem == g.mem,
    ensures
        holds(m1, t.seg.stack, this, slots, g),
{
    assert(values(m1.regs, t.seg.stack) =~= g.stack);
}

/// A fused send of small integers answers what the primitive behind it computes. It stays in
/// compiled code exactly where both operands are small integers and the result is in range.
pub proof fn law_smi_sends_compute(
    e: Env,
    vm: VmState,
    ic: InterpreterIc,
    bci: usize,
    inl: Option<InlineView>,
    this: VReg,
    slots: Seq<VReg>,
    wr: Set<VReg>,
    s: St,
    f: Frame,
    m: Mach,
)
    requires
        honest(e.w, vm),
        site_honest(e.w, vm, ic),
        ic.argc == 1,
        smi_kind(vm, ic) matches Some(k) && (smi_op(k, bci, inl, s) matches Some(t) && sees(
            e,
            vm,
            t.out,
        )),
        standing(s, this, slots, wr, f, e.w, m),
    ensures
        ({
            let t = smi_op(smi_kind(vm, ic)->0, bci, inl, s)->0;
            let n = f.stack.len() as int;
            &&& goes_to(e, s, t, bci, inl, this, slots, wr, f, answered(e.w, ic, f), m)
            &&& ran(e, t.seg.code, s.seg.code.len() as int, m) is On <==> primitive_answer(
                e.w,
                vm.universe,
                vm.m(smi_target(vm, ic)->0).primitive,
                f.stack.subrange(n - 2, n),
                f.mem,
            ) is Some
        }),
{
    reveal(honest);
    let w = e.w;
    let k = smi_kind(vm, ic)->0;
    let t = smi_op(k, bci, inl, s)->0;
    let tgt = smi_target(vm, ic)->0;
    let p = vm.m(tgt).primitive;
    let n = f.stack.len() as int;
    lemma_operands(m, s, f, 0);
    lemma_operands(m, s, f, 1);
    let args = f.stack.subrange(n - 2, n);
    assert(args[0] == f.stack[n - 2] && args[1] == f.stack[n - 1]);
    let code = s.seg.code;
    let from = code.len() as int;
    let op = crate::ops::smi_ir(k, s.reg(), s.top(1), s.top(0), s.out.block_id());
    assert(t.seg.code == code.push(op));
    assert(ran(e, code.push(op), from, m) == exec(e, op, m));
    let pa = primitive_answer(w, vm.universe, p, args, f.mem);
    let r = ran(e, t.seg.code, from, m);
    let g = answered(w, ic, f);
    assert(r is On <==> pa is Some);
    if let Flow::On(m1) = r {
        assert((w.class)(f.mem, args[0]) == vm.universe.smi_klass);
        assert((w.method)(vm.universe.smi_klass, ic.selector) == Some(tgt));
        lemma_primitive(w, vm, ic, f, vm.universe.smi_klass, tgt);
        assert((m1.regs)(s.reg()) == (pa->0).0);
        lemma_pushed(m, m1, s, t, this, slots, wr, f, g, 2);
    } else {
        let b = s.out.block_id();
        assert(t.out.blocks[b.0 as int] == Some(
            crate::translator::trap_block(b, bci, s.seg.stack, seq![], inl),
        ));
    }
}

/// The result in a fresh register on what was below the operands.
pub(crate) proof fn lemma_pushed(
    m: Mach,
    m1: Mach,
    s: St,
    t: St,
    this: VReg,
    slots: Seq<VReg>,
    wr: Set<VReg>,
    f: Frame,
    g: Frame,
    n: int,
)
    requires
        placed(s.seg.stack, this, slots, wr, s.out.vregs.len()),
        holds(m, s.seg.stack, this, slots, f),
        0 <= n <= s.depth(),
        t.seg.stack.len() == s.depth() - n + 1,
        forall|i: int| 0 <= i < s.depth() - n ==> t.seg.stack[i] == s.seg.stack[i],
        g.stack.len() == f.stack.len() - n + 1,
        forall|i: int| 0 <= i < f.stack.len() - n ==> g.stack[i] == f.stack[i],
        (m1.regs)(t.seg.stack.last()) == g.stack.last(),
        g.slots == f.slots,
        g.me == f.me,
        m1.mem == g.mem,
        kept(m, m1, s.out.vregs.len(), Set::empty()),
    ensures
        holds(m1, t.seg.stack, this, slots, g),
        kept(m, m1, s.out.vregs.len(), wr),
{
    let none: Set<VReg> = Set::empty();
    assert forall|v: VReg| v.0 < s.out.vregs.len() implies #[trigger] (m1.regs)(v) == (m.regs)(
        v,
    ) by {
        assert(!none.contains(v));
    }
    assert forall|i: int| 0 <= i < t.depth() implies (m1.regs)(#[trigger] t.seg.stack[i])
        == g.stack[i] by {
        if i < s.depth() - n {
            assert(s.seg.stack[i].0 < s.out.vregs.len());
            assert(values(m.regs, s.seg.stack)[i] == (m.regs)(s.seg.stack[i]));
        }
    }
    assert(values(m1.regs, slots) =~= values(m.regs, slots)) by {
        assert forall|i: int| 0 <= i < slots.len() implies (m1.regs)(#[trigger] slots[i]) == (
        m.regs)(slots[i]) by {
            assert(slots[i].0 < s.out.vregs.len());
        }
    }
    lemma_matches(m1, t, this, slots, g);
}

/// A fused array access takes the array from the receiver and the index from the first argument: it
/// answers the element there, or stores the second argument there and answers it. It stays in
/// compiled code exactly where the receiver is an array and the index lies inside it.
pub proof fn law_array_sends_access_the_receiver(
    e: Env,
    vm: VmState,
    ic: InterpreterIc,
    bci: usize,
    inl: Option<InlineView>,
    this: VReg,
    slots: Seq<VReg>,
    wr: Set<VReg>,
    s: St,
    f: Frame,
    m: Mach,
)
    requires
        honest(e.w, vm),
        site_honest(e.w, vm, ic),
        array_kind(vm, ic) matches Some(put) && ic.argc == (if put {
            2int
        } else {
            1
        }) && (array_op(vm, put, bci, inl, s) matches Some(t) && sees(e, vm, t.out)),
        standing(s, this, slots, wr, f, e.w, m),
    ensures
        ({
            let t = array_op(vm, array_kind(vm, ic)->0, bci, inl, s)->0;
            let n = f.stack.len() as int;
            &&& goes_to(e, s, t, bci, inl, this, slots, wr, f, answered(e.w, ic, f), m)
            &&& ran(e, t.seg.code, s.seg.code.len() as int, m) is On <==> primitive_answer(
                e.w,
                vm.universe,
                vm.m(ic.target->0).primitive,
                f.stack.subrange(n - ic.argc - 1, n),
                f.mem,
            ) is Some
        }),
{
    reveal(honest);
    let w = e.w;
    let put = array_kind(vm, ic)->0;
    let t = array_op(vm, put, bci, inl, s)->0;
    let tgt = ic.target->0;
    let p = vm.m(tgt).primitive;
    let n = f.stack.len() as int;
    lemma_operands(m, s, f, 0);
    lemma_operands(m, s, f, 1);
    if put {
        lemma_operands(m, s, f, 2);
    }
    let args = f.stack.subrange(n - ic.argc - 1, n);
    assert(args[0] == f.stack[n - ic.argc - 1] && args[1] == f.stack[n - ic.argc]);
    let x = pool_oop(vm.universe.array_klass.0);
    let o = s.out.trap(bci, s.seg.stack, seq![], inl);
    lemma_lit(e, vm, o, t.out, x);
    let code = s.seg.code;
    let from = code.len() as int;
    let op = t.seg.code.last();
    assert(t.seg.code == code.push(op));
    assert(ran(e, code.push(op), from, m) == exec(e, op, m));
    let pa = primitive_answer(w, vm.universe, p, args, f.mem);
    let r = ran(e, t.seg.code, from, m);
    let g = answered(w, ic, f);
    assert(r is On <==> pa is Some);
    if let Flow::On(m1) = r {
        assert(KlassOop(ic.guard) == vm.universe.array_klass);
        lemma_primitive(w, vm, ic, f, vm.universe.array_klass, tgt);
        assert((m1.regs)(s.reg()) == (pa->0).0);
        lemma_pushed(m, m1, s, t, this, slots, wr, f, g, ic.argc + 1);
    } else {
        let b = s.out.block_id();
        assert(t.out.blocks[b.0 as int] == Some(
            crate::translator::trap_block(b, bci, s.seg.stack, seq![], inl),
        ));
    }
}

/// The identity sends compare the two operands themselves.
pub proof fn law_identity_sends_compare(
    e: Env,
    vm: VmState,
    ic: InterpreterIc,
    bci: usize,
    inl: Option<InlineView>,
    this: VReg,
    slots: Seq<VReg>,
    wr: Set<VReg>,
    s: St,
    f: Frame,
    m: Mach,
)
    requires
        honest(e.w, vm),
        ref_eq(vm, ic) matches Some(neq) && (ref_op(neq, s) matches Some(t) && sees(e, vm, t.out)),
        standing(s, this, slots, wr, f, e.w, m),
    ensures
        ({
            let t = ref_op(ref_eq(vm, ic)->0, s)->0;
            &&& goes_to(e, s, t, bci, inl, this, slots, wr, f, answered(e.w, ic, f), m)
            &&& ran(e, t.seg.code, s.seg.code.len() as int, m) is On
        }),
{
    reveal(honest);
    let w = e.w;
    let t = ref_op(ref_eq(vm, ic)->0, s)->0;
    let n = f.stack.len() as int;
    lemma_operands(m, s, f, 0);
    lemma_operands(m, s, f, 1);
    let args = f.stack.subrange(n - 2, n);
    assert(args =~= seq![f.stack[n - 2], f.stack[n - 1]]);
    let op = t.seg.code.last();
    assert(t.seg.code == s.seg.code.push(op));
    assert(ran(e, s.seg.code.push(op), s.seg.code.len() as int, m) == exec(e, op, m));
    let m1 = exec(e, op, m)->On_0;
    lemma_pushed(m, m1, s, t, this, slots, wr, f, answered(w, ic, f), 2);
}

/// The canonical `not` of a boolean answers the other one.
proof fn lemma_constant_body(w: World, vm: VmState, t: MethodOop, want: bool, args: Seq<int>, mem: int)
    requires
        vm.wf(),
        vm.has(t),
        returns_constant(vm.m(t), want),
        vm.m(t).argc == 0,
        args.len() == 1,
    ensures
        method_answer(w, vm, t, args, mem) == Some((w.truth(vm.universe, want), mem)),
{
    let m = vm.m(t);
    assert(m.wf(vm.methods@.len() as int));
    let f = activation(w, vm, m, args, mem);
    assert(m.code@[0] is Some);
    let b1 = m.next_at(0);
    assert(m.code@[b1] is Some);
    let g = f.push(w.truth(vm.universe, want));
    assert(does(w, vm, m, m.instr_at(0), f) == Some(g));
    assert(body_answer(w, vm, m, b1, g) == Some((g.top(), g.mem)));
    assert(body_answer(w, vm, m, 0, f) == body_answer(w, vm, m, b1, g));
}

/// A speculated `not` answers what the method of the boolean answers, and leaves for anything else.
pub proof fn law_not_sends_flip(
    e: Env,
    vm: VmState,
    ic: InterpreterIc,
    bci: usize,
    inl: Option<InlineView>,
    this: VReg,
    slots: Seq<VReg>,
    wr: Set<VReg>,
    s: St,
    f: Frame,
    m: Mach,
)
    requires
        vm.wf(),
        honest(e.w, vm),
        not_speculatable(vm, ic),
        not_op(vm, ic.selector, bci, inl, s) matches Some(t) && sees(e, vm, t.out),
        standing(s, this, slots, wr, f, e.w, m),
    ensures
        ({
            let t = not_op(vm, ic.selector, bci, inl, s)->0;
            &&& goes_to(e, s, t, bci, inl, this, slots, wr, f, answered(e.w, ic, f), m)
            &&& ran(e, t.seg.code, s.seg.code.len() as int, m) is On <==> (f.stack.last()
                == e.w.truth(vm.universe, true) || f.stack.last() == e.w.truth(
                vm.universe,
                false,
            ))
        }),
{
    reveal(honest);
    let w = e.w;
    let u = vm.universe;
    let t = not_op(vm, ic.selector, bci, inl, s)->0;
    let n = f.stack.len() as int;
    lemma_operands(m, s, f, 0);
    let args = f.stack.subrange(n - 1, n);
    assert(args[0] == f.stack[n - 1]);
    let op = t.seg.code.last();
    assert(t.seg.code == s.seg.code.push(op));
    assert(ran(e, s.seg.code.push(op), s.seg.code.len() as int, m) == exec(e, op, m));
    let r = exec(e, op, m);
    if let Flow::On(m1) = r {
        let was = args[0] == w.truth(u, true);
        let k = if was {
            u.true_klass
        } else {
            u.false_klass
        };
        let tgt = vm.lookup(k, ic.selector)->0;
        assert((w.class)(f.mem, args[0]) == k);
        assert(vm.lookup(k, u.not_sel) == Some(tgt));
        lemma_lookup_has(vm, k, ic.selector);
        lemma_constant_body(w, vm, tgt, !was, args, f.mem);
        assert(send_runs(w, vm, ic.selector, args, f.mem));
        lemma_pushed(m, m1, s, t, this, slots, wr, f, answered(w, ic, f), 1);
    } else {
        let b = s.out.block_id();
        let out = s.out.dep(u.true_klass, ic.selector).dep(u.false_klass, ic.selector);
        assert(out.blocks == s.out.blocks);
        assert(t.out.blocks[b.0 as int] == Some(
            crate::translator::trap_block(b, bci, s.seg.stack, seq![], inl),
        ));
    }
}

proof fn lemma_lookup_has(vm: VmState, k: KlassOop, sel: crate::world::SymbolOop)
    requires
        vm.wf(),
    ensures
        vm.lookup(k, sel) matches Some(t) ==> vm.has(t),
{
    assert forall|i: int| 0 <= i < vm.lookups@.len() implies (
    #[trigger] vm.lookups@[i]).method.0 < vm.methods@.len() by {}
    lemma_first_lookup(vm.lookups@, k, sel, vm.methods@.len() as int);
}

proof fn lemma_first_lookup(
    v: Seq<crate::world::Lookup>,
    k: KlassOop,
    sel: crate::world::SymbolOop,
    n: int,
)
    requires
        forall|i: int| 0 <= i < v.len() ==> (#[trigger] v[i]).method.0 < n,
    ensures
        crate::world::first_lookup(v, k, sel) matches Some(t) ==> t.0 < n,
    decreases v.len(),
{
    if v.len() > 0 {
        assert(v[0].method.0 < n);
        lemma_first_lookup(v.skip(1), k, sel, n);
    }
}

/// A send that stays a send hands receiver and arguments over in order and puts the answer in their
/// place. The site at the call describes the activation that waits for the answer.
pub proof fn law_calls_hand_over_their_operands(
    e: Env,
    vm: VmState,
    ic: InterpreterIc,
    from: Option<KlassOop>,
    bci: usize,
    closures: Seq<(u16, u32)>,
    inl: Option<InlineView>,
    this: VReg,
    slots: Seq<VReg>,
    wr: Set<VReg>,
    s: St,
    f: Frame,
    m: Mach,
)
    requires
        send_op(ic, from, bci, closures, inl, s) matches Some(t) && sees(e, vm, t.out),
        standing(s, this, slots, wr, f, e.w, m),
    ensures
        ({
            let t = send_op(ic, from, bci, closures, inl, s)->0;
            let n = f.stack.len() as int;
            let args = f.stack.subrange(n - ic.argc - 1, n);
            let (x, mem) = match from {
                Some(k) => (e.w.send_from)(k, ic.selector, args, f.mem),
                None => (e.w.send)(ic.selector, args, f.mem),
            };
            let g = f.with_mem(mem).pop(ic.argc + 1).push(x);
            let from = s.seg.code.len() as int;
            &&& goes_to(e, s, t, bci, inl, this, slots, wr, f, g, m)
            &&& ran(e, t.seg.code, from, m) matches Flow::On(m1) && {
                let d = t.seg.deopt.last();
                &&& t.seg.deopt.len() == s.seg.deopt.len() + 1
                &&& d.0 == from as u32
                &&& d.1.bci == bci
                &&& !d.1.reexecute
                &&& d.1.inline == inl
                &&& d.1.kind is Call
                &&& values(m1.regs, d.1.stack).push(x) == g.stack
            }
        }),
{
    let w = e.w;
    let t = send_op(ic, from, bci, closures, inl, s)->0;
    let n = f.stack.len() as int;
    let argv = s.seg.stack.subrange(s.depth() - ic.argc - 1, s.depth() as int);
    let args = f.stack.subrange(n - ic.argc - 1, n);
    assert(values(m.regs, argv) =~= args) by {
        assert forall|i: int| 0 <= i < args.len() implies (m.regs)(#[trigger] argv[i]) == args[i] by {
            assert(values(m.regs, s.seg.stack)[n - ic.argc - 1 + i] == (m.regs)(
                s.seg.stack[n - ic.argc - 1 + i],
            ));
        }
    }
    let op = t.seg.code.last();
    assert(t.seg.code == s.seg.code.push(op));
    assert(ran(e, s.seg.code.push(op), s.seg.code.len() as int, m) == exec(e, op, m));
    let m1 = exec(e, op, m)->On_0;
    let (x, mem) = match from {
        Some(k) => (w.send_from)(k, ic.selector, args, f.mem),
        None => (w.send)(ic.selector, args, f.mem),
    };
    let at = s.out.call_sites.len() as int;
    assert(e.calls[at] == t.out.call_sites[at]);
    let g = f.with_mem(mem).pop(ic.argc + 1).push(x);
    lemma_pushed(m, m1, s, t, this, slots, wr, f, g, ic.argc + 1);
    let d = t.seg.deopt.last().1;
    assert(d.stack == s.seg.stack.subrange(0, n - ic.argc - 1));
    assert(values(m1.regs, d.stack).push(x) =~= g.stack) by {
        assert forall|i: int| 0 <= i < d.stack.len() implies (m1.regs)(#[trigger] d.stack[i])
            == f.stack[i] by {
            assert(values(m1.regs, t.seg.stack)[i] == (m1.regs)(t.seg.stack[i]));
            assert(t.seg.stack[i] == d.stack[i]);
        }
    }
}

/// The unboxed operands of a fused send of doubles.
pub(crate) proof fn lemma_double_operands(
    e: Env,
    vm: VmState,
    ic: InterpreterIc,
    bci: usize,
    inl: Option<InlineView>,
    this: VReg,
    slots: Seq<VReg>,
    wr: Set<VReg>,
    s: St,
    f: Frame,
    m: Mach,
)
    requires
        honest(e.w, vm),
        double_operands(bci, inl, s) matches Some(t) && sees(e, vm, t.out),
        standing(s, this, slots, wr, f, e.w, m),
    ensures
        ({
            let t = double_operands(bci, inl, s)->0;
            let n = f.stack.len() as int;
            let ua = s.reg();
            let ub = s.fresh_fp().reg();
            &&& n >= 2
            &&& extends(s.seg.code, t.seg.code)
            &&& t.out.vregs.len() == s.out.vregs.len() + 2
            &&& t.seg.stack == s.seg.stack.subrange(0, n - 2)
            &&& s.depth() == n
            &&& match ran(e, t.seg.code, s.seg.code.len() as int, m) {
                Flow::On(m1) => {
                    &&& kept(m, m1, s.out.vregs.len(), Set::empty())
                    &&& m1.mem == m.mem
                    &&& (e.w.class)(f.mem, f.stack[n - 2]) == vm.universe.double_klass
                    &&& (m1.regs)(ua) == (e.w.peel)(f.stack[n - 2])
                    &&& crate::meaning::as_double(e.w, vm.universe, f.stack[n - 1], f.mem) == Some(
                        (m1.regs)(ub),
                    )
                },
                Flow::To(b, m1) => runs_again(
                    t.out.blocks,
                    s.out.blocks.len(),
                    b,
                    bci,
                    inl,
                    m1,
                    this,
                    slots,
                    f,
                ) && kept(m, m1, s.out.vregs.len(), wr) && !((e.w.class)(f.mem, f.stack[n - 2])
                    == vm.universe.double_klass && (e.w.class)(f.mem, f.stack[n - 1])
                    == vm.universe.double_klass),
                _ => false,
            }
        }),
{
    reveal(honest);
    let w = e.w;
    let t = double_operands(bci, inl, s)->0;
    let n = f.stack.len() as int;
    lemma_operands(m, s, f, 0);
    lemma_operands(m, s, f, 1);
    let b = s.out.block_id();
    let ua = s.reg();
    let ub = s.fresh_fp().reg();
    let code = s.seg.code;
    let from = code.len() as int;
    let op1: IrView = Ir::FUnbox { dst: ua, src: s.top(1), fail: b };
    let op2 = t.seg.code.last();
    assert(t.seg.code == code.push(op1).push(op2));
    assert(ran(e, code.push(op1), from, m) == exec(e, op1, m));
    assert(t.out.blocks[b.0 as int] == Some(
        crate::translator::trap_block(b, bci, s.seg.stack, seq![], inl),
    ));
    let none: Set<VReg> = Set::empty();
    if let Flow::On(m1) = exec(e, op1, m) {
        assert(s.seg.stack[n - 1].0 < s.out.vregs.len());
        assert((m1.regs)(s.top(0)) == (m.regs)(s.top(0)));
        lemma_still_holds(m, m1, s, this, slots, wr, f);
        if arg_const_smi(s) is Some {
            let v = arg_const_smi(s)->0;
            assert((m.regs)(s.top(0)) == (w.small)(v as int));
            assert((w.int_of)((w.small)(v as int)) == Some(v as int));
            lemma_small_no_double(w, vm, (w.small)(v as int), f.mem);
        }
    }
}

/// A small integer is no Double.
proof fn lemma_small_no_double(w: World, vm: VmState, x: int, mem: int)
    requires
        honest(w, vm),
        (w.int_of)(x) is Some,
    ensures
        (w.class)(mem, x) == vm.universe.smi_klass,
{
    reveal(honest);
}

/// Writes to fresh registers leave the activation as it is.
proof fn lemma_still_holds(m: Mach, m1: Mach, s: St, this: VReg, slots: Seq<VReg>, wr: Set<VReg>, f: Frame)
    requires
        placed(s.seg.stack, this, slots, wr, s.out.vregs.len()),
        holds(m, s.seg.stack, this, slots, f),
        m1.mem == m.mem,
        forall|v: VReg| v.0 < s.out.vregs.len() ==> #[trigger] (m1.regs)(v) == (m.regs)(v),
    ensures
        holds(m1, s.seg.stack, this, slots, f),
{
    assert(values(m1.regs, s.seg.stack) =~= values(m.regs, s.seg.stack)) by {
        assert forall|i: int| 0 <= i < s.depth() implies (m1.regs)(#[trigger] s.seg.stack[i]) == (
        m.regs)(s.seg.stack[i]) by {
            assert(s.seg.stack[i].0 < s.out.vregs.len());
        }
    }
    assert(values(m1.regs, slots) =~= values(m.regs, slots)) by {
        assert forall|i: int| 0 <= i < slots.len() implies (m1.regs)(#[trigger] slots[i]) == (
        m.regs)(slots[i]) by {
            assert(slots[i].0 < s.out.vregs.len());
        }
    }
}

/// What follows the unboxed operands: the result is computed from them, boxed where it is a number,
/// and put in their place.
proof fn lemma_double_result(
    e: Env,
    vm: VmState,
    ic: InterpreterIc,
    kind: DoubleSendKind,
    bci: usize,
    inl: Option<InlineView>,
    this: VReg,
    slots: Seq<VReg>,
    wr: Set<VReg>,
    s: St,
    t: St,
    fd: VReg,
    d: VReg,
    f: Frame,
    m: Mach,
)
    requires
        honest(e.w, vm),
        ic.argc == 1,
        double_kind(vm, ic) == Some(kind),
        double_operands(bci, inl, s) is Some,
        sees(e, vm, t.out),
        standing(s, this, slots, wr, f, e.w, m),
        ({
            let t1 = double_operands(bci, inl, s)->0;
            let n = t1.out.vregs.len();
            let a = s.reg();
            let b = s.fresh_fp().reg();
            &&& n <= t.out.vregs.len()
            &&& n <= d.0 < t.out.vregs.len()
            &&& n <= fd.0
            &&& t.out.blocks == t1.out.blocks
            &&& t.out.pool == t1.out.pool
            &&& t.out.call_sites == t1.out.call_sites
            &&& t.seg.stack == t1.seg.stack.push(d)
            &&& match kind {
                DoubleSendKind::Arith(op) => t.seg.code == t1.seg.code.push(
                    Ir::FArith { op, dst: fd, a, b },
                ).push(Ir::FBox { dst: d, src: fd }),
                DoubleSendKind::Cmp(op) => t.seg.code == t1.seg.code.push(
                    Ir::FCmpVal { op, dst: d, a, b },
                ),
            }
        }),
    ensures
        goes_to(e, s, t, bci, inl, this, slots, wr, f, answered(e.w, ic, f), m),
        ({
            let n = f.stack.len() as int;
            (e.w.class)(f.mem, f.stack[n - 2]) == vm.universe.double_klass && (e.w.class)(
                f.mem,
                f.stack[n - 1],
            ) == vm.universe.double_klass ==> ran(e, t.seg.code, s.seg.code.len() as int, m) is On
        }),
{
    reveal(honest);
    let w = e.w;
    let t1 = double_operands(bci, inl, s)->0;
    assert(sees(e, vm, t1.out));
    lemma_double_operands(e, vm, ic, bci, inl, this, slots, wr, s, f, m);
    let n = f.stack.len() as int;
    let args = f.stack.subrange(n - 2, n);
    assert(args[0] == f.stack[n - 2] && args[1] == f.stack[n - 1]);
    let from = s.seg.code.len() as int;
    let r1 = ran(e, t1.seg.code, from, m);
    assert(s.seg.stack.subrange(0, n - 2).push(d) == t.seg.stack);
    assert(placed(t.seg.stack, this, slots, wr, t.out.vregs.len())) by {
        assert forall|k: int| 0 <= k < t.seg.stack.len() implies (#[trigger] t.seg.stack[k]).0
            < t.out.vregs.len() && !wr.contains(t.seg.stack[k]) by {
            if k < n - 2 {
                assert(t.seg.stack[k] == s.seg.stack[k]);
            }
        }
    }
    if let Flow::On(m1) = r1 {
        let tgt = vm.lookup(vm.universe.double_klass, ic.selector)->0;
        let p = vm.m(tgt).primitive;
        assert((w.method)(vm.universe.double_klass, ic.selector) == Some(tgt));
        assert((w.class)(f.mem, args[0]) == vm.universe.double_klass);
        assert(crate::meaning::smi_primitive(p, 0, 0) is None && crate::meaning::smi_test(p, 0, 0) is None);
        assert(primitive_answer(w, vm.universe, p, args, f.mem) is Some);
        lemma_primitive(w, vm, ic, f, vm.universe.double_klass, tgt);
        match kind {
            DoubleSendKind::Arith(op) => {
                let o1: IrView = Ir::FArith { op, dst: fd, a: s.reg(), b: s.fresh_fp().reg() };
                let o2: IrView = Ir::FBox { dst: d, src: fd };
                assert(ran(e, t1.seg.code.push(o1), from, m) == exec(e, o1, m1));
                let m2 = exec(e, o1, m1)->On_0;
                assert(ran(e, t1.seg.code.push(o1).push(o2), from, m) == exec(e, o2, m2));
                let m3 = exec(e, o2, m2)->On_0;
                lemma_pushed(m, m3, s, t, this, slots, wr, f, answered(w, ic, f), 2);
            },
            DoubleSendKind::Cmp(op) => {
                let o1: IrView = Ir::FCmpVal { op, dst: d, a: s.reg(), b: s.fresh_fp().reg() };
                assert(ran(e, t1.seg.code.push(o1), from, m) == exec(e, o1, m1));
                let m2 = exec(e, o1, m1)->On_0;
                lemma_pushed(m, m2, s, t, this, slots, wr, f, answered(w, ic, f), 2);
            },
        }
    }
}

/// A fused send of doubles, inside a spliced body or in the method itself, answers what the primitive
/// behind it computes. Two Doubles stay in compiled code.
pub proof fn law_double_sends_compute(
    e: Env,
    vm: VmState,
    ic: InterpreterIc,
    bci: usize,
    inl: Option<InlineView>,
    this: VReg,
    slots: Seq<VReg>,
    wr: Set<VReg>,
    s: St,
    f: Frame,
    m: Mach,
)
    requires
        honest(e.w, vm),
        ic.argc == 1,
        double_kind(vm, ic) is Some,
        standing(s, this, slots, wr, f, e.w, m),
    ensures
        double_op(double_kind(vm, ic)->0, bci, inl, s) matches Some(t) ==> sees(e, vm, t.out)
            ==> goes_to(e, s, t, bci, inl, this, slots, wr, f, answered(e.w, ic, f), m)
            && doubles_stay(e, vm, s, t, f, m),
        inl is None ==> (root_double(double_kind(vm, ic)->0, false, bci, s) matches Some((t, end))
            ==> sees(e, vm, t.out) ==> end is Next && goes_to(
            e,
            s,
            t,
            bci,
            inl,
            this,
            slots,
            wr,
            f,
            answered(e.w, ic, f),
            m,
        ) && doubles_stay(e, vm, s, t, f, m)),
{
    reveal(honest);
    let kind = double_kind(vm, ic)->0;
    if double_operands(bci, inl, s) is Some {
        let t1 = double_operands(bci, inl, s)->0;
        let t = double_op(kind, bci, inl, s)->0;
        if sees(e, vm, t.out) {
            let d = t1.reg();
            let fd = match kind {
                DoubleSendKind::Arith(_) => t1.fresh(true).reg(),
                DoubleSendKind::Cmp(_) => t1.reg(),
            };
            lemma_double_result(e, vm, ic, kind, bci, inl, this, slots, wr, s, t, fd, d, f, m);
        }
        if inl is None {
            let (q, end) = root_double(kind, false, bci, s)->0;
            if sees(e, vm, q.out) {
                let fd = t1.reg();
                let d = match kind {
                    DoubleSendKind::Arith(_) => t1.fresh_fp().reg(),
                    DoubleSendKind::Cmp(_) => t1.reg(),
                };
                lemma_double_result(e, vm, ic, kind, bci, inl, this, slots, wr, s, q, fd, d, f, m);
            }
        }
    }
}

pub open spec fn doubles_stay(e: Env, vm: VmState, s: St, t: St, f: Frame, m: Mach) -> bool {
    let n = f.stack.len() as int;
    (e.w.class)(f.mem, f.stack[n - 2]) == vm.universe.double_klass && (e.w.class)(
        f.mem,
        f.stack[n - 1],
    ) == vm.universe.double_klass ==> ran(e, t.seg.code, s.seg.code.len() as int, m) is On
}

/// A fused vector send answers what the primitive behind it computes, and stays in compiled code
/// where both operands are of its class.
pub proof fn law_vector_sends_compute(
    e: Env,
    vm: VmState,
    ic: InterpreterIc,
    bci: usize,
    this: VReg,
    slots: Seq<VReg>,
    wr: Set<VReg>,
    s: St,
    f: Frame,
    m: Mach,
)
    requires
        honest(e.w, vm),
        ic.argc == 1,
        vec_kind(vm, ic) matches Some(k) && (root_vec(k, bci, s) matches Some(t) && sees(
            e,
            vm,
            t.out,
        )),
        standing(s, this, slots, wr, f, e.w, m),
    ensures
        ({
            let t = root_vec(vec_kind(vm, ic)->0, bci, s)->0;
            let n = f.stack.len() as int;
            let k = KlassOop(ic.guard);
            &&& goes_to(e, s, t, bci, None, this, slots, wr, f, answered(e.w, ic, f), m)
            &&& ran(e, t.seg.code, s.seg.code.len() as int, m) is On <==> (e.w.class)(
                f.mem,
                f.stack[n - 2],
            ) == k && (e.w.class)(f.mem, f.stack[n - 1]) == k
        }),
{
    reveal(honest);
    let w = e.w;
    let k = vec_kind(vm, ic)->0;
    let t = root_vec(k, bci, s)->0;
    let n = f.stack.len() as int;
    lemma_operands(m, s, f, 0);
    lemma_operands(m, s, f, 1);
    let args = f.stack.subrange(n - 2, n);
    assert(args[0] == f.stack[n - 2] && args[1] == f.stack[n - 1]);
    let op = t.seg.code.last();
    assert(t.seg.code == s.seg.code.push(op));
    assert(ran(e, s.seg.code.push(op), s.seg.code.len() as int, m) == exec(e, op, m));
    if let Flow::On(m1) = exec(e, op, m) {
        let klass = crate::machine::vec_class(vm.universe, k.0);
        let tgt = vm.lookup(klass, ic.selector)->0;
        let p = vm.m(tgt).primitive;
        assert(crate::meaning::vector_primitive(p) == Some(k));
        lemma_primitive(w, vm, ic, f, klass, tgt);
        lemma_pushed(m, m1, s, t, this, slots, wr, f, answered(w, ic, f), 2);
    } else {
        let b = s.out.block_id();
        assert(t.out.blocks[b.0 as int] == Some(
            crate::translator::trap_block(b, bci, s.seg.stack, seq![], None),
        ));
    }
}

/// The same for a send of small integers in the method itself, which goes on in a block of its own.
pub proof fn law_root_smi_sends_compute(
    e: Env,
    vm: VmState,
    ic: InterpreterIc,
    fusable: bool,
    bci: usize,
    this: VReg,
    slots: Seq<VReg>,
    wr: Set<VReg>,
    s: St,
    f: Frame,
    m: Mach,
)
    requires
        honest(e.w, vm),
        site_honest(e.w, vm, ic),
        ic.argc == 1,
        smi_kind(vm, ic) matches Some(k) && !(k is Cmp && fusable) && (root_smi(k, fusable, bci, s) matches Some(
            (t, _),
        ) && sees(e, vm, t.out)),
        standing(s, this, slots, wr, f, e.w, m),
    ensures
        ({
            let (t, end) = root_smi(smi_kind(vm, ic)->0, fusable, bci, s)->0;
            let n = f.stack.len() as int;
            &&& end is Split
            &&& goes_to(e, s, t, bci, None, this, slots, wr, f, answered(e.w, ic, f), m)
            &&& ran(e, t.seg.code, s.seg.code.len() as int, m) is On <==> primitive_answer(
                e.w,
                vm.universe,
                vm.m(smi_target(vm, ic)->0).primitive,
                f.stack.subrange(n - 2, n),
                f.mem,
            ) is Some
        }),
{
    reveal(honest);
    let w = e.w;
    let k = smi_kind(vm, ic)->0;
    let (t, end) = root_smi(k, fusable, bci, s)->0;
    let tgt = smi_target(vm, ic)->0;
    let p = vm.m(tgt).primitive;
    let n = f.stack.len() as int;
    lemma_operands(m, s, f, 0);
    lemma_operands(m, s, f, 1);
    let args = f.stack.subrange(n - 2, n);
    assert(args[0] == f.stack[n - 2] && args[1] == f.stack[n - 1]);
    let b = s.out.new_block().block_id();
    let op = crate::ops::smi_ir(k, s.reg(), s.top(1), s.top(0), b);
    assert(t.seg.code == s.seg.code.push(op));
    assert(ran(e, s.seg.code.push(op), s.seg.code.len() as int, m) == exec(e, op, m));
    let pa = primitive_answer(w, vm.universe, p, args, f.mem);
    assert(exec(e, op, m) is On <==> pa is Some);
    if let Flow::On(m1) = exec(e, op, m) {
        assert((w.class)(f.mem, args[0]) == vm.universe.smi_klass);
        lemma_primitive(w, vm, ic, f, vm.universe.smi_klass, tgt);
        lemma_pushed(m, m1, s, t, this, slots, wr, f, answered(w, ic, f), 2);
    } else {
        assert(t.out.blocks[b.0 as int] == Some(
            crate::translator::trap_block(b, bci, s.seg.stack, seq![], None),
        ));
    }
}

/// Registers that are known to hold a class hold it, and a site that allocates through one runs the
/// method that it has cached.
pub open spec fn classes_known(e: Env, vm: VmState, o: OutView, ic: InterpreterIc, m: Mach) -> bool {
    forall|v: u32| #[trigger]
        o.const_class.dom().contains(v) ==> {
            let c = (e.w.word)(o.const_class[v].0);
            &&& (m.regs)(VReg(v)) == c
            &&& ic.guard_is_klass && ic.target is Some ==> (e.w.method)(
                (e.w.class)(m.mem, c),
                ic.selector,
            ) == ic.target
        }
}

/// An inline allocation makes an object of the class that the receiver is, of its size, in place of
/// the receiver. The site before it has the send run again.
pub proof fn law_allocating_sends_allocate(
    e: Env,
    vm: VmState,
    ic: InterpreterIc,
    bci: usize,
    inl: Option<InlineView>,
    this: VReg,
    this_klass: Option<KlassOop>,
    slots: Seq<VReg>,
    wr: Set<VReg>,
    s: St,
    f: Frame,
    m: Mach,
)
    requires
        honest(e.w, vm),
        s.depth() > 0,
        alloc_site(vm, s.out, ic, s.top(0), this, this_klass) is Some,
        classes_known(e, vm, s.out, ic, m),
        this_klass matches Some(k) ==> (e.w.class)(f.mem, f.me) == k,
        standing(s, this, slots, wr, f, e.w, m),
        ({
            let (k, size) = alloc_site(vm, s.out, ic, s.top(0), this, this_klass)->0;
            let s1 = s.with_out(alloc_out(vm, s.out, ic, s.top(0), this, this_klass));
            alloc_op(k, size, bci, inl, s1) matches Some(t) && sees(e, vm, t.out)
        }),
    ensures
        ({
            let (k, size) = alloc_site(vm, s.out, ic, s.top(0), this, this_klass)->0;
            let s1 = s.with_out(alloc_out(vm, s.out, ic, s.top(0), this, this_klass));
            let t = alloc_op(k, size, bci, inl, s1)->0;
            let from = s.seg.code.len() as int;
            &&& goes_to(e, s, t, bci, inl, this, slots, wr, f, answered(e.w, ic, f), m)
            &&& ran(e, t.seg.code, from, m) is On
            &&& t.seg.deopt.len() == s.seg.deopt.len() + 1
            &&& t.seg.deopt.last().0 == from as u32
            &&& resumes(t.seg.deopt.last().1, bci, inl, m, this, slots, f)
        }),
{
    reveal(honest);
    let w = e.w;
    let (k, size) = alloc_site(vm, s.out, ic, s.top(0), this, this_klass)->0;
    let s1 = s.with_out(alloc_out(vm, s.out, ic, s.top(0), this, this_klass));
    let t = alloc_op(k, size, bci, inl, s1)->0;
    let n = f.stack.len() as int;
    lemma_operands(m, s, f, 0);
    let args = f.stack.subrange(n - 1, n);
    let x = pool_oop(k.0);
    assert(s1.out.pool == s.out.pool);
    lemma_lit(e, vm, s1.out, t.out, x);
    let op = t.seg.code.last();
    assert(t.seg.code == s.seg.code.push(op));
    assert(ran(e, s.seg.code.push(op), s.seg.code.len() as int, m) == exec(e, op, m));
    let m1 = exec(e, op, m)->On_0;
    let c = (w.word)(k.0);
    let info = vm.info(k)->0;
    assert((m.regs)(s.top(0)) == c) by {
        if s.out.const_class.dom().contains(s.top(0).0) {
            assert(VReg(s.top(0).0) == s.top(0));
        }
    }
    assert(args =~= seq![c]);
    assert(crate::meaning::class_makes(w, vm, k, ic.selector, f.mem));
    lemma_pushed(m, m1, s, t, this, slots, wr, f, answered(w, ic, f), 1);
}

/// A send that was never taken leaves at once; the site has it run again.
pub proof fn law_cold_sends_run_again(
    e: Env,
    vm: VmState,
    bci: usize,
    closures: Seq<(u16, u32)>,
    inl: Option<InlineView>,
    this: VReg,
    slots: Seq<VReg>,
    wr: Set<VReg>,
    s: St,
    f: Frame,
    m: Mach,
)
    requires
        standing(s, this, slots, wr, f, e.w, m),
    ensures
        ({
            let t = trap_op(bci, closures, inl, s);
            let from = s.seg.code.len() as int;
            &&& extends(s.seg.code, t.seg.code)
            &&& t.seg.code.len() == from + 1
            &&& ran(e, t.seg.code, from, m) == Flow::Leave(m)
            &&& t.seg.deopt.len() == s.seg.deopt.len() + 1
            &&& t.seg.deopt.last().0 == from as u32
            &&& resumes(t.seg.deopt.last().1, bci, inl, m, this, slots, f)
        }),
{
    let t = trap_op(bci, closures, inl, s);
    let op = t.seg.code.last();
    assert(t.seg.code == s.seg.code.push(op));
    assert(ran(e, s.seg.code.push(op), s.seg.code.len() as int, m) == exec(e, op, m));
}

} // verus!

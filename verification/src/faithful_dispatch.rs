//! Sends of the method itself, spliced or not, answer what the send answers.

use vstd::prelude::*;
use crate::classify::splice_shape;
use crate::faithful::{holds, kept, placed, sees};
use crate::faithful_bodies::{classes_held, lemma_inlined_body, sends_fit, splice_ends, steady};
use crate::faithful_sends::{answered, goes_to, law_calls_hand_over_their_operands, standing};
use crate::faithful_splice::{
    callee_known, guard_fits, guard_passes, lemma_inlined_leaf, lemma_runs_as, runs_as,
    stores_temps,
};
use crate::ir::{CallSiteInfo, GuardShape, InlineView, Ir, IrView, VReg};
use crate::machine::{exec, extends, lemma_ran_more, ran, Env, Flow, Mach, World};
use crate::meaning::{above, honest, send_from_runs, Frame};
use crate::root::{
    dominant_splice, guard_shape, guarded_splice, site_of, slow_block, spliced, splices,
    static_splice, super_send, SpliceEnd, StepEnd,
};
use crate::splice::{inline_leaf, method_proto};
use crate::translator::{pool_oop, CtxView, St};
use crate::values::values;
use crate::world::{GuardKind, InterpreterIc, KlassOop, MethodOop, SiteFeedback, VmState};

verus! {

broadcast use crate::machine::group_runs;

/// A callee that can be spliced: no primitive, no stores to arguments, honest sites.
pub open spec fn spliceable(w: World, vm: VmState, callee: MethodOop) -> bool {
    &&& vm.has(callee)
    &&& vm.m(callee).primitive == 0
    &&& stores_temps(vm.m(callee))
    &&& sends_fit(w, vm, vm.m(callee))
}

/// The machine is at a send of the method itself.
pub open spec fn at_send(
    e: Env,
    cx: CtxView,
    ic: InterpreterIc,
    slots: Seq<VReg>,
    wr: Set<VReg>,
    s: St,
    f: Frame,
    m: Mach,
) -> bool {
    &&& cx.vm.wf()
    &&& honest(e.w, cx.vm)
    &&& steady(e.w, cx.vm)
    &&& standing(s, cx.self_vreg, slots, wr, f, e.w, m)
    &&& classes_held(e.w, s.out, wr, m)
    &&& (e.w.class)(f.mem, f.me) == cx.rcvr_klass
    &&& s.depth() >= ic.argc + 1
}

pub open spec fn end_value(end: SpliceEnd) -> Option<VReg> {
    match end {
        SpliceEnd::Value(v) => Some(v),
        _ => None,
    }
}

/// Whichever splice takes the callee, it ends as the send does: the leaf splice and the splice of a
/// body with sends.
pub(crate) proof fn lemma_splices(
    e: Env,
    cx: CtxView,
    ic: InterpreterIc,
    callee: MethodOop,
    guard: Option<(KlassOop, GuardShape)>,
    dep_klass: KlassOop,
    bci: usize,
    slots: Seq<VReg>,
    wr: Set<VReg>,
    s: St,
    f: Frame,
    g: Frame,
    m: Mach,
)
    requires
        at_send(e, cx, ic, slots, wr, s, f, m),
        spliceable(e.w, cx.vm, callee),
        guard_fits(cx.vm, guard),
        runs_as(e.w, cx.vm, callee, ic, guard, f, g),
        ({
            let x = site_of(ic, callee, guard, dep_klass, bci, s);
            splices(cx, x, s.drop(ic.argc + 1)) matches Some((t, end)) && (end is Value
                || end is Trapped) && sees(e, cx.vm, t.out) && t.out.blocks.len() < u32::MAX
                && t.seg.code.len() <= u32::MAX
        }),
    ensures
        ({
            let x = site_of(ic, callee, guard, dep_klass, bci, s);
            let below = s.drop(ic.argc + 1);
            let (t, end) = splices(cx, x, below)->0;
            splice_ends(
                e,
                cx.vm,
                callee,
                s,
                t,
                end_value(end),
                bci,
                ic,
                method_proto(cx.vm, x, below),
                cx.self_vreg,
                slots,
                wr,
                f,
                g,
                m,
            )
        }),
{
    reveal(splices);
    let x = site_of(ic, callee, guard, dep_klass, bci, s);
    let below = s.drop(ic.argc + 1);
    let (t, end) = splices(cx, x, below)->0;
    let this = cx.self_vreg;
    match inline_leaf(cx, x, below) {
        Some((s1, Some(v))) => {
            lemma_inlined_leaf(
                e,
                cx,
                ic,
                callee,
                guard,
                dep_klass,
                bci,
                this,
                slots,
                wr,
                s,
                f,
                g,
                m,
            );
            assert(t == s1 && end == SpliceEnd::Value(v));
            assert(t.push(v).seg.stack == t.seg.stack.push(v));
        },
        Some((_, None)) => {
            lemma_inlined_body(
                e,
                cx,
                ic,
                callee,
                guard,
                dep_klass,
                bci,
                this,
                slots,
                wr,
                s,
                f,
                g,
                m,
            );
        },
        None => {},
    }
}

/// How a send of the method itself ends: with the answer in place of the operands, or in the
/// interpreter, on the caller before the send or inside the callee above the waiting caller.
pub open spec fn send_ends(
    e: Env,
    vm: VmState,
    callee: Option<MethodOop>,
    s: St,
    t: St,
    end: crate::root::EndView,
    bci: usize,
    ic: InterpreterIc,
    proto: InlineView,
    this: VReg,
    slots: Seq<VReg>,
    wr: Set<VReg>,
    f: Frame,
    g: Frame,
    m: Mach,
) -> bool {
    ||| end is Next && goes_to(e, s, t, bci, None, this, slots, wr, f, g, m)
    ||| callee matches Some(c) && end is Next && exists|t0: St, v: VReg| #[trigger]
        t0.push(v) == t && splice_ends(
            e,
            vm,
            c,
            s,
            t0,
            Some(v),
            bci,
            ic,
            proto,
            this,
            slots,
            wr,
            f,
            g,
            m,
        )
    ||| callee matches Some(c) && end is Trapped && splice_ends(
        e,
        vm,
        c,
        s,
        t,
        None,
        bci,
        ic,
        proto,
        this,
        slots,
        wr,
        f,
        g,
        m,
    )
}

/// A send whose profile asks for one callee ends as the send does: spliced behind its guard, or as a
/// call. Splices that take whole flow graphs go on in blocks of their own.
pub proof fn law_guarded_sends_answer(
    e: Env,
    cx: CtxView,
    ic: InterpreterIc,
    callee: MethodOop,
    guard: GuardKind,
    bci: usize,
    slots: Seq<VReg>,
    wr: Set<VReg>,
    s: St,
    f: Frame,
    m: Mach,
)
    requires
        at_send(e, cx, ic, slots, wr, s, f, m),
        spliceable(e.w, cx.vm, callee),
        ic.feedback@ matches SiteFeedback::Mono { klass, .. } && (e.w.method)(klass, ic.selector)
            == Some(callee) && (guard is SmiTest ==> klass == cx.vm.universe.smi_klass),
        guarded_splice(cx, ic, callee, guard, bci, s) matches Some((t, end)) && !(end is Split)
            && sees(e, cx.vm, t.out) && t.out.blocks.len() < u32::MAX && t.seg.code.len()
            <= u32::MAX,
    ensures
        ({
            let klass = ic.feedback@->Mono_klass;
            let x = site_of(ic, callee, Some((klass, guard_shape(guard))), klass, bci, s);
            let (t, end) = guarded_splice(cx, ic, callee, guard, bci, s)->0;
            send_ends(
                e,
                cx.vm,
                Some(callee),
                s,
                t,
                end,
                bci,
                ic,
                method_proto(cx.vm, x, s.drop(ic.argc + 1)),
                cx.self_vreg,
                slots,
                wr,
                f,
                answered(e.w, ic, f),
                m,
            )
        }),
{
    let klass = ic.feedback@->Mono_klass;
    let gd = Some((klass, guard_shape(guard)));
    let x = site_of(ic, callee, gd, klass, bci, s);
    let below = s.drop(ic.argc + 1);
    let (t, end) = guarded_splice(cx, ic, callee, guard, bci, s)->0;
    let g = answered(e.w, ic, f);
    assert(values(m.regs, s.seg.stack).len() == s.depth());
    assert(callee_known(e.w, cx.vm, ic, callee, gd, f));
    lemma_runs_as(e.w, cx.vm, callee, ic, gd, f);
    match splices(cx, x, below) {
        None => {},
        Some((s1, SpliceEnd::Declined)) => {
            law_calls_hand_over_their_operands(
                e,
                cx.vm,
                ic,
                None,
                bci,
                seq![],
                None,
                cx.self_vreg,
                slots,
                wr,
                s,
                f,
                m,
            );
        },
        Some((s1, e1)) => {
            assert(s1.out.blocks.len() < u32::MAX && sees(e, cx.vm, s1.out));
            lemma_splices(e, cx, ic, callee, gd, klass, bci, slots, wr, s, f, g, m);
            if let SpliceEnd::Value(v) = e1 {
                assert(s1.push(v) == t);
            }
        },
    }
}

/// A send to the superclass starts its lookup in the class above the one that holds the method: the
/// body found there is spliced, or the call says so.
pub proof fn law_super_sends_answer(
    e: Env,
    cx: CtxView,
    ic: InterpreterIc,
    bci: usize,
    slots: Seq<VReg>,
    wr: Set<VReg>,
    s: St,
    f: Frame,
    m: Mach,
)
    requires
        at_send(e, cx, ic, slots, wr, s, f, m),
        above(cx.vm, cx.vm.m(cx.method)) matches Some(k) ==> (cx.vm.lookup(k, ic.selector) matches Some(
            t,
        ) ==> splice_shape(cx.vm, t) ==> spliceable(e.w, cx.vm, t)),
        super_send(cx, ic, bci, s) matches Some((t, end)) && !(end is Split) && sees(
            e,
            cx.vm,
            t.out,
        ) && t.out.blocks.len() < u32::MAX && t.seg.code.len() <= u32::MAX,
    ensures
        above(cx.vm, cx.vm.m(cx.method)) matches Some(k) && {
            let (t, end) = super_send(cx, ic, bci, s)->0;
            let n = f.stack.len() as int;
            let (x, mem) = (e.w.send_from)(
                k,
                ic.selector,
                f.stack.subrange(n - ic.argc - 1, n),
                f.mem,
            );
            let callee = cx.vm.lookup(k, ic.selector);
            send_ends(
                e,
                cx.vm,
                callee,
                s,
                t,
                end,
                bci,
                ic,
                method_proto(
                    cx.vm,
                    site_of(ic, callee->0, None, k, bci, s),
                    s.drop(ic.argc + 1),
                ),
                cx.self_vreg,
                slots,
                wr,
                f,
                f.with_mem(mem).pop(ic.argc + 1).push(x),
                m,
            )
        },
{
    let k = above(cx.vm, cx.vm.m(cx.method))->0;
    let callee = cx.vm.lookup(k, ic.selector);
    let (t, end) = super_send(cx, ic, bci, s)->0;
    let n = f.stack.len() as int;
    assert(values(m.regs, s.seg.stack).len() == s.depth());
    let args = f.stack.subrange(n - ic.argc - 1, n);
    let (x, mem) = (e.w.send_from)(k, ic.selector, args, f.mem);
    let g = f.with_mem(mem).pop(ic.argc + 1).push(x);
    let (s1, e1) = static_splice(cx, ic, callee, k, bci, s)->0;
    if e1 is Declined {
        assert(s1.seg == s.seg && s1.out.vregs == s.out.vregs && s1.out.blocks == s.out.blocks);
        assert(standing(s1, cx.self_vreg, slots, wr, f, e.w, m));
        law_calls_hand_over_their_operands(
            e,
            cx.vm,
            ic,
            Some(k),
            bci,
            seq![],
            None,
            cx.self_vreg,
            slots,
            wr,
            s1,
            f,
            m,
        );
        assert(goes_to(e, s, t, bci, None, cx.self_vreg, slots, wr, f, g, m));
    } else {
        let c = callee->0;
        assert(runs_as(e.w, cx.vm, c, ic, None, f, g)) by {
            reveal(honest);
            assert((e.w.method)(k, ic.selector) == Some(c));
            assert(send_from_runs(e.w, cx.vm, k, ic.selector, args, f.mem));
        }
        assert(s1.out.blocks.len() < u32::MAX && sees(e, cx.vm, s1.out));
        lemma_splices(e, cx, ic, c, None, k, bci, slots, wr, s, f, g, m);
        if let SpliceEnd::Value(v) = e1 {
            assert(s1.push(v) == t);
        }
    }
}

/// A send whose profile is dominated by one class takes that class's leaf in line and any other
/// receiver through a block that makes the call; both go on with the answer in the same register.
pub proof fn law_dominant_sends_answer(
    e: Env,
    cx: CtxView,
    ic: InterpreterIc,
    klass: KlassOop,
    callee: MethodOop,
    guard: GuardKind,
    bci: usize,
    slots: Seq<VReg>,
    wr: Set<VReg>,
    s: St,
    f: Frame,
    m: Mach,
)
    requires
        at_send(e, cx, ic, slots, wr, s, f, m),
        spliceable(e.w, cx.vm, callee),
        (e.w.method)(klass, ic.selector) == Some(callee),
        guard is SmiTest ==> klass == cx.vm.universe.smi_klass,
        dominant_splice(cx, ic, klass, callee, guard, bci, s) matches Some((t, _)) && sees(
            e,
            cx.vm,
            t.out,
        ) && t.out.blocks.len() < u32::MAX,
    ensures
        ({
            let (t, end) = dominant_splice(cx, ic, klass, callee, guard, bci, s)->0;
            let g = answered(e.w, ic, f);
            let n = f.stack.len() as int;
            &&& end matches StepEnd::Split(cont) && {
                match ran(e, t.seg.code, s.seg.code.len() as int, m) {
                    Flow::On(m1) => (e.w.class)(f.mem, f.stack[n - ic.argc - 1]) == klass && holds(
                        m1,
                        t.seg.stack,
                        cx.self_vreg,
                        slots,
                        g,
                    ) && kept(m, m1, s.out.vregs.len(), wr),
                    Flow::To(b, m1) => {
                        &&& (e.w.class)(f.mem, f.stack[n - ic.argc - 1]) != klass
                        &&& b.0 < t.out.blocks.len()
                        &&& t.out.blocks[b.0 as int] matches Some(slow) && (ran(
                            e,
                            slow.code,
                            0,
                            m1,
                        ) matches Flow::To(c, m2) && c == cont && holds(
                            m2,
                            t.seg.stack,
                            cx.self_vreg,
                            slots,
                            g,
                        ) && kept(m, m2, s.out.vregs.len(), wr))
                    },
                    _ => false,
                }
            }
        }),
{
    let w = e.w;
    let vm = cx.vm;
    let this = cx.self_vreg;
    let g = answered(w, ic, f);
    let nn = ic.argc + 1;
    let d = f.stack.len() as int;
    assert(values(m.regs, s.seg.stack).len() == s.depth());
    let (t, end) = dominant_splice(cx, ic, klass, callee, guard, bci, s)->0;
    let below = s.drop(nn);
    let x = site_of(ic, callee, None, klass, bci, s);
    let cont = s.out.block_id();
    let slow = s.out.new_block().block_id();
    let dst = s.reg();
    let dst_slow = s.fresh(true).reg();
    let info = CallSiteInfo {
        selector: ic.selector,
        argc: (ic.argc + 1) as u8,
        static_klass: None,
    };
    let argv = s.seg.stack.subrange(s.depth() - nn, s.depth() as int);
    let at = s.out.call_sites.len();
    let blk = slow_block(
        slow,
        bci,
        dst,
        dst_slow,
        at as u16,
        argv,
        cont,
        below.seg.stack,
    );
    let out = s.out.new_block().new_block().fresh(true).fresh(true).call_site(
        info,
        ic.feedback@,
    ).finish(blk);
    let lit = pool_oop(klass.0);
    let op: IrView = Ir::GuardKlass {
        obj: x.receiver,
        expect: out.lit(lit),
        fail: slow,
        kind: guard_shape(guard),
    };
    let o1 = out.intern(lit);
    // The body, seen as a splice of its own behind the guard.
    let s0 = St {
        out: o1,
        seg: crate::translator::SegView { code: s.seg.code.push(op), ..s.seg },
    };
    assert(s0.drop(nn) == below.with_out(o1).emit(op));
    let (s2, ov) = inline_leaf(cx, x, s0.drop(nn))->0;
    let v = ov->0;
    lemma_leaf_only_grows(cx, x, s0.drop(nn));
    let mv: IrView = Ir::Move { dst, src: v };
    assert(t.seg.code == s2.seg.code.push(mv));
    assert(t.out == s2.out);
    assert(crate::faithful_splice::grown(o1, s2.out));
    assert(crate::faithful_splice::grown(out, o1));
    crate::faithful_splice::lemma_grown(out, o1, s2.out);
    crate::faithful_splice::lemma_sees_less(e, vm, o1, t.out);
    crate::faithful::lemma_lit_here(e, vm, out, lit);
    let from = s.seg.code.len() as int;
    assert(ran(e, s.seg.code.push(op), from, m) == exec(e, op, m));
    assert(x == site_of(ic, callee, None, klass, bci, s0));
    assert(extends(s.seg.code, s0.seg.code));
    assert(extends(s0.seg.code, t.seg.code));
    lemma_ran_more(e, s0.seg.code, t.seg.code, from, m);
    lemma_ran_more(e, s0.seg.code, s2.seg.code, from, m);
    let rc = f.stack[d - nn];
    assert(values(m.regs, s.seg.stack)[d - nn] == (m.regs)(s.seg.stack[d - nn]));
    assert(t.out.vregs.len() >= s.out.vregs.len() + 2);
    let tt = below.push(dst);
    assert(t.seg.stack == tt.seg.stack);
    if (w.class)(f.mem, rc) == klass {
        assert(exec(e, op, m) == Flow::On(m)) by {
            reveal(honest);
        }
        assert(standing(s0, this, slots, wr, f, w, m));
        assert(callee_known(w, vm, ic, callee, None, f));
        lemma_runs_as(w, vm, callee, ic, None, f);
        lemma_inlined_leaf(e, cx, ic, callee, None, klass, bci, this, slots, wr, s0, f, g, m);
        let m1 = ran(e, s2.seg.code, s0.seg.code.len() as int, m)->On_0;
        assert(guard_passes(w, vm, None, rc, f.mem));
        let m2 = exec(e, mv, m1)->On_0;
        assert(ran(e, s2.seg.code.push(mv), s0.seg.code.len() as int, m) == exec(e, mv, m1));
        let st1 = s2.push(v).seg.stack;
        assert(values(m1.regs, st1)[st1.len() - 1] == (m1.regs)(v));
        assert(st1.last() == v);
        assert((m2.regs)(dst) == g.stack.last());
        lemma_empty_kept(m, m2, m1, s, wr, dst, s0.out.vregs.len());
        lemma_dominant_holds(m, m1, m2, s, t, this, slots, wr, f, g, nn, st1, dst);
    } else {
        assert(exec(e, op, m) == Flow::To(slow, m)) by {
            reveal(honest);
        }
        assert(out.blocks[slow.0 as int] == Some(blk));
        assert(t.out.blocks[slow.0 as int] == Some(blk));
        assert(e.calls[at as int] == info) by {
            assert(out.call_sites[at as int] == info);
            assert(t.out.call_sites[at as int] == out.call_sites[at as int]);
        }
        let args = f.stack.subrange(d - nn, d);
        assert(values(m.regs, argv) =~= args) by {
            assert forall|i: int| 0 <= i < args.len() implies (m.regs)(#[trigger] argv[i])
                == args[i] by {
                assert(values(m.regs, s.seg.stack)[d - nn + i] == (m.regs)(s.seg.stack[d - nn + i]));
            }
        }
        let b1: IrView = Ir::CallSend { dst: dst_slow, site: at as u16, args: argv };
        let b2: IrView = Ir::Move { dst, src: dst_slow };
        let b3: IrView = Ir::Jump { target: cont };
        let nil: Seq<IrView> = Seq::empty();
        assert(blk.code =~= nil.push(b1).push(b2).push(b3));
        let k1 = exec(e, b1, m)->On_0;
        let k2 = exec(e, b2, k1)->On_0;
        assert(ran(e, nil, 0, m) == Flow::On(m));
        assert(ran(e, nil.push(b1), 0, m) == Flow::On(k1));
        assert(ran(e, nil.push(b1).push(b2), 0, m) == Flow::On(k2));
        assert(ran(e, blk.code, 0, m) == exec(e, b3, k2));
        crate::faithful_sends::lemma_pushed(m, k2, s, t, this, slots, wr, f, g, nn as int);
    }
}

proof fn lemma_leaf_only_grows(cx: CtxView, x: crate::splice::SiteView, s: St)
    ensures
        inline_leaf(cx, x, s) matches Some((t, _)) ==> crate::faithful_splice::grown(s.out, t.out)
            && extends(s.seg.code, t.seg.code) && t.seg.stack == s.seg.stack,
{
    let m = cx.vm.m(x.callee);
    if let Some(s1) = crate::splice::enter_body(cx.vm, x, seq![], s) {
        crate::faithful_splice::lemma_enter_grows(cx.vm, x, seq![], s);
        let bs = crate::splice::body_slots(cx.vm, x, s);
        crate::faithful_splice::lemma_leaf_grows(cx.vm, m, x.receiver, bs, 0, s1);
        if let Some((s2, v)) = crate::splice::leaf_walk(cx.vm, m, x.receiver, bs, 0, s1) {
            crate::faithful_splice::lemma_grown(s.out, s1.out, s2.out);
        }
    }
}

proof fn lemma_empty_kept(m: Mach, m2: Mach, m1: Mach, s: St, wr: Set<VReg>, dst: VReg, k: nat)
    requires
        kept(m, m1, k, wr),
        s.out.vregs.len() <= k,
        dst.0 >= s.out.vregs.len(),
        forall|v: VReg| v != dst ==> #[trigger] (m2.regs)(v) == (m1.regs)(v),
    ensures
        kept(m, m2, s.out.vregs.len(), wr),
{
}

/// The answer moved to the register that both ways share.
proof fn lemma_dominant_holds(
    m: Mach,
    m1: Mach,
    m2: Mach,
    s: St,
    t: St,
    this: VReg,
    slots: Seq<VReg>,
    wr: Set<VReg>,
    f: Frame,
    g: Frame,
    nn: int,
    st1: Seq<VReg>,
    dst: VReg,
)
    requires
        placed(s.seg.stack, this, slots, wr, s.out.vregs.len()),
        holds(m1, st1, this, slots, g),
        0 <= nn <= s.depth(),
        st1.len() == s.depth() - nn + 1,
        forall|i: int| 0 <= i < s.depth() - nn ==> st1[i] == s.seg.stack[i],
        t.seg.stack.len() == s.depth() - nn + 1,
        forall|i: int| 0 <= i < s.depth() - nn ==> t.seg.stack[i] == s.seg.stack[i],
        t.seg.stack.last() == dst,
        dst.0 >= s.out.vregs.len(),
        (m2.regs)(dst) == g.stack.last(),
        m2.mem == m1.mem,
        forall|v: VReg| v != dst ==> #[trigger] (m2.regs)(v) == (m1.regs)(v),
    ensures
        holds(m2, t.seg.stack, this, slots, g),
{
    assert(values(m1.regs, st1).len() == st1.len());
    assert(values(m2.regs, t.seg.stack) =~= g.stack) by {
        assert forall|i: int| 0 <= i < t.depth() implies (m2.regs)(#[trigger] t.seg.stack[i])
            == g.stack[i] by {
            if i < s.depth() - nn {
                assert(s.seg.stack[i].0 < s.out.vregs.len());
                assert(values(m1.regs, st1)[i] == (m1.regs)(st1[i]));
            }
        }
    }
    assert(values(m2.regs, slots) =~= values(m1.regs, slots)) by {
        assert forall|i: int| 0 <= i < slots.len() implies (m2.regs)(#[trigger] slots[i]) == (
        m1.regs)(slots[i]) by {
            assert(slots[i].0 < s.out.vregs.len());
        }
    }
}

} // verus!

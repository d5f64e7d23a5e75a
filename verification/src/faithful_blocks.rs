//! Spliced blocks answer what interpreting them answers.

use vstd::prelude::*;
use crate::convert::{block_ctx_reg, block_prologue, closure_reg, nil_ops, param_ops, slot_regs, Lits};
use crate::effect::arity_ok;
use crate::faithful::{kept, law_moves_mean_what_they_say, sees, writable};
use crate::faithful_bodies::{body_step, comes_to, leaves_here, lemma_nonleaf_grows, lemma_tail};
use crate::faithful_root::{lemma_nils, lemma_params};
use crate::faithful_sends::{answered, resumes, runs_again, standing};
use crate::faithful_splice::{grown, lemma_grown, lemma_sees_less, lemma_simple_grows};
use crate::ir::{InlineView, Ir, IrView, VReg};
use crate::machine::{exec, extends, lemma_ran_more, ran, Env, Flow, Mach, World};
use crate::meaning::{does, honest, site_honest, word_at, Frame};
use crate::ops::simple;
use crate::splice::{block_send, block_walk};
use crate::translator::{CtxView, St};
use crate::values::values;
use crate::world::{Instr, KlassOop, Method, VmState};

verus! {

broadcast use crate::machine::group_runs;

/// What a straight-line block answers from `bci` on and what it leaves of memory; the flag tells that
/// it returns from its home.
pub open spec fn block_answer(w: World, vm: VmState, m: Method, bci: int, f: Frame) -> Option<
    (bool, int, int),
>
    decreases m.code@.len() - bci,
{
    if bci < 0 || bci >= m.code@.len() || !(bci < m.next_at(bci) <= m.code@.len()) {
        None
    } else {
        let i = m.instr_at(bci);
        if i is ReturnTos || i is BlockReturnTos || i is NlrTos {
            if f.stack.len() > 0 {
                Some((i is NlrTos, f.top(), f.mem))
            } else {
                None
            }
        } else if i is ReturnSelf {
            Some((false, f.me, f.mem))
        } else {
            match does(w, vm, m, i, f) {
                Some(g) => block_answer(w, vm, m, m.next_at(bci), g),
                None => None,
            }
        }
    }
}

/// How a spliced block ends: with its answer, with a return from the method, or in the interpreter at
/// an instruction that interpreting the block comes to.
#[verifier::opaque]
pub open spec fn block_ends(
    e: Env,
    vm: VmState,
    mth: Method,
    bci: int,
    f: Frame,
    s: St,
    t: St,
    v: Option<VReg>,
    proto: InlineView,
    this: VReg,
    slots: Seq<VReg>,
    wr: Set<VReg>,
    m: Mach,
) -> bool {
    match ran(e, t.seg.code, s.seg.code.len() as int, m) {
        Flow::On(m1) => v matches Some(r) && kept(m, m1, s.out.vregs.len(), wr) && block_answer(
            e.w,
            vm,
            mth,
            bci,
            f,
        ) == Some((false, (m1.regs)(r), m1.mem)),
        Flow::Answer(x, m1) => v is None && block_answer(e.w, vm, mth, bci, f) == Some(
            (true, x, m1.mem),
        ),
        Flow::To(b, m1) => kept(m, m1, s.out.vregs.len(), wr) && exists|b1: usize, f1: Frame|
            comes_to(e.w, vm, mth, bci, f, b1 as int, f1) && #[trigger] runs_again(
                t.out.blocks,
                s.out.blocks.len(),
                b,
                b1,
                Some(proto),
                m1,
                this,
                slots,
                f1,
            ),
        Flow::Leave(m1) => v is None && kept(m, m1, s.out.vregs.len(), wr) && exists|
            b1: usize,
            f1: Frame,
        |
            comes_to(e.w, vm, mth, bci, f, b1 as int, f1) && t.seg.deopt.len() > 0
                && t.seg.deopt.last().0 == (t.seg.code.len() - 1) as u32 && #[trigger] resumes(
                t.seg.deopt.last().1,
                b1,
                Some(proto),
                m1,
                this,
                slots,
                f1,
            ),
        _ => false,
    }
}

/// What a spliced block is walked with. Its captured variables are looked at elsewhere.
pub open spec fn block_ready(e: Env, cx: CtxView, mth: Method, slots: Seq<VReg>, wr: Set<VReg>) -> bool {
    &&& cx.vm.wf()
    &&& honest(e.w, cx.vm)
    &&& mth.code_wf()
    &&& forall|b: int|
        0 <= b < mth.code@.len() && mth.code@[b] is Some ==> writable(
            #[trigger] mth.instr_at(b),
            slots,
            wr,
        ) && !(mth.instr_at(b) matches Instr::Send { super_, .. } && super_) && !(mth.instr_at(
            b,
        ) is PushCtxTemp) && !(mth.instr_at(b) is StoreCtxTempPop)
    &&& forall|x: int|
        0 <= x < mth.ics@.len() ==> site_honest(e.w, cx.vm, #[trigger] mth.ics@[x]) && arity_ok(
            cx.vm,
            mth.ics@[x],
        )
}

proof fn lemma_walk_grows(
    cx: CtxView,
    mth: Method,
    this: VReg,
    klass: Option<KlassOop>,
    slots: Seq<VReg>,
    proto: InlineView,
    bci: int,
    s: St,
)
    requires
        forall|b: int|
            0 <= b < mth.code@.len() && mth.code@[b] is Some ==> !((#[trigger] mth.instr_at(
                b,
            )) is PushCtxTemp) && !(mth.instr_at(b) is StoreCtxTempPop),
        mth.code_wf(),
        mth.boundary(bci),
    ensures
        block_walk(cx, mth, this, klass, slots, proto, bci, s) matches Some((t, _)) ==> grown(
            s.out,
            t.out,
        ) && extends(s.seg.code, t.seg.code),
    decreases mth.code@.len() - bci,
{
    if bci < 0 || bci >= mth.code@.len() || !(bci < mth.next_at(bci) <= mth.code@.len()) {
    } else {
        assert(mth.code@[bci] is Some);
        let i = mth.instr_at(bci);
        let next = mth.next_at(bci);
        let w = block_walk(cx, mth, this, klass, slots, proto, bci, s);
        if i is ReturnTos || i is ReturnSelf || i is BlockReturnTos || i is NlrTos {
        } else if let Instr::Send { ic, .. } = i {
            let site = mth.ics@[ic as int];
            lemma_nonleaf_grows(cx, mth, site, this, klass, bci as usize, proto, s);
            let r = block_send(cx, site, this, klass, bci as usize, proto, s);
            if r is Some {
                let s1 = (r->0).0;
                if !(r->0).1 {
                    lemma_walk_grows(cx, mth, this, klass, slots, proto, next, s1);
                    let w1 = block_walk(cx, mth, this, klass, slots, proto, next, s1);
                    assert(w == w1);
                    if w1 is Some {
                        lemma_grown(s.out, s1.out, (w1->0).0.out);
                    }
                }
            }
        } else {
            lemma_simple_grows(cx.vm, mth, i, this, slots, false, s);
            let r = simple(cx.vm, mth, i, this, slots, false, s);
            if r is Some {
                lemma_walk_grows(cx, mth, this, klass, slots, proto, next, r->0);
                let w1 = block_walk(cx, mth, this, klass, slots, proto, next, r->0);
                assert(w == w1);
                if w1 is Some {
                    lemma_grown(s.out, (r->0).out, (w1->0).0.out);
                }
            }
        }
    }
}

proof fn lemma_send_here(
    e: Env,
    cx: CtxView,
    mth: Method,
    this: VReg,
    klass: Option<KlassOop>,
    slots: Seq<VReg>,
    wr: Set<VReg>,
    proto: InlineView,
    bci: int,
    s: St,
    f: Frame,
    m: Mach,
)
    requires
        0 <= bci < mth.code@.len(),
        mth.code@[bci] is Some,
        mth.instr_at(bci) is Send,
        ({
            let site = mth.ics@[mth.instr_at(bci)->Send_ic as int];
            block_send(cx, site, this, klass, bci as usize, proto, s) matches Some((t, _)) && sees(
                e,
                cx.vm,
                t.out,
            )
        }),
        block_ready(e, cx, mth, slots, wr),
        standing(s, this, slots, wr, f, e.w, m),
    ensures
        ({
            let site = mth.ics@[mth.instr_at(bci)->Send_ic as int];
            &&& body_step(
                e,
                s,
                block_send(cx, site, this, klass, bci as usize, proto, s),
                bci as usize,
                Some(proto),
                this,
                slots,
                wr,
                f,
                answered(e.w, site, f),
                m,
            )
            &&& does(e.w, cx.vm, mth, mth.instr_at(bci), f) == Some(answered(e.w, site, f))
        }),
{
    let ic = mth.instr_at(bci)->Send_ic;
    let site = mth.ics@[ic as int];
    assert(mth.instr_wf(mth.instr_at(bci)));
    assert(site_honest(e.w, cx.vm, mth.ics@[ic as int]));
    crate::faithful_bodies::lemma_depth_needed(
        cx,
        mth,
        site,
        this,
        klass,
        bci as usize,
        proto,
        s,
    );
    crate::faithful_bodies::lemma_block_send(
        e,
        cx,
        site,
        this,
        klass,
        bci as usize,
        proto,
        slots,
        wr,
        s,
        f,
        m,
    );
    assert(values(m.regs, s.seg.stack).len() == s.depth());
}

proof fn lemma_returned(
    e: Env,
    vm: VmState,
    mth: Method,
    bci: int,
    f: Frame,
    s: St,
    t: St,
    v: Option<VReg>,
    proto: InlineView,
    this: VReg,
    slots: Seq<VReg>,
    wr: Set<VReg>,
    m: Mach,
)
    requires
        (v matches Some(r) && t.seg.code == s.seg.code && block_answer(e.w, vm, mth, bci, f)
            == Some((false, (m.regs)(r), m.mem))) || (v is None && exists|q: VReg| #[trigger]
            s.seg.code.push(Ir::Ret { val: q }) == t.seg.code && block_answer(e.w, vm, mth, bci, f)
                == Some((true, (m.regs)(q), m.mem))),
    ensures
        block_ends(e, vm, mth, bci, f, s, t, v, proto, this, slots, wr, m),
{
    reveal(block_ends);
    let from = s.seg.code.len() as int;
    if v is Some {
        assert(ran(e, t.seg.code, from, m) == Flow::On(m));
    } else {
        let q = choose|q: VReg| #[trigger]
            s.seg.code.push(Ir::Ret { val: q }) == t.seg.code && block_answer(e.w, vm, mth, bci, f)
                == Some((true, (m.regs)(q), m.mem));
        let op: IrView = Ir::Ret { val: q };
        assert(ran(e, s.seg.code.push(op), from, m) == exec(e, op, m));
    }
}

proof fn lemma_left(
    e: Env,
    vm: VmState,
    mth: Method,
    bci: int,
    f: Frame,
    s: St,
    t: St,
    v: Option<VReg>,
    proto: InlineView,
    this: VReg,
    slots: Seq<VReg>,
    wr: Set<VReg>,
    m: Mach,
)
    requires
        v is None,
        0 <= bci <= usize::MAX,
        leaves_here(e, s, t, bci as usize, Some(proto), this, slots, f, m),
    ensures
        block_ends(e, vm, mth, bci, f, s, t, v, proto, this, slots, wr, m),
{
    reveal(block_ends);
    let b1 = bci as usize;
    let from = s.seg.code.len() as int;
    assert(comes_to(e.w, vm, mth, bci, f, b1 as int, f));
    assert(t.seg.code.len() - 1 == from);
    assert(exists|b1: usize, f1: Frame|
        comes_to(e.w, vm, mth, bci, f, b1 as int, f1) && t.seg.deopt.len() > 0
            && t.seg.deopt.last().0 == (t.seg.code.len() - 1) as u32 && #[trigger] resumes(
            t.seg.deopt.last().1,
            b1,
            Some(proto),
            m,
            this,
            slots,
            f1,
        )) by {
        assert(resumes(t.seg.deopt.last().1, b1, Some(proto), m, this, slots, f));
    }
}

proof fn lemma_again(
    e: Env,
    vm: VmState,
    mth: Method,
    bci: int,
    f: Frame,
    s: St,
    s1: St,
    t: St,
    v: Option<VReg>,
    proto: InlineView,
    this: VReg,
    slots: Seq<VReg>,
    wr: Set<VReg>,
    m: Mach,
)
    requires
        0 <= bci <= usize::MAX,
        extends(s.seg.code, s1.seg.code),
        extends(s1.seg.code, t.seg.code),
        grown(s1.out, t.out),
        ran(e, s1.seg.code, s.seg.code.len() as int, m) matches Flow::To(b, m1) && runs_again(
            s1.out.blocks,
            s.out.blocks.len(),
            b,
            bci as usize,
            Some(proto),
            m1,
            this,
            slots,
            f,
        ) && kept(m, m1, s.out.vregs.len(), wr),
    ensures
        block_ends(e, vm, mth, bci, f, s, t, v, proto, this, slots, wr, m),
{
    reveal(block_ends);
    let b1 = bci as usize;
    assert(comes_to(e.w, vm, mth, bci, f, b1 as int, f));
    lemma_ran_more(e, s1.seg.code, t.seg.code, s.seg.code.len() as int, m);
    if let Flow::To(b, m1) = ran(e, s1.seg.code, s.seg.code.len() as int, m) {
        assert(t.out.blocks[b.0 as int] == s1.out.blocks[b.0 as int]);
        assert(runs_again(
            t.out.blocks,
            s.out.blocks.len(),
            b,
            b1,
            Some(proto),
            m1,
            this,
            slots,
            f,
        ));
    }
}

proof fn lemma_ends_later(
    e: Env,
    vm: VmState,
    mth: Method,
    bci: int,
    f: Frame,
    g: Frame,
    s: St,
    s1: St,
    t: St,
    v: Option<VReg>,
    proto: InlineView,
    this: VReg,
    slots: Seq<VReg>,
    wr: Set<VReg>,
    m: Mach,
    m1: Mach,
)
    requires
        0 <= bci < mth.code@.len(),
        bci < mth.next_at(bci) <= mth.code@.len(),
        ({
            let i = mth.instr_at(bci);
            !(i is ReturnTos || i is ReturnSelf || i is BlockReturnTos || i is NlrTos)
        }),
        does(e.w, vm, mth, mth.instr_at(bci), f) == Some(g),
        block_ends(e, vm, mth, mth.next_at(bci), g, s1, t, v, proto, this, slots, wr, m1),
        ran(e, t.seg.code, s.seg.code.len() as int, m) == ran(
            e,
            t.seg.code,
            s1.seg.code.len() as int,
            m1,
        ),
        kept(m, m1, s.out.vregs.len(), wr),
        s.out.vregs.len() <= s1.out.vregs.len(),
        s.out.blocks.len() <= s1.out.blocks.len(),
    ensures
        block_ends(e, vm, mth, bci, f, s, t, v, proto, this, slots, wr, m),
{
    reveal(block_ends);
    let next = mth.next_at(bci);
    assert(block_answer(e.w, vm, mth, bci, f) == block_answer(e.w, vm, mth, next, g));
    assert forall|b1: int, f1: Frame| comes_to(e.w, vm, mth, next, g, b1, f1) implies #[trigger] comes_to(
        e.w,
        vm,
        mth,
        bci,
        f,
        b1,
        f1,
    ) by {}
    match ran(e, t.seg.code, s.seg.code.len() as int, m) {
        Flow::To(b, m2) => {
            let (b1, f1) = choose|b1: usize, f1: Frame|
                comes_to(e.w, vm, mth, next, g, b1 as int, f1) && #[trigger] runs_again(
                    t.out.blocks,
                    s1.out.blocks.len(),
                    b,
                    b1,
                    Some(proto),
                    m2,
                    this,
                    slots,
                    f1,
                );
            assert(comes_to(e.w, vm, mth, bci, f, b1 as int, f1));
            assert(runs_again(
                t.out.blocks,
                s.out.blocks.len(),
                b,
                b1,
                Some(proto),
                m2,
                this,
                slots,
                f1,
            ));
        },
        Flow::Leave(m2) => {
            let (b1, f1) = choose|b1: usize, f1: Frame|
                comes_to(e.w, vm, mth, next, g, b1 as int, f1) && t.seg.deopt.len() > 0
                    && t.seg.deopt.last().0 == (t.seg.code.len() - 1) as u32 && #[trigger] resumes(
                    t.seg.deopt.last().1,
                    b1,
                    Some(proto),
                    m2,
                    this,
                    slots,
                    f1,
                );
            assert(comes_to(e.w, vm, mth, bci, f, b1 as int, f1));
        },
        _ => {},
    }
}

/// A spliced straight-line block answers what interpreting it answers: the value that it returns goes
/// on in the method, and a non-local return returns that value from the method.
pub proof fn law_spliced_blocks_answer(
    e: Env,
    cx: CtxView,
    mth: Method,
    this: VReg,
    klass: Option<KlassOop>,
    slots: Seq<VReg>,
    wr: Set<VReg>,
    proto: InlineView,
    bci: int,
    s: St,
    f: Frame,
    m: Mach,
)
    requires
        block_walk(cx, mth, this, klass, slots, proto, bci, s) matches Some((t, v)) && sees(
            e,
            cx.vm,
            t.out,
        ) && t.out.blocks.len() < u32::MAX && t.seg.code.len() <= u32::MAX,
        block_ready(e, cx, mth, slots, wr),
        mth.boundary(bci),
        standing(s, this, slots, wr, f, e.w, m),
    ensures
        ({
            let (t, v) = block_walk(cx, mth, this, klass, slots, proto, bci, s)->0;
            block_ends(e, cx.vm, mth, bci, f, s, t, v, proto, this, slots, wr, m)
        }),
    decreases mth.code@.len() - bci,
{
    let vm = cx.vm;
    let w = block_walk(cx, mth, this, klass, slots, proto, bci, s);
    let (t, v) = w->0;
    let i = mth.instr_at(bci);
    let next = mth.next_at(bci);
    let from = s.seg.code.len() as int;
    assert(mth.code@[bci] is Some);
    assert(writable(mth.instr_at(bci), slots, wr));
    if i is ReturnTos || i is BlockReturnTos || i is NlrTos {
        let n = s.depth();
        assert(values(m.regs, s.seg.stack)[n - 1] == (m.regs)(s.seg.stack[n - 1]));
        if i is NlrTos {
            assert(s.seg.code.push(Ir::Ret { val: s.top(0) }) == t.seg.code);
        }
        lemma_returned(e, vm, mth, bci, f, s, t, v, proto, this, slots, wr, m);
    } else if i is ReturnSelf {
        lemma_returned(e, vm, mth, bci, f, s, t, v, proto, this, slots, wr, m);
    } else if let Instr::Send { ic, super_ } = i {
        let site = mth.ics@[ic as int];
        let r = block_send(cx, site, this, klass, bci as usize, proto, s);
        let s1 = (r->0).0;
        lemma_nonleaf_grows(cx, mth, site, this, klass, bci as usize, proto, s);
        lemma_walk_grows(cx, mth, this, klass, slots, proto, next, s1);
        lemma_sees_less(e, vm, s1.out, t.out);
        lemma_send_here(e, cx, mth, this, klass, slots, wr, proto, bci, s, f, m);
        let g = answered(e.w, site, f);
        if (r->0).1 {
            lemma_left(e, vm, mth, bci, f, s, t, v, proto, this, slots, wr, m);
        } else {
            lemma_ran_more(e, s1.seg.code, t.seg.code, from, m);
            match ran(e, s1.seg.code, from, m) {
                Flow::On(m1) => {
                    lemma_tail(e, s, s1, m, m1);
                    law_spliced_blocks_answer(
                        e,
                        cx,
                        mth,
                        this,
                        klass,
                        slots,
                        wr,
                        proto,
                        next,
                        s1,
                        g,
                        m1,
                    );
                    lemma_ends_later(
                        e,
                        vm,
                        mth,
                        bci,
                        f,
                        g,
                        s,
                        s1,
                        t,
                        v,
                        proto,
                        this,
                        slots,
                        wr,
                        m,
                        m1,
                    );
                },
                Flow::To(b, m1) => {
                    lemma_again(
                        e,
                        vm,
                        mth,
                        bci,
                        f,
                        s,
                        s1,
                        t,
                        v,
                        proto,
                        this,
                        slots,
                        wr,
                        m,
                    );
                },
                _ => {},
            }
        }
    } else {
        lemma_simple_grows(vm, mth, i, this, slots, false, s);
        let s1 = simple(vm, mth, i, this, slots, false, s)->0;
        lemma_walk_grows(cx, mth, this, klass, slots, proto, next, s1);
        lemma_sees_less(e, vm, s1.out, t.out);
        law_moves_mean_what_they_say(e, vm, mth, i, this, slots, wr, false, s, f, m);
        let m1 = ran(e, s1.seg.code, from, m)->On_0;
        let g = does(e.w, vm, mth, i, f)->0;
        lemma_tail(e, s, s1, m, m1);
        lemma_ran_more(e, s1.seg.code, t.seg.code, from, m);
        law_spliced_blocks_answer(e, cx, mth, this, klass, slots, wr, proto, next, s1, g, m1);
        lemma_ends_later(e, vm, mth, bci, f, g, s, s1, t, v, proto, this, slots, wr, m, m1);
    }
}

/// A compiled block starts with its activation in place: the receiver and the context come out of the
/// closure that it was called on, where making the closure puts them; arguments are what it
/// was called with, and temporaries are `nil`.
pub proof fn law_blocks_start_activated(e: Env, cx: CtxView, m: Method, lits: Lits, s: St, mach: Mach)
    requires
        m.is_block,
        cx.self_vreg == VReg(0),
        cx.temp_vregs == slot_regs(m),
        cx.block_ctx_vreg == block_ctx_reg(m),
        m.argc < 255,
        e.params.len() == m.argc + 1,
        e.pool[lits.nil.0 as int].value == cx.vm.universe.nil_obj,
        s.seg.stack.len() == 0,
    ensures
        ({
            let t = block_prologue(cx, m, lits, s);
            let closure = e.params[0];
            &&& extends(s.seg.code, t.seg.code)
            &&& ran(e, t.seg.code, s.seg.code.len() as int, mach) matches Flow::On(m1) && {
                &&& m1.mem == mach.mem
                &&& (m1.regs)(closure_reg(m)->0) == closure
                &&& (m1.regs)(cx.self_vreg) == (e.w.field)(mach.mem, closure, word_at(5))
                &&& cx.block_ctx_vreg matches Some(c) ==> (m1.regs)(c) == (e.w.field)(
                    mach.mem,
                    closure,
                    word_at(6),
                )
                &&& forall|i: int|
                    0 <= i < m.nslots() ==> (m1.regs)(#[trigger] cx.temp_vregs[i]) == (if i
                        < m.argc {
                        e.params[1 + i]
                    } else {
                        (e.w.word)(cx.vm.universe.nil_obj)
                    })
            }
        }),
{
    let t = block_prologue(cx, m, lits, s);
    let from = s.seg.code.len() as int;
    let regs = cx.temp_vregs;
    let n = m.argc as nat;
    let temps = regs.skip(m.argc as int);
    let cr = closure_reg(m)->0;
    let o1: IrView = Ir::Param { dst: cr, index: 0 };
    let o2: IrView = Ir::LoadField { dst: VReg(0), obj: cr, byte_off: 40 };
    let c1 = s.seg.code.push(o1);
    let c2 = c1 + param_ops(regs, n);
    let c3 = c2.push(o2);
    let m1 = exec(e, o1, mach)->On_0;
    assert(ran(e, c1, from, mach) == Flow::On(m1));
    lemma_params(e, c1, regs, n, m1);
    let m2 = ran(e, c2, c1.len() as int, m1)->On_0;
    assert(extends(s.seg.code, c1));
    assert(extends(c1, c2));
    lemma_ran_more(e, c1, c2, from, mach);
    let m3 = exec(e, o2, m2)->On_0;
    assert(ran(e, c3, from, mach) == Flow::On(m3));
    let o3: IrView = Ir::LoadField { dst: cx.block_ctx_vreg->0, obj: cr, byte_off: 48 };
    let c4 = if cx.block_ctx_vreg is Some {
        c3.push(o3)
    } else {
        c3
    };
    let m4 = if cx.block_ctx_vreg is Some {
        exec(e, o3, m3)->On_0
    } else {
        m3
    };
    assert(ran(e, c4, from, mach) == Flow::On(m4));
    let c5 = c4 + nil_ops(temps, lits.nil);
    assert(t.seg.code == c5);
    lemma_nils(e, c4, temps, lits.nil, temps.len() as int, m4);
    assert(nil_ops(temps, lits.nil).take(temps.len() as int) =~= nil_ops(temps, lits.nil));
    assert(extends(c4, c5));
    lemma_ran_more(e, c4, c5, from, mach);
    let m5 = ran(e, c5, from, mach)->On_0;
    assert forall|i: int| 0 <= i < n implies regs[i] != cr by {}
    assert((m2.regs)(cr) == e.params[0]);
    assert(!temps.contains(cr)) by {
        if temps.contains(cr) {
            let i = choose|i: int| 0 <= i < temps.len() && temps[i] == cr;
        }
    }
    assert(!temps.contains(VReg(0))) by {
        if temps.contains(VReg(0)) {
            let i = choose|i: int| 0 <= i < temps.len() && temps[i] == VReg(0);
        }
    }
    if let Some(c) = cx.block_ctx_vreg {
        assert(!temps.contains(c)) by {
            if temps.contains(c) {
                let i = choose|i: int| 0 <= i < temps.len() && temps[i] == c;
            }
        }
    }
    assert forall|i: int| 0 <= i < m.nslots() implies (m5.regs)(#[trigger] cx.temp_vregs[i]) == (
    if i < m.argc {
        e.params[1 + i]
    } else {
        (e.w.word)(cx.vm.universe.nil_obj)
    }) by {
        if i < m.argc {
            assert(!temps.contains(regs[i])) by {
                if temps.contains(regs[i]) {
                    let j = choose|j: int| 0 <= j < temps.len() && temps[j] == regs[i];
                }
            }
            assert((m4.regs)(regs[i]) == (m2.regs)(regs[i]));
        } else {
            assert(temps[i - m.argc] == regs[i]);
        }
    }
}

} // verus!

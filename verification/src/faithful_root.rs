//! The rest of an activation: how it starts, its captured variables and closures, and how it ends.

use vstd::prelude::*;
use crate::convert::{ctx_regs, method_prologue, nil_ops, param_ops, slot_regs, Lits};
use crate::faithful::{holds, kept, lemma_lit, sees};
use crate::faithful_sends::standing;
use crate::graft::{graft_instr, ExtentView};
use crate::instr::{alloc_closure, capture_stores, init_store, value_instr};
use crate::ir::{Ir, IrView, PoolLit, VReg};
use crate::machine::{exec, extends, lemma_ran_more, ran, Env, Flow, Mach, World};
use crate::meaning::{activation, variable, word_at, Frame};
use crate::ops::{ctx_push, ctx_store};
use crate::translator::{pool_oop, CtxView, St};
use crate::values::values;
use crate::world::{Instr, Method};

verus! {

broadcast use crate::machine::group_runs;

/// Returning answers what the bytecode returns: the top of the stack, or the receiver. A non-local
/// return hands the top of the stack to the home of the block.
pub proof fn law_returns_answer(
    e: Env,
    cx: CtxView,
    i: Instr,
    fusable: bool,
    bci: usize,
    s: St,
    sites: Seq<Option<usize>>,
    slots: Seq<VReg>,
    wr: Set<VReg>,
    f: Frame,
    m: Mach,
)
    requires
        standing(s, cx.self_vreg, slots, wr, f, e.w, m),
        cx.self_vreg == VReg(0),
        value_instr(cx, i, fusable, bci, s, sites) is Some,
    ensures
        ({
            let (t, end) = value_instr(cx, i, fusable, bci, s, sites)->0;
            let flow = ran(e, t.seg.code, s.seg.code.len() as int, m);
            &&& i is ReturnTos || i is BlockReturnTos ==> flow == Flow::Answer(f.stack.last(), m)
            &&& i is ReturnSelf ==> flow == Flow::Answer(f.me, m)
            &&& i is NlrTos ==> (cx.block_closure_vreg matches Some(c) && flow == Flow::Home(
                (m.regs)(c),
                f.stack.last(),
                m,
            ))
        }),
{
    let (t, end) = value_instr(cx, i, fusable, bci, s, sites)->0;
    let from = s.seg.code.len() as int;
    if i is ReturnTos || i is BlockReturnTos || i is NlrTos || i is ReturnSelf {
        let op = t.seg.code.last();
        assert(t.seg.code == s.seg.code.push(op));
        assert(ran(e, s.seg.code.push(op), from, m) == exec(e, op, m));
        if s.depth() > 0 {
            assert(values(m.regs, s.seg.stack)[s.depth() - 1] == (m.regs)(s.top(0)));
        }
    }
}

/// Inside a spliced extent, returning puts the value in the register of the result and goes on behind
/// the extent; a non-local return out of a spliced block returns from the method itself.
pub proof fn law_spliced_returns_answer(
    e: Env,
    cx: CtxView,
    x: ExtentView,
    i: Instr,
    s: St,
    wr: Set<VReg>,
    f: Frame,
    m: Mach,
)
    requires
        standing(s, x.this, x.slots, wr, f, e.w, m),
        graft_instr(cx, x, i, s) is Some,
    ensures
        ({
            let (t, returned) = graft_instr(cx, x, i, s)->0;
            let flow = ran(e, t.seg.code, s.seg.code.len() as int, m);
            &&& i is ReturnTos || i is BlockReturnTos || i is ReturnSelf ==> returned && (
            flow matches Flow::To(b, m1) && b == x.cont && m1.mem == f.mem && (m1.regs)(x.result)
                == (if i is ReturnSelf {
                f.me
            } else {
                f.stack.last()
            }) && forall|v: VReg| v != x.result ==> #[trigger] (m1.regs)(v) == (m.regs)(v))
            &&& i is NlrTos ==> returned && flow == Flow::Answer(f.stack.last(), m)
        }),
{
    let (t, returned) = graft_instr(cx, x, i, s)->0;
    let from = s.seg.code.len() as int;
    if s.depth() > 0 {
        assert(values(m.regs, s.seg.stack)[s.depth() - 1] == (m.regs)(s.top(0)));
    }
    if i is ReturnTos || i is BlockReturnTos || i is ReturnSelf {
        let v = if i is ReturnSelf {
            x.this
        } else {
            s.top(0)
        };
        let o1: IrView = Ir::Move { dst: x.result, src: v };
        let o2: IrView = Ir::Jump { target: x.cont };
        assert(t.seg.code == s.seg.code.push(o1).push(o2));
        assert(ran(e, s.seg.code.push(o1), from, m) == exec(e, o1, m));
        assert(ran(e, s.seg.code.push(o1).push(o2), from, m) == exec(
            e,
            o2,
            exec(e, o1, m)->On_0,
        ));
    } else if i is NlrTos {
        let op: IrView = Ir::Ret { val: s.top(0) };
        assert(t.seg.code == s.seg.code.push(op));
        assert(ran(e, s.seg.code.push(op), from, m) == exec(e, op, m));
    }
}

/// Where variable `idx` of a context lies: behind the header, the link to the outer context and the
/// size.
pub open spec fn context_variable(idx: int) -> int {
    word_at(2 + 2 + idx)
}

/// Captured variables are read from and written to the context that holds them, or, where the context
/// was never made, the register that stands for the variable.
pub proof fn law_captured_variables_are_found(
    e: Env,
    cx: CtxView,
    ctx: Option<VReg>,
    idx: u16,
    bci: usize,
    this: VReg,
    slots: Seq<VReg>,
    wr: Set<VReg>,
    s: St,
    f: Frame,
    m: Mach,
)
    requires
        standing(s, this, slots, wr, f, e.w, m),
        s.out.vregs.len() < 0x1_0000_0000,
        ctx is None ==> idx < cx.ctx_vregs.len() ==> !slots.contains(cx.ctx_vregs[idx as int])
            && cx.ctx_vregs[idx as int] != this && !s.seg.stack.contains(cx.ctx_vregs[idx as int]),
    ensures
        ctx_push(cx, ctx, idx, s) matches Some(t) ==> {
            let x = match ctx {
                Some(c) => (e.w.field)(f.mem, (m.regs)(c), context_variable(idx as int)),
                None => (m.regs)(cx.ctx_vregs[idx as int]),
            };
            ran(e, t.seg.code, s.seg.code.len() as int, m) matches Flow::On(m1) && holds(
                m1,
                t.seg.stack,
                this,
                slots,
                f.push(x),
            ) && kept(m, m1, s.out.vregs.len(), Set::empty())
        },
        ctx_store(cx, ctx, idx, s) matches Some(t) ==> (ran(
            e,
            t.seg.code,
            s.seg.code.len() as int,
            m,
        ) matches Flow::On(m1) && (match ctx {
            Some(c) => holds(
                m1,
                t.seg.stack,
                this,
                slots,
                f.with_mem(
                    (e.w.store)(
                        f.mem,
                        (m.regs)(c),
                        context_variable(idx as int),
                        f.stack.last(),
                    ),
                ).pop(1),
            ) && m1.regs == m.regs,
            None => holds(m1, t.seg.stack, this, slots, f.pop(1)) && (m1.regs)(
                cx.ctx_vregs[idx as int],
            ) == f.stack.last() && forall|v: VReg|
                v != cx.ctx_vregs[idx as int] ==> #[trigger] (m1.regs)(v) == (m.regs)(v),
        })),
{
    let from = s.seg.code.len() as int;
    if s.depth() > 0 {
        assert(values(m.regs, s.seg.stack)[s.depth() - 1] == (m.regs)(s.top(0)));
    }
    if let Some(t) = ctx_push(cx, ctx, idx, s) {
        let op = t.seg.code.last();
        assert(t.seg.code == s.seg.code.push(op));
        assert(ran(e, s.seg.code.push(op), from, m) == exec(e, op, m));
        let m1 = exec(e, op, m)->On_0;
        let x = match ctx {
            Some(c) => (e.w.field)(f.mem, (m.regs)(c), context_variable(idx as int)),
            None => (m.regs)(cx.ctx_vregs[idx as int]),
        };
        crate::faithful_sends::lemma_pushed(m, m1, s, t, this, slots, wr, f, f.push(x), 0);
    }
    if let Some(t) = ctx_store(cx, ctx, idx, s) {
        let op = t.seg.code.last();
        assert(t.seg.code == s.seg.code.push(op));
        assert(ran(e, s.seg.code.push(op), from, m) == exec(e, op, m));
        let m1 = exec(e, op, m)->On_0;
        assert(values(m1.regs, t.seg.stack) =~= f.stack.subrange(0, f.stack.len() - 1)) by {
            assert forall|i: int| 0 <= i < t.depth() implies (m1.regs)(#[trigger] t.seg.stack[i])
                == f.stack[i] by {
                assert(t.seg.stack[i] == s.seg.stack[i]);
                assert(s.seg.stack.contains(s.seg.stack[i]));
                assert(values(m.regs, s.seg.stack)[i] == (m.regs)(s.seg.stack[i]));
            }
        }
        assert(values(m1.regs, slots) =~= f.slots) by {
            assert forall|i: int| 0 <= i < slots.len() implies (m1.regs)(#[trigger] slots[i])
                == f.slots[i] by {
                assert(slots.contains(slots[i]));
                assert(values(m.regs, slots)[i] == (m.regs)(slots[i]));
            }
        }
    }
}

/// Fields are what was stored to them last.
pub open spec fn fields_hold(w: World) -> bool {
    forall|mem: int, o: int, off: int, x: int, p: int, at: int|
        #[trigger] (w.field)((w.store)(mem, o, off, x), p, at) == (if p == o && at == off {
            x
        } else {
            (w.field)(mem, p, at)
        })
}

/// Operations appended one after the other, each of which goes on.
proof fn lemma_captures(
    e: Env,
    code: Seq<IrView>,
    d: VReg,
    base: int,
    vals: Seq<VReg>,
    k: int,
    m: Mach,
)
    requires
        fields_hold(e.w),
        0 <= k <= vals.len(),
        0 <= base,
        40 + 8 * (base + vals.len()) <= i32::MAX,
    ensures
        ({
            let c = code + capture_stores(d, base, vals).take(k);
            ran(e, c, code.len() as int, m) matches Flow::On(m1) && m1.regs == m.regs && (forall|i: int|
                0 <= i < k ==> (e.w.field)(m1.mem, (m.regs)(d), #[trigger] word_at(5 + base + i)) == (
                m.regs)(vals[i])) && forall|o: int, at: int|
                !(o == (m.regs)(d) && word_at(5 + base) <= at < word_at(5 + base + k))
                    ==> #[trigger] (e.w.field)(m1.mem, o, at) == (e.w.field)(m.mem, o, at)
        }),
    decreases k,
{
    let all = capture_stores(d, base, vals);
    let c = code + all.take(k);
    if k == 0 {
        assert(c =~= code);
    } else {
        lemma_captures(e, code, d, base, vals, k - 1, m);
        let c0 = code + all.take(k - 1);
        let op = init_store(d, 40 + 8 * (base + (k - 1)), vals[k - 1]);
        assert(all[k - 1] == op);
        assert(c =~= c0.push(op));
        let from = code.len() as int;
        let m0 = ran(e, c0, from, m)->On_0;
        assert(ran(e, c0.push(op), from, m) == exec(e, op, m0));
        let m1 = exec(e, op, m0)->On_0;
        assert(m1.mem == (e.w.store)(
            m0.mem,
            (m.regs)(d),
            word_at(5 + base + (k - 1)),
            (m.regs)(vals[k - 1]),
        ));
        assert forall|i: int| 0 <= i < k implies (e.w.field)(
            m1.mem,
            (m.regs)(d),
            #[trigger] word_at(5 + base + i),
        ) == (m.regs)(vals[i]) by {
            if i < k - 1 {
                assert((e.w.field)(m0.mem, (m.regs)(d), word_at(5 + base + i)) == (m.regs)(vals[i]));
            }
        }
    }
}

/// What a closure object holds: its body, a home that is known to be gone where the closure
/// escapes, its size, and then the receiver, the context where the body reaches into one, and the
/// captured values in the order in which they were pushed.
pub open spec fn is_closure(
    w: World,
    mem: int,
    c: int,
    body: int,
    home: int,
    me: int,
    ctx: Option<int>,
    captured: Seq<int>,
) -> bool {
    let first: int = if ctx is Some {
        2
    } else {
        1
    };
    &&& (w.field)(mem, c, word_at(2)) == body
    &&& (w.field)(mem, c, word_at(3)) == home
    &&& (w.field)(mem, c, word_at(4)) == (w.small)(first + captured.len())
    &&& (w.field)(mem, c, word_at(5)) == me
    &&& ctx matches Some(x) ==> (w.field)(mem, c, word_at(6)) == x
    &&& forall|i: int|
        0 <= i < captured.len() ==> (w.field)(mem, c, #[trigger] word_at(5 + first + i))
            == captured[i]
}

/// A closure that escapes is made with everything that its body needs, in place of the captured
/// values.
pub proof fn law_closures_hold_what_they_capture(
    e: Env,
    cx: CtxView,
    lit: u16,
    ncopied: u8,
    bci: usize,
    slots: Seq<VReg>,
    wr: Set<VReg>,
    s: St,
    f: Frame,
    m: Mach,
)
    requires
        fields_hold(e.w),
        standing(s, cx.self_vreg, slots, wr, f, e.w, m),
        cx.method_ctx_vreg matches Some(c) ==> c.0 < s.out.vregs.len(),
        alloc_closure(cx, lit, ncopied, bci, s) matches Some(t) && sees(e, cx.vm, t.out),
    ensures
        ({
            let t = alloc_closure(cx, lit, ncopied, bci, s)->0;
            let b = cx.vm.m(cx.vm.m(cx.method).literals@[lit as int].method->0);
            let n = f.stack.len() as int;
            let first: int = if b.captures_ctx {
                2
            } else {
                1
            };
            let (c, fresh_mem) = (e.w.alloc)(
                f.mem,
                cx.vm.universe.closure_klass,
                5 + first + ncopied,
            );
            &&& n >= ncopied
            &&& extends(s.seg.code, t.seg.code)
            &&& ran(e, t.seg.code, s.seg.code.len() as int, m) matches Flow::On(m1) && {
                &&& holds(
                    m1,
                    t.seg.stack,
                    cx.self_vreg,
                    slots,
                    f.with_mem(m1.mem).pop(ncopied as int).push(c),
                )
                &&& kept(m, m1, s.out.vregs.len(), Set::empty())
                &&& is_closure(
                    e.w,
                    m1.mem,
                    c,
                    (e.w.word)(b.oop),
                    (e.w.small)(cx.vm.universe.home_dead_sentinel as int),
                    f.me,
                    if b.captures_ctx {
                        Some((m.regs)(cx.method_ctx_vreg->0))
                    } else {
                        None
                    },
                    f.stack.subrange(n - ncopied, n),
                )
                &&& forall|o: int, at: int|
                    o != c ==> #[trigger] (e.w.field)(m1.mem, o, at) == (e.w.field)(
                        fresh_mem,
                        o,
                        at,
                    )
            }
        }),
{
    let w = e.w;
    let vm = cx.vm;
    let u = vm.universe;
    let t = alloc_closure(cx, lit, ncopied, bci, s)->0;
    let blk = vm.m(cx.method).literals@[lit as int].method->0;
    let b = vm.m(blk);
    assert(values(m.regs, s.seg.stack).len() == s.depth());
    let n = s.depth() as int;
    let base = n - ncopied;
    let first: int = if b.captures_ctx {
        2
    } else {
        1
    };
    let total = first + ncopied;
    let x = pool_oop(u.closure_klass.0);
    let d = s.reg();
    let from = s.seg.code.len() as int;
    let r1 = VReg((s.out.vregs.len() + 1) as u32);
    let r2 = VReg((s.out.vregs.len() + 2) as u32);
    let r3 = VReg((s.out.vregs.len() + 3) as u32);
    let o1 = s.out.intern(x).fresh(true);
    lemma_lit(e, vm, s.out, t.out, x);
    lemma_lit(e, vm, o1, t.out, pool_oop(b.oop));
    let a1: IrView = Ir::Alloc { dst: d, klass: s.lit(x), size_words: (5 + total) as u32 };
    let a2: IrView = Ir::ConstPool { dst: r1, lit: o1.lit(pool_oop(b.oop)) };
    let a3 = init_store(d, 16, r1);
    let a4: IrView = Ir::ConstSmi { dst: r2, value: u.home_dead_sentinel };
    let a5 = init_store(d, 24, r2);
    let a6: IrView = Ir::ConstSmi { dst: r3, value: total as i64 };
    let a7 = init_store(d, 32, r3);
    let a8 = init_store(d, 40, cx.self_vreg);
    let c1 = s.seg.code.push(a1);
    let c2 = c1.push(a2);
    let c3 = c2.push(a3);
    let c4 = c3.push(a4);
    let c5 = c4.push(a5);
    let c6 = c5.push(a6);
    let c7 = c6.push(a7);
    let c8 = c7.push(a8);
    let m1 = exec(e, a1, m)->On_0;
    let m2 = exec(e, a2, m1)->On_0;
    let m3 = exec(e, a3, m2)->On_0;
    let m4 = exec(e, a4, m3)->On_0;
    let m5 = exec(e, a5, m4)->On_0;
    let m6 = exec(e, a6, m5)->On_0;
    let m7 = exec(e, a7, m6)->On_0;
    let m8 = exec(e, a8, m7)->On_0;
    assert(ran(e, c1, from, m) == Flow::On(m1));
    assert(ran(e, c2, from, m) == Flow::On(m2));
    assert(ran(e, c3, from, m) == Flow::On(m3));
    assert(ran(e, c4, from, m) == Flow::On(m4));
    assert(ran(e, c5, from, m) == Flow::On(m5));
    assert(ran(e, c6, from, m) == Flow::On(m6));
    assert(ran(e, c7, from, m) == Flow::On(m7));
    assert(ran(e, c8, from, m) == Flow::On(m8));
    let (c, fresh_mem) = (w.alloc)(m.mem, u.closure_klass, 5 + total);
    assert((m8.regs)(d) == c);
    assert forall|v: VReg| v.0 < s.out.vregs.len() implies #[trigger] (m8.regs)(v) == (m.regs)(v) by {}
    let ctx = cx.method_ctx_vreg->0;
    let a9 = init_store(d, 48, ctx);
    let c9 = if b.captures_ctx {
        c8.push(a9)
    } else {
        c8
    };
    let m9 = if b.captures_ctx {
        exec(e, a9, m8)->On_0
    } else {
        m8
    };
    assert(ran(e, c9, from, m) == Flow::On(m9));
    assert(m9.regs == m8.regs);
    let vals = s.seg.stack.subrange(base, n);
    assert(t.seg.code == c9 + capture_stores(d, first, vals));
    lemma_captures(e, c9, d, first, vals, ncopied as int, m9);
    assert(capture_stores(d, first, vals).take(ncopied as int) =~= capture_stores(d, first, vals));
    assert(extends(s.seg.code, c9));
    assert(extends(c9, t.seg.code));
    lemma_ran_more(e, c9, t.seg.code, from, m);
    let mz = ran(e, t.seg.code, from, m)->On_0;
    let g = f.with_mem(mz.mem).pop(ncopied as int).push(c);
    crate::faithful_sends::lemma_pushed(
        m,
        mz,
        s,
        t,
        cx.self_vreg,
        slots,
        wr,
        f,
        g,
        ncopied as int,
    );
    let captured = f.stack.subrange(n - ncopied, n);
    assert forall|i: int| 0 <= i < captured.len() implies (w.field)(
        mz.mem,
        c,
        #[trigger] word_at(5 + first + i),
    ) == captured[i] by {
        assert(vals[i] == s.seg.stack[base + i]);
        assert(s.seg.stack[base + i].0 < s.out.vregs.len());
        assert(values(m.regs, s.seg.stack)[base + i] == (m.regs)(s.seg.stack[base + i]));
    }
}

/// Operations that load the parameters.
pub(crate) proof fn lemma_params(e: Env, code: Seq<IrView>, regs: Seq<VReg>, k: nat, m: Mach)
    requires
        k <= regs.len(),
        k < 255,
        regs.no_duplicates(),
    ensures
        ran(e, code + param_ops(regs, k), code.len() as int, m) matches Flow::On(m1) && m1.mem
            == m.mem && (forall|i: int|
            0 <= i < k ==> (m1.regs)(#[trigger] regs[i]) == e.params[1 + i]) && forall|v: VReg|
            (forall|i: int| 0 <= i < k ==> regs[i] != v) ==> #[trigger] (m1.regs)(v) == (m.regs)(v),
    decreases k,
{
    let from = code.len() as int;
    if k == 0 {
        assert(code + param_ops(regs, 0) =~= code);
    } else {
        let j = (k - 1) as nat;
        lemma_params(e, code, regs, j, m);
        let op: IrView = Ir::Param { dst: regs[k - 1], index: k as u8 };
        assert(code + param_ops(regs, k) =~= (code + param_ops(regs, j)).push(op));
        let m0 = ran(e, code + param_ops(regs, j), from, m)->On_0;
        assert(ran(e, (code + param_ops(regs, j)).push(op), from, m) == exec(e, op, m0));
    }
}

/// Operations that load `nil`.
pub(crate) proof fn lemma_nils(e: Env, code: Seq<IrView>, regs: Seq<VReg>, lit: PoolLit, k: int, m: Mach)
    requires
        0 <= k <= regs.len(),
    ensures
        ran(e, code + nil_ops(regs, lit).take(k), code.len() as int, m) matches Flow::On(m1)
            && m1.mem == m.mem && (forall|i: int|
            0 <= i < k ==> (m1.regs)(#[trigger] regs[i]) == (e.w.word)(
                e.pool[lit.0 as int].value,
            )) && forall|v: VReg| !regs.contains(v) ==> #[trigger] (m1.regs)(v) == (m.regs)(v),
    decreases k,
{
    let from = code.len() as int;
    let all = nil_ops(regs, lit);
    if k == 0 {
        assert(code + all.take(0) =~= code);
    } else {
        lemma_nils(e, code, regs, lit, k - 1, m);
        let op: IrView = Ir::ConstPool { dst: regs[k - 1], lit };
        let c0 = code + all.take(k - 1);
        assert(code + all.take(k) =~= c0.push(op));
        let m0 = ran(e, c0, from, m)->On_0;
        assert(ran(e, c0.push(op), from, m) == exec(e, op, m0));
        assert(regs.contains(regs[k - 1]));
    }
}

/// A method without a context of its own starts with its activation in place: the receiver and the
/// arguments are what it was called with, and temporaries and captured variables are `nil`.
pub proof fn law_methods_start_activated(
    e: Env,
    cx: CtxView,
    m: Method,
    lits: Lits,
    s: St,
    mach: Mach,
)
    requires
        !m.is_block,
        cx.self_vreg == VReg(0),
        cx.temp_vregs == slot_regs(m),
        cx.ctx_vregs == ctx_regs(m),
        cx.method_ctx_vreg is None,
        m.argc < 255,
        e.params.len() == m.argc + 1,
        e.pool[lits.nil.0 as int].value == cx.vm.universe.nil_obj,
        s.seg.stack.len() == 0,
    ensures
        ({
            let t = method_prologue(cx, m, lits, s);
            &&& extends(s.seg.code, t.seg.code)
            &&& ran(e, t.seg.code, s.seg.code.len() as int, mach) matches Flow::On(m1) && holds(
                m1,
                t.seg.stack,
                cx.self_vreg,
                cx.temp_vregs,
                activation(e.w, cx.vm, m, e.params, mach.mem),
            ) && forall|i: int|
                0 <= i < cx.ctx_vregs.len() ==> (m1.regs)(#[trigger] cx.ctx_vregs[i]) == (e.w.word)(
                    cx.vm.universe.nil_obj,
                )
        }),
{
    let t = method_prologue(cx, m, lits, s);
    let from = s.seg.code.len() as int;
    let regs = cx.temp_vregs;
    let temps = regs.skip(m.argc as int);
    let nil = (e.w.word)(cx.vm.universe.nil_obj);
    let op: IrView = Ir::Param { dst: VReg(0), index: 0 };
    let c1 = s.seg.code.push(op);
    let c2 = c1 + param_ops(regs, m.argc as nat);
    let c3 = c2 + nil_ops(temps, lits.nil);
    let c4 = c3 + nil_ops(cx.ctx_vregs, lits.nil);
    assert(t.seg.code == c4);
    assert(ran(e, c1, from, mach) == exec(e, op, mach));
    let m1 = exec(e, op, mach)->On_0;
    lemma_params(e, c1, regs, m.argc as nat, m1);
    let m2 = ran(e, c2, c1.len() as int, m1)->On_0;
    lemma_nils(e, c2, temps, lits.nil, temps.len() as int, m2);
    assert(nil_ops(temps, lits.nil).take(temps.len() as int) =~= nil_ops(temps, lits.nil));
    let m3 = ran(e, c3, c2.len() as int, m2)->On_0;
    lemma_nils(e, c3, cx.ctx_vregs, lits.nil, cx.ctx_vregs.len() as int, m3);
    assert(nil_ops(cx.ctx_vregs, lits.nil).take(cx.ctx_vregs.len() as int) =~= nil_ops(
        cx.ctx_vregs,
        lits.nil,
    ));
    let m4 = ran(e, c4, c3.len() as int, m3)->On_0;
    assert(extends(s.seg.code, c1));
    assert(extends(c1, c2));
    assert(extends(c2, c3));
    assert(extends(c3, c4));
    lemma_ran_more(e, c1, c2, from, mach);
    lemma_ran_more(e, c2, c3, from, mach);
    lemma_ran_more(e, c3, c4, from, mach);
    let f = activation(e.w, cx.vm, m, e.params, mach.mem);
    assert forall|v: VReg| v.0 <= m.nslots() implies !cx.ctx_vregs.contains(v) by {
        if cx.ctx_vregs.contains(v) {
            let i = choose|i: int| 0 <= i < cx.ctx_vregs.len() && cx.ctx_vregs[i] == v;
        }
    }
    assert((m4.regs)(VReg(0)) == e.params[0]) by {
        assert(!cx.ctx_vregs.contains(VReg(0)));
        assert(!temps.contains(VReg(0)));
        assert((m3.regs)(VReg(0)) == (m2.regs)(VReg(0)));
        assert((m2.regs)(VReg(0)) == (m1.regs)(VReg(0)));
    }
    assert(values(m4.regs, regs) =~= f.slots) by {
        assert forall|i: int| 0 <= i < regs.len() implies (m4.regs)(#[trigger] regs[i])
            == f.slots[i] by {
            assert(!cx.ctx_vregs.contains(regs[i]));
            assert((m4.regs)(regs[i]) == (m3.regs)(regs[i]));
            if i < m.argc {
                assert(!temps.contains(regs[i]));
                assert((m3.regs)(regs[i]) == (m2.regs)(regs[i]));
                assert(f.slots[i] == e.params.skip(1)[i]);
            } else {
                assert(temps[i - m.argc] == regs[i]);
                assert((m3.regs)(temps[i - m.argc]) == nil);
            }
        }
    }
    assert(values(m4.regs, t.seg.stack) =~= f.stack);
}

} // verus!

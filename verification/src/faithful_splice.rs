//! Spliced bodies answer what the sends that they stand for answer.

use vstd::prelude::*;
use crate::faithful::{
    holds, kept, law_moves_mean_what_they_say, lemma_lit_here, placed, sees, writable,
};
use crate::faithful_sends::{answered, goes_to, standing};
use crate::ir::{GuardShape, Ir, IrView, PoolLit, VReg};
use crate::machine::{exec, extends, lemma_ran_more, ran, Env, Flow, Mach, World};
use crate::meaning::{activation, body_answer, does, honest, method_answer, send_runs, Frame};
use crate::ops::simple;
use crate::root::site_of;
use crate::splice::{
    body_slots, enter_body, guard_op, inline_leaf, leaf_walk, nil_temps, with_operands, SiteView,
};
use crate::translator::{pool_oop, trap_block, CtxView, OutView, St};
use crate::values::values;
use crate::world::{Instr, InterpreterIc, KlassOop, Method, MethodOop, VmState};

verus! {

broadcast use crate::machine::group_runs;

/// What was interned, recorded and finished stays as it is.
pub open spec fn grown(a: OutView, b: OutView) -> bool {
    &&& a.vregs.len() <= b.vregs.len()
    &&& a.pool.len() <= b.pool.len()
    &&& forall|k: int| 0 <= k < a.pool.len() ==> #[trigger] b.pool[k] == a.pool[k]
    &&& a.call_sites.len() <= b.call_sites.len()
    &&& forall|k: int| 0 <= k < a.call_sites.len() ==> #[trigger] b.call_sites[k] == a.call_sites[k]
    &&& a.blocks.len() <= b.blocks.len()
    &&& forall|k: int|
        0 <= k < a.blocks.len() && a.blocks[k] is Some ==> #[trigger] b.blocks[k] == a.blocks[k]
}

pub(crate) proof fn lemma_grown(a: OutView, b: OutView, c: OutView)
    requires
        grown(a, b),
        grown(b, c),
    ensures
        grown(a, c),
{
    assert forall|k: int| 0 <= k < a.pool.len() implies #[trigger] c.pool[k] == a.pool[k] by {
        assert(b.pool[k] == a.pool[k]);
    }
    assert forall|k: int| 0 <= k < a.call_sites.len() implies #[trigger] c.call_sites[k]
        == a.call_sites[k] by {
        assert(b.call_sites[k] == a.call_sites[k]);
    }
    assert forall|k: int|
        0 <= k < a.blocks.len() && a.blocks[k] is Some implies #[trigger] c.blocks[k]
        == a.blocks[k] by {
        assert(b.blocks[k] == a.blocks[k]);
    }
}

pub(crate) proof fn lemma_sees_less(e: Env, vm: VmState, a: OutView, b: OutView)
    requires
        grown(a, b),
        sees(e, vm, b),
    ensures
        sees(e, vm, a),
{
    assert forall|k: int| 0 <= k < a.pool.len() implies #[trigger] e.pool[k] == a.pool[k] by {
        assert(b.pool[k] == a.pool[k]);
    }
    assert forall|k: int| 0 <= k < a.call_sites.len() implies #[trigger] e.calls[k]
        == a.call_sites[k] by {
        assert(b.call_sites[k] == a.call_sites[k]);
    }
}

pub(crate) proof fn lemma_simple_grows(
    vm: VmState,
    mth: Method,
    i: Instr,
    this: VReg,
    slots: Seq<VReg>,
    track: bool,
    s: St,
)
    ensures
        simple(vm, mth, i, this, slots, track, s) matches Some(t) ==> grown(s.out, t.out) && extends(
            s.seg.code,
            t.seg.code,
        ),
{
}

/// Only temporaries are stored to, never arguments.
pub open spec fn stores_temps(m: Method) -> bool {
    forall|b: int| #![trigger m.code@[b]] 0 <= b < m.code@.len() && m.code@[b] is Some ==> match m.instr_at(b) {
        Instr::StoreTemp(x) => x >= m.argc,
        Instr::StoreTempPop(x) => x >= m.argc,
        _ => true,
    }
}

/// The slots of a spliced body: the operands, and fresh registers for the temporaries.
pub open spec fn fresh_set(n: nat, k: nat) -> Set<VReg> {
    Set::new(|v: VReg| n <= v.0 < n + k)
}

pub(crate) proof fn lemma_leaf_grows(vm: VmState, mth: Method, this: VReg, slots: Seq<VReg>, bci: int, s: St)
    ensures
        leaf_walk(vm, mth, this, slots, bci, s) matches Some((t, v)) ==> grown(s.out, t.out) && extends(
            s.seg.code,
            t.seg.code,
        ),
    decreases mth.code@.len() - bci,
{
    if bci < 0 || bci >= mth.code@.len() || !(bci < mth.next_at(bci) <= mth.code@.len()) {
    } else {
        let i = mth.instr_at(bci);
        if !(i is ReturnTos || i is ReturnSelf) {
            lemma_simple_grows(vm, mth, i, this, slots, false, s);
            if let Some(s1) = simple(vm, mth, i, this, slots, false, s) {
                lemma_leaf_grows(vm, mth, this, slots, mth.next_at(bci), s1);
                if let Some((t, v)) = leaf_walk(vm, mth, this, slots, mth.next_at(bci), s1) {
                    lemma_grown(s.out, s1.out, t.out);
                }
            }
        }
    }
}

/// The body answers what its instructions mean.
proof fn lemma_leaf_answers(
    e: Env,
    vm: VmState,
    mth: Method,
    this: VReg,
    slots: Seq<VReg>,
    wr: Set<VReg>,
    bci: int,
    s: St,
    f: Frame,
    m: Mach,
)
    requires
        leaf_walk(vm, mth, this, slots, bci, s) matches Some((t, v)) && sees(e, vm, t.out),
        mth.code_wf(),
        mth.boundary(bci),
        placed(s.seg.stack, this, slots, wr, s.out.vregs.len()),
        holds(m, s.seg.stack, this, slots, f),
        forall|b: int|
            0 <= b < mth.code@.len() && mth.code@[b] is Some ==> writable(
                #[trigger] mth.instr_at(b),
                slots,
                wr,
            ),
    ensures
        ({
            let (t, v) = leaf_walk(vm, mth, this, slots, bci, s)->0;
            &&& v.0 < t.out.vregs.len()
            &&& !wr.contains(v)
            &&& ran(e, t.seg.code, s.seg.code.len() as int, m) matches Flow::On(m1) && kept(
                m,
                m1,
                s.out.vregs.len(),
                wr,
            ) && body_answer(e.w, vm, mth, bci, f) == Some(((m1.regs)(v), m1.mem))
        }),
    decreases mth.code@.len() - bci,
{
    let i = mth.instr_at(bci);
    let next = mth.next_at(bci);
    let from = s.seg.code.len() as int;
    let (t, v) = leaf_walk(vm, mth, this, slots, bci, s)->0;
    assert(mth.code@[bci] is Some);
    if i is ReturnTos {
        let n = s.depth();
        assert(values(m.regs, s.seg.stack)[n - 1] == (m.regs)(s.seg.stack[n - 1]));
        assert(t.seg.code == s.seg.code);
    } else if i is ReturnSelf {
    } else {
        lemma_simple_grows(vm, mth, i, this, slots, false, s);
        let s1 = simple(vm, mth, i, this, slots, false, s)->0;
        lemma_leaf_grows(vm, mth, this, slots, next, s1);
        assert(leaf_walk(vm, mth, this, slots, next, s1) == Some((t, v)));
        lemma_sees_less(e, vm, s1.out, t.out);
        law_moves_mean_what_they_say(e, vm, mth, i, this, slots, wr, false, s, f, m);
        let m1 = ran(e, s1.seg.code, from, m)->On_0;
        let g = does(e.w, vm, mth, i, f)->0;
        lemma_leaf_answers(e, vm, mth, this, slots, wr, next, s1, g, m1);
        lemma_ran_more(e, s1.seg.code, t.seg.code, from, m);
        assert(body_answer(e.w, vm, mth, bci, f) == body_answer(e.w, vm, mth, next, g));
    }
}

proof fn lemma_nil_temps(e: Env, lit: PoolLit, n: nat, s: St, m: Mach)
    requires
        nil_temps(lit, n, s).out.vregs.len() <= 0x1_0000_0000,
    ensures
        ({
            let t = nil_temps(lit, n, s);
            &&& grown(s.out, t.out)
            &&& t.out.vregs.len() == s.out.vregs.len() + n
            &&& t.out.blocks == s.out.blocks
            &&& t.out.pool == s.out.pool
            &&& t.out.call_sites == s.out.call_sites
            &&& t.seg.stack == s.seg.stack
            &&& t.seg.deopt == s.seg.deopt
            &&& extends(s.seg.code, t.seg.code)
            &&& ran(e, t.seg.code, s.seg.code.len() as int, m) matches Flow::On(m1) && m1.mem
                == m.mem && (forall|v: VReg|
                v.0 < s.out.vregs.len() ==> #[trigger] (m1.regs)(v) == (m.regs)(v)) && forall|v: VReg|
                s.out.vregs.len() <= v.0 < s.out.vregs.len() + n ==> #[trigger] (m1.regs)(v) == (
                e.w.word)(e.pool[lit.0 as int].value)
        }),
    decreases n,
{
    if n > 0 {
        let s1 = nil_temps(lit, (n - 1) as nat, s);
        assert(nil_temps(lit, n, s).out.vregs.len() == s1.out.vregs.len() + 1);
        lemma_nil_temps(e, lit, (n - 1) as nat, s, m);
        let op: IrView = Ir::ConstPool { dst: s1.reg(), lit };
        let from = s.seg.code.len() as int;
        let m1 = ran(e, s1.seg.code, from, m)->On_0;
        assert(ran(e, s1.seg.code.push(op), from, m) == exec(e, op, m1));
    }
}

/// The class test in front of a body lets through what it names.
pub open spec fn guard_passes(w: World, vm: VmState, g: Option<(KlassOop, GuardShape)>, x: int, mem: int) -> bool {
    match g {
        Some((k, _)) => (w.class)(mem, x) == k,
        None => true,
    }
}

/// The guard stands for the class that it names.
pub open spec fn guard_fits(vm: VmState, g: Option<(KlassOop, GuardShape)>) -> bool {
    g matches Some((k, kind)) ==> (kind is SmiTest ==> k == vm.universe.smi_klass)
}

/// Entering a body: behind the guard, the temporaries hold `nil`, and the rest is as it was.
pub(crate) proof fn lemma_entered(
    e: Env,
    vm: VmState,
    x: SiteView,
    closures: Seq<(u16, u32)>,
    s: St,
    m: Mach,
)
    requires
        honest(e.w, vm),
        guard_fits(vm, x.guard),
        enter_body(vm, x, closures, s) matches Some(t) && sees(e, vm, t.out),
        s.out.blocks.len() < u32::MAX,
    ensures
        ({
            let t = enter_body(vm, x, closures, s)->0;
            let n = vm.m(x.callee).ntemps as nat;
            &&& grown(s.out, t.out)
            &&& t.out.vregs.len() == s.out.vregs.len() + n
            &&& t.seg.stack == Seq::<VReg>::empty()
            &&& t.seg.deopt == s.seg.deopt
            &&& extends(s.seg.code, t.seg.code)
            &&& match ran(e, t.seg.code, s.seg.code.len() as int, m) {
                Flow::On(m1) => {
                    &&& guard_passes(e.w, vm, x.guard, (m.regs)(x.receiver), m.mem)
                    &&& m1.mem == m.mem
                    &&& forall|v: VReg|
                        v.0 < s.out.vregs.len() ==> #[trigger] (m1.regs)(v) == (m.regs)(v)
                    &&& forall|v: VReg|
                        s.out.vregs.len() <= v.0 < s.out.vregs.len() + n ==> #[trigger] (m1.regs)(v)
                            == (e.w.word)(vm.universe.nil_obj)
                },
                Flow::To(b, m1) => {
                    &&& !guard_passes(e.w, vm, x.guard, (m.regs)(x.receiver), m.mem)
                    &&& m1 == m
                    &&& s.out.blocks.len() <= b.0 < t.out.blocks.len()
                    &&& t.out.blocks[b.0 as int] == Some(
                        trap_block(b, x.bci, with_operands(s.seg.stack, x), closures, None),
                    )
                },
                _ => false,
            }
        }),
{
    reveal(honest);
    let w = e.w;
    let s1 = guard_op(x, closures, s)->0;
    let nil = pool_oop(vm.universe.nil_obj);
    let s2 = s1.intern(nil);
    let n = vm.m(x.callee).ntemps as nat;
    let t = nil_temps(s1.lit(nil), n, s2);
    let from = s.seg.code.len() as int;
    lemma_nil_temps(e, s1.lit(nil), n, s2, m);
    assert(grown(s.out, s1.out));
    assert(grown(s1.out, s2.out));
    lemma_grown(s.out, s1.out, s2.out);
    lemma_grown(s.out, s2.out, t.out);
    assert(sees(e, vm, s2.out)) by {
        lemma_sees_less(e, vm, s2.out, t.out);
    }
    lemma_lit_here(e, vm, s1.out, nil);
    match x.guard {
        None => {
            assert(s1 == s);
        },
        Some((k, kind)) => {
            let lit = pool_oop(k.0);
            let op = s1.seg.code.last();
            assert(s1.seg.code == s.seg.code.push(op));
            assert(grown(s.out.intern(lit), s1.out));
            lemma_grown(s1.out, s2.out, t.out);
            lemma_grown(s.out.intern(lit), s1.out, t.out);
            lemma_sees_less(e, vm, s.out.intern(lit), t.out);
            lemma_lit_here(e, vm, s.out, lit);
            assert(ran(e, s.seg.code.push(op), from, m) == exec(e, op, m));
            let b = s.out.block_id();
            assert(s1.out.blocks[b.0 as int] == Some(
                trap_block(b, x.bci, with_operands(s.seg.stack, x), closures, None),
            ));
            assert(t.out.blocks == s1.out.blocks);
        },
    }
    assert(extends(s.seg.code, s1.seg.code));
    assert(extends(s1.seg.code, t.seg.code));
    lemma_ran_more(e, s1.seg.code, t.seg.code, from, m);
    if let Flow::On(m1) = ran(e, s1.seg.code, from, m) {
        assert(m1 == m);
    }
}

/// The class of the receiver is known to run the callee: by the guard, or without one.
pub open spec fn callee_known(
    w: World,
    vm: VmState,
    ic: InterpreterIc,
    callee: MethodOop,
    guard: Option<(KlassOop, GuardShape)>,
    f: Frame,
) -> bool {
    let n = f.stack.len() as int;
    &&& guard_fits(vm, guard)
    &&& match guard {
        Some((k, _)) => (w.method)(k, ic.selector) == Some(callee),
        None => (w.method)((w.class)(f.mem, f.stack[n - ic.argc - 1]), ic.selector) == Some(callee),
    }
}

/// The activation of a spliced callee is in the registers that stand for it.
pub(crate) proof fn lemma_activated(
    e: Env,
    vm: VmState,
    mth: Method,
    x: SiteView,
    n: nat,
    args: Seq<int>,
    m: Mach,
    m1: Mach,
)
    requires
        mth == vm.m(x.callee),
        m1.mem == m.mem,
        args.len() == x.args.len() + 1,
        args[0] == (m.regs)(x.receiver),
        forall|i: int| 0 <= i < x.args.len() ==> args[1 + i] == (m.regs)(#[trigger] x.args[i]),
        x.receiver.0 < n,
        forall|i: int| 0 <= i < x.args.len() ==> (#[trigger] x.args[i]).0 < n,
        n + mth.ntemps <= 0x1_0000_0000,
        forall|v: VReg| v.0 < n ==> #[trigger] (m1.regs)(v) == (m.regs)(v),
        forall|v: VReg|
            n <= v.0 < n + mth.ntemps ==> #[trigger] (m1.regs)(v) == (e.w.word)(vm.universe.nil_obj),
    ensures
        ({
            let slots = x.args + Seq::new(mth.ntemps as nat, |i: int| VReg((n + i) as u32));
            &&& holds(m1, seq![], x.receiver, slots, activation(e.w, vm, mth, args, m.mem))
            &&& placed(
                seq![],
                x.receiver,
                slots,
                fresh_set(n, mth.ntemps as nat),
                n + mth.ntemps as nat,
            )
        }),
{
    let k = mth.ntemps as nat;
    let slots = x.args + Seq::new(k, |i: int| VReg((n + i) as u32));
    let f = activation(e.w, vm, mth, args, m.mem);
    let none: Seq<VReg> = seq![];
    assert(values(m1.regs, none) =~= f.stack);
    assert(values(m1.regs, slots) =~= f.slots) by {
        assert forall|i: int| 0 <= i < slots.len() implies (m1.regs)(#[trigger] slots[i])
            == f.slots[i] by {
            if i < x.args.len() {
                assert(slots[i] == x.args[i]);
                assert(f.slots[i] == args[1 + i]);
            } else {
                assert(slots[i] == VReg((n + (i - x.args.len())) as u32));
            }
        }
    }
    let wr = fresh_set(n, k);
    assert forall|i: int, j: int|
        0 <= j < slots.len() && 0 <= i < slots.len() && j != i && wr.contains(#[trigger] slots[i]) implies #[trigger] slots[j]
        != slots[i] by {
        if i < x.args.len() {
            assert(slots[i] == x.args[i]);
        } else if j < x.args.len() {
            assert(slots[j] == x.args[j]);
        }
    }
    assert forall|i: int| 0 <= i < slots.len() implies (#[trigger] slots[i]).0 < n + k by {
        if i < x.args.len() {
            assert(slots[i] == x.args[i]);
        }
    }
}

pub(crate) proof fn lemma_writable(mth: Method, args: Seq<VReg>, n: nat)
    requires
        stores_temps(mth),
        mth.code_wf(),
        args.len() == mth.argc,
        n + mth.ntemps <= 0x1_0000_0000,
    ensures
        ({
            let slots = args + Seq::new(mth.ntemps as nat, |i: int| VReg((n + i) as u32));
            forall|b: int|
                0 <= b < mth.code@.len() && mth.code@[b] is Some ==> writable(
                    #[trigger] mth.instr_at(b),
                    slots,
                    fresh_set(n, mth.ntemps as nat),
                )
        }),
{
    let slots = args + Seq::new(mth.ntemps as nat, |i: int| VReg((n + i) as u32));
    assert forall|b: int| 0 <= b < mth.code@.len() && mth.code@[b] is Some implies writable(
        #[trigger] mth.instr_at(b),
        slots,
        fresh_set(n, mth.ntemps as nat),
    ) by {
        match mth.instr_at(b) {
            Instr::StoreTemp(x) => {
                if x < slots.len() {
                    assert(slots[x as int] == VReg((n + (x - args.len())) as u32));
                }
            },
            Instr::StoreTempPop(x) => {
                if x < slots.len() {
                    assert(slots[x as int] == VReg((n + (x - args.len())) as u32));
                }
            },
            _ => {},
        }
    }
}

/// Every operand is the receiver or in a register that was made since.
pub(crate) open spec fn own_operands(stack: Seq<VReg>, this: VReg, n: nat, top: nat) -> bool {
    forall|k: int| 0 <= k < stack.len() ==> (#[trigger] stack[k]) == this || n <= stack[k].0 < top
}

pub(crate) proof fn lemma_simple_operands(
    vm: VmState,
    mth: Method,
    i: Instr,
    this: VReg,
    slots: Seq<VReg>,
    track: bool,
    s: St,
    n: nat,
)
    requires
        own_operands(s.seg.stack, this, n, s.out.vregs.len()),
        n <= s.out.vregs.len(),
        simple(vm, mth, i, this, slots, track, s) matches Some(t) && t.out.vregs.len()
            <= 0x1_0000_0000,
    ensures
        ({
            let t = simple(vm, mth, i, this, slots, track, s)->0;
            own_operands(t.seg.stack, this, n, t.out.vregs.len())
        }),
{
}

pub(crate) proof fn lemma_leaf_value(
    vm: VmState,
    mth: Method,
    this: VReg,
    slots: Seq<VReg>,
    bci: int,
    s: St,
    n: nat,
)
    requires
        own_operands(s.seg.stack, this, n, s.out.vregs.len()),
        n <= s.out.vregs.len(),
        leaf_walk(vm, mth, this, slots, bci, s) matches Some((t, v)) && t.out.vregs.len()
            <= 0x1_0000_0000,
    ensures
        ({
            let (t, v) = leaf_walk(vm, mth, this, slots, bci, s)->0;
            v == this || n <= v.0 < t.out.vregs.len()
        }),
    decreases mth.code@.len() - bci,
{
    let i = mth.instr_at(bci);
    if i is ReturnTos {
        assert(s.seg.stack[s.depth() - 1] == s.top(0));
    } else if !(i is ReturnSelf) {
        lemma_simple_grows(vm, mth, i, this, slots, false, s);
        let s1 = simple(vm, mth, i, this, slots, false, s)->0;
        lemma_leaf_grows(vm, mth, this, slots, mth.next_at(bci), s1);
        lemma_simple_operands(vm, mth, i, this, slots, false, s, n);
        lemma_leaf_value(vm, mth, this, slots, mth.next_at(bci), s1, n);
    }
}

/// Where the guard lets the receiver through, interpreting the callee takes activation `f` of the
/// caller to `g`.
pub open spec fn runs_as(
    w: World,
    vm: VmState,
    callee: MethodOop,
    ic: InterpreterIc,
    guard: Option<(KlassOop, GuardShape)>,
    f: Frame,
    g: Frame,
) -> bool {
    let n = f.stack.len() as int;
    guard_passes(w, vm, guard, f.stack[n - ic.argc - 1], f.mem) ==> (method_answer(
        w,
        vm,
        callee,
        f.stack.subrange(n - ic.argc - 1, n),
        f.mem,
    ) matches Some((x, mem)) ==> g == f.with_mem(mem).pop(ic.argc + 1).push(x))
}

pub(crate) proof fn lemma_runs_as(
    w: World,
    vm: VmState,
    callee: MethodOop,
    ic: InterpreterIc,
    guard: Option<(KlassOop, GuardShape)>,
    f: Frame,
)
    requires
        honest(w, vm),
        callee_known(w, vm, ic, callee, guard, f),
        f.stack.len() >= ic.argc + 1,
    ensures
        runs_as(w, vm, callee, ic, guard, f, answered(w, ic, f)),
{
    reveal(honest);
    let n = f.stack.len() as int;
    let args = f.stack.subrange(n - ic.argc - 1, n);
    assert(args[0] == f.stack[n - ic.argc - 1]);
    assert(send_runs(w, vm, ic.selector, args, f.mem));
}

/// An inlined leaf, whatever the send that it stands for.
pub(crate) proof fn lemma_inlined_leaf(
    e: Env,
    cx: CtxView,
    ic: InterpreterIc,
    callee: MethodOop,
    guard: Option<(KlassOop, GuardShape)>,
    dep_klass: KlassOop,
    bci: usize,
    this: VReg,
    slots: Seq<VReg>,
    wr: Set<VReg>,
    s: St,
    f: Frame,
    g: Frame,
    m: Mach,
)
    requires
        cx.vm.wf(),
        cx.vm.has(callee),
        honest(e.w, cx.vm),
        guard_fits(cx.vm, guard),
        runs_as(e.w, cx.vm, callee, ic, guard, f, g),
        cx.vm.m(callee).primitive == 0,
        stores_temps(cx.vm.m(callee)),
        standing(s, this, slots, wr, f, e.w, m),
        s.depth() >= ic.argc + 1,
        ({
            let x = site_of(ic, callee, guard, dep_klass, bci, s);
            inline_leaf(cx, x, s.drop(ic.argc + 1)) matches Some((t, Some(v))) && sees(
                e,
                cx.vm,
                t.out,
            )
        }),
    ensures
        ({
            let x = site_of(ic, callee, guard, dep_klass, bci, s);
            let (t, v) = inline_leaf(cx, x, s.drop(ic.argc + 1))->0;
            let n = f.stack.len() as int;
            &&& goes_to(
                e,
                s,
                t.push(v->0),
                bci,
                None,
                this,
                slots,
                wr,
                f,
                g,
                m,
            )
            &&& ran(e, t.seg.code, s.seg.code.len() as int, m) is On <==> guard_passes(
                e.w,
                cx.vm,
                guard,
                f.stack[n - ic.argc - 1],
                f.mem,
            )
        }),
{
    reveal(honest);
    let w = e.w;
    let vm = cx.vm;
    let x = site_of(ic, callee, guard, dep_klass, bci, s);
    let below = s.drop(ic.argc + 1);
    let (t, ov) = inline_leaf(cx, x, below)->0;
    let v = ov->0;
    let mth = vm.m(callee);
    assert(mth.wf(vm.methods@.len() as int));
    let n = s.out.vregs.len();
    let d = f.stack.len() as int;
    assert(values(m.regs, s.seg.stack).len() == s.depth());
    let args = f.stack.subrange(d - ic.argc - 1, d);
    let s1 = enter_body(vm, x, seq![], below)->0;
    let bs = body_slots(vm, x, below);
    let (s2, v2) = leaf_walk(vm, mth, x.receiver, bs, 0, s1)->0;
    assert(v2 == v);
    lemma_leaf_grows(vm, mth, x.receiver, bs, 0, s1);
    assert(grown(s2.out, t.out));
    lemma_sees_less(e, vm, s2.out, t.out);
    lemma_sees_less(e, vm, s1.out, s2.out);
    lemma_entered(e, vm, x, seq![], below, m);
    let from = s.seg.code.len() as int;
    lemma_ran_more(e, s1.seg.code, s2.seg.code, from, m);
    assert forall|i: int| 0 <= i < args.len() implies args[i] == (m.regs)(
        #[trigger] s.seg.stack[d - ic.argc - 1 + i],
    ) by {
        assert(values(m.regs, s.seg.stack)[d - ic.argc - 1 + i] == (m.regs)(
            s.seg.stack[d - ic.argc - 1 + i],
        ));
    }
    assert(x.receiver == s.seg.stack[d - ic.argc - 1 + 0]);
    assert forall|i: int| 0 <= i < x.args.len() implies args[1 + i] == (m.regs)(
        #[trigger] x.args[i],
    ) && x.args[i].0 < n by {
        assert(x.args[i] == s.seg.stack[d - ic.argc - 1 + (1 + i)]);
    }
    let t1 = t.push(v);
    assert(t1.seg.stack == below.seg.stack.push(v));
    assert(with_operands(below.seg.stack, x) =~= s.seg.stack);
    assert(bs == x.args + Seq::new(mth.ntemps as nat, |i: int| VReg((n + i) as u32)));
    if let Flow::On(m1) = ran(e, s1.seg.code, from, m) {
        lemma_activated(e, vm, mth, x, n, args, m, m1);
        lemma_writable(mth, x.args, n);
        let h = activation(w, vm, mth, args, m.mem);
        let fresh = fresh_set(n, mth.ntemps as nat);
        lemma_leaf_answers(e, vm, mth, x.receiver, bs, fresh, 0, s1, h, m1);
        let m2 = ran(e, s2.seg.code, from, m)->On_0;
        assert(method_answer(w, vm, callee, args, f.mem) == Some(((m2.regs)(v), m2.mem)));
        assert(kept(m, m2, n, Set::empty())) by {
            assert forall|r: VReg| r.0 < n implies #[trigger] (m2.regs)(r) == (m.regs)(r) by {
                assert(!fresh.contains(r));
                assert((m1.regs)(r) == (m.regs)(r));
            }
        }
        crate::faithful_sends::lemma_pushed(m, m2, s, t1, this, slots, wr, f, g, ic.argc + 1);
    }
    assert(placed(t1.seg.stack, this, slots, wr, t1.out.vregs.len())) by {
        lemma_leaf_value(vm, mth, x.receiver, bs, 0, s1, n);
        assert forall|k: int| 0 <= k < t1.seg.stack.len() implies (#[trigger] t1.seg.stack[k]).0
            < t1.out.vregs.len() && !wr.contains(t1.seg.stack[k]) by {
            if k < below.seg.stack.len() {
                assert(t1.seg.stack[k] == s.seg.stack[k]);
            }
        }
    }
}

/// An inlined leaf answers what the send answers: the value that interpreting the callee on the same
/// receiver and arguments returns. Where the guard does not let the receiver through, and only
/// there, the send runs again in the interpreter.
pub proof fn law_inlined_leaves_answer(
    e: Env,
    cx: CtxView,
    ic: InterpreterIc,
    callee: MethodOop,
    guard: Option<(KlassOop, GuardShape)>,
    dep_klass: KlassOop,
    bci: usize,
    this: VReg,
    slots: Seq<VReg>,
    wr: Set<VReg>,
    s: St,
    f: Frame,
    m: Mach,
)
    requires
        cx.vm.wf(),
        cx.vm.has(callee),
        honest(e.w, cx.vm),
        callee_known(e.w, cx.vm, ic, callee, guard, f),
        cx.vm.m(callee).primitive == 0,
        stores_temps(cx.vm.m(callee)),
        standing(s, this, slots, wr, f, e.w, m),
        s.depth() >= ic.argc + 1,
        ({
            let x = site_of(ic, callee, guard, dep_klass, bci, s);
            inline_leaf(cx, x, s.drop(ic.argc + 1)) matches Some((t, Some(v))) && sees(
                e,
                cx.vm,
                t.out,
            )
        }),
    ensures
        ({
            let x = site_of(ic, callee, guard, dep_klass, bci, s);
            let (t, v) = inline_leaf(cx, x, s.drop(ic.argc + 1))->0;
            let n = f.stack.len() as int;
            &&& goes_to(
                e,
                s,
                t.push(v->0),
                bci,
                None,
                this,
                slots,
                wr,
                f,
                answered(e.w, ic, f),
                m,
            )
            &&& ran(e, t.seg.code, s.seg.code.len() as int, m) is On <==> guard_passes(
                e.w,
                cx.vm,
                guard,
                f.stack[n - ic.argc - 1],
                f.mem,
            )
        }),
{
    assert(values(m.regs, s.seg.stack).len() == s.depth());
    lemma_runs_as(e.w, cx.vm, callee, ic, guard, f);
    lemma_inlined_leaf(
        e,
        cx,
        ic,
        callee,
        guard,
        dep_klass,
        bci,
        this,
        slots,
        wr,
        s,
        f,
        answered(e.w, ic, f),
        m,
    );
}

proof fn lemma_nil_grows(lit: PoolLit, n: nat, s: St)
    ensures
        grown(s.out, nil_temps(lit, n, s).out),
        extends(s.seg.code, nil_temps(lit, n, s).seg.code),
    decreases n,
{
    if n > 0 {
        lemma_nil_grows(lit, (n - 1) as nat, s);
    }
}

pub(crate) proof fn lemma_enter_grows(vm: VmState, x: SiteView, closures: Seq<(u16, u32)>, s: St)
    ensures
        enter_body(vm, x, closures, s) matches Some(t) ==> grown(s.out, t.out) && extends(
            s.seg.code,
            t.seg.code,
        ),
{
    if let Some(s1) = guard_op(x, closures, s) {
        let nil = pool_oop(vm.universe.nil_obj);
        let s2 = s1.intern(nil);
        let n = vm.m(x.callee).ntemps as nat;
        lemma_nil_grows(s1.lit(nil), n, s2);
        assert(grown(s.out, s1.out));
        assert(grown(s1.out, s2.out));
        lemma_grown(s.out, s1.out, s2.out);
        lemma_grown(s.out, s2.out, nil_temps(s1.lit(nil), n, s2).out);
        assert(extends(s.seg.code, s1.seg.code));
    }
}

} // verus!

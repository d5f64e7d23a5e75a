//! Translated code computes what the bytecode means, instruction by instruction.

use vstd::prelude::*;
use crate::ir::{PoolEntry, VReg};
use crate::machine::{extends, ran, Env, Flow, Mach};
use crate::meaning::{does, Frame};
use crate::ops::simple;
use crate::translator::{pool_find, pool_oop, OutView, St};
use crate::values::values;
use crate::world::{Instr, Method, VmState};

verus! {

broadcast use crate::machine::group_runs;

/// The machine holds the activation: operands, slots and receiver are in their registers.
pub open spec fn holds(
    m: Mach,
    stack: Seq<VReg>,
    this: VReg,
    slots: Seq<VReg>,
    f: Frame,
) -> bool {
    &&& values(m.regs, stack) == f.stack
    &&& values(m.regs, slots) == f.slots
    &&& (m.regs)(this) == f.me
    &&& m.mem == f.mem
}

/// Operands, receiver and slots are in registers that exist. The registers in `wr` are those that
/// the body stores to: each is one slot's alone.
pub open spec fn placed(
    stack: Seq<VReg>,
    this: VReg,
    slots: Seq<VReg>,
    wr: Set<VReg>,
    n: nat,
) -> bool {
    &&& forall|k: int| 0 <= k < stack.len() ==> (#[trigger] stack[k]).0 < n && !wr.contains(stack[k])
    &&& this.0 < n && !wr.contains(this)
    &&& forall|k: int| 0 <= k < slots.len() ==> (#[trigger] slots[k]).0 < n
    &&& forall|j: int, k: int|
        0 <= j < slots.len() && 0 <= k < slots.len() && j != k && wr.contains(#[trigger] slots[k])
            ==> #[trigger] slots[j] != slots[k]
    &&& forall|v: VReg| #[trigger] wr.contains(v) ==> v.0 < n
}

/// The slot that the instruction stores to is one of those.
pub open spec fn writable(i: Instr, slots: Seq<VReg>, wr: Set<VReg>) -> bool {
    match i {
        Instr::StoreTemp(x) => x < slots.len() ==> wr.contains(slots[x as int]),
        Instr::StoreTempPop(x) => x < slots.len() ==> wr.contains(slots[x as int]),
        _ => true,
    }
}

/// The code finds in the environment what was interned and recorded for it.
pub open spec fn sees(e: Env, vm: VmState, o: OutView) -> bool {
    &&& e.u == vm.universe
    &&& o.pool.len() <= e.pool.len()
    &&& o.pool.len() <= 0x1_0000_0000
    &&& forall|k: int| 0 <= k < o.pool.len() ==> #[trigger] e.pool[k] == o.pool[k]
    &&& o.call_sites.len() <= e.calls.len()
    &&& o.call_sites.len() <= 0x1_0000
    &&& forall|k: int| 0 <= k < o.call_sites.len() ==> #[trigger] e.calls[k] == o.call_sites[k]
    &&& o.vregs.len() <= 0x1_0000_0000
}

/// Registers below `n` that are not stored to stay.
pub open spec fn kept(m: Mach, m1: Mach, n: nat, wr: Set<VReg>) -> bool {
    forall|v: VReg| v.0 < n && !wr.contains(v) ==> #[trigger] (m1.regs)(v) == (m.regs)(v)
}

proof fn lemma_pool_at(pool: Seq<PoolEntry>, x: PoolEntry, from: int)
    requires
        0 <= from <= pool.len(),
    ensures
        from <= pool_find(pool, x, from) <= pool.len(),
        pool_find(pool, x, from) < pool.len() ==> pool[pool_find(pool, x, from)] == x,
    decreases pool.len() - from,
{
    if from < pool.len() && pool[from] != x {
        lemma_pool_at(pool, x, from + 1);
    }
}

/// A literal that was interned is found.
pub(crate) proof fn lemma_lit(e: Env, vm: VmState, o: OutView, t: OutView, x: PoolEntry)
    requires
        sees(e, vm, t),
        o.intern(x).pool.len() <= t.pool.len(),
        forall|k: int| 0 <= k < o.intern(x).pool.len() ==> #[trigger] t.pool[k] == o.intern(x).pool[k],
    ensures
        e.pool[o.lit(x).0 as int] == x,
{
    lemma_pool_at(o.pool, x, 0);
    let k = pool_find(o.pool, x, 0);
    assert(o.intern(x).pool[k] == x);
    assert(t.pool[k] == x);
    assert(e.pool[k] == x);
}

pub(crate) proof fn lemma_lit_here(e: Env, vm: VmState, o: OutView, x: PoolEntry)
    requires
        sees(e, vm, o.intern(x)),
    ensures
        e.pool[o.lit(x).0 as int] == x,
{
    lemma_lit(e, vm, o, o.intern(x), x);
}

/// An instruction that moves values alone puts them where its meaning says, for any
/// receiver and slots: the code that it adds goes on to the next one, and leaves every other
/// register as it was.
pub proof fn law_moves_mean_what_they_say(
    e: Env,
    vm: VmState,
    mth: Method,
    i: Instr,
    this: VReg,
    slots: Seq<VReg>,
    wr: Set<VReg>,
    track: bool,
    s: St,
    f: Frame,
    m: Mach,
)
    requires
        simple(vm, mth, i, this, slots, track, s) matches Some(t) && sees(e, vm, t.out),
        writable(i, slots, wr),
        placed(s.seg.stack, this, slots, wr, s.out.vregs.len()),
        holds(m, s.seg.stack, this, slots, f),
    ensures
        ({
            let t = simple(vm, mth, i, this, slots, track, s)->0;
            &&& extends(s.seg.code, t.seg.code)
            &&& placed(t.seg.stack, this, slots, wr, t.out.vregs.len())
            &&& s.out.vregs.len() <= t.out.vregs.len()
            &&& ran(e, t.seg.code, s.seg.code.len() as int, m) matches Flow::On(m1) && (does(
                e.w,
                vm,
                mth,
                i,
                f,
            ) matches Some(g) && holds(m1, t.seg.stack, this, slots, g)) && kept(
                m,
                m1,
                s.out.vregs.len(),
                wr,
            )
        }),
{
    let t = simple(vm, mth, i, this, slots, track, s)->0;
    let k = s.seg.code.len() as int;
    let d = s.reg();
    match i {
        Instr::PushNil => {
            lemma_lit_here(e, vm, s.out, pool_oop(vm.universe.nil_obj));
        },
        Instr::PushTrue => {
            lemma_lit_here(e, vm, s.out, pool_oop(vm.universe.true_obj));
        },
        Instr::PushFalse => {
            lemma_lit_here(e, vm, s.out, pool_oop(vm.universe.false_obj));
        },
        Instr::PushLiteral(x) => {
            lemma_lit_here(e, vm, s.out, pool_oop(mth.literals@[x as int].raw));
        },
        Instr::PushGlobal(x) => {
            lemma_lit_here(e, vm, s.out, pool_oop(mth.literals@[x as int].raw));
        },
        Instr::StoreGlobalPop(x) => {
            lemma_lit_here(e, vm, s.out, pool_oop(mth.literals@[x as int].raw));
        },
        _ => {},
    }
    let r = ran(e, t.seg.code, k, m);
    assert(r is On);
    let m1 = r->On_0;
    let g = does(e.w, vm, mth, i, f)->0;
    assert(values(m1.regs, t.seg.stack) =~= g.stack);
    assert(values(m1.regs, slots) =~= g.slots);
}

} // verus!

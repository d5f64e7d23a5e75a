//! Linear-scan register allocation over live intervals.
//!
//! Everything that must survive a safepoint lives in the frame; the rest competes for registers, and
//! under pressure the interval that ends last goes to the frame. Frame values that no call can
//! disturb also get a register to be read from, where one is idle.

use std::collections::HashMap;
use vstd::prelude::*;
use crate::intervals::{
    are_facts, are_intervals, are_starts, block_cells, compute_intervals, crosses_call, exact_facts,
    fact_named, is_call, is_interval, law_uses_are_covered, lemma_line_prefix, lemma_safepoints,
    line, line_fits, loop_fact, loops, safepoints, touches_at, Assignment, Cell, LiveInterval, SpillSlot,
};
use crate::ir::{BlockId, Ir, IrMethod, MethodView, VReg};
use crate::order::{emission_order, law_order_is_permutation};

verus! {

/// The registers that the scan may hand out, lowest first.
pub open spec fn gpr_pool() -> Seq<u8> {
    seq![1u8, 2, 3, 6, 7, 8, 9]
}

/// The registers that the scan may hand out to unboxed doubles, lowest first.
pub open spec fn fp_pool() -> Seq<u8> {
    seq![0u8, 1, 2]
}

/// The registers that frame values may also occupy when the scan left them idle: those that no call
/// sequence writes.
pub open spec fn resident_pool() -> Seq<u8> {
    seq![3u8, 6, 7]
}

pub fn allocatable_regs() -> (r: Vec<u8>)
    ensures
        r@ == gpr_pool(),
{
    vec![1, 2, 3, 6, 7, 8, 9]
}

pub fn fp_allocatable_regs() -> (r: Vec<u8>)
    ensures
        r@ == fp_pool(),
{
    vec![0, 1, 2]
}

pub fn residency_candidates() -> (r: Vec<u8>)
    ensures
        r@ == resident_pool(),
{
    vec![3, 6, 7]
}

pub open spec fn assigned(iv: LiveInterval, a: Assignment) -> LiveInterval {
    LiveInterval { assignment: Some(a), ..iv }
}

/// Intervals and the frame slots handed out so far: for each, whether it holds an object.
pub ghost struct Frame {
    pub ivs: Seq<LiveInterval>,
    pub slots: Seq<bool>,
}

/// Gives interval `i` the next frame slot.
pub open spec fn spill(f: Frame, i: int) -> Frame {
    Frame {
        ivs: f.ivs.update(
            i,
            assigned(f.ivs[i], Assignment::Spill(SpillSlot(f.slots.len() as u16))),
        ),
        slots: f.slots.push(f.ivs[i].is_oop),
    }
}

/// The first `n` intervals, those that cross a safepoint spilled.
pub open spec fn spill_crossing(f: Frame, n: int) -> Frame
    decreases n,
{
    if n <= 0 {
        f
    } else {
        let g = spill_crossing(f, n - 1);
        if g.ivs[n - 1].crosses_safepoint {
            spill(g, n - 1)
        } else {
            g
        }
    }
}

/// Puts `i` into a list sorted by start, behind those that start no later.
pub open spec fn insert_by_start(ivs: Seq<LiveInterval>, o: Seq<usize>, i: usize) -> Seq<usize>
    decreases o.len(),
{
    if o.len() == 0 {
        seq![i]
    } else if ivs[o.last() as int].start <= ivs[i as int].start {
        o.push(i)
    } else {
        insert_by_start(ivs, o.drop_last(), i).push(o.last())
    }
}

/// The unassigned among the first `n` intervals, by start; those that start together in index
/// order.
pub open spec fn scan_order(ivs: Seq<LiveInterval>, n: int) -> Seq<usize>
    decreases n,
{
    if n <= 0 {
        seq![]
    } else if ivs[n - 1].assignment is None {
        insert_by_start(ivs, scan_order(ivs, n - 1), (n - 1) as usize)
    } else {
        scan_order(ivs, n - 1)
    }
}

/// One register file during the scan: the intervals that hold a register, in the order in which they
/// got it, and the free registers, the next one last.
pub ghost struct Pool {
    pub act: Seq<usize>,
    pub free: Seq<u8>,
}

pub open spec fn reg_of(iv: LiveInterval) -> Option<u8> {
    match iv.assignment {
        Some(Assignment::Reg(r)) => Some(r),
        _ => None,
    }
}

pub open spec fn slot_of(iv: LiveInterval) -> Option<u16> {
    match iv.assignment {
        Some(Assignment::Spill(s)) => Some(s.0),
        _ => None,
    }
}

/// Of the first `n` active intervals, those that ended before `start` give their registers back.
pub open spec fn expired(ivs: Seq<LiveInterval>, p: Pool, start: u32, n: int) -> Pool
    decreases n,
{
    if n <= 0 {
        Pool { act: seq![], free: p.free }
    } else {
        let q = expired(ivs, p, start, n - 1);
        let j = p.act[n - 1];
        if ivs[j as int].end < start {
            match reg_of(ivs[j as int]) {
                Some(r) => Pool { free: q.free.push(r), ..q },
                None => q,
            }
        } else {
            Pool { act: q.act.push(j), ..q }
        }
    }
}

/// The position, among the first `n` active intervals, of the one that ends last; of several, the
/// latest.
pub open spec fn furthest(ivs: Seq<LiveInterval>, act: Seq<usize>, n: int) -> int
    decreases n,
{
    if n <= 1 {
        0
    } else {
        let b = furthest(ivs, act, n - 1);
        if ivs[act[n - 1] as int].end >= ivs[act[b] as int].end {
            n - 1
        } else {
            b
        }
    }
}

/// Gives interval `i` a register of the pool: a free one, or that of the active interval that ends
/// last if `i` ends sooner. The loser gets a frame slot.
pub open spec fn place(f: Frame, p: Pool, i: usize) -> (Frame, Pool) {
    let q = expired(f.ivs, p, f.ivs[i as int].start, p.act.len() as int);
    if q.free.len() > 0 {
        (
            Frame {
                ivs: f.ivs.update(
                    i as int,
                    assigned(f.ivs[i as int], Assignment::Reg(q.free.last())),
                ),
                ..f
            },
            Pool { act: q.act.push(i), free: q.free.drop_last() },
        )
    } else {
        let k = furthest(f.ivs, q.act, q.act.len() as int);
        let j = q.act[k];
        if f.ivs[j as int].end > f.ivs[i as int].end {
            let r = reg_of(f.ivs[j as int])->0;
            let g = spill(f, j as int);
            (
                Frame {
                    ivs: g.ivs.update(
                        i as int,
                        assigned(g.ivs[i as int], Assignment::Reg(r)),
                    ),
                    ..g
                },
                Pool { act: q.act.remove(k).push(i), ..q },
            )
        } else {
            (spill(f, i as int), q)
        }
    }
}

/// The state of the scan.
pub ghost struct Alloc {
    pub f: Frame,
    pub gpr: Pool,
    pub fp: Pool,
}

/// The first `n` intervals of the order placed.
pub open spec fn scanned(order: Seq<usize>, n: int, a: Alloc) -> Alloc
    decreases n,
{
    if n <= 0 {
        a
    } else {
        let b = scanned(order, n - 1, a);
        let i = order[n - 1];
        if b.f.ivs[i as int].is_fp {
            let (f, fp) = place(b.f, b.fp, i);
            Alloc { f, fp, ..b }
        } else {
            let (f, gpr) = place(b.f, b.gpr, i);
            Alloc { f, gpr, ..b }
        }
    }
}

pub open spec fn fresh_pool(regs: Seq<u8>) -> Pool {
    Pool { act: seq![], free: regs.reverse() }
}

/// The whole allocation: the intervals with their assignments, and the frame slots.
pub open spec fn allocated(ivs: Seq<LiveInterval>) -> Frame {
    let f = spill_crossing(Frame { ivs, slots: seq![] }, ivs.len() as int);
    let order = scan_order(f.ivs, f.ivs.len() as int);
    scanned(
        order,
        order.len() as int,
        Alloc { f, gpr: fresh_pool(gpr_pool()), fp: fresh_pool(fp_pool()) },
    ).f
}

/// Nothing that crosses a safepoint is in a register.
pub open spec fn spilled_all(ivs: Seq<LiveInterval>) -> bool {
    forall|k: int|
        0 <= k < ivs.len() && (#[trigger] ivs[k]).crosses_safepoint ==> reg_of(ivs[k]) is None
}

/// A pool in order: active intervals hold different registers, none of them free, and together with
/// the free ones they are all the registers there are.
pub open spec fn pool_ok(ivs: Seq<LiveInterval>, p: Pool, regs: Seq<u8>, is_fp: bool) -> bool {
    &&& p.act.len() + p.free.len() == regs.len()
    &&& forall|k: int|
        0 <= k < p.act.len() ==> (#[trigger] p.act[k]) < ivs.len() && reg_of(
            ivs[p.act[k] as int],
        ) is Some && regs.contains(reg_of(ivs[p.act[k] as int])->0) && ivs[p.act[k] as int].is_fp
            == is_fp
    &&& forall|k: int| 0 <= k < p.free.len() ==> regs.contains(#[trigger] p.free[k])
    &&& forall|j: int, k: int|
        0 <= j < k < p.act.len() ==> reg_of(ivs[(#[trigger] p.act[j]) as int]) != reg_of(
            ivs[(#[trigger] p.act[k]) as int],
        )
    &&& forall|j: int, k: int|
        0 <= j < k < p.free.len() ==> #[trigger] p.free[j] != #[trigger] p.free[k]
    &&& forall|j: int, k: int|
        0 <= j < p.act.len() && 0 <= k < p.free.len() ==> reg_of(
            ivs[(#[trigger] p.act[j]) as int],
        ) != Some(#[trigger] p.free[k])
}

proof fn lemma_expired(ivs: Seq<LiveInterval>, p: Pool, regs: Seq<u8>, is_fp: bool, start: u32, n: int)
    requires
        pool_ok(ivs, p, regs, is_fp),
        0 <= n <= p.act.len(),
    ensures
        ({
            let q = expired(ivs, p, start, n);
            &&& pool_ok(ivs, Pool { act: q.act + p.act.skip(n), free: q.free }, regs, is_fp)
            &&& forall|k: int| 0 <= k < q.act.len() ==> p.act.take(n).contains(#[trigger] q.act[k])
            &&& forall|k: int| 0 <= k < q.act.len() ==> ivs[(#[trigger] q.act[k]) as int].end >= start
            &&& forall|k: int|
                0 <= k < n && ivs[(#[trigger] p.act[k]) as int].end >= start ==> q.act.contains(
                    p.act[k],
                )
        }),
    decreases n,
{
    if n <= 0 {
        let q = expired(ivs, p, start, n);
        assert(q.act + p.act.skip(0) =~= p.act);
    } else {
        lemma_expired(ivs, p, regs, is_fp, start, n - 1);
        let q0 = expired(ivs, p, start, n - 1);
        let q = expired(ivs, p, start, n);
        let j = p.act[n - 1];
        let a0 = q0.act + p.act.skip(n - 1);
        let a1 = q.act + p.act.skip(n);
        assert(a0[q0.act.len() as int] == j);
        assert forall|k: int| 0 <= k < q0.act.len() implies p.act.take(n).contains(
            #[trigger] q0.act[k],
        ) by {
            assert(p.act.take(n - 1).contains(q0.act[k]));
            let h = p.act.take(n - 1).index_of(q0.act[k]);
            assert(p.act.take(n - 1)[h] == q0.act[k]);
            assert(p.act.take(n)[h] == q0.act[k]);
        }
        if ivs[j as int].end < start {
            assert(a1 =~= a0.remove(q0.act.len() as int));
            let r = reg_of(ivs[j as int])->0;
            assert(q.free == q0.free.push(r));
            assert forall|k: int| 0 <= k < a1.len() implies exists|h: int|
                0 <= h < a0.len() && h != q0.act.len() && a0[h] == #[trigger] a1[k] by {
                if k < q0.act.len() {
                    assert(a0[k] == a1[k]);
                } else {
                    assert(a0[k + 1] == a1[k]);
                }
            }
            assert forall|h: int, k: int| 0 <= h < k < a1.len() implies reg_of(
                ivs[(#[trigger] a1[h]) as int],
            ) != reg_of(ivs[(#[trigger] a1[k]) as int]) by {
                let h0 = if h < q0.act.len() {
                    h
                } else {
                    h + 1
                };
                let k0 = if k < q0.act.len() {
                    k
                } else {
                    k + 1
                };
                assert(a0[h0] == a1[h] && a0[k0] == a1[k] && h0 < k0);
            }
            assert forall|h: int, k: int|
                0 <= h < a1.len() && 0 <= k < q.free.len() implies reg_of(
                ivs[(#[trigger] a1[h]) as int],
            ) != Some(#[trigger] q.free[k]) by {
                let h0 = if h < q0.act.len() {
                    h
                } else {
                    h + 1
                };
                assert(a0[h0] == a1[h]);
                if k < q0.free.len() {
                    assert(q.free[k] == q0.free[k]);
                } else {
                    let m = q0.act.len() as int;
                    if h0 < m {
                        assert(reg_of(ivs[a0[h0] as int]) != reg_of(ivs[a0[m] as int]));
                    } else {
                        assert(reg_of(ivs[a0[m] as int]) != reg_of(ivs[a0[h0] as int]));
                    }
                }
            }
            assert forall|h: int, k: int| 0 <= h < k < q.free.len() implies #[trigger] q.free[h]
                != #[trigger] q.free[k] by {
                if k == q0.free.len() {
                    assert(reg_of(ivs[a0[q0.act.len() as int] as int]) != Some(q0.free[h]));
                }
            }
            assert forall|k: int| 0 <= k < q.free.len() implies regs.contains(
                #[trigger] q.free[k],
            ) by {
                if k < q0.free.len() {
                    assert(q.free[k] == q0.free[k]);
                }
            }
            assert forall|k: int| 0 <= k < a1.len() implies (#[trigger] a1[k]) < ivs.len()
                && reg_of(ivs[a1[k] as int]) is Some && regs.contains(
                reg_of(ivs[a1[k] as int])->0,
            ) && ivs[a1[k] as int].is_fp == is_fp by {
                let h0 = if k < q0.act.len() {
                    k
                } else {
                    k + 1
                };
                assert(a0[h0] == a1[k]);
            }
            assert forall|k: int|
                0 <= k < n && ivs[(#[trigger] p.act[k]) as int].end >= start implies q.act.contains(
                p.act[k],
            ) by {
                assert(k < n - 1);
            }
        } else {
            assert(a1 =~= a0);
            assert(q.act == q0.act.push(j));
            assert forall|k: int| 0 <= k < q.act.len() implies p.act.take(n).contains(
                #[trigger] q.act[k],
            ) by {
                if k == q0.act.len() {
                    assert(p.act.take(n)[n - 1] == j);
                } else {
                    assert(q.act[k] == q0.act[k]);
                }
            }
            assert forall|k: int|
                0 <= k < n && ivs[(#[trigger] p.act[k]) as int].end >= start implies q.act.contains(
                p.act[k],
            ) by {
                if k < n - 1 {
                    assert(q0.act.contains(p.act[k]));
                    let h = choose|h: int| 0 <= h < q0.act.len() && q0.act[h] == p.act[k];
                    assert(q.act[h] == p.act[k]);
                } else {
                    assert(q.act[q0.act.len() as int] == j);
                }
            }
        }
    }
}

/// Interval `a` is interval `b` but for where it lives.
pub open spec fn same_range(a: LiveInterval, b: LiveInterval) -> bool {
    a == (LiveInterval { assignment: a.assignment, ..b })
}

/// The order of a scan: unassigned intervals, each once, by start.
pub open spec fn order_ok(ivs: Seq<LiveInterval>, o: Seq<usize>, n: int) -> bool {
    &&& forall|k: int| 0 <= k < o.len() ==> (#[trigger] o[k]) < n && ivs[o[k] as int].assignment is None
    &&& forall|i: usize| i < n && (#[trigger] ivs[i as int]).assignment is None ==> o.contains(i)
    &&& o.no_duplicates()
    &&& forall|j: int, k: int|
        0 <= j <= k < o.len() ==> ivs[(#[trigger] o[j]) as int].start <= ivs[(#[trigger] o[k]) as int].start
}

proof fn lemma_insert(ivs: Seq<LiveInterval>, o: Seq<usize>, i: usize)
    requires
        !o.contains(i),
        o.no_duplicates(),
        forall|j: int, k: int|
            0 <= j <= k < o.len() ==> ivs[(#[trigger] o[j]) as int].start <= ivs[(
            #[trigger] o[k]) as int].start,
    ensures
        ({
            let r = insert_by_start(ivs, o, i);
            &&& r.len() == o.len() + 1
            &&& r.no_duplicates()
            &&& forall|x: usize| #[trigger] r.contains(x) <==> x == i || o.contains(x)
            &&& forall|j: int, k: int|
                0 <= j <= k < r.len() ==> ivs[(#[trigger] r[j]) as int].start <= ivs[(
                #[trigger] r[k]) as int].start
        }),
    decreases o.len(),
{
    let r = insert_by_start(ivs, o, i);
    if o.len() == 0 {
        assert(r[0] == i);
        assert(r.contains(i));
    } else if ivs[o.last() as int].start <= ivs[i as int].start {
        assert(r[o.len() as int] == i);
        assert forall|x: usize| #[trigger] r.contains(x) <==> x == i || o.contains(x) by {
            if o.contains(x) {
                let k = choose|k: int| 0 <= k < o.len() && o[k] == x;
                assert(r[k] == x);
            }
        }
    } else {
        let d = o.drop_last();
        assert forall|x: usize| #[trigger] o.contains(x) <==> x == o.last() || d.contains(x) by {
            if o.contains(x) {
                let k = choose|k: int| 0 <= k < o.len() && o[k] == x;
                if k < d.len() {
                    assert(d[k] == x);
                }
            }
            if d.contains(x) {
                let k = choose|k: int| 0 <= k < d.len() && d[k] == x;
                assert(o[k] == x);
            }
        }
        assert(o.contains(o.last()));
        lemma_insert(ivs, d, i);
        let q = insert_by_start(ivs, d, i);
        assert(r == q.push(o.last()));
        assert(!d.contains(o.last())) by {
            if d.contains(o.last()) {
                let k = choose|k: int| 0 <= k < d.len() && d[k] == o.last();
                assert(o[k] == o[o.len() - 1]);
            }
        }
        assert forall|k: int| 0 <= k < q.len() implies #[trigger] q[k] != o.last() && ivs[q[k] as int].start <= ivs[o.last() as int].start by {
            assert(q.contains(q[k]));
            if q[k] != i {
                assert(d.contains(q[k]));
                let h = choose|h: int| 0 <= h < d.len() && d[h] == q[k];
                assert(o[h] == q[k]);
                assert(o[o.len() - 1] == o.last());
            }
        }
        assert forall|x: usize| #[trigger] r.contains(x) <==> x == i || o.contains(x) by {
            if x == i || d.contains(x) {
                assert(q.contains(x));
                let k = choose|k: int| 0 <= k < q.len() && q[k] == x;
                assert(r[k] == x);
            }
            if x == o.last() {
                assert(r[q.len() as int] == x);
            }
            if r.contains(x) {
                let k = choose|k: int| 0 <= k < r.len() && r[k] == x;
                if k < q.len() {
                    assert(q[k] == x);
                    assert(q.contains(x));
                }
            }
        }
    }
}

proof fn lemma_scan_order(ivs: Seq<LiveInterval>, n: int)
    requires
        0 <= n <= ivs.len() <= usize::MAX,
    ensures
        order_ok(ivs, scan_order(ivs, n), n),
    decreases n,
{
    if n > 0 {
        lemma_scan_order(ivs, n - 1);
        let o = scan_order(ivs, n - 1);
        let i = (n - 1) as usize;
        let r = scan_order(ivs, n);
        if ivs[n - 1].assignment is None {
            assert(!o.contains(i));
            lemma_insert(ivs, o, i);
            assert forall|k: int| 0 <= k < r.len() implies (#[trigger] r[k]) < n
                && ivs[r[k] as int].assignment is None by {
                assert(r.contains(r[k]));
                if r[k] != i {
                    let h = choose|h: int| 0 <= h < o.len() && o[h] == r[k];
                }
            }
            assert forall|x: usize|
                x < n && (#[trigger] ivs[x as int]).assignment is None implies r.contains(x) by {
                if x != i {
                    assert(o.contains(x));
                }
            }
        }
    }
}

/// One register file after the first `n` intervals of the order: besides the pool being in order,
/// every placed interval of the file that holds a register is active or over before anything still to
/// come, and two that share a register follow one another.
spec fn file_ok(
    ivs: Seq<LiveInterval>,
    p: Pool,
    regs: Seq<u8>,
    is_fp: bool,
    order: Seq<usize>,
    n: int,
) -> bool {
    &&& pool_ok(ivs, p, regs, is_fp)
    &&& forall|k: int|
        0 <= k < n && ivs[(#[trigger] order[k]) as int].is_fp == is_fp && reg_of(
            ivs[order[k] as int],
        ) is Some ==> regs.contains(reg_of(ivs[order[k] as int])->0) && (p.act.contains(order[k])
            || over_by(ivs, order, k, n))
    &&& forall|j: int, k: int|
        0 <= j < k < n && ivs[(#[trigger] order[j]) as int].is_fp == is_fp && ivs[(
        #[trigger] order[k]) as int].is_fp == is_fp && reg_of(ivs[order[j] as int]) is Some
            && reg_of(ivs[order[j] as int]) == reg_of(ivs[order[k] as int])
            ==> ivs[order[j] as int].end < ivs[order[k] as int].start
}

spec fn over_by(ivs: Seq<LiveInterval>, order: Seq<usize>, k: int, n: int) -> bool {
    forall|m: int|
        n <= m < order.len() ==> ivs[order[k] as int].end < ivs[(#[trigger] order[m]) as int].start
}

/// Every spilled interval has a slot of its own, marked with whether it holds an object.
pub open spec fn slots_ok(f: Frame) -> bool {
    &&& forall|k: int|
        0 <= k < f.ivs.len() && slot_of(#[trigger] f.ivs[k]) is Some ==> slot_of(f.ivs[k])->0
            < f.slots.len() && f.slots[slot_of(f.ivs[k])->0 as int] == f.ivs[k].is_oop
    &&& forall|j: int, k: int|
        0 <= j < k < f.ivs.len() && slot_of(#[trigger] f.ivs[j]) is Some ==> slot_of(f.ivs[j])
            != slot_of(#[trigger] f.ivs[k])
}

proof fn lemma_spill(f: Frame, i: int)
    requires
        0 <= i < f.ivs.len(),
        slot_of(f.ivs[i]) is None,
        slots_ok(f),
        f.slots.len() < 0x10000,
    ensures
        slots_ok(spill(f, i)),
{
    let g = spill(f, i);
    assert forall|j: int, k: int|
        0 <= j < k < g.ivs.len() && slot_of(#[trigger] g.ivs[j]) is Some implies slot_of(g.ivs[j])
        != slot_of(#[trigger] g.ivs[k]) by {
        if j != i && k != i {
            assert(g.ivs[j] == f.ivs[j] && g.ivs[k] == f.ivs[k]);
        }
    }
}

/// What the scan keeps after the first `n` intervals of the order.
spec fn scan_inv(a: Alloc, f0: Frame, order: Seq<usize>, n: int) -> bool {
    let ivs = a.f.ivs;
    &&& ivs.len() == f0.ivs.len()
    &&& forall|k: int| 0 <= k < ivs.len() ==> same_range(#[trigger] ivs[k], f0.ivs[k])
    &&& forall|k: int|
        0 <= k < ivs.len() && !order.contains(k as usize) ==> (#[trigger] ivs[k]) == f0.ivs[k]
    &&& forall|k: int| 0 <= k < n ==> ivs[(#[trigger] order[k]) as int].assignment is Some
    &&& forall|k: int|
        n <= k < order.len() ==> ivs[(#[trigger] order[k]) as int].assignment is None
    &&& f0.slots.len() <= a.f.slots.len() <= f0.slots.len() + n
    &&& forall|k: int| 0 <= k < a.gpr.act.len() ==> order.take(n).contains(#[trigger] a.gpr.act[k])
    &&& forall|k: int| 0 <= k < a.fp.act.len() ==> order.take(n).contains(#[trigger] a.fp.act[k])
    &&& file_ok(ivs, a.gpr, gpr_pool(), false, order, n)
    &&& file_ok(ivs, a.fp, fp_pool(), true, order, n)
    &&& slots_ok(f0) && a.f.slots.len() <= 0x10000 ==> slots_ok(a.f)
}

/// A file is untouched by what is placed in the other.
proof fn lemma_other_file(
    ivs: Seq<LiveInterval>,
    ivs2: Seq<LiveInterval>,
    p: Pool,
    regs: Seq<u8>,
    is_fp: bool,
    order: Seq<usize>,
    n: int,
)
    requires
        file_ok(ivs, p, regs, is_fp, order, n),
        0 <= n < order.len(),
        ivs2.len() == ivs.len(),
        ivs[order[n] as int].is_fp != is_fp,
        forall|k: int| 0 <= k < order.len() ==> (#[trigger] order[k]) < ivs.len(),
        forall|k: int| 0 <= k < ivs.len() ==> same_range(#[trigger] ivs2[k], ivs[k]),
        forall|k: int| 0 <= k < ivs.len() && ivs[k].is_fp == is_fp ==> #[trigger] ivs2[k] == ivs[k],
    ensures
        file_ok(ivs2, p, regs, is_fp, order, n + 1),
{
    assert forall|k: int| 0 <= k < p.act.len() implies ivs2[(#[trigger] p.act[k]) as int]
        == ivs[p.act[k] as int] by {}
    assert(pool_ok(ivs2, p, regs, is_fp));
    assert forall|k: int|
        0 <= k < n + 1 && ivs2[(#[trigger] order[k]) as int].is_fp == is_fp && reg_of(
            ivs2[order[k] as int],
        ) is Some implies regs.contains(reg_of(ivs2[order[k] as int])->0) && (p.act.contains(
        order[k],
    ) || over_by(ivs2, order, k, n + 1)) by {
        assert(same_range(ivs2[order[k] as int], ivs[order[k] as int]));
        assert(k < n);
        if over_by(ivs, order, k, n) {
            assert forall|m: int| n + 1 <= m < order.len() implies ivs2[order[k] as int].end
                < ivs2[(#[trigger] order[m]) as int].start by {
                assert(same_range(ivs2[order[m] as int], ivs[order[m] as int]));
            }
        }
    }
    assert forall|j: int, k: int|
        0 <= j < k < n + 1 && ivs2[(#[trigger] order[j]) as int].is_fp == is_fp && ivs2[(
        #[trigger] order[k]) as int].is_fp == is_fp && reg_of(ivs2[order[j] as int]) is Some
            && reg_of(ivs2[order[j] as int]) == reg_of(ivs2[order[k] as int]) implies ivs2[order[j] as int].end
        < ivs2[order[k] as int].start by {
        assert(same_range(ivs2[order[j] as int], ivs[order[j] as int]));
        assert(same_range(ivs2[order[k] as int], ivs[order[k] as int]));
        assert(k < n);
    }
}

proof fn lemma_furthest(ivs: Seq<LiveInterval>, act: Seq<usize>, n: int)
    requires
        1 <= n <= act.len(),
    ensures
        0 <= furthest(ivs, act, n) < n,
        forall|k: int| 0 <= k < n ==> ivs[(#[trigger] act[k]) as int].end <= ivs[act[furthest(ivs, act, n)] as int].end,
    decreases n,
{
    if n > 1 {
        lemma_furthest(ivs, act, n - 1);
    }
}

/// Placing the next interval of the order keeps its file in order.
#[verifier::rlimit(60)]
#[verifier::spinoff_prover]
proof fn lemma_place(f: Frame, p: Pool, regs: Seq<u8>, is_fp: bool, order: Seq<usize>, n: int)
    requires
        file_ok(f.ivs, p, regs, is_fp, order, n),
        0 <= n < order.len(),
        regs.len() > 0,
        f.ivs[order[n] as int].is_fp == is_fp,
        f.ivs[order[n] as int].assignment is None,
        forall|k: int| 0 <= k < order.len() ==> (#[trigger] order[k]) < f.ivs.len(),
        forall|k: int| 0 <= k < p.act.len() ==> order.take(n).contains(#[trigger] p.act[k]),
        order.no_duplicates(),
        forall|j: int, k: int|
            0 <= j <= k < order.len() ==> f.ivs[(#[trigger] order[j]) as int].start <= f.ivs[(
            #[trigger] order[k]) as int].start,
    ensures
        ({
            let (g, q) = place(f, p, order[n]);
            let i = order[n] as int;
            &&& g.ivs.len() == f.ivs.len()
            &&& forall|k: int| 0 <= k < f.ivs.len() ==> same_range(#[trigger] g.ivs[k], f.ivs[k])
            &&& forall|k: int|
                0 <= k < f.ivs.len() && k != i && reg_of(f.ivs[k]) is None ==> #[trigger] g.ivs[k]
                    == f.ivs[k]
            &&& forall|k: int|
                0 <= k < f.ivs.len() && f.ivs[k].is_fp != is_fp ==> #[trigger] g.ivs[k] == f.ivs[k]
            &&& forall|k: int|
                0 <= k < f.ivs.len() && !order.take(n + 1).contains(k as usize)
                    ==> #[trigger] g.ivs[k] == f.ivs[k]
            &&& g.ivs[i].assignment is Some
            &&& forall|k: int|
                0 <= k < f.ivs.len() && f.ivs[k].assignment is Some ==> (
                #[trigger] g.ivs[k]).assignment is Some
            &&& file_ok(g.ivs, q, regs, is_fp, order, n + 1)
            &&& forall|k: int|
                0 <= k < q.act.len() ==> order.take(n + 1).contains(#[trigger] q.act[k])
            &&& f.slots.len() <= g.slots.len() <= f.slots.len() + 1
            &&& slots_ok(f) && g.slots.len() <= 0x10000 ==> slots_ok(g)
        }),
{
    let i = order[n];
    let start = f.ivs[i as int].start;
    let e = expired(f.ivs, p, start, p.act.len() as int);
    let (g, q) = place(f, p, i);
    lemma_expired(f.ivs, p, regs, is_fp, start, p.act.len() as int);
    assert(e.act + p.act.skip(p.act.len() as int) =~= e.act);
    assert(pool_ok(f.ivs, e, regs, is_fp));
    assert forall|k: int| 0 <= k < e.act.len() implies order.take(n).contains(#[trigger] e.act[k])
        && order.take(n + 1).contains(e.act[k]) by {
        assert(p.act.take(p.act.len() as int) =~= p.act);
        assert(p.act.contains(e.act[k]));
        let h = choose|h: int| 0 <= h < p.act.len() && p.act[h] == e.act[k];
        assert(order.take(n).contains(p.act[h]));
        let m = order.take(n).index_of(p.act[h]);
        assert(order.take(n)[m] == p.act[h]);
        assert(order.take(n + 1)[m] == p.act[h]);
    }
    assert(order.take(n + 1)[n] == i);
    assert(order.take(n + 1).contains(i));
    // Of the placed intervals only active ones are not yet over.
    assert forall|k: int|
        0 <= k < n && f.ivs[(#[trigger] order[k]) as int].is_fp == is_fp && reg_of(
            f.ivs[order[k] as int],
        ) is Some && !e.act.contains(order[k]) implies over_by(f.ivs, order, k, n) by {
        if p.act.contains(order[k]) {
            let h = choose|h: int| 0 <= h < p.act.len() && p.act[h] == order[k];
            assert(f.ivs[p.act[h] as int].end < start);
            assert forall|m: int| n <= m < order.len() implies f.ivs[order[k] as int].end
                < f.ivs[(#[trigger] order[m]) as int].start by {
                assert(f.ivs[order[n] as int].start <= f.ivs[order[m] as int].start);
            }
        }
    }
    if e.free.len() > 0 {
        let r = e.free.last();
        assert forall|k: int| 0 <= k < q.act.len() implies order.take(n + 1).contains(
            #[trigger] q.act[k],
        ) by {
            if k < e.act.len() {
                assert(q.act[k] == e.act[k]);
            }
        }
        assert forall|k: int| 0 <= k < e.act.len() implies (#[trigger] e.act[k]) != i by {}
        assert forall|k: int| 0 <= k < q.act.len() implies (#[trigger] q.act[k]) < g.ivs.len()
            && reg_of(g.ivs[q.act[k] as int]) == (if k < e.act.len() {
            reg_of(f.ivs[e.act[k] as int])
        } else {
            Some(r)
        }) && g.ivs[q.act[k] as int].is_fp == is_fp by {
            if k < e.act.len() {
                assert(q.act[k] == e.act[k]);
            }
        }
        assert(pool_ok(g.ivs, q, regs, is_fp)) by {
            assert forall|h: int, k: int| 0 <= h < k < q.act.len() implies reg_of(
                g.ivs[(#[trigger] q.act[h]) as int],
            ) != reg_of(g.ivs[(#[trigger] q.act[k]) as int]) by {
                assert(q.act[h] == e.act[h]);
                if k < e.act.len() {
                    assert(q.act[k] == e.act[k]);
                } else {
                    assert(e.free[e.free.len() - 1] == r);
                }
            }
            assert forall|k: int| 0 <= k < q.act.len() implies regs.contains(
                reg_of(g.ivs[(#[trigger] q.act[k]) as int])->0,
            ) by {
                if k < e.act.len() {
                    assert(q.act[k] == e.act[k]);
                } else {
                    assert(e.free[e.free.len() - 1] == r);
                }
            }
            assert forall|h: int, k: int|
                0 <= h < q.act.len() && 0 <= k < q.free.len() implies reg_of(
                g.ivs[(#[trigger] q.act[h]) as int],
            ) != Some(#[trigger] q.free[k]) by {
                assert(q.free[k] == e.free[k]);
                if h < e.act.len() {
                    assert(q.act[h] == e.act[h]);
                } else {
                    assert(e.free[e.free.len() - 1] == r);
                }
            }
        }
        assert(q.act[q.act.len() - 1] == i);
        assert forall|k: int| 0 <= k < n && e.act.contains(#[trigger] order[k]) implies q.act.contains(
            order[k],
        ) by {
            let h = choose|h: int| 0 <= h < e.act.len() && e.act[h] == order[k];
            assert(q.act[h] == order[k]);
        }
        assert(e.free[e.free.len() - 1] == r);
        lemma_newcomer(f.ivs, g.ivs, e, q, regs, is_fp, order, n, r, i);
        if slots_ok(f) {
            assert forall|k: int| 0 <= k < f.ivs.len() implies slot_of(#[trigger] g.ivs[k])
                == slot_of(f.ivs[k]) && g.ivs[k].is_oop == f.ivs[k].is_oop by {}
            assert(slots_ok(g));
        }
    } else {
        assert(e.act.len() > 0);
        lemma_furthest(f.ivs, e.act, e.act.len() as int);
        let k0 = furthest(f.ivs, e.act, e.act.len() as int);
        let j = e.act[k0];
        if f.ivs[j as int].end > f.ivs[i as int].end {
            let r = reg_of(f.ivs[j as int])->0;
            let h = spill(f, j as int);
            assert(j != i);
            assert(q.act == e.act.remove(k0).push(i));
            assert forall|k: int| 0 <= k < q.act.len() implies order.take(n + 1).contains(
                #[trigger] q.act[k],
            ) by {
                if k < e.act.len() - 1 {
                    let k1 = if k < k0 {
                        k
                    } else {
                        k + 1
                    };
                    assert(q.act[k] == e.act[k1]);
                }
            }
            assert forall|k: int| 0 <= k < e.act.len() && k != k0 implies (#[trigger] e.act[k])
                != i && e.act[k] != j by {}
            assert(pool_ok(g.ivs, q, regs, is_fp)) by {
                assert forall|k: int| 0 <= k < q.act.len() implies (#[trigger] q.act[k])
                    < g.ivs.len() && reg_of(g.ivs[q.act[k] as int]) is Some && regs.contains(
                    reg_of(g.ivs[q.act[k] as int])->0,
                ) && g.ivs[q.act[k] as int].is_fp == is_fp by {
                    if k < e.act.len() - 1 {
                        let k1 = if k < k0 {
                            k
                        } else {
                            k + 1
                        };
                        assert(q.act[k] == e.act[k1]);
                    }
                }
                assert forall|a: int, b: int| 0 <= a < b < q.act.len() implies reg_of(
                    g.ivs[(#[trigger] q.act[a]) as int],
                ) != reg_of(g.ivs[(#[trigger] q.act[b]) as int]) by {
                    let a1 = if a < k0 {
                        a
                    } else {
                        a + 1
                    };
                    assert(q.act[a] == e.act[a1]);
                    if b < e.act.len() - 1 {
                        let b1 = if b < k0 {
                            b
                        } else {
                            b + 1
                        };
                        assert(q.act[b] == e.act[b1]);
                    } else if a1 < k0 {
                        assert(reg_of(f.ivs[e.act[a1] as int]) != reg_of(f.ivs[e.act[k0] as int]));
                    } else {
                        assert(reg_of(f.ivs[e.act[k0] as int]) != reg_of(f.ivs[e.act[a1] as int]));
                    }
                }
            }
            assert(order.take(n).contains(e.act[k0]));
            assert(order.take(n + 1).contains(j));
            assert forall|k: int| 0 <= k < n && order[k] != j && e.act.contains(
                #[trigger] order[k],
            ) implies q.act.contains(order[k]) by {
                let k1 = choose|k1: int| 0 <= k1 < e.act.len() && e.act[k1] == order[k];
                let k2 = if k1 < k0 {
                    k1
                } else {
                    k1 - 1
                };
                assert(q.act[k2] == order[k]);
            }
            assert(q.act[q.act.len() - 1] == i);
            lemma_newcomer(f.ivs, g.ivs, e, q, regs, is_fp, order, n, r, j);
            if slots_ok(f) && g.slots.len() <= 0x10000 {
                lemma_spill(f, j as int);
                assert forall|k: int| 0 <= k < f.ivs.len() implies slot_of(#[trigger] g.ivs[k])
                    == slot_of(h.ivs[k]) && g.ivs[k].is_oop == h.ivs[k].is_oop by {
                    if k == i {
                        assert(h.ivs[k] == f.ivs[k]);
                    }
                }
                assert(slots_ok(g));
            }
        } else {
            assert forall|k: int| 0 <= k < e.act.len() implies (#[trigger] e.act[k]) != i by {}
            assert(pool_ok(g.ivs, q, regs, is_fp));
            assert forall|k: int|
                0 <= k < n + 1 && g.ivs[(#[trigger] order[k]) as int].is_fp == is_fp && reg_of(
                    g.ivs[order[k] as int],
                ) is Some implies regs.contains(reg_of(g.ivs[order[k] as int])->0) && (
            q.act.contains(order[k]) || over_by(g.ivs, order, k, n + 1)) by {
                assert(k < n);
                assert(order[k] != i);
                if over_by(f.ivs, order, k, n) {
                    assert(over_by(g.ivs, order, k, n + 1));
                }
            }
            if slots_ok(f) && g.slots.len() <= 0x10000 {
                lemma_spill(f, i as int);
            }
        }
    }
}

/// The interval that got register `r` shares it only with intervals that are over; `lost` is the one
/// that gave it up, or the newcomer itself where the register was free.
proof fn lemma_newcomer(
    ivs: Seq<LiveInterval>,
    ivs2: Seq<LiveInterval>,
    e: Pool,
    q: Pool,
    regs: Seq<u8>,
    is_fp: bool,
    order: Seq<usize>,
    n: int,
    r: u8,
    lost: usize,
)
    requires
        pool_ok(ivs, e, regs, is_fp),
        pool_ok(ivs2, q, regs, is_fp),
        0 <= n < order.len(),
        ivs2.len() == ivs.len(),
        order.no_duplicates(),
        forall|k: int| 0 <= k < order.len() ==> (#[trigger] order[k]) < ivs.len(),
        forall|k: int| 0 <= k < ivs.len() ==> same_range(#[trigger] ivs2[k], ivs[k]),
        forall|k: int| 0 <= k < ivs.len() && k != order[n] && k != lost ==> #[trigger] ivs2[k] == ivs[k],
        ivs[order[n] as int].is_fp == is_fp,
        reg_of(ivs2[order[n] as int]) == Some(r),
        regs.contains(r),
        lost != order[n] ==> reg_of(ivs2[lost as int]) is None && lost < ivs.len(),
        q.act.contains(order[n]),
        forall|k: int|
            0 <= k < n && order[k] != lost && e.act.contains(#[trigger] order[k])
                ==> q.act.contains(order[k]),
        forall|k: int|
            0 <= k < e.act.len() && (#[trigger] e.act[k]) != lost ==> reg_of(ivs[e.act[k] as int])
                != Some(r),
        forall|k: int|
            0 <= k < n && ivs[(#[trigger] order[k]) as int].is_fp == is_fp && reg_of(
                ivs[order[k] as int],
            ) is Some ==> regs.contains(reg_of(ivs[order[k] as int])->0) && (e.act.contains(
                order[k],
            ) || over_by(ivs, order, k, n)),
        forall|j: int, k: int|
            0 <= j < k < n && ivs[(#[trigger] order[j]) as int].is_fp == is_fp && ivs[(
            #[trigger] order[k]) as int].is_fp == is_fp && reg_of(ivs[order[j] as int]) is Some
                && reg_of(ivs[order[j] as int]) == reg_of(ivs[order[k] as int])
                ==> ivs[order[j] as int].end < ivs[order[k] as int].start,
    ensures
        file_ok(ivs2, q, regs, is_fp, order, n + 1),
{
    assert forall|k: int|
        0 <= k < n + 1 && ivs2[(#[trigger] order[k]) as int].is_fp == is_fp && reg_of(
            ivs2[order[k] as int],
        ) is Some implies regs.contains(reg_of(ivs2[order[k] as int])->0) && (q.act.contains(
        order[k],
    ) || over_by(ivs2, order, k, n + 1)) by {
        if k < n {
            assert(order[k] != order[n]);
            assert(order[k] != lost);
            assert(ivs2[order[k] as int] == ivs[order[k] as int]);
            if over_by(ivs, order, k, n) {
                assert forall|m: int| n + 1 <= m < order.len() implies ivs2[order[k] as int].end
                    < ivs2[(#[trigger] order[m]) as int].start by {
                    assert(same_range(ivs2[order[m] as int], ivs[order[m] as int]));
                }
            }
        }
    }
    assert forall|j: int, k: int|
        0 <= j < k < n + 1 && ivs2[(#[trigger] order[j]) as int].is_fp == is_fp && ivs2[(
        #[trigger] order[k]) as int].is_fp == is_fp && reg_of(ivs2[order[j] as int]) is Some
            && reg_of(ivs2[order[j] as int]) == reg_of(ivs2[order[k] as int]) implies ivs2[order[j] as int].end
        < ivs2[order[k] as int].start by {
        assert(order[j] != order[n]);
        assert(order[j] != lost);
        assert(ivs2[order[j] as int] == ivs[order[j] as int]);
        if k < n {
            assert(order[k] != order[n]);
            assert(order[k] != lost);
            assert(ivs2[order[k] as int] == ivs[order[k] as int]);
        } else {
            if e.act.contains(order[j]) {
                let h = choose|h: int| 0 <= h < e.act.len() && e.act[h] == order[j];
                assert(reg_of(ivs[e.act[h] as int]) != Some(r));
            }
            assert(over_by(ivs, order, j, n));
            assert(ivs[order[j] as int].end < ivs[order[n] as int].start);
            assert(same_range(ivs2[order[n] as int], ivs[order[n] as int]));
        }
    }
}

spec fn first_alloc(f0: Frame) -> Alloc {
    Alloc { f: f0, gpr: fresh_pool(gpr_pool()), fp: fresh_pool(fp_pool()) }
}

proof fn lemma_scan_step(a: Alloc, f0: Frame, order: Seq<usize>, n: int)
    requires
        0 <= n < order.len(),
        order_ok(f0.ivs, order, f0.ivs.len() as int),
        f0.ivs.len() <= usize::MAX,
        scan_inv(a, f0, order, n),
    ensures
        ({
            let i = order[n];
            scan_inv(
                if a.f.ivs[i as int].is_fp {
                    let (f, fp) = place(a.f, a.fp, i);
                    Alloc { f, fp, ..a }
                } else {
                    let (f, gpr) = place(a.f, a.gpr, i);
                    Alloc { f, gpr, ..a }
                },
                f0,
                order,
                n + 1,
            )
        }),
{
    let i = order[n];
    let is_fp = a.f.ivs[i as int].is_fp;
    let p = if is_fp {
        a.fp
    } else {
        a.gpr
    };
    let other = if is_fp {
        a.gpr
    } else {
        a.fp
    };
    let regs = if is_fp {
        fp_pool()
    } else {
        gpr_pool()
    };
    let other_regs = if is_fp {
        gpr_pool()
    } else {
        fp_pool()
    };
    assert forall|j: int, k: int| 0 <= j <= k < order.len() implies a.f.ivs[(
    #[trigger] order[j]) as int].start <= a.f.ivs[(#[trigger] order[k]) as int].start by {
        assert(same_range(a.f.ivs[order[j] as int], f0.ivs[order[j] as int]));
        assert(same_range(a.f.ivs[order[k] as int], f0.ivs[order[k] as int]));
    }
    lemma_place(a.f, p, regs, is_fp, order, n);
    let (g, q) = place(a.f, p, i);
    lemma_other_file(a.f.ivs, g.ivs, other, other_regs, !is_fp, order, n);
    assert forall|k: int| 0 <= k < g.ivs.len() implies same_range(#[trigger] g.ivs[k], f0.ivs[k]) by {
        assert(same_range(g.ivs[k], a.f.ivs[k]));
        assert(same_range(a.f.ivs[k], f0.ivs[k]));
    }
    assert forall|k: int| 0 <= k < g.ivs.len() && !order.contains(k as usize) implies (
    #[trigger] g.ivs[k]) == f0.ivs[k] by {
        if order.take(n + 1).contains(k as usize) {
            let h = order.take(n + 1).index_of(k as usize);
            assert(order[h] == k as usize);
        }
        assert(a.f.ivs[k] == f0.ivs[k]);
    }
    assert forall|k: int| n + 1 <= k < order.len() implies g.ivs[(
    #[trigger] order[k]) as int].assignment is None by {
        assert(order[k] != order[n]);
    }
    assert forall|k: int| 0 <= k < other.act.len() implies order.take(n + 1).contains(
        #[trigger] other.act[k],
    ) by {
        assert(order.take(n).contains(other.act[k]));
        let h = order.take(n).index_of(other.act[k]);
        assert(order.take(n)[h] == other.act[k]);
        assert(order.take(n + 1)[h] == other.act[k]);
    }
}

proof fn lemma_scan_start(f0: Frame, order: Seq<usize>)
    requires
        order_ok(f0.ivs, order, f0.ivs.len() as int),
    ensures
        scan_inv(first_alloc(f0), f0, order, 0),
{
    let a = first_alloc(f0);
    assert forall|k: int| 0 <= k < a.gpr.free.len() implies gpr_pool().contains(
        #[trigger] a.gpr.free[k],
    ) by {
        assert(a.gpr.free[k] == gpr_pool()[6 - k]);
    }
    assert forall|k: int| 0 <= k < a.fp.free.len() implies fp_pool().contains(
        #[trigger] a.fp.free[k],
    ) by {
        assert(a.fp.free[k] == fp_pool()[2 - k]);
    }
    assert(pool_ok(f0.ivs, a.gpr, gpr_pool(), false));
    assert(pool_ok(f0.ivs, a.fp, fp_pool(), true));
}

proof fn lemma_scan(f0: Frame, order: Seq<usize>, n: int)
    requires
        0 <= n <= order.len(),
        order_ok(f0.ivs, order, f0.ivs.len() as int),
        f0.ivs.len() <= usize::MAX,
    ensures
        scan_inv(scanned(order, n, first_alloc(f0)), f0, order, n),
    decreases n,
{
    if n == 0 {
        lemma_scan_start(f0, order);
    } else {
        lemma_scan(f0, order, n - 1);
        lemma_scan_step(scanned(order, n - 1, first_alloc(f0)), f0, order, n - 1);
    }
}

/// Spilling what crosses a safepoint touches nothing else.
proof fn lemma_spill_crossing(f0: Frame, n: int)
    requires
        0 <= n <= f0.ivs.len(),
        f0.slots.len() == 0,
    ensures
        ({
            let f = spill_crossing(f0, n);
            &&& f.ivs.len() == f0.ivs.len()
            &&& forall|k: int|
                0 <= k < f.ivs.len() ==> same_range(#[trigger] f.ivs[k], f0.ivs[k]) && (if k < n
                    && f0.ivs[k].crosses_safepoint {
                    slot_of(f.ivs[k]) is Some
                } else {
                    f.ivs[k] == f0.ivs[k]
                })
            &&& f.slots.len() <= n
            &&& (forall|k: int| 0 <= k < f0.ivs.len() ==> (#[trigger] f0.ivs[k]).assignment is None)
                && f.slots.len() <= 0x10000 ==> slots_ok(f)
        }),
    decreases n,
{
    if n > 0 {
        lemma_spill_crossing(f0, n - 1);
        let g = spill_crossing(f0, n - 1);
        let f = spill_crossing(f0, n);
        if g.ivs[n - 1].crosses_safepoint {
            assert(g.ivs[n - 1] == f0.ivs[n - 1]);
            if (forall|k: int| 0 <= k < f0.ivs.len() ==> (#[trigger] f0.ivs[k]).assignment is None)
                && f.slots.len() <= 0x10000 {
                assert(f0.ivs[n - 1].assignment is None);
                lemma_spill(g, n - 1);
            }
        }
    }
}

/// Slots handed out up front and intervals left for the scan are no more than there are intervals.
proof fn lemma_counts(f0: Frame, n: int, full: Seq<LiveInterval>)
    requires
        0 <= n <= f0.ivs.len() <= usize::MAX,
        f0.slots.len() == 0,
        full == spill_crossing(f0, f0.ivs.len() as int).ivs,
    ensures
        spill_crossing(f0, n).slots.len() + scan_order(full, n).len() <= n,
    decreases n,
{
    if n > 0 {
        lemma_counts(f0, n - 1, full);
        lemma_spill_crossing(f0, n - 1);
        lemma_spill_crossing(f0, f0.ivs.len() as int);
        lemma_scan_order(full, n - 1);
        assert(full[n - 1].assignment is None ==> !f0.ivs[n - 1].crosses_safepoint);
        let g = spill_crossing(f0, n - 1);
        assert(g.ivs[n - 1] == f0.ivs[n - 1]);
        if full[n - 1].assignment is None {
            lemma_insert(full, scan_order(full, n - 1), (n - 1) as usize);
        }
    }
}

/// What the allocator promises of intervals that come in without a place. Ranges and flags stay as
/// they were. Everything gets a place, and there are at most as many frame slots as intervals. What
/// crosses a safepoint is in the frame. Registers come from the pool of the interval's class. Of two
/// intervals of one class in one register, one is over before the other starts.
pub proof fn law_allocation_is_sound(ivs: Seq<LiveInterval>)
    requires
        ivs.len() <= usize::MAX,
        forall|k: int| 0 <= k < ivs.len() ==> (#[trigger] ivs[k]).assignment is None,
    ensures
        ({
            let f = allocated(ivs);
            &&& f.ivs.len() == ivs.len()
            &&& f.slots.len() <= ivs.len()
            &&& forall|k: int|
                0 <= k < ivs.len() ==> same_range(#[trigger] f.ivs[k], ivs[k])
                    && f.ivs[k].assignment is Some
            &&& forall|k: int|
                0 <= k < ivs.len() && (#[trigger] f.ivs[k]).crosses_safepoint ==> slot_of(
                    f.ivs[k],
                ) is Some
            &&& forall|k: int|
                0 <= k < ivs.len() && reg_of(#[trigger] f.ivs[k]) is Some ==> (if f.ivs[k].is_fp {
                    fp_pool()
                } else {
                    gpr_pool()
                }).contains(reg_of(f.ivs[k])->0)
            &&& forall|j: int, k: int|
                0 <= j < ivs.len() && 0 <= k < ivs.len() && j != k && (
                #[trigger] f.ivs[j]).is_fp == (#[trigger] f.ivs[k]).is_fp && reg_of(f.ivs[j]) is Some
                    && reg_of(f.ivs[j]) == reg_of(f.ivs[k]) ==> f.ivs[j].end < f.ivs[k].start
                    || f.ivs[k].end < f.ivs[j].start
        }),
{
    let fa = Frame { ivs, slots: seq![] };
    let n = ivs.len() as int;
    let f0 = spill_crossing(fa, n);
    lemma_spill_crossing(fa, n);
    lemma_scan_order(f0.ivs, n);
    lemma_counts(fa, n, f0.ivs);
    let order = scan_order(f0.ivs, n);
    lemma_scan(f0, order, order.len() as int);
    let f = allocated(ivs);
    assert forall|k: int| 0 <= k < n implies same_range(#[trigger] f.ivs[k], ivs[k])
        && f.ivs[k].assignment is Some && (f.ivs[k].crosses_safepoint ==> slot_of(
        f.ivs[k],
    ) is Some) && (!f.ivs[k].crosses_safepoint ==> order.contains(k as usize)) by {
        assert(same_range(f0.ivs[k], ivs[k]));
        assert(same_range(f.ivs[k], f0.ivs[k]));
        let i = k as usize;
        if order.contains(i) {
            let h = choose|h: int| 0 <= h < order.len() && order[h] == i;
            assert(f.ivs[order[h] as int].assignment is Some);
            assert(f0.ivs[order[h] as int].assignment is None);
        } else {
            assert(f.ivs[k] == f0.ivs[k]);
            assert(f0.ivs[i as int].assignment is Some);
        }
    }
    assert forall|k: int| 0 <= k < n && reg_of(#[trigger] f.ivs[k]) is Some implies (
    if f.ivs[k].is_fp {
        fp_pool()
    } else {
        gpr_pool()
    }).contains(reg_of(f.ivs[k])->0) by {
        let h = choose|h: int| 0 <= h < order.len() && order[h] == k as usize;
        assert(f.ivs[order[h] as int] == f.ivs[k]);
    }
    assert forall|j: int, k: int|
        0 <= j < n && 0 <= k < n && j != k && (#[trigger] f.ivs[j]).is_fp == (
        #[trigger] f.ivs[k]).is_fp && reg_of(f.ivs[j]) is Some && reg_of(f.ivs[j]) == reg_of(
            f.ivs[k],
        ) implies f.ivs[j].end < f.ivs[k].start || f.ivs[k].end < f.ivs[j].start by {
        let h = choose|h: int| 0 <= h < order.len() && order[h] == j as usize;
        let m = choose|m: int| 0 <= m < order.len() && order[m] == k as usize;
        assert(f.ivs[order[h] as int] == f.ivs[j]);
        assert(f.ivs[order[m] as int] == f.ivs[k]);
        assert(h != m);
    }
}

/// No two spilled intervals share a frame slot, and each slot is marked with whether its one tenant
/// is an object: slot numbers are 16 bits wide, and this holds while they do not wrap around.
pub proof fn law_slots_are_exclusive(ivs: Seq<LiveInterval>)
    requires
        ivs.len() <= usize::MAX,
        forall|k: int| 0 <= k < ivs.len() ==> (#[trigger] ivs[k]).assignment is None,
        allocated(ivs).slots.len() <= 0x10000,
    ensures
        slots_ok(allocated(ivs)),
{
    let fa = Frame { ivs, slots: seq![] };
    let n = ivs.len() as int;
    let f0 = spill_crossing(fa, n);
    lemma_spill_crossing(fa, n);
    lemma_scan_order(f0.ivs, n);
    let order = scan_order(f0.ivs, n);
    lemma_scan(f0, order, order.len() as int);
}

/// Some interval has frame slot `x`.
pub open spec fn has_tenant(f: Frame, x: u16) -> bool {
    exists|k: int| 0 <= k < f.ivs.len() && slot_of(#[trigger] f.ivs[k]) == Some(x)
}

/// Every frame slot that was handed out has a tenant.
spec fn slots_used(f: Frame) -> bool {
    forall|x: u16| x < f.slots.len() ==> #[trigger] has_tenant(f, x)
}

pub open spec fn class_pool(is_fp: bool) -> Seq<u8> {
    if is_fp {
        fp_pool()
    } else {
        gpr_pool()
    }
}

pub open spec fn live_at(iv: LiveInterval, p: u32) -> bool {
    iv.start <= p <= iv.end
}

/// `os` are different intervals besides `k`, as many as the class of `k` has registers, all of that
/// class and all live at position `p` of `k`; none crosses a safepoint and none ends later than `k`.
pub open spec fn crowd(ivs: Seq<LiveInterval>, k: int, p: u32, os: Seq<usize>) -> bool {
    &&& live_at(ivs[k], p)
    &&& os.len() == class_pool(ivs[k].is_fp).len()
    &&& os.no_duplicates()
    &&& forall|h: int|
        0 <= h < os.len() ==> (#[trigger] os[h]) < ivs.len() && os[h] != k && ivs[os[h] as int].is_fp
            == ivs[k].is_fp && !ivs[os[h] as int].crosses_safepoint && live_at(
            ivs[os[h] as int],
            p,
        ) && ivs[os[h] as int].end <= ivs[k].end
}

pub open spec fn crowded(ivs: Seq<LiveInterval>, k: int) -> bool {
    exists|p: u32, os: Seq<usize>| crowd(ivs, k, p, os)
}

/// Of the intervals that cross no safepoint, only crowded ones are in the frame.
spec fn spills_forced(f: Frame, ivs: Seq<LiveInterval>) -> bool {
    forall|k: int|
        0 <= k < f.ivs.len() && !ivs[k].crosses_safepoint && slot_of(#[trigger] f.ivs[k]) is Some
            ==> crowded(ivs, k)
}

proof fn lemma_spill_used(f: Frame, i: int)
    requires
        0 <= i < f.ivs.len(),
        slot_of(f.ivs[i]) is None,
        slots_used(f),
        f.slots.len() < 0x10000,
    ensures
        slots_used(spill(f, i)),
{
    let g = spill(f, i);
    assert forall|x: u16| x < g.slots.len() implies #[trigger] has_tenant(g, x) by {
        if x < f.slots.len() {
            assert(has_tenant(f, x));
            let k = choose|k: int|
                0 <= k < f.ivs.len() && slot_of(#[trigger] f.ivs[k]) == Some(x);
            assert(g.ivs[k] == f.ivs[k]);
        } else {
            assert(slot_of(g.ivs[i]) == Some(x));
        }
    }
}

proof fn lemma_crossing_used(f0: Frame, n: int)
    requires
        0 <= n <= f0.ivs.len(),
        f0.slots.len() == 0,
        forall|k: int| 0 <= k < f0.ivs.len() ==> (#[trigger] f0.ivs[k]).assignment is None,
    ensures
        spill_crossing(f0, n).slots.len() <= 0x10000 ==> slots_used(spill_crossing(f0, n)),
    decreases n,
{
    if n > 0 {
        lemma_crossing_used(f0, n - 1);
        lemma_spill_crossing(f0, n - 1);
        let g = spill_crossing(f0, n - 1);
        if g.ivs[n - 1].crosses_safepoint && g.slots.len() < 0x10000 {
            assert(g.ivs[n - 1] == f0.ivs[n - 1]);
            lemma_spill_used(g, n - 1);
        }
    }
}

/// Placing an interval leaves no slot empty.
proof fn lemma_place_used(f: Frame, p: Pool, regs: Seq<u8>, is_fp: bool, i: usize)
    requires
        pool_ok(f.ivs, p, regs, is_fp),
        regs.len() > 0,
        i < f.ivs.len(),
        f.ivs[i as int].assignment is None,
        slots_used(f),
        place(f, p, i).0.slots.len() <= 0x10000,
    ensures
        slots_used(place(f, p, i).0),
{
    let start = f.ivs[i as int].start;
    let e = expired(f.ivs, p, start, p.act.len() as int);
    let (g, q) = place(f, p, i);
    lemma_expired(f.ivs, p, regs, is_fp, start, p.act.len() as int);
    assert(e.act + p.act.skip(p.act.len() as int) =~= e.act);
    if e.free.len() == 0 {
        lemma_furthest(f.ivs, e.act, e.act.len() as int);
        let j = e.act[furthest(f.ivs, e.act, e.act.len() as int)];
        assert(reg_of(f.ivs[j as int]) is Some);
        if f.ivs[j as int].end > f.ivs[i as int].end {
            let h = spill(f, j as int);
            lemma_spill_used(f, j as int);
            assert forall|x: u16| x < g.slots.len() implies #[trigger] has_tenant(g, x) by {
                assert(has_tenant(h, x));
                let k = choose|k: int|
                    0 <= k < h.ivs.len() && slot_of(#[trigger] h.ivs[k]) == Some(x);
                assert(h.ivs[i as int] == f.ivs[i as int]);
                assert(g.ivs[k] == h.ivs[k]);
            }
        } else {
            lemma_spill_used(f, i as int);
        }
    } else {
        assert forall|x: u16| x < g.slots.len() implies #[trigger] has_tenant(g, x) by {
            assert(has_tenant(f, x));
            let k = choose|k: int|
                0 <= k < f.ivs.len() && slot_of(#[trigger] f.ivs[k]) == Some(x);
            assert(g.ivs[k] == f.ivs[k]);
        }
    }
}

/// Placing an interval spills only what is crowded out.
proof fn lemma_place_forced(
    f: Frame,
    p: Pool,
    is_fp: bool,
    order: Seq<usize>,
    n: int,
    ivs: Seq<LiveInterval>,
)
    requires
        pool_ok(f.ivs, p, class_pool(is_fp), is_fp),
        0 <= n < order.len(),
        order[n] < f.ivs.len(),
        f.ivs[order[n] as int].is_fp == is_fp,
        f.ivs[order[n] as int].assignment is None,
        forall|k: int| 0 <= k < order.len() ==> (#[trigger] order[k]) < f.ivs.len(),
        forall|k: int| 0 <= k < p.act.len() ==> order.take(n).contains(#[trigger] p.act[k]),
        order.no_duplicates(),
        forall|j: int, k: int|
            0 <= j <= k < order.len() ==> f.ivs[(#[trigger] order[j]) as int].start <= f.ivs[(
            #[trigger] order[k]) as int].start,
        ivs.len() == f.ivs.len(),
        forall|k: int| 0 <= k < ivs.len() ==> same_range(#[trigger] f.ivs[k], ivs[k]),
        forall|k: int| 0 <= k < ivs.len() ==> (#[trigger] ivs[k]).start <= ivs[k].end,
        forall|k: int|
            0 <= k < order.len() ==> !ivs[(#[trigger] order[k]) as int].crosses_safepoint,
        spills_forced(f, ivs),
    ensures
        spills_forced(place(f, p, order[n]).0, ivs),
{
    let i = order[n];
    let start = f.ivs[i as int].start;
    let regs = class_pool(is_fp);
    let e = expired(f.ivs, p, start, p.act.len() as int);
    let (g, q) = place(f, p, i);
    lemma_expired(f.ivs, p, regs, is_fp, start, p.act.len() as int);
    assert(e.act + p.act.skip(p.act.len() as int) =~= e.act);
    assert(pool_ok(f.ivs, e, regs, is_fp));
    assert(e.act.no_duplicates()) by {
        assert forall|a: int, b: int| 0 <= a < b < e.act.len() implies e.act[a] != e.act[b] by {
            assert(reg_of(f.ivs[e.act[a] as int]) != reg_of(f.ivs[e.act[b] as int]));
        }
    }
    // What is active covers the start of the newcomer.
    assert forall|k: int| 0 <= k < e.act.len() implies (#[trigger] e.act[k]) != i
        && ivs[e.act[k] as int].start <= ivs[i as int].start && ivs[e.act[k] as int].end
        >= ivs[i as int].start && ivs[e.act[k] as int].is_fp == is_fp && e.act[k] < ivs.len()
        && !ivs[e.act[k] as int].crosses_safepoint && ivs[e.act[k] as int].end == f.ivs[e.act[k] as int].end by {
        assert(p.act.take(p.act.len() as int) =~= p.act);
        assert(p.act.contains(e.act[k]));
        let h = choose|h: int| 0 <= h < p.act.len() && p.act[h] == e.act[k];
        assert(order.take(n).contains(p.act[h]));
        let m = order.take(n).index_of(p.act[h]);
        assert(order[m] == e.act[k] && m < n);
        assert(f.ivs[order[m] as int].start <= f.ivs[order[n] as int].start);
        assert(same_range(f.ivs[order[m] as int], ivs[order[m] as int]));
        assert(same_range(f.ivs[i as int], ivs[i as int]));
    }
    assert(same_range(f.ivs[i as int], ivs[i as int]));
    if e.free.len() > 0 {
        assert forall|k: int|
            0 <= k < g.ivs.len() && !ivs[k].crosses_safepoint && slot_of(
                #[trigger] g.ivs[k],
            ) is Some implies crowded(ivs, k) by {
            assert(k != i);
            assert(g.ivs[k] == f.ivs[k]);
        }
    } else {
        lemma_furthest(f.ivs, e.act, e.act.len() as int);
        let k0 = furthest(f.ivs, e.act, e.act.len() as int);
        let j = e.act[k0];
        assert(same_range(f.ivs[j as int], ivs[j as int]));
        if f.ivs[j as int].end > f.ivs[i as int].end {
            let os = e.act.update(k0, i);
            assert forall|h: int| 0 <= h < os.len() implies (#[trigger] os[h]) < ivs.len() && os[h]
                != j && ivs[os[h] as int].is_fp == ivs[j as int].is_fp && !ivs[os[h] as int].crosses_safepoint
                && live_at(ivs[os[h] as int], start) && ivs[os[h] as int].end
                <= ivs[j as int].end by {
                if h != k0 {
                    assert(os[h] == e.act[h]);
                    assert(e.act[h] != e.act[k0]);
                } else {
                    assert(e.act[k0] != i);
                }
            }
            assert(os.no_duplicates()) by {
                assert forall|a: int, b: int| 0 <= a < b < os.len() implies os[a] != os[b] by {
                    assert(e.act[a] != e.act[b] && e.act[a] != i && e.act[b] != i);
                }
            }
            assert(crowd(ivs, j as int, start, os));
            assert forall|k: int|
                0 <= k < g.ivs.len() && !ivs[k].crosses_safepoint && slot_of(
                    #[trigger] g.ivs[k],
                ) is Some implies crowded(ivs, k) by {
                assert(k != i);
                if k != j {
                    assert(g.ivs[k] == f.ivs[k]);
                }
            }
        } else {
            assert forall|h: int| 0 <= h < e.act.len() implies (#[trigger] e.act[h]) < ivs.len()
                && e.act[h] != i && ivs[e.act[h] as int].is_fp == ivs[i as int].is_fp && live_at(
                ivs[e.act[h] as int],
                start,
            ) && ivs[e.act[h] as int].end <= ivs[i as int].end by {}
            assert(crowd(ivs, i as int, start, e.act));
            assert forall|k: int|
                0 <= k < g.ivs.len() && !ivs[k].crosses_safepoint && slot_of(
                    #[trigger] g.ivs[k],
                ) is Some implies crowded(ivs, k) by {
                if k != i {
                    assert(g.ivs[k] == f.ivs[k]);
                }
            }
        }
    }
}

proof fn lemma_scan_uses(f0: Frame, order: Seq<usize>, n: int, ivs: Seq<LiveInterval>)
    requires
        0 <= n <= order.len(),
        order_ok(f0.ivs, order, f0.ivs.len() as int),
        f0.ivs.len() <= usize::MAX,
        f0.slots.len() <= 0x10000 ==> slots_used(f0),
        ivs.len() == f0.ivs.len(),
        forall|k: int| 0 <= k < ivs.len() ==> same_range(#[trigger] f0.ivs[k], ivs[k]),
        forall|k: int|
            0 <= k < order.len() ==> !ivs[(#[trigger] order[k]) as int].crosses_safepoint,
        spills_forced(f0, ivs),
    ensures
        ({
            let f = scanned(order, n, first_alloc(f0)).f;
            &&& f.slots.len() <= 0x10000 ==> slots_used(f)
            &&& (forall|k: int| 0 <= k < ivs.len() ==> (#[trigger] ivs[k]).start <= ivs[k].end)
                ==> spills_forced(f, ivs)
        }),
    decreases n,
{
    if n > 0 {
        lemma_scan_uses(f0, order, n - 1, ivs);
        lemma_scan(f0, order, n - 1);
        let a = scanned(order, n - 1, first_alloc(f0));
        let i = order[n - 1];
        let is_fp = a.f.ivs[i as int].is_fp;
        let p = if is_fp {
            a.fp
        } else {
            a.gpr
        };
        assert(a.f.ivs[order[n - 1] as int].assignment is None);
        assert forall|j: int, k: int| 0 <= j <= k < order.len() implies a.f.ivs[(
        #[trigger] order[j]) as int].start <= a.f.ivs[(#[trigger] order[k]) as int].start by {
            assert(same_range(a.f.ivs[order[j] as int], f0.ivs[order[j] as int]));
            assert(same_range(a.f.ivs[order[k] as int], f0.ivs[order[k] as int]));
        }
        lemma_place(a.f, p, class_pool(is_fp), is_fp, order, n - 1);
        if place(a.f, p, i).0.slots.len() <= 0x10000 {
            lemma_place_used(a.f, p, class_pool(is_fp), is_fp, i);
        }
        if forall|k: int| 0 <= k < ivs.len() ==> (#[trigger] ivs[k]).start <= ivs[k].end {
            assert forall|k: int| 0 <= k < ivs.len() implies same_range(
                #[trigger] a.f.ivs[k],
                ivs[k],
            ) by {
                assert(same_range(a.f.ivs[k], f0.ivs[k]));
                assert(same_range(f0.ivs[k], ivs[k]));
            }
            lemma_place_forced(a.f, p, is_fp, order, n - 1, ivs);
        }
    }
}

/// The frame has no gaps: each of its slots has a tenant, so that the slots in use are exactly those
/// below the count. Slot numbers are 16 bits wide, and this holds while they do not wrap around.
pub proof fn law_slots_are_used(ivs: Seq<LiveInterval>)
    requires
        ivs.len() <= usize::MAX,
        forall|k: int| 0 <= k < ivs.len() ==> (#[trigger] ivs[k]).assignment is None,
        allocated(ivs).slots.len() <= 0x10000,
    ensures
        ({
            let f = allocated(ivs);
            forall|x: u16| #[trigger] has_tenant(f, x) <==> x < f.slots.len()
        }),
{
    lemma_allocated_uses(ivs);
    law_slots_are_exclusive(ivs);
}

proof fn lemma_allocated_uses(ivs: Seq<LiveInterval>)
    requires
        ivs.len() <= usize::MAX,
        forall|k: int| 0 <= k < ivs.len() ==> (#[trigger] ivs[k]).assignment is None,
    ensures
        allocated(ivs).slots.len() <= 0x10000 ==> slots_used(allocated(ivs)),
        (forall|k: int| 0 <= k < ivs.len() ==> (#[trigger] ivs[k]).start <= ivs[k].end)
            ==> spills_forced(allocated(ivs), ivs),
{
    let fa = Frame { ivs, slots: seq![] };
    let n = ivs.len() as int;
    let f0 = spill_crossing(fa, n);
    lemma_spill_crossing(fa, n);
    lemma_crossing_used(fa, n);
    lemma_scan_order(f0.ivs, n);
    let order = scan_order(f0.ivs, n);
    assert forall|k: int| 0 <= k < order.len() implies !ivs[(
    #[trigger] order[k]) as int].crosses_safepoint by {
        assert(f0.ivs[order[k] as int].assignment is None);
        assert(same_range(f0.ivs[order[k] as int], ivs[order[k] as int]));
    }
    lemma_scan_uses(f0, order, order.len() as int, ivs);
}

/// Nothing goes to the frame without need: an interval that crosses no safepoint is spilled only
/// where it has a position at which at least as many others of its class as there are registers are
/// all live, none of them crossing a safepoint and none ending later.
pub proof fn law_spills_are_forced(ivs: Seq<LiveInterval>, k: int)
    requires
        ivs.len() <= usize::MAX,
        forall|k: int| 0 <= k < ivs.len() ==> (#[trigger] ivs[k]).assignment is None,
        forall|k: int| 0 <= k < ivs.len() ==> (#[trigger] ivs[k]).start <= ivs[k].end,
        0 <= k < ivs.len(),
        !ivs[k].crosses_safepoint,
        slot_of(allocated(ivs).ivs[k]) is Some,
    ensures
        crowded(ivs, k),
{
    lemma_allocated_uses(ivs);
    law_allocation_is_sound(ivs);
}

fn spill_interval(ivs: &mut Vec<LiveInterval>, slots: &mut Vec<bool>, i: usize)
    requires
        i < old(ivs)@.len(),
    ensures
        (Frame { ivs: final(ivs)@, slots: final(slots)@ }) == spill(
            Frame { ivs: old(ivs)@, slots: old(slots)@ },
            i as int,
        ),
{
    let slot = SpillSlot(slots.len() as u16);
    slots.push(ivs[i].is_oop);
    ivs[i].assignment = Some(Assignment::Spill(slot));
}

fn start_order(ivs: &Vec<LiveInterval>) -> (r: Vec<usize>)
    ensures
        r@ == scan_order(ivs@, ivs@.len() as int),
{
    let mut order: Vec<usize> = Vec::new();
    let n: usize = ivs.len();
    for i in 0..n
        invariant
            n == ivs@.len(),
            order@ == scan_order(ivs@, i as int),
    {
        if ivs[i].assignment.is_none() {
            proof {
                lemma_scan_order(ivs@, i as int);
            }
            let mut k: usize = order.len();
            proof {
                let r = insert_by_start(ivs@, order@, i);
                assert(order@.take(k as int) =~= order@);
                assert(r + order@.skip(k as int) =~= r);
            }
            while k > 0 && ivs[order[k - 1]].start > ivs[i].start
                invariant
                    n == ivs@.len(),
                    i < n,
                    k <= order@.len(),
                    forall|h: int| 0 <= h < order@.len() ==> (#[trigger] order@[h]) < n,
                    insert_by_start(ivs@, order@, i) == insert_by_start(
                        ivs@,
                        order@.take(k as int),
                        i,
                    ) + order@.skip(k as int),
                decreases k,
            {
                proof {
                    let t = order@.take(k as int);
                    assert(t.drop_last() =~= order@.take(k - 1));
                    assert(insert_by_start(ivs@, t.drop_last(), i).push(t.last()) + order@.skip(
                        k as int,
                    ) =~= insert_by_start(ivs@, order@.take(k - 1), i) + order@.skip(k - 1));
                }
                k -= 1;
            }
            proof {
                let t = order@.take(k as int);
                if k > 0 {
                    assert(t.last() == order@[k - 1]);
                    assert(insert_by_start(ivs@, t, i) == t.push(i));
                } else {
                    assert(insert_by_start(ivs@, t, i) =~= t.push(i));
                }
                assert(order@.insert(k as int, i) =~= t.push(i) + order@.skip(k as int));
            }
            order.insert(k, i);
        }
        proof {
            reveal_with_fuel(scan_order, 2);
        }
    }
    order
}

/// Gives back the registers of the active intervals that ended before `start`.
fn expire(ivs: &Vec<LiveInterval>, act: &mut Vec<usize>, free: &mut Vec<u8>, start: u32)
    requires
        forall|k: int| 0 <= k < old(act)@.len() ==> (#[trigger] old(act)@[k]) < ivs@.len(),
    ensures
        (Pool { act: final(act)@, free: final(free)@ }) == expired(
            ivs@,
            Pool { act: old(act)@, free: old(free)@ },
            start,
            old(act)@.len() as int,
        ),
{
    let ghost p = Pool { act: act@, free: free@ };
    let mut kept: Vec<usize> = Vec::new();
    let n: usize = act.len();
    for k in 0..n
        invariant
            n == act@.len(),
            act@ == p.act,
            forall|k: int| 0 <= k < p.act.len() ==> (#[trigger] p.act[k]) < ivs@.len(),
            (Pool { act: kept@, free: free@ }) == expired(ivs@, p, start, k as int),
    {
        let j: usize = act[k];
        if ivs[j].end < start {
            if let Some(Assignment::Reg(r)) = ivs[j].assignment {
                free.push(r);
            }
        } else {
            kept.push(j);
        }
    }
    *act = kept;
}

/// The position of the active interval that ends last.
fn find_furthest(ivs: &Vec<LiveInterval>, act: &Vec<usize>) -> (r: usize)
    requires
        act@.len() > 0,
        forall|k: int| 0 <= k < act@.len() ==> (#[trigger] act@[k]) < ivs@.len(),
    ensures
        r < act@.len(),
        r == furthest(ivs@, act@, act@.len() as int),
{
    let mut best: usize = 0;
    let n: usize = act.len();
    for k in 1..n
        invariant
            n == act@.len(),
            best < n,
            forall|k: int| 0 <= k < act@.len() ==> (#[trigger] act@[k]) < ivs@.len(),
            best == furthest(ivs@, act@, k as int),
    {
        if ivs[act[k]].end >= ivs[act[best]].end {
            best = k;
        }
    }
    best
}

fn reversed(regs: &Vec<u8>) -> (r: Vec<u8>)
    ensures
        r@ == regs@.reverse(),
{
    let mut r: Vec<u8> = Vec::new();
    let mut k: usize = regs.len();
    while k > 0
        invariant
            k <= regs@.len(),
            r@ == regs@.reverse().take(regs@.len() - k),
        decreases k,
    {
        k -= 1;
        r.push(regs[k]);
        proof {
            assert(r@ =~= regs@.reverse().take(regs@.len() - k));
        }
    }
    proof {
        assert(regs@.reverse().take(regs@.len() as int) =~= regs@.reverse());
    }
    r
}

fn place_interval(
    ivs: &mut Vec<LiveInterval>,
    slots: &mut Vec<bool>,
    act: &mut Vec<usize>,
    free: &mut Vec<u8>,
    i: usize,
    Ghost(regs): Ghost<Seq<u8>>,
    Ghost(is_fp): Ghost<bool>,
)
    requires
        i < old(ivs)@.len(),
        regs.len() > 0,
        pool_ok(old(ivs)@, Pool { act: old(act)@, free: old(free)@ }, regs, is_fp),
    ensures
        (
            Frame { ivs: final(ivs)@, slots: final(slots)@ },
            Pool { act: final(act)@, free: final(free)@ },
        ) == place(
            Frame { ivs: old(ivs)@, slots: old(slots)@ },
            Pool { act: old(act)@, free: old(free)@ },
            i,
        ),
{
    let start: u32 = ivs[i].start;
    let ghost p = Pool { act: act@, free: free@ };
    expire(ivs, act, free, start);
    proof {
        lemma_expired(ivs@, p, regs, is_fp, start, p.act.len() as int);
        assert(act@ + p.act.skip(p.act.len() as int) =~= act@);
    }
    if free.len() > 0 {
        let at: usize = free.len() - 1;
        let r: u8 = free[at];
        free.truncate(at);
        proof {
            assert(free@ =~= expired(ivs@, p, start, p.act.len() as int).free.drop_last());
        }
        ivs[i].assignment = Some(Assignment::Reg(r));
        act.push(i);
    } else {
        let k: usize = find_furthest(ivs, act);
        let j: usize = act[k];
        if ivs[j].end > ivs[i].end {
            if let Some(Assignment::Reg(r)) = ivs[j].assignment {
                spill_interval(ivs, slots, j);
                act.remove(k);
                ivs[i].assignment = Some(Assignment::Reg(r));
                act.push(i);
            }
        } else {
            spill_interval(ivs, slots, i);
        }
    }
}

/// Gives every interval without a place a register or a frame slot. What crosses a safepoint goes
/// to the frame first; the rest is scanned by start over two register files, one for unboxed
/// doubles. Returns the number of frame slots and, for each, whether it holds an object.
pub fn allocate(intervals: &mut Vec<LiveInterval>) -> (r: (u16, Vec<bool>))
    ensures
        (Frame { ivs: final(intervals)@, slots: r.1@ }) == allocated(old(intervals)@),
        r.0 == r.1@.len() as u16,
        spilled_all(final(intervals)@),
{
    let ghost fa = Frame { ivs: intervals@, slots: Seq::empty() };
    let mut slots: Vec<bool> = Vec::new();
    let n: usize = intervals.len();
    for i in 0..n
        invariant
            n == intervals@.len(),
            n == fa.ivs.len(),
            fa.slots == Seq::<bool>::empty(),
            (Frame { ivs: intervals@, slots: slots@ }) == spill_crossing(fa, i as int),
    {
        if intervals[i].crosses_safepoint {
            spill_interval(intervals, &mut slots, i);
        }
    }
    let ghost f0 = Frame { ivs: intervals@, slots: slots@ };
    proof {
        lemma_spill_crossing(fa, n as int);
        lemma_scan_order(f0.ivs, n as int);
    }
    let order = start_order(intervals);
    let mut act: Vec<usize> = Vec::new();
    let mut act_fp: Vec<usize> = Vec::new();
    let mut free = reversed(&allocatable_regs());
    let mut free_fp = reversed(&fp_allocatable_regs());
    let len: usize = order.len();
    for k in 0..len
        invariant
            n == f0.ivs.len(),
            n == intervals@.len(),
            len == order@.len(),
            order_ok(f0.ivs, order@, n as int),
            (Alloc {
                f: Frame { ivs: intervals@, slots: slots@ },
                gpr: Pool { act: act@, free: free@ },
                fp: Pool { act: act_fp@, free: free_fp@ },
            }) == scanned(order@, k as int, first_alloc(f0)),
    {
        proof {
            lemma_scan(f0, order@, k as int);
            lemma_scan(f0, order@, k + 1);
        }
        let i: usize = order[k];
        if intervals[i].is_fp {
            place_interval(
                intervals,
                &mut slots,
                &mut act_fp,
                &mut free_fp,
                i,
                Ghost(fp_pool()),
                Ghost(true),
            );
        } else {
            place_interval(
                intervals,
                &mut slots,
                &mut act,
                &mut free,
                i,
                Ghost(gpr_pool()),
                Ghost(false),
            );
        }
    }
    proof {
        lemma_scan(f0, order@, len as int);
        assert forall|k: int| 0 <= k < n && (#[trigger] intervals@[k]).crosses_safepoint implies reg_of(
            intervals@[k],
        ) is None by {
            assert(same_range(intervals@[k], f0.ivs[k]));
            assert(same_range(f0.ivs[k], fa.ivs[k]));
            if order@.contains(k as usize) {
                let h = choose|h: int| 0 <= h < order@.len() && order@[h] == k as usize;
                assert(f0.ivs[order@[h] as int].assignment is None);
            }
        }
    }
    (slots.len() as u16, slots)
}

/// Tells whether everything that crosses a safepoint is out of the registers. Stack maps cover frame
/// slots only, so `false` means that the allocation is broken: the caller must stop and may not emit
/// code from these intervals.
#[must_use]
pub fn verify_spill_all(intervals: &Vec<LiveInterval>) -> (r: bool)
    ensures
        r == spilled_all(intervals@),
{
    let n: usize = intervals.len();
    for k in 0..n
        invariant
            n == intervals@.len(),
            forall|h: int|
                0 <= h < k && (#[trigger] intervals@[h]).crosses_safepoint ==> reg_of(
                    intervals@[h],
                ) is None,
    {
        if intervals[k].crosses_safepoint {
            if let Some(Assignment::Reg(_)) = intervals[k].assignment {
                return false;
            }
        }
    }
    true
}

/// Some interval of the general file has register `r`.
pub open spec fn reg_taken(ivs: Seq<LiveInterval>, r: u8) -> bool {
    exists|k: int| 0 <= k < ivs.len() && !(#[trigger] ivs[k]).is_fp && reg_of(ivs[k]) == Some(r)
}

/// The candidates for residency that no interval has.
pub open spec fn idle_regs(ivs: Seq<LiveInterval>) -> Seq<u8> {
    resident_pool().filter(|r: u8| !reg_taken(ivs, r))
}

/// A frame value that no call disturbs and that lives beyond one position.
pub open spec fn wants_register(iv: LiveInterval) -> bool {
    slot_of(iv) is Some && !iv.crosses_call && iv.end > iv.start
}

pub open spec fn span(iv: LiveInterval) -> int {
    iv.end - iv.start
}

/// Puts `i` into a list sorted by falling length, behind those that are no shorter.
pub open spec fn insert_by_span(ivs: Seq<LiveInterval>, o: Seq<usize>, i: usize) -> Seq<usize>
    decreases o.len(),
{
    if o.len() == 0 {
        seq![i]
    } else if span(ivs[o.last() as int]) >= span(ivs[i as int]) {
        o.push(i)
    } else {
        insert_by_span(ivs, o.drop_last(), i).push(o.last())
    }
}

/// Those of the first `n` intervals that want a register, longest first; of equal length in index
/// order.
pub open spec fn residency_order(ivs: Seq<LiveInterval>, n: int) -> Seq<usize>
    decreases n,
{
    if n <= 0 {
        seq![]
    } else if wants_register(ivs[n - 1]) {
        insert_by_span(ivs, residency_order(ivs, n - 1), (n - 1) as usize)
    } else {
        residency_order(ivs, n - 1)
    }
}

/// Nothing in the list overlaps the range.
pub open spec fn fits(taken: Seq<(u32, u32)>, s: u32, e: u32) -> bool {
    forall|k: int| 0 <= k < taken.len() ==> e <= (#[trigger] taken[k]).0 || taken[k].1 <= s
}

/// The first register, from the `k`-th on, that is idle over the range.
pub open spec fn first_fit(taken: Seq<Seq<(u32, u32)>>, s: u32, e: u32, k: int) -> Option<int>
    decreases taken.len() - k,
{
    if k < 0 || k >= taken.len() {
        None
    } else if fits(taken[k], s, e) {
        Some(k)
    } else {
        first_fit(taken, s, e, k + 1)
    }
}

/// Intervals, and for each idle register the ranges over which it has been given away.
pub ghost struct Residency {
    pub ivs: Seq<LiveInterval>,
    pub taken: Seq<Seq<(u32, u32)>>,
}

/// Gives interval `i` the first register that is idle over its range. Unboxed doubles get none.
pub open spec fn settle(r: Residency, pool: Seq<u8>, i: usize) -> Residency {
    let iv = r.ivs[i as int];
    if iv.is_fp {
        r
    } else {
        match first_fit(r.taken, iv.start, iv.end, 0) {
            Some(k) => Residency {
                ivs: r.ivs.update(
                    i as int,
                    LiveInterval { resident_reg: Some(pool[k]), ..iv },
                ),
                taken: r.taken.update(k, r.taken[k].push((iv.start, iv.end))),
            },
            None => r,
        }
    }
}

pub open spec fn settled(r: Residency, pool: Seq<u8>, order: Seq<usize>, n: int) -> Residency
    decreases n,
{
    if n <= 0 {
        r
    } else {
        settle(settled(r, pool, order, n - 1), pool, order[n - 1])
    }
}

pub open spec fn with_residents(ivs: Seq<LiveInterval>) -> Seq<LiveInterval> {
    let pool = idle_regs(ivs);
    let order = residency_order(ivs, ivs.len() as int);
    settled(
        Residency { ivs, taken: Seq::new(pool.len(), |k: int| Seq::<(u32, u32)>::empty()) },
        pool,
        order,
        order.len() as int,
    ).ivs
}

/// Interval `a` is interval `b` but for its resident register.
pub open spec fn same_place(a: LiveInterval, b: LiveInterval) -> bool {
    a == (LiveInterval { resident_reg: a.resident_reg, ..b })
}

proof fn lemma_insert_by_span(ivs: Seq<LiveInterval>, o: Seq<usize>, i: usize)
    ensures
        forall|k: int|
            0 <= k < insert_by_span(ivs, o, i).len() ==> (#[trigger] insert_by_span(ivs, o, i)[k])
                == i || o.contains(insert_by_span(ivs, o, i)[k]),
    decreases o.len(),
{
    let r = insert_by_span(ivs, o, i);
    if o.len() == 0 {
    } else if span(ivs[o.last() as int]) >= span(ivs[i as int]) {
        assert forall|k: int| 0 <= k < r.len() implies (#[trigger] r[k]) == i || o.contains(
            r[k],
        ) by {
            if k < o.len() {
                assert(r[k] == o[k]);
            }
        }
    } else {
        let d = o.drop_last();
        let q = insert_by_span(ivs, d, i);
        lemma_insert_by_span(ivs, d, i);
        assert forall|k: int| 0 <= k < r.len() implies (#[trigger] r[k]) == i || o.contains(
            r[k],
        ) by {
            if k < q.len() {
                assert(r[k] == q[k]);
                if q[k] != i {
                    let h = choose|h: int| 0 <= h < d.len() && d[h] == q[k];
                    assert(o[h] == r[k]);
                }
            } else {
                assert(o[o.len() - 1] == r[k]);
            }
        }
    }
}

proof fn lemma_residency_order(ivs: Seq<LiveInterval>, n: int)
    requires
        0 <= n <= ivs.len() <= usize::MAX,
    ensures
        forall|k: int|
            0 <= k < residency_order(ivs, n).len() ==> (#[trigger] residency_order(ivs, n)[k]) < n
                && wants_register(ivs[residency_order(ivs, n)[k] as int]),
    decreases n,
{
    if n > 0 {
        lemma_residency_order(ivs, n - 1);
        if wants_register(ivs[n - 1]) {
            let o = residency_order(ivs, n - 1);
            lemma_insert_by_span(ivs, o, (n - 1) as usize);
            assert forall|k: int| 0 <= k < residency_order(ivs, n).len() implies (
            #[trigger] residency_order(ivs, n)[k]) < n && wants_register(
                ivs[residency_order(ivs, n)[k] as int],
            ) by {
                let x = residency_order(ivs, n)[k];
                if x != (n - 1) as usize {
                    assert(o.contains(x));
                    let h = choose|h: int| 0 <= h < o.len() && o[h] == x;
                    assert(o[h] < n - 1);
                }
            }
        } else {
            assert(residency_order(ivs, n) == residency_order(ivs, n - 1));
            assert forall|k: int| 0 <= k < residency_order(ivs, n).len() implies (
            #[trigger] residency_order(ivs, n)[k]) < n && wants_register(
                ivs[residency_order(ivs, n)[k] as int],
            ) by {
                assert(residency_order(ivs, n - 1)[k] < n - 1);
            }
        }
    }
}

proof fn lemma_first_fit(taken: Seq<Seq<(u32, u32)>>, s: u32, e: u32, k: int)
    requires
        0 <= k,
    ensures
        first_fit(taken, s, e, k) matches Some(h) ==> k <= h < taken.len() && fits(taken[h], s, e),
    decreases taken.len() - k,
{
    if k < taken.len() && !fits(taken[k], s, e) {
        lemma_first_fit(taken, s, e, k + 1);
    }
}

/// What settling keeps: only resident registers change, they go to those that want one, and each is
/// booked for the range of its tenant, apart from its other tenants'.
spec fn residency_inv(r: Residency, ivs: Seq<LiveInterval>, pool: Seq<u8>) -> bool {
    &&& r.ivs.len() == ivs.len()
    &&& r.taken.len() == pool.len()
    &&& forall|k: int| 0 <= k < ivs.len() ==> same_place(#[trigger] r.ivs[k], ivs[k])
    &&& forall|k: int|
        0 <= k < ivs.len() && (#[trigger] r.ivs[k]).resident_reg is Some ==> wants_register(ivs[k])
            && !ivs[k].is_fp && booked(r, pool, k)
    &&& forall|j: int, k: int|
        0 <= j < ivs.len() && 0 <= k < ivs.len() && j != k && (
        #[trigger] r.ivs[j]).resident_reg is Some && r.ivs[j].resident_reg == (
        #[trigger] r.ivs[k]).resident_reg ==> r.ivs[j].end <= r.ivs[k].start || r.ivs[k].end
            <= r.ivs[j].start
}

spec fn booked(r: Residency, pool: Seq<u8>, k: int) -> bool {
    exists|h: int|
        0 <= h < pool.len() && r.ivs[k].resident_reg == Some(#[trigger] pool[h])
            && r.taken[h].contains((r.ivs[k].start, r.ivs[k].end))
}

proof fn lemma_settle(r: Residency, ivs: Seq<LiveInterval>, pool: Seq<u8>, i: usize)
    requires
        residency_inv(r, ivs, pool),
        pool.no_duplicates(),
        i < ivs.len(),
        wants_register(ivs[i as int]),
    ensures
        residency_inv(settle(r, pool, i), ivs, pool),
{
    let iv = r.ivs[i as int];
    let q = settle(r, pool, i);
    lemma_first_fit(r.taken, iv.start, iv.end, 0);
    if !iv.is_fp && first_fit(r.taken, iv.start, iv.end, 0) is Some {
        let h = first_fit(r.taken, iv.start, iv.end, 0)->0;
        assert(same_place(iv, ivs[i as int]));
        assert forall|k: int| 0 <= k < ivs.len() && (
        #[trigger] q.ivs[k]).resident_reg is Some implies wants_register(ivs[k]) && !ivs[k].is_fp
            && booked(q, pool, k) by {
            assert(same_place(r.ivs[k], ivs[k]));
            if k == i {
                let t = q.taken[h];
                assert(t[t.len() - 1] == (iv.start, iv.end));
                assert(q.ivs[k].resident_reg == Some(pool[h]));
            } else {
                assert(q.ivs[k] == r.ivs[k]);
                assert(booked(r, pool, k));
                let b = choose|b: int|
                    0 <= b < pool.len() && r.ivs[k].resident_reg == Some(#[trigger] pool[b])
                        && r.taken[b].contains((r.ivs[k].start, r.ivs[k].end));
                let x = (r.ivs[k].start, r.ivs[k].end);
                let m = choose|m: int| 0 <= m < r.taken[b].len() && r.taken[b][m] == x;
                assert(q.taken[b][m] == x);
                assert(q.ivs[k].resident_reg == Some(pool[b]));
            }
        }
        assert forall|k: int| 0 <= k < ivs.len() && k != i && (
        #[trigger] r.ivs[k]).resident_reg == Some(pool[h]) implies r.ivs[k].end <= iv.start
            || iv.end <= r.ivs[k].start by {
            assert(booked(r, pool, k));
            let b = choose|b: int|
                0 <= b < pool.len() && r.ivs[k].resident_reg == Some(#[trigger] pool[b])
                    && r.taken[b].contains((r.ivs[k].start, r.ivs[k].end));
            assert(b == h);
            let x = (r.ivs[k].start, r.ivs[k].end);
            let m = choose|m: int| 0 <= m < r.taken[b].len() && r.taken[b][m] == x;
            assert(iv.end <= r.taken[b][m].0 || r.taken[b][m].1 <= iv.start);
        }
        assert forall|j: int, k: int|
            0 <= j < ivs.len() && 0 <= k < ivs.len() && j != k && (
            #[trigger] q.ivs[j]).resident_reg is Some && q.ivs[j].resident_reg == (
            #[trigger] q.ivs[k]).resident_reg implies q.ivs[j].end <= q.ivs[k].start
            || q.ivs[k].end <= q.ivs[j].start by {
            if j != i {
                assert(q.ivs[j] == r.ivs[j]);
            }
            if k != i {
                assert(q.ivs[k] == r.ivs[k]);
            }
        }
        assert forall|k: int| 0 <= k < ivs.len() implies same_place(#[trigger] q.ivs[k], ivs[k]) by {
            assert(same_place(r.ivs[k], ivs[k]));
        }
    }
}

proof fn lemma_settled(
    r: Residency,
    ivs: Seq<LiveInterval>,
    pool: Seq<u8>,
    order: Seq<usize>,
    n: int,
)
    requires
        residency_inv(r, ivs, pool),
        pool.no_duplicates(),
        0 <= n <= order.len(),
        forall|k: int|
            0 <= k < order.len() ==> (#[trigger] order[k]) < ivs.len() && wants_register(
                ivs[order[k] as int],
            ),
    ensures
        residency_inv(settled(r, pool, order, n), ivs, pool),
    decreases n,
{
    if n > 0 {
        lemma_settled(r, ivs, pool, order, n - 1);
        lemma_settle(settled(r, pool, order, n - 1), ivs, pool, order[n - 1]);
    }
}

/// What residency promises. Only resident registers change, and only spilled values of the general
/// class that cross no call and live beyond one position get one. It is one of the candidates, no interval was assigned it, and
/// two values resident in one register are never live together.
pub proof fn law_residents_are_exclusive(ivs: Seq<LiveInterval>)
    requires
        ivs.len() <= usize::MAX,
        forall|k: int| 0 <= k < ivs.len() ==> (#[trigger] ivs[k]).resident_reg is None,
    ensures
        ({
            let r = with_residents(ivs);
            &&& r.len() == ivs.len()
            &&& forall|k: int| 0 <= k < ivs.len() ==> same_place(#[trigger] r[k], ivs[k])
            &&& forall|k: int|
                0 <= k < ivs.len() && (#[trigger] r[k]).resident_reg is Some ==> slot_of(
                    r[k],
                ) is Some && !r[k].crosses_call && !r[k].is_fp && r[k].end > r[k].start
                    && resident_pool().contains(
                    r[k].resident_reg->0,
                ) && !reg_taken(ivs, r[k].resident_reg->0)
            &&& forall|j: int, k: int|
                0 <= j < ivs.len() && 0 <= k < ivs.len() && j != k && (
                #[trigger] r[j]).resident_reg is Some && r[j].resident_reg == (
                #[trigger] r[k]).resident_reg ==> r[j].end <= r[k].start || r[k].end <= r[j].start
        }),
{
    let pool = idle_regs(ivs);
    let order = residency_order(ivs, ivs.len() as int);
    let r0 = Residency { ivs, taken: Seq::new(pool.len(), |k: int| Seq::<(u32, u32)>::empty()) };
    lemma_residency_order(ivs, ivs.len() as int);
    lemma_idle(ivs);
    assert(residency_inv(r0, ivs, pool));
    lemma_settled(r0, ivs, pool, order, order.len() as int);
    let q = settled(r0, pool, order, order.len() as int);
    assert forall|k: int| 0 <= k < ivs.len() && (
    #[trigger] q.ivs[k]).resident_reg is Some implies slot_of(q.ivs[k]) is Some
        && !q.ivs[k].crosses_call && !q.ivs[k].is_fp && q.ivs[k].end > q.ivs[k].start
        && resident_pool().contains(
        q.ivs[k].resident_reg->0,
    ) && !reg_taken(ivs, q.ivs[k].resident_reg->0) by {
        assert(same_place(q.ivs[k], ivs[k]));
        assert(booked(q, pool, k));
        let b = choose|b: int|
            0 <= b < pool.len() && q.ivs[k].resident_reg == Some(#[trigger] pool[b])
                && q.taken[b].contains((q.ivs[k].start, q.ivs[k].end));
        assert(pool.contains(pool[b]));
    }
}

proof fn lemma_idle(ivs: Seq<LiveInterval>)
    ensures
        idle_regs(ivs).no_duplicates(),
        forall|k: int|
            0 <= k < idle_regs(ivs).len() ==> resident_pool().contains(#[trigger] idle_regs(ivs)[k])
                && !reg_taken(ivs, idle_regs(ivs)[k]),
        idle_regs(ivs) == (if reg_taken(ivs, 3) {
            Seq::<u8>::empty()
        } else {
            seq![3u8]
        }) + (if reg_taken(ivs, 6) {
            Seq::<u8>::empty()
        } else {
            seq![6u8]
        }) + (if reg_taken(ivs, 7) {
            Seq::<u8>::empty()
        } else {
            seq![7u8]
        }),
{
    let f = |r: u8| !reg_taken(ivs, r);
    let p = resident_pool();
    assert(p.drop_last() =~= seq![3u8, 6]);
    assert(p.drop_last().drop_last() =~= seq![3u8]);
    assert(p.drop_last().drop_last().drop_last() =~= seq![]);
    reveal(Seq::filter);
    reveal_with_fuel(Seq::filter, 4);
    assert(idle_regs(ivs) =~= (if reg_taken(ivs, 3) {
        Seq::<u8>::empty()
    } else {
        seq![3u8]
    }) + (if reg_taken(ivs, 6) {
        Seq::<u8>::empty()
    } else {
        seq![6u8]
    }) + (if reg_taken(ivs, 7) {
        Seq::<u8>::empty()
    } else {
        seq![7u8]
    }));
    assert(p[0] == 3 && p[1] == 6 && p[2] == 7);
}

fn is_reg_taken(ivs: &Vec<LiveInterval>, r: u8) -> (b: bool)
    ensures
        b == reg_taken(ivs@, r),
{
    let n: usize = ivs.len();
    for k in 0..n
        invariant
            n == ivs@.len(),
            forall|h: int|
                0 <= h < k ==> !(!(#[trigger] ivs@[h]).is_fp && reg_of(ivs@[h]) == Some(r)),
    {
        if !ivs[k].is_fp {
            if let Some(Assignment::Reg(q)) = ivs[k].assignment {
                if q == r {
                    assert(reg_of(ivs@[k as int]) == Some(r));
                    return true;
                }
            }
        }
    }
    false
}

fn find_idle_regs(ivs: &Vec<LiveInterval>) -> (r: Vec<u8>)
    ensures
        r@ == idle_regs(ivs@),
{
    let mut pool: Vec<u8> = Vec::new();
    if !is_reg_taken(ivs, 3) {
        pool.push(3);
    }
    if !is_reg_taken(ivs, 6) {
        pool.push(6);
    }
    if !is_reg_taken(ivs, 7) {
        pool.push(7);
    }
    proof {
        lemma_idle(ivs@);
        assert(pool@ =~= idle_regs(ivs@));
    }
    pool
}

fn span_order(ivs: &Vec<LiveInterval>) -> (r: Vec<usize>)
    ensures
        r@ == residency_order(ivs@, ivs@.len() as int),
{
    let mut order: Vec<usize> = Vec::new();
    let n: usize = ivs.len();
    for i in 0..n
        invariant
            n == ivs@.len(),
            order@ == residency_order(ivs@, i as int),
    {
        let spilled = matches!(ivs[i].assignment, Some(Assignment::Spill(_)));
        if spilled && !ivs[i].crosses_call && ivs[i].end > ivs[i].start {
            proof {
                lemma_residency_order(ivs@, i as int);
            }
            let len: u32 = ivs[i].end - ivs[i].start;
            let mut k: usize = order.len();
            proof {
                let r = insert_by_span(ivs@, order@, i);
                assert(order@.take(k as int) =~= order@);
                assert(r + order@.skip(k as int) =~= r);
            }
            while k > 0 && ivs[order[k - 1]].end - ivs[order[k - 1]].start < len
                invariant
                    n == ivs@.len(),
                    i < n,
                    k <= order@.len(),
                    len == span(ivs@[i as int]),
                    forall|h: int|
                        0 <= h < order@.len() ==> (#[trigger] order@[h]) < n && wants_register(
                            ivs@[order@[h] as int],
                        ),
                    insert_by_span(ivs@, order@, i) == insert_by_span(
                        ivs@,
                        order@.take(k as int),
                        i,
                    ) + order@.skip(k as int),
                decreases k,
            {
                proof {
                    let t = order@.take(k as int);
                    assert(t.drop_last() =~= order@.take(k - 1));
                    assert(insert_by_span(ivs@, t.drop_last(), i).push(t.last()) + order@.skip(
                        k as int,
                    ) =~= insert_by_span(ivs@, order@.take(k - 1), i) + order@.skip(k - 1));
                }
                k -= 1;
            }
            proof {
                let t = order@.take(k as int);
                if k > 0 {
                    assert(t.last() == order@[k - 1]);
                    assert(insert_by_span(ivs@, t, i) == t.push(i));
                } else {
                    assert(insert_by_span(ivs@, t, i) =~= t.push(i));
                }
                assert(order@.insert(k as int, i) =~= t.push(i) + order@.skip(k as int));
            }
            order.insert(k, i);
        }
        proof {
            reveal_with_fuel(residency_order, 2);
        }
    }
    order
}

spec fn lists_view(t: Seq<Vec<(u32, u32)>>) -> Seq<Seq<(u32, u32)>> {
    Seq::new(t.len(), |k: int| t[k]@)
}

fn range_fits(taken: &Vec<(u32, u32)>, s: u32, e: u32) -> (r: bool)
    ensures
        r == fits(taken@, s, e),
{
    let n: usize = taken.len();
    for k in 0..n
        invariant
            n == taken@.len(),
            forall|h: int| 0 <= h < k ==> e <= (#[trigger] taken@[h]).0 || taken@[h].1 <= s,
    {
        if !(e <= taken[k].0 || taken[k].1 <= s) {
            assert(!(e <= taken@[k as int].0 || taken@[k as int].1 <= s));
            return false;
        }
    }
    true
}

fn find_fit(taken: &Vec<Vec<(u32, u32)>>, s: u32, e: u32) -> (r: Option<usize>)
    ensures
        match first_fit(lists_view(taken@), s, e, 0) {
            Some(k) => r matches Some(j) && j == k && k < taken@.len(),
            None => r is None,
        },
{
    let n: usize = taken.len();
    let ghost t = lists_view(taken@);
    for k in 0..n
        invariant
            n == taken@.len(),
            t == lists_view(taken@),
            first_fit(t, s, e, 0) == first_fit(t, s, e, k as int),
    {
        if range_fits(&taken[k], s, e) {
            return Some(k);
        }
    }
    None
}

/// Gives spilled values that cross no call a register to be read from as well, longest range first:
/// one that the allocation left idle, and that is not resident to anything else over the range. The
/// frame slot stays the value's home.
pub fn assign_residents(intervals: &mut Vec<LiveInterval>)
    requires
        forall|k: int|
            0 <= k < old(intervals)@.len() && !(#[trigger] old(intervals)@[k]).is_fp && reg_of(
                old(intervals)@[k],
            ) is Some ==> reg_of(old(intervals)@[k])->0 < 16,
    ensures
        final(intervals)@ == with_residents(old(intervals)@),
{
    let ghost ivs0 = intervals@;
    let pool = find_idle_regs(intervals);
    let order = span_order(intervals);
    let count: usize = intervals.len();
    proof {
        assert(count == ivs0.len());
        lemma_residency_order(ivs0, ivs0.len() as int);
    }
    let mut taken: Vec<Vec<(u32, u32)>> = Vec::new();
    let width: usize = pool.len();
    for k in 0..width
        invariant
            taken@.len() == k,
            forall|h: int| 0 <= h < k ==> (#[trigger] taken@[h])@ == Seq::<(u32, u32)>::empty(),
    {
        taken.push(Vec::new());
    }
    let ghost r0 = Residency {
        ivs: ivs0,
        taken: Seq::new(pool@.len(), |k: int| Seq::<(u32, u32)>::empty()),
    };
    proof {
        assert(lists_view(taken@) =~= r0.taken);
    }
    let n: usize = order.len();
    for j in 0..n
        invariant
            n == order@.len(),
            intervals@.len() == ivs0.len(),
            taken@.len() == pool@.len(),
            forall|k: int| 0 <= k < order@.len() ==> (#[trigger] order@[k]) < ivs0.len(),
            (Residency { ivs: intervals@, taken: lists_view(taken@) }) == settled(
                r0,
                pool@,
                order@,
                j as int,
            ),
    {
        let i: usize = order[j];
        let s: u32 = intervals[i].start;
        let e: u32 = intervals[i].end;
        if !intervals[i].is_fp {
            if let Some(k) = find_fit(&taken, s, e) {
                let ghost before = lists_view(taken@);
                taken[k].push((s, e));
                proof {
                    assert(lists_view(taken@) =~= before.update(
                        k as int,
                        before[k as int].push((s, e)),
                    ));
                }
                intervals[i].resident_reg = Some(pool[k]);
            }
        }
    }
}

/// The first interval of a register, from the `k`-th on.
pub open spec fn interval_of(ivs: Seq<LiveInterval>, v: VReg, k: int) -> Option<int>
    decreases ivs.len() - k,
{
    if k < 0 || k >= ivs.len() {
        None
    } else if ivs[k].vreg == v {
        Some(k)
    } else {
        interval_of(ivs, v, k + 1)
    }
}

/// Keeps a register live past the last position of the line, across every safepoint from its first
/// mention on.
pub open spec fn pinned(c: Seq<Cell>, ivs: Seq<LiveInterval>, v: Option<VReg>) -> Seq<LiveInterval> {
    match v {
        None => ivs,
        Some(v) => match interval_of(ivs, v, 0) {
            None => ivs,
            Some(k) => ivs.update(
                k,
                LiveInterval {
                    end: (c.len() + 1) as u32,
                    crosses_safepoint: true,
                    crosses_call: crosses_call(c, ivs[k].start, (c.len() + 1) as u32),
                    ..ivs[k]
                },
            ),
        },
    }
}

/// The register of the method's materialized context.
pub open spec fn ctx_reg(m: MethodView) -> Option<VReg> {
    match m.method_ctx_vreg {
        Some(p) => Some(p.0),
        None => None,
    }
}

/// All operations of a method in order of emission.
pub open spec fn whole_line(m: MethodView) -> Seq<Cell> {
    let order = emission_order(m.blocks);
    line(m, order, order.len() as int)
}

/// The intervals of a method with its closure and its materialized context pinned.
pub open spec fn pins(m: MethodView, ivs: Seq<LiveInterval>) -> Seq<LiveInterval> {
    let c = whole_line(m);
    pinned(c, pinned(c, ivs, m.block_closure_vreg), ctx_reg(m))
}

/// The length of a line and its last call.
struct Extent {
    len: u32,
    last_call: Option<u32>,
}

impl Extent {
    spec fn of(self, c: Seq<Cell>) -> bool {
        &&& self.len == c.len()
        &&& match self.last_call {
            Some(p) => p < c.len() && is_call(c[p as int].op) && forall|q: int|
                p < q < c.len() ==> !is_call((#[trigger] c[q]).op),
            None => forall|q: int| 0 <= q < c.len() ==> !is_call((#[trigger] c[q]).op),
        }
    }
}

fn find_extent(m: &IrMethod, order: &Vec<BlockId>) -> (r: Extent)
    requires
        line(m@, order@, order@.len() as int).len() <= u32::MAX,
        forall|k: int| 0 <= k < order@.len() ==> (#[trigger] order@[k]).0 < m@.blocks.len(),
    ensures
        r.of(line(m@, order@, order@.len() as int)),
{
    let mut r = Extent { len: 0, last_call: None };
    let n: usize = order.len();
    for k in 0..n
        invariant
            n == order@.len(),
            line(m@, order@, n as int).len() <= u32::MAX,
            forall|k: int| 0 <= k < order@.len() ==> (#[trigger] order@[k]).0 < m@.blocks.len(),
            r.of(line(m@, order@, k as int)),
    {
        assert(order@[k as int].0 < m@.blocks.len());
        let b = &m.blocks[order[k].0 as usize];
        let ghost c0 = line(m@, order@, k as int);
        let ghost cells = block_cells(m@, b@);
        let size: usize = b.code.len();
        proof {
            lemma_line_prefix(m@, order@, k + 1, n as int);
            assert(c0 + cells.take(0) =~= c0);
        }
        for i in 0..size
            invariant
                size == b.code@.len(),
                cells == block_cells(m@, b@),
                c0.len() + size <= u32::MAX,
                r.of(c0 + cells.take(i as int)),
        {
            let ghost before = c0 + cells.take(i as int);
            let ghost after = c0 + cells.take(i + 1);
            proof {
                assert(after =~= before.push(cells[i as int]));
                assert(cells[i as int].op == b.code@[i as int]@);
                assert(forall|q: int| 0 <= q < before.len() ==> after[q] == before[q]);
            }
            if matches!(b.code[i], Ir::CallSend { .. } | Ir::CallRuntime { .. }) {
                r.last_call = Some(r.len);
            }
            r.len = r.len + 1;
        }
        assert(cells.take(size as int) =~= cells);
    }
    r
}

fn pin(ivs: &mut Vec<LiveInterval>, v: VReg, x: &Extent, Ghost(c): Ghost<Seq<Cell>>)
    requires
        x.of(c),
        x.len < u32::MAX,
    ensures
        final(ivs)@ == pinned(c, old(ivs)@, Some(v)),
{
    let n: usize = ivs.len();
    for k in 0..n
        invariant
            n == ivs@.len(),
            ivs@ == old(ivs)@,
            x.of(c),
            x.len < u32::MAX,
            interval_of(ivs@, v, 0) == interval_of(ivs@, v, k as int),
    {
        if ivs[k].vreg == v {
            let crosses = match x.last_call {
                Some(p) => ivs[k].start < p,
                None => false,
            };
            proof {
                let s = ivs@[k as int].start;
                if crosses {
                    assert(is_call(c[(x.last_call->0) as int].op));
                }
                assert(crosses == crosses_call(c, s, (c.len() + 1) as u32));
            }
            ivs[k].end = x.len + 1;
            ivs[k].crosses_safepoint = true;
            ivs[k].crosses_call = crosses;
            return;
        }
    }
}

/// The frame slots of the registers that deoptimization facts name.
pub open spec fn named_slot(ivs: Seq<LiveInterval>, facts: Seq<(VReg, u32)>, slot: u16) -> bool {
    exists|k: int|
        0 <= k < ivs.len() && slot_of(#[trigger] ivs[k]) == Some(slot) && fact_named(
            facts,
            ivs[k].vreg,
        )
}

/// The slots to clear on entry: each named slot once, ascending.
pub open spec fn are_named_slots(
    ivs: Seq<LiveInterval>,
    facts: Seq<(VReg, u32)>,
    slots: Seq<SpillSlot>,
) -> bool {
    &&& forall|j: int, k: int|
        0 <= j < k < slots.len() ==> (#[trigger] slots[j]).0 < (#[trigger] slots[k]).0
    &&& forall|s: u16| #[trigger] slots.contains(SpillSlot(s)) <==> named_slot(ivs, facts, s)
}

fn is_fact_named(facts: &Vec<(VReg, u32)>, v: VReg) -> (r: bool)
    ensures
        r == fact_named(facts@, v),
{
    let n: usize = facts.len();
    for k in 0..n
        invariant
            n == facts@.len(),
            forall|h: int| 0 <= h < k ==> (#[trigger] facts@[h]).0 != v,
    {
        if facts[k].0 == v {
            assert(facts@[k as int].0 == v);
            return true;
        }
    }
    false
}

/// Puts a slot into an ascending list, once.
fn insert_slot(slots: &mut Vec<SpillSlot>, s: u16)
    requires
        forall|j: int, k: int|
            0 <= j < k < old(slots)@.len() ==> (#[trigger] old(slots)@[j]).0 < (
            #[trigger] old(slots)@[k]).0,
    ensures
        forall|j: int, k: int|
            0 <= j < k < final(slots)@.len() ==> (#[trigger] final(slots)@[j]).0 < (
            #[trigger] final(slots)@[k]).0,
        forall|x: u16|
            #[trigger] final(slots)@.contains(SpillSlot(x)) <==> x == s || old(slots)@.contains(
                SpillSlot(x),
            ),
{
    let ghost before = slots@;
    let mut k: usize = slots.len();
    while k > 0 && slots[k - 1].0 > s
        invariant
            slots@ == before,
            k <= before.len(),
            forall|h: int| k <= h < before.len() ==> (#[trigger] before[h]).0 > s,
        decreases k,
    {
        k -= 1;
    }
    if k > 0 && slots[k - 1].0 == s {
        assert(before[k - 1] == SpillSlot(s));
        return;
    }
    slots.insert(k, SpillSlot(s));
    proof {
        let after = slots@;
        assert(after[k as int] == SpillSlot(s));
        assert forall|x: u16| #[trigger] after.contains(SpillSlot(x)) <==> x == s
            || before.contains(SpillSlot(x)) by {
            if before.contains(SpillSlot(x)) {
                let h = choose|h: int| 0 <= h < before.len() && before[h] == SpillSlot(x);
                let h2 = if h < k {
                    h
                } else {
                    h + 1
                };
                assert(after[h2] == SpillSlot(x));
            }
            if after.contains(SpillSlot(x)) {
                let h = choose|h: int| 0 <= h < after.len() && after[h] == SpillSlot(x);
                if h < k {
                    assert(before[h] == SpillSlot(x));
                } else if h > k {
                    assert(before[h - 1] == SpillSlot(x));
                }
            }
        }
        assert forall|a: int, b: int| 0 <= a < b < after.len() implies (#[trigger] after[a]).0 < (
        #[trigger] after[b]).0 by {
            if a < k {
                assert(after[a] == before[a]);
                if b == k {
                    assert(before[a].0 <= before[k - 1].0);
                } else if b > k {
                    assert(after[b] == before[b - 1]);
                }
                if b < k {
                    assert(after[b] == before[b]);
                }
            } else {
                assert(after[b] == before[b - 1]);
                if a > k {
                    assert(after[a] == before[a - 1]);
                }
            }
        }
    }
}

fn find_named_slots(ivs: &Vec<LiveInterval>, facts: &Vec<(VReg, u32)>) -> (r: Vec<SpillSlot>)
    ensures
        are_named_slots(ivs@, facts@, r@),
{
    let mut slots: Vec<SpillSlot> = Vec::new();
    let n: usize = ivs.len();
    proof {
        assert(ivs@.take(0).len() == 0);
    }
    for k in 0..n
        invariant
            n == ivs@.len(),
            are_named_slots(ivs@.take(k as int), facts@, slots@),
    {
        let ghost a = ivs@.take(k as int);
        let ghost b = ivs@.take(k + 1);
        let ghost before = slots@;
        proof {
            assert forall|s: u16| #[trigger] named_slot(b, facts@, s) <==> named_slot(a, facts@, s)
                || (slot_of(b[k as int]) == Some(s) && fact_named(facts@, b[k as int].vreg)) by {
                if named_slot(a, facts@, s) {
                    let h = choose|h: int|
                        0 <= h < a.len() && slot_of(#[trigger] a[h]) == Some(s) && fact_named(
                            facts@,
                            a[h].vreg,
                        );
                    assert(b[h] == a[h]);
                }
                if named_slot(b, facts@, s) {
                    let h = choose|h: int|
                        0 <= h < b.len() && slot_of(#[trigger] b[h]) == Some(s) && fact_named(
                            facts@,
                            b[h].vreg,
                        );
                    if h < k {
                        assert(a[h] == b[h]);
                    }
                }
            }
        }
        if let Some(Assignment::Spill(s)) = ivs[k].assignment {
            if is_fact_named(facts, ivs[k].vreg) {
                insert_slot(&mut slots, s.0);
            }
        }
        proof {
            assert forall|s: u16| #[trigger] slots@.contains(SpillSlot(s)) <==> named_slot(
                b,
                facts@,
                s,
            ) by {
                assert(before.contains(SpillSlot(s)) <==> named_slot(a, facts@, s));
            }
        }
    }
    proof {
        assert(ivs@.take(n as int) =~= ivs@);
    }
    slots
}

/// A register that a loop poll saves to a slot of its own before it may stop.
#[derive(Clone, Copy, PartialEq, Eq, Debug)]
pub struct PollSave {
    pub vreg: VReg,
    pub save_slot: SpillSlot,
    pub is_oop: bool,
}

/// A finished allocation.
pub struct RegallocResult {
    pub block_order: Vec<BlockId>,
    pub intervals: Vec<LiveInterval>,
    pub frame_slots: u16,
    pub slot_is_oop: Vec<bool>,
    /// The positions of the safepoints, ascending.
    pub safepoint_positions: Vec<u32>,
    /// The first position of each block.
    pub block_start_pos: HashMap<u32, u32>,
    /// Registers that deoptimization needs at safepoints outside their interval.
    pub extra_oop_live: Vec<(VReg, u32)>,
    /// The slots that must be cleared on entry, because a safepoint may look at them before they are
    /// written.
    pub deopt_nil_init_slots: Vec<SpillSlot>,
}

/// The allocation of a method with intervals `ivs`.
pub open spec fn is_allocation(
    m: MethodView,
    ivs: Seq<LiveInterval>,
    r: RegallocResult,
) -> bool {
    let f = allocated(pins(m, ivs));
    &&& r.intervals@ == with_residents(f.ivs)
    &&& r.slot_is_oop@ == f.slots
    &&& r.frame_slots == f.slots.len() as u16
}

/// Pinned registers end past the last position; that position has a number too.
pub open spec fn pins_fit(m: MethodView) -> bool {
    m.block_closure_vreg is Some || m.method_ctx_vreg is Some ==> whole_line(m).len() < u32::MAX
}

proof fn lemma_interval_of(ivs: Seq<LiveInterval>, v: VReg, k: int)
    requires
        0 <= k,
    ensures
        interval_of(ivs, v, k) matches Some(h) ==> k <= h < ivs.len() && ivs[h].vreg == v,
    decreases ivs.len() - k,
{
    if k < ivs.len() && ivs[k].vreg != v {
        lemma_interval_of(ivs, v, k + 1);
    }
}

/// Pinning widens and spills; it moves nothing else.
pub(crate) proof fn lemma_pins_keep(m: MethodView, ivs: Seq<LiveInterval>)
    ensures
        pins(m, ivs).len() == ivs.len(),
        forall|k: int|
            0 <= k < ivs.len() ==> (#[trigger] pins(m, ivs)[k]).vreg == ivs[k].vreg && pins(
                m,
                ivs,
            )[k].assignment == ivs[k].assignment && pins(m, ivs)[k].resident_reg
                == ivs[k].resident_reg && (ivs[k].crosses_safepoint ==> pins(
                m,
                ivs,
            )[k].crosses_safepoint),
{
    let a = pinned(whole_line(m), ivs, m.block_closure_vreg);
    if m.block_closure_vreg is Some {
        lemma_interval_of(ivs, m.block_closure_vreg->0, 0);
    }
    assert forall|k: int| 0 <= k < ivs.len() implies (#[trigger] a[k]).vreg == ivs[k].vreg
        && a[k].assignment == ivs[k].assignment && a[k].resident_reg == ivs[k].resident_reg && (
    ivs[k].crosses_safepoint ==> a[k].crosses_safepoint) by {}
    if m.method_ctx_vreg is Some {
        lemma_interval_of(a, (m.method_ctx_vreg->0).0, 0);
    }
    assert forall|k: int| 0 <= k < ivs.len() implies (#[trigger] pins(m, ivs)[k]).vreg
        == ivs[k].vreg && pins(m, ivs)[k].assignment == ivs[k].assignment && pins(
        m,
        ivs,
    )[k].resident_reg == ivs[k].resident_reg && (ivs[k].crosses_safepoint ==> pins(
        m,
        ivs,
    )[k].crosses_safepoint) by {
        assert(a[k].vreg == ivs[k].vreg);
    }
}

/// The closure of a block and the materialized context of a method are kept for the whole method. At
/// every safepoint their ranges are not over, and from their first mention on they have begun; they
/// count as crossing a safepoint, so that they live in the frame.
pub proof fn law_pinned_registers_stay_live(
    m: MethodView,
    ivs: Seq<LiveInterval>,
    v: VReg,
    k: int,
    sp: u32,
)
    requires
        line_fits(m),
        pins_fit(m),
        are_intervals(m, whole_line(m), loops(m, emission_order(m.blocks)), ivs),
        m.block_closure_vreg == Some(v) || ctx_reg(m) == Some(v),
        0 <= k < ivs.len(),
        ivs[k].vreg == v,
        safepoints(whole_line(m)).contains(sp),
    ensures
        pins(m, ivs)[k].vreg == v,
        pins(m, ivs)[k].crosses_safepoint,
        sp < pins(m, ivs)[k].end,
        (exists|p: int| 0 <= p <= sp && #[trigger] touches_at(whole_line(m), p, v))
            ==> pins(m, ivs)[k].start <= sp,
{
    let c = whole_line(m);
    let order = emission_order(m.blocks);
    lemma_safepoints(c, sp);
    lemma_interval_of(ivs, v, 0);
    lemma_pins_keep(m, ivs);
    let a = pinned(c, ivs, m.block_closure_vreg);
    lemma_first_of(ivs, v, 0, k);
    if m.block_closure_vreg is Some {
        lemma_interval_of(ivs, m.block_closure_vreg->0, 0);
    }
    assert(a.len() == ivs.len());
    assert(forall|h: int| 0 <= h < ivs.len() ==> (#[trigger] a[h]).vreg == ivs[h].vreg && a[h].start
        == ivs[h].start);
    lemma_first_of(a, v, 0, k);
    if ctx_reg(m) is Some {
        lemma_interval_of(a, ctx_reg(m)->0, 0);
    }
    assert(pins(m, ivs)[k].start == ivs[k].start);
    if exists|p: int| 0 <= p <= sp && #[trigger] touches_at(c, p, v) {
        let p = choose|p: int| 0 <= p <= sp && #[trigger] touches_at(c, p, v);
        assert(is_interval(m, c, loops(m, order), ivs[k]));
        law_uses_are_covered(m, ivs[k], p);
    }
}

/// The first interval of a register is its only one.
proof fn lemma_first_of(ivs: Seq<LiveInterval>, v: VReg, h: int, k: int)
    requires
        0 <= h <= k < ivs.len(),
        ivs[k].vreg == v,
        forall|i: int, j: int|
            0 <= i < j < ivs.len() ==> (#[trigger] ivs[i]).vreg.0 < (#[trigger] ivs[j]).vreg.0,
    ensures
        interval_of(ivs, v, h) == Some(k),
    decreases k - h,
{
    if h < k {
        assert(ivs[h].vreg.0 < ivs[k].vreg.0);
        lemma_first_of(ivs, v, h + 1, k);
    }
}

/// What a fact names lives in the frame.
proof fn lemma_named_spilled(m: MethodView, ivs: Seq<LiveInterval>, r: RegallocResult)
    requires
        are_intervals(m, whole_line(m), loops(m, emission_order(m.blocks)), ivs),
        are_facts(whole_line(m), loops(m, emission_order(m.blocks)), r.extra_oop_live@),
        is_allocation(m, ivs, r),
        ivs.len() <= usize::MAX,
    ensures
        forall|k: int|
            0 <= k < r.intervals@.len() && fact_named(
                r.extra_oop_live@,
                (#[trigger] r.intervals@[k]).vreg,
            ) ==> slot_of(r.intervals@[k]) is Some,
{
    let c = whole_line(m);
    let ls = loops(m, emission_order(m.blocks));
    lemma_pins_keep(m, ivs);
    let ps = pins(m, ivs);
    assert forall|a: int| 0 <= a < ps.len() implies (#[trigger] ps[a]).assignment is None
        && ps[a].resident_reg is None by {
        assert(is_interval(m, c, ls, ivs[a]));
    }
    law_allocation_is_sound(ps);
    let f = allocated(ps);
    assert forall|a: int| 0 <= a < f.ivs.len() implies (#[trigger] f.ivs[a]).resident_reg is None by {
        assert(same_range(f.ivs[a], ps[a]));
        assert(ps[a].resident_reg is None);
    }
    law_residents_are_exclusive(f.ivs);
    let facts = r.extra_oop_live@;
    let exact = exact_facts(c);
    assert forall|k: int|
        0 <= k < r.intervals@.len() && fact_named(
            facts,
            (#[trigger] r.intervals@[k]).vreg,
        ) implies slot_of(r.intervals@[k]) is Some by {
        assert(same_place(r.intervals@[k], f.ivs[k]));
        assert(same_range(f.ivs[k], ps[k]));
        let v = ivs[k].vreg;
        assert(ps[k].vreg == v);
        let h = choose|h: int| 0 <= h < facts.len() && (#[trigger] facts[h]).0 == v;
        assert(fact_named(exact, v)) by {
            if h < exact.len() {
                assert(facts.take(exact.len() as int)[h] == facts[h]);
                assert(exact[h].0 == v);
            } else {
                assert(loop_fact(c, ls, facts[h].0, facts[h].1));
            }
        }
        assert(is_interval(m, c, ls, ivs[k]));
    }
}

/// Allocates a method: its blocks in emission order, its live intervals with their places, the
/// frame, and what deoptimization needs beyond the intervals.
pub fn regalloc(method: &IrMethod) -> (r: RegallocResult)
    requires
        line_fits(method@),
        pins_fit(method@),
    ensures
        r.block_order@ == emission_order(method@.blocks),
        ({
            let c = line(method@, r.block_order@, r.block_order@.len() as int);
            let ls = loops(method@, r.block_order@);
            &&& exists|ivs: Seq<LiveInterval>|
                #[trigger] are_intervals(method@, c, ls, ivs) && is_allocation(method@, ivs, r)
            &&& r.safepoint_positions@ == safepoints(c)
            &&& are_starts(method@, r.block_order@, r.block_start_pos@)
            &&& are_facts(c, ls, r.extra_oop_live@)
        }),
        are_named_slots(r.intervals@, r.extra_oop_live@, r.deopt_nil_init_slots@),
        forall|k: int|
            0 <= k < r.intervals@.len() && fact_named(
                r.extra_oop_live@,
                (#[trigger] r.intervals@[k]).vreg,
            ) ==> slot_of(r.intervals@[k]) is Some,
        r.slot_is_oop@.len() <= u16::MAX ==> r.slot_is_oop@.len() == r.frame_slots,
{
    let (block_order, mut intervals, safepoint_positions, block_start_pos, extra_oop_live) =
        compute_intervals(method);
    let ghost ivs0 = intervals@;
    let ghost c = line(method@, block_order@, block_order@.len() as int);
    let ghost ls = loops(method@, block_order@);
    if method.block_closure_vreg.is_some() || method.method_ctx_vreg.is_some() {
        proof {
            law_order_is_permutation(method@.blocks);
        }
        let x = find_extent(method, &block_order);
        if let Some(v) = method.block_closure_vreg {
            pin(&mut intervals, v, &x, Ghost(c));
        }
        if let Some(p) = method.method_ctx_vreg {
            pin(&mut intervals, p.0, &x, Ghost(c));
        }
    }
    let ghost ivs2 = intervals@;
    let count: usize = intervals.len();
    proof {
        assert(ivs2 == pins(method@, ivs0));
        lemma_pins_keep(method@, ivs0);
        assert forall|k: int| 0 <= k < ivs2.len() implies (#[trigger] ivs2[k]).assignment is None
            && ivs2[k].resident_reg is None by {
            assert(is_interval(method@, c, ls, ivs0[k]));
        }
        assert(count == ivs2.len());
        law_allocation_is_sound(ivs2);
    }
    let (frame_slots, slot_is_oop) = allocate(&mut intervals);
    assign_residents(&mut intervals);
    let deopt_nil_init_slots = find_named_slots(&intervals, &extra_oop_live);
    let r = RegallocResult {
        block_order,
        intervals,
        frame_slots,
        slot_is_oop,
        safepoint_positions,
        block_start_pos,
        extra_oop_live,
        deopt_nil_init_slots,
    };
    proof {
        assert(are_intervals(method@, c, ls, ivs0));
        assert(is_allocation(method@, ivs0, r));
        lemma_named_spilled(method@, ivs0, r);
    }
    r
}

} // verus!

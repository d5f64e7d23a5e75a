//! What deoptimization rebuilds frames from is in the frame of the allocated method.

use vstd::prelude::*;
use crate::intervals::{
    are_facts, are_intervals, block_cells, block_start, exact_facts, lemma_block_start,
    lemma_live_facts, line, line_fits, loops, safepoints, spliced_site,
    start_at, trap_site, LiveInterval,
};
use crate::intervals::{is_interval, law_uses_are_covered, touches_at};
use crate::ir::{BlockId, DeoptView, InlineView, IrView, MethodView, VReg};
use crate::laws::law_deopt_values_are_found;
use crate::loc::frame_loc;
use crate::order::{emission_order, law_order_is_permutation};
use crate::passes::inline_refs;
use crate::regalloc::{
    allocated, is_allocation, law_allocation_is_sound, law_residents_are_exclusive,
    lemma_pins_keep, pins, same_place, same_range, slot_of, RegallocResult,
};

verus! {

/// Rebuilding the frames of a spliced extent takes `v`: some level of the chain has it as its
/// receiver, in a slot, or on the stack that its caller waits with.
pub open spec fn chain_takes(i: InlineView, v: VReg) -> bool
    decreases i,
{
    ||| v == i.receiver
    ||| exists|k: int| 0 <= k < i.slots.len() && #[trigger] i.slots[k] == v
    ||| exists|k: int| 0 <= k < i.caller_pending_stack.len() && #[trigger] i.caller_pending_stack[k] == v
    ||| match i.parent {
        Some(p) => chain_takes(*p, v),
        None => false,
    }
}

/// Leaving compiled code at the site takes `v`: where the code is left for good or may be left at a
/// poll, and wherever the site lies in a spliced body, the receiver, the arguments and the
/// temporaries of the method and the operands at the site; and in a spliced body every frame of the
/// chain.
pub open spec fn site_takes(m: MethodView, d: DeoptView, v: VReg) -> bool {
    let leaves = d.kind is UncommonTrap || d.kind is LoopPoll || d.inline is Some;
    ||| leaves && v.0 <= m.argc + m.ntemps
    ||| leaves && exists|k: int| 0 <= k < d.stack.len() && #[trigger] d.stack[k] == v
    ||| match d.inline {
        Some(i) => chain_takes(i, v),
        None => false,
    }
}

/// The position in the line of the operation that site `k` of block `b` belongs to.
pub open spec fn site_position(m: MethodView, b: int, k: int) -> nat {
    block_start(m, emission_order(m.blocks), BlockId(b as u32)) + m.blocks[b].deopt_sites[k].0 as nat
}

/// Site `k` of block `b` stands at an operation, and no other site of the block stands there.
pub open spec fn sole_site(m: MethodView, b: int, k: int) -> bool {
    let sites = m.blocks[b].deopt_sites;
    &&& 0 <= b < m.blocks.len()
    &&& 0 <= k < sites.len()
    &&& sites[k].0 < m.blocks[b].code.len()
    &&& forall|j: int| 0 <= j < sites.len() && j != k ==> (#[trigger] sites[j]).0 != sites[k].0
}

proof fn lemma_chain(i: InlineView, v: VReg)
    requires
        chain_takes(i, v),
    ensures
        inline_refs(i).contains(v),
    decreases i,
{
    let r = inline_refs(i);
    let n = i.slots.len();
    let p = i.caller_pending_stack.len();
    if v == i.receiver {
        assert(r[0] == v);
    } else if exists|k: int| 0 <= k < n && #[trigger] i.slots[k] == v {
        let k = choose|k: int| 0 <= k < n && #[trigger] i.slots[k] == v;
        assert(r[1 + k] == v);
    } else if exists|k: int| 0 <= k < p && #[trigger] i.caller_pending_stack[k] == v {
        let k = choose|k: int| 0 <= k < p && #[trigger] i.caller_pending_stack[k] == v;
        assert(r[1 + n + k] == v);
    } else {
        let q = *(i.parent->0);
        lemma_chain(q, v);
        let k = choose|k: int| 0 <= k < inline_refs(q).len() && inline_refs(q)[k] == v;
        assert(r[1 + n + p + k] == v);
    }
}

proof fn lemma_trap_site(sites: Seq<(u32, DeoptView)>, i: int, j: int, k: int)
    requires
        0 <= j <= k < sites.len(),
        sites[k].0 == i,
        forall|h: int| 0 <= h < sites.len() && h != k ==> (#[trigger] sites[h]).0 != i,
    ensures
        sites[k].1.kind is UncommonTrap || sites[k].1.kind is LoopPoll ==> trap_site(sites, i, j)
            == Some(sites[k].1),
        !(sites[k].1.kind is UncommonTrap || sites[k].1.kind is LoopPoll) ==> trap_site(sites, i, j)
            is None,
        sites[k].1.inline is Some ==> spliced_site(sites, i, j) == Some(sites[k].1),
    decreases k - j,
{
    if j < k {
        assert(sites[j].0 != i);
        lemma_trap_site(sites, i, j + 1, k);
    } else {
        lemma_no_site(sites, i, k + 1);
    }
}

proof fn lemma_no_site(sites: Seq<(u32, DeoptView)>, i: int, j: int)
    requires
        0 <= j,
        forall|h: int| j <= h < sites.len() ==> (#[trigger] sites[h]).0 != i,
    ensures
        trap_site(sites, i, j) is None,
    decreases sites.len() - j,
{
    if j < sites.len() {
        assert(sites[j].0 != i);
        lemma_no_site(sites, i, j + 1);
    }
}

proof fn lemma_line_cells(m: MethodView, order: Seq<BlockId>, j: int, k: int)
    requires
        0 <= j <= k,
    ensures
        line(m, order, j).len() <= line(m, order, k).len(),
        forall|i: int|
            0 <= i < line(m, order, j).len() ==> line(m, order, k)[i] == #[trigger] line(
                m,
                order,
                j,
            )[i],
    decreases k - j,
{
    if j < k {
        lemma_line_cells(m, order, j, k - 1);
    }
}

/// What a site takes is live at its operation.
proof fn lemma_taken_live(m: MethodView, b: int, k: int, v: VReg)
    requires
        line_fits(m),
        sole_site(m, b, k),
        site_takes(m, m.blocks[b].deopt_sites[k].1, v),
    ensures
        ({
            let order = emission_order(m.blocks);
            let c = line(m, order, order.len() as int);
            site_position(m, b, k) < c.len() && c[site_position(m, b, k) as int].live.contains(v)
        }),
{
    let order = emission_order(m.blocks);
    let n = order.len() as int;
    let c = line(m, order, n);
    let id = BlockId(b as u32);
    law_order_is_permutation(m.blocks);
    assert(order.contains(id));
    let q = order.index_of(id);
    assert(order[q] == id);
    lemma_block_start(m, order, q);
    lemma_line_cells(m, order, q + 1, n);
    let cells = block_cells(m, m.blocks[b]);
    let sites = m.blocks[b].deopt_sites;
    let i = sites[k].0 as int;
    let at = start_at(m, order, q);
    assert(line(m, order, q + 1) == line(m, order, q) + cells);
    assert(line(m, order, q + 1)[at + i] == cells[i]);
    assert(c[at + i] == cells[i]);
    let d = sites[k].1;
    lemma_trap_site(sites, i, 0, k);
    let live = cells[i].live;
    let fr = crate::intervals::frame_regs(m);
    let off: int = if d.kind is UncommonTrap || d.kind is LoopPoll {
        (fr.len() + d.stack.len()) as int
    } else {
        0
    };
    let leaves = d.kind is UncommonTrap || d.kind is LoopPoll || d.inline is Some;
    if leaves && v.0 <= m.argc + m.ntemps {
        assert(fr[v.0 as int] == v);
        assert(live[v.0 as int] == v);
    } else if leaves && exists|h: int| 0 <= h < d.stack.len() && #[trigger] d.stack[h] == v {
        let h = choose|h: int| 0 <= h < d.stack.len() && #[trigger] d.stack[h] == v;
        if d.inline is Some {
            let refs = inline_refs(d.inline->0);
            assert(live[off + fr.len() + refs.len() + h] == v);
        } else {
            assert(live[fr.len() + h] == v);
        }
    } else {
        let refs = inline_refs(d.inline->0);
        lemma_chain(d.inline->0, v);
        let h = choose|h: int| 0 <= h < refs.len() && refs[h] == v;
        assert(live[off + fr.len() + h] == v);
    }
}

/// Everything that deoptimization at a site rebuilds frames from has a fact at the site's position
/// and at every safepoint before it, and is found in a frame slot at all of them: the receiver, the
/// slots and the waiting stack of every level of a spliced body, and the frame and the operands of
/// the method itself.
pub proof fn law_rebuilt_frames_are_found(
    m: MethodView,
    ivs: Seq<LiveInterval>,
    r: RegallocResult,
    b: int,
    k: int,
    v: VReg,
)
    requires
        line_fits(m),
        ivs.len() <= usize::MAX,
        ({
            let order = emission_order(m.blocks);
            let c = line(m, order, order.len() as int);
            let ls = loops(m, order);
            are_intervals(m, c, ls, ivs) && are_facts(c, ls, r.extra_oop_live@)
        }),
        is_allocation(m, ivs, r),
        sole_site(m, b, k),
        site_takes(m, m.blocks[b].deopt_sites[k].1, v),
        v.0 < m.vregs.len(),
    ensures
        ({
            let order = emission_order(m.blocks);
            let c = line(m, order, order.len() as int);
            let p = site_position(m, b, k);
            &&& r.extra_oop_live@.contains((v, p as u32))
            &&& !(frame_loc(v, p as u32, r.intervals@, r.extra_oop_live@, seq![]) is Nil)
            &&& forall|sp: u32|
                sp < p && #[trigger] safepoints(c).contains(sp) ==> r.extra_oop_live@.contains((v, sp))
                    && !(frame_loc(v, sp, r.intervals@, r.extra_oop_live@, seq![]) is Nil)
        }),
{
    let order = emission_order(m.blocks);
    let c = line(m, order, order.len() as int);
    let ls = loops(m, order);
    let facts = r.extra_oop_live@;
    let p = site_position(m, b, k) as int;
    lemma_taken_live(m, b, k, v);
    lemma_live_facts(c, p, v);
    let exact = exact_facts(c);
    law_deopt_values_are_found(m, ivs, facts, p, v, p as u32);
    lemma_is_fact(exact, facts, v, p as u32);
    assert forall|sp: u32| sp < p && #[trigger] safepoints(c).contains(sp) implies facts.contains(
        (v, sp),
    ) && !(frame_loc(v, sp, r.intervals@, facts, seq![]) is Nil) by {
        lemma_earlier(c, p, sp);
        let j = choose|j: int| 0 <= j < safepoints(c.take(p)).len() && safepoints(c.take(p))[j] == sp;
        assert(exact.contains((v, safepoints(c.take(p))[j])));
        lemma_is_fact(exact, facts, v, sp);
        law_deopt_values_are_found(m, ivs, facts, p, v, sp);
    }
}

proof fn lemma_is_fact(exact: Seq<(VReg, u32)>, facts: Seq<(VReg, u32)>, v: VReg, p: u32)
    requires
        exact.len() <= facts.len(),
        facts.take(exact.len() as int) == exact,
        exact.contains((v, p)),
    ensures
        facts.contains((v, p)),
{
    let i = choose|i: int| 0 <= i < exact.len() && exact[i] == (v, p);
    assert(facts.take(exact.len() as int)[i] == (v, p));
    assert(facts[i] == (v, p));
}

proof fn lemma_earlier(c: Seq<crate::intervals::Cell>, p: int, sp: u32)
    requires
        0 <= p <= c.len() <= u32::MAX,
        safepoints(c).contains(sp),
        sp < p,
    ensures
        safepoints(c.take(p)).contains(sp),
    decreases c.len(),
{
    if p == c.len() {
        assert(c.take(p) =~= c);
    } else {
        let d = c.drop_last();
        assert(d.take(p) =~= c.take(p));
        let j = choose|j: int| 0 <= j < safepoints(c).len() && safepoints(c)[j] == sp;
        assert(sp != (c.len() - 1) as u32);
        assert(j < safepoints(d).len());
        assert(safepoints(d)[j] == sp);
        lemma_earlier(d, p, sp);
    }
}

/// The operation can run the collector or leave compiled code.
pub open spec fn may_collect(op: IrView) -> bool {
    ||| op is CallSend
    ||| op is CallRuntime
    ||| op is Alloc
    ||| op is FBox
    ||| op is VecArith
    ||| op is Poll
    ||| op is UncommonTrap
}

/// A register that is mentioned up to an operation that can run the collector and mentioned again
/// after it has a slot in the frame: no value lives through such an operation in a machine register
/// alone.
pub proof fn law_values_survive_in_the_frame(
    m: MethodView,
    ivs: Seq<LiveInterval>,
    r: RegallocResult,
    k: int,
    a: int,
    p: int,
    q: int,
)
    requires
        line_fits(m),
        ivs.len() <= usize::MAX,
        ({
            let order = emission_order(m.blocks);
            let c = line(m, order, order.len() as int);
            &&& are_intervals(m, c, loops(m, order), ivs)
            &&& 0 <= a <= p < q < c.len()
            &&& 0 <= k < ivs.len()
            &&& touches_at(c, a, ivs[k].vreg)
            &&& touches_at(c, q, ivs[k].vreg)
            &&& may_collect(c[p].op)
        }),
        is_allocation(m, ivs, r),
    ensures
        k < r.intervals@.len(),
        r.intervals@[k].vreg == ivs[k].vreg,
        slot_of(r.intervals@[k]) is Some,
{
    let order = emission_order(m.blocks);
    let c = line(m, order, order.len() as int);
    let ls = loops(m, order);
    assert(is_interval(m, c, ls, ivs[k]));
    law_uses_are_covered(m, ivs[k], a);
    law_uses_are_covered(m, ivs[k], q);
    assert(crate::promote::safepoint_op(c[p].op));
    assert(ivs[k].crosses_safepoint);
    lemma_pins_keep(m, ivs);
    let ps = pins(m, ivs);
    assert forall|i: int| 0 <= i < ps.len() implies (#[trigger] ps[i]).assignment is None
        && ps[i].resident_reg is None by {
        assert(is_interval(m, c, ls, ivs[i]));
    }
    assert(ps[k].vreg == ivs[k].vreg && ps[k].crosses_safepoint);
    law_allocation_is_sound(ps);
    let f = allocated(ps);
    assert(same_range(f.ivs[k], ps[k]));
    assert forall|i: int| 0 <= i < f.ivs.len() implies (#[trigger] f.ivs[i]).resident_reg is None by {
        assert(same_range(f.ivs[i], ps[i]));
        assert(ps[i].resident_reg is None);
    }
    law_residents_are_exclusive(f.ivs);
    assert(same_place(r.intervals@[k], f.ivs[k]));
}

} // verus!

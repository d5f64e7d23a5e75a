//! Live intervals over the linear order of emission.

use std::collections::{HashMap, HashSet};
use vstd::prelude::*;
use crate::ir::{BlockId, BlockView, DeoptView, Ir, IrBlock, IrMethod, IrView, MethodView, VReg};
use crate::flow::lemma_same_order;
use crate::order::{
    emission_order, law_order_is_permutation, reverse_postorder, successors, targets, targets_ok,
};
use crate::passes::inline_refs;
use crate::promote::{is_safepoint_op, safepoint_op};
use crate::scopes::SafepointKind;

verus! {

broadcast use vstd::std_specs::hash::group_hash_axioms;

/// Where a value lives.
#[derive(Clone, Copy, PartialEq, Eq, Debug, Structural)]
pub enum Assignment {
    Reg(u8),
    Spill(SpillSlot),
}

/// A frame slot; slot `i` lies `8 * (i + 1)` bytes below the frame pointer.
#[derive(Clone, Copy, PartialEq, Eq, Debug, Structural)]
pub struct SpillSlot(pub u16);

/// One register's live range: instruction positions, both ends included, holes ignored.
#[derive(Clone, Copy, PartialEq, Eq, Debug)]
pub struct LiveInterval {
    pub vreg: VReg,
    pub start: u32,
    pub end: u32,
    pub is_oop: bool,
    pub is_fp: bool,
    /// The value must survive a safepoint.
    pub crosses_safepoint: bool,
    /// A call lies strictly inside the range.
    pub crosses_call: bool,
    pub assignment: Option<Assignment>,
    /// A register that also holds the value of a spilled interval.
    pub resident_reg: Option<u8>,
}

/// One position of the linear order: the operation, the registers that deoptimization at it must
/// find, and whether it has a deoptimization site at all.
pub ghost struct Cell {
    pub op: IrView,
    pub live: Seq<VReg>,
    pub site: bool,
}

/// The receiver and the slots of the method.
pub open spec fn frame_regs(m: MethodView) -> Seq<VReg> {
    Seq::new((1 + m.argc + m.ntemps) as nat, |i: int| VReg(i as u32))
}

/// The first site of operation `i` that leaves compiled code or polls, from site `k` on.
pub open spec fn trap_site(sites: Seq<(u32, DeoptView)>, i: int, k: int) -> Option<DeoptView>
    decreases sites.len() - k,
{
    if k < 0 || k >= sites.len() {
        None
    } else if sites[k].0 == i && (sites[k].1.kind is UncommonTrap || sites[k].1.kind is LoopPoll) {
        Some(sites[k].1)
    } else {
        trap_site(sites, i, k + 1)
    }
}

/// The first site of operation `i` inside a spliced body, from site `k` on.
pub open spec fn spliced_site(sites: Seq<(u32, DeoptView)>, i: int, k: int) -> Option<DeoptView>
    decreases sites.len() - k,
{
    if k < 0 || k >= sites.len() {
        None
    } else if sites[k].0 == i && sites[k].1.inline is Some {
        Some(sites[k].1)
    } else {
        spliced_site(sites, i, k + 1)
    }
}

/// What deoptimization at operation `i` must find: the frame and the operand stack where it leaves
/// compiled code, and every frame to rebuild inside a spliced body.
pub open spec fn live_regs(m: MethodView, sites: Seq<(u32, DeoptView)>, i: int) -> Seq<VReg> {
    (match trap_site(sites, i, 0) {
        Some(raw) => frame_regs(m) + raw.stack,
        None => seq![],
    }) + (match spliced_site(sites, i, 0) {
        Some(raw) => frame_regs(m) + inline_refs(raw.inline->0) + raw.stack,
        None => seq![],
    })
}

pub open spec fn has_site_at(sites: Seq<(u32, DeoptView)>, i: int) -> bool {
    exists|k: int| 0 <= k < sites.len() && (#[trigger] sites[k]).0 == i
}

pub open spec fn block_cells(m: MethodView, b: BlockView) -> Seq<Cell> {
    Seq::new(
        b.code.len(),
        |i: int|
            Cell {
                op: b.code[i],
                live: live_regs(m, b.deopt_sites, i),
                site: has_site_at(b.deopt_sites, i),
            },
    )
}

/// The first `k` blocks of the order, laid out in a line.
pub open spec fn line(m: MethodView, order: Seq<BlockId>, k: int) -> Seq<Cell>
    decreases k,
{
    if k <= 0 {
        seq![]
    } else {
        line(m, order, k - 1) + block_cells(m, m.blocks[order[k - 1].0 as int])
    }
}

/// The position at which the `k`-th block of the order starts.
pub open spec fn start_at(m: MethodView, order: Seq<BlockId>, k: int) -> nat {
    line(m, order, k).len()
}

/// The position at which block `b` starts.
pub open spec fn block_start(m: MethodView, order: Seq<BlockId>, b: BlockId) -> nat {
    start_at(m, order, order.index_of(b))
}

/// The last position of the `k`-th block of the order.
pub open spec fn end_at(m: MethodView, order: Seq<BlockId>, k: int) -> nat {
    let next = start_at(m, order, k + 1);
    if next == 0 {
        0
    } else {
        (next - 1) as nat
    }
}

/// The positions of safepoints, ascending.
pub open spec fn safepoints(c: Seq<Cell>) -> Seq<u32>
    decreases c.len(),
{
    if c.len() == 0 {
        seq![]
    } else if safepoint_op(c.last().op) {
        safepoints(c.drop_last()).push((c.len() - 1) as u32)
    } else {
        safepoints(c.drop_last())
    }
}

pub open spec fn is_call(op: IrView) -> bool {
    op is CallSend || op is CallRuntime
}

/// Register `v` must be found at position `p` and at every safepoint before it: the collector may
/// run at any of them.
pub open spec fn facts_of(v: VReg, p: u32, earlier: Seq<u32>) -> Seq<(VReg, u32)> {
    seq![(v, p)] + earlier.map_values(|sp: u32| (v, sp))
}

pub open spec fn facts_of_all(regs: Seq<VReg>, p: u32, earlier: Seq<u32>) -> Seq<(VReg, u32)>
    decreases regs.len(),
{
    if regs.len() == 0 {
        seq![]
    } else {
        facts_of_all(regs.drop_last(), p, earlier) + facts_of(regs.last(), p, earlier)
    }
}

/// The exact facts of a line, in order.
pub open spec fn exact_facts(c: Seq<Cell>) -> Seq<(VReg, u32)>
    decreases c.len(),
{
    if c.len() == 0 {
        seq![]
    } else {
        exact_facts(c.drop_last()) + facts_of_all(
            c.last().live,
            (c.len() - 1) as u32,
            safepoints(c.drop_last()),
        )
    }
}

pub open spec fn reads_at(c: Seq<Cell>, p: int, v: VReg) -> bool {
    c[p].op.reads().contains(v)
}

pub open spec fn touches_at(c: Seq<Cell>, p: int, v: VReg) -> bool {
    reads_at(c, p, v) || c[p].op.write() == Some(v)
}

/// `p` is the first position that mentions `v`.
pub open spec fn first_touch(c: Seq<Cell>, v: VReg, p: int) -> bool {
    &&& 0 <= p < c.len()
    &&& touches_at(c, p, v)
    &&& forall|q: int| 0 <= q < p ==> !#[trigger] touches_at(c, q, v)
}

/// `p` is the last position that mentions `v`.
pub open spec fn last_touch(c: Seq<Cell>, v: VReg, p: int) -> bool {
    &&& 0 <= p < c.len()
    &&& touches_at(c, p, v)
    &&& forall|q: int| p < q < c.len() ==> !#[trigger] touches_at(c, q, v)
}

/// From the first mention of `v` to the last: every read and every write lies inside.
pub open spec fn organic(c: Seq<Cell>, v: VReg, s: u32, e: u32) -> bool {
    first_touch(c, v, s as int) && last_touch(c, v, e as int)
}

pub open spec fn touched(c: Seq<Cell>, v: VReg) -> bool {
    exists|p: int| 0 <= p < c.len() && #[trigger] touches_at(c, p, v)
}

/// A jump back: from the `k`-th block of the order to target `j` of it, which does not come later.
/// The loop reaches from the target's start to the end of the jumping block.
pub open spec fn back_edge(m: MethodView, order: Seq<BlockId>, k: int, j: int) -> bool {
    let ts = targets(m.blocks[order[k].0 as int].code);
    &&& 0 <= k < order.len()
    &&& 0 <= j < ts.len()
    &&& block_start(m, order, ts[j]) <= start_at(m, order, k)
}

/// The loops among the jumps of the first `k` blocks and the first `j` jumps of the next.
pub open spec fn loops_upto(m: MethodView, order: Seq<BlockId>, k: int, j: int) -> Seq<(u32, u32)>
    decreases k, j,
{
    if k < 0 {
        seq![]
    } else if j > 0 {
        let rest = loops_upto(m, order, k, j - 1);
        if back_edge(m, order, k, j - 1) {
            rest.push(
                (
                    block_start(
                        m,
                        order,
                        targets(m.blocks[order[k].0 as int].code)[j - 1],
                    ) as u32,
                    end_at(m, order, k) as u32,
                ),
            )
        } else {
            rest
        }
    } else if k > 0 {
        loops_upto(
            m,
            order,
            k - 1,
            targets(m.blocks[order[k - 1].0 as int].code).len() as int,
        )
    } else {
        seq![]
    }
}

/// The position ranges of the method's loops.
pub open spec fn loops(m: MethodView, order: Seq<BlockId>) -> Seq<(u32, u32)> {
    loops_upto(m, order, order.len() as int, 0)
}

/// `[s, e]` covers every loop that it touches and sticks out of.
pub open spec fn loop_closed(ls: Seq<(u32, u32)>, s: u32, e: u32) -> bool {
    forall|k: int|
        0 <= k < ls.len() && s <= (#[trigger] ls[k]).1 && e >= ls[k].0 && (s < ls[k].0 || e
            > ls[k].1) ==> s <= ls[k].0 && ls[k].1 <= e
}

/// `[s2, e2]` is the least range around `[s, e]` that covers every loop it touches and sticks out
/// of: a value that enters or leaves a loop lives through the whole of it.
pub open spec fn widened(ls: Seq<(u32, u32)>, s: u32, e: u32, s2: u32, e2: u32) -> bool {
    &&& s2 <= s
    &&& e <= e2
    &&& loop_closed(ls, s2, e2)
    &&& forall|a: u32, b: u32|
        a <= s && e <= b && #[trigger] loop_closed(ls, a, b) ==> a <= s2 && e2 <= b
}

/// The last position with a deoptimization site.
pub open spec fn last_site(c: Seq<Cell>, p: int) -> bool {
    0 <= p < c.len() && c[p].site && forall|q: int| p < q < c.len() ==> !(#[trigger] c[q]).site
}

pub open spec fn any_site(c: Seq<Cell>) -> bool {
    exists|p: int| 0 <= p < c.len() && (#[trigger] c[p]).site
}

/// `v` stands for a captured temporary, which every deoptimization reads.
pub open spec fn ctx_live(m: MethodView, c: Seq<Cell>, v: VReg) -> bool {
    m.ctx_vregs.contains(v) && any_site(c)
}

pub open spec fn fact_named(f: Seq<(VReg, u32)>, v: VReg) -> bool {
    exists|k: int| 0 <= k < f.len() && (#[trigger] f[k]).0 == v
}

/// Deoptimization refers to `v`.
pub open spec fn deopt_named(m: MethodView, c: Seq<Cell>, v: VReg) -> bool {
    fact_named(exact_facts(c), v) || ctx_live(m, c, v)
}

/// The final range of `v`: from its first mention to its last, widened over loops, and for a
/// captured temporary past the last deoptimization site. A register that only deoptimization names
/// gets a range at the entry.
pub open spec fn range_of(
    m: MethodView,
    c: Seq<Cell>,
    ls: Seq<(u32, u32)>,
    v: VReg,
    s: u32,
    e: u32,
) -> bool {
    if touched(c, v) {
        exists|s0: u32, e0: u32, e1: u32|
            #[trigger] organic(c, v, s0, e0) && #[trigger] widened(ls, s0, e0, s, e1)
                && past_sites(m, c, v, e1, e)
    } else {
        s == 0 && past_sites(m, c, v, 0, e)
    }
}

/// `e` is `e1`, moved past the last deoptimization site where `v` stands for a captured temporary.
pub open spec fn past_sites(m: MethodView, c: Seq<Cell>, v: VReg, e1: u32, e: u32) -> bool {
    if ctx_live(m, c, v) {
        forall|p: int|
            #[trigger] last_site(c, p) ==> e == (if e1 <= p {
                p + 1
            } else {
                e1 as int
            })
    } else {
        e == e1
    }
}

/// A safepoint lies in `[s, e)`: a value that a safepoint defines has to survive it, one that it
/// only reads has not.
pub open spec fn crosses_safepoint(c: Seq<Cell>, s: u32, e: u32) -> bool {
    exists|p: int| s <= p < e && 0 <= p < c.len() && safepoint_op((#[trigger] c[p]).op)
}

/// A call lies strictly inside `[s, e]`: the call's own result does not cross it.
pub open spec fn crosses_call(c: Seq<Cell>, s: u32, e: u32) -> bool {
    exists|p: int| s < p < e && 0 <= p < c.len() && is_call((#[trigger] c[p]).op)
}

/// Register `v` has an interval.
pub open spec fn has_interval(m: MethodView, c: Seq<Cell>, v: VReg) -> bool {
    touched(c, v) || deopt_named(m, c, v)
}

pub open spec fn is_interval(
    m: MethodView,
    c: Seq<Cell>,
    ls: Seq<(u32, u32)>,
    iv: LiveInterval,
) -> bool {
    &&& range_of(m, c, ls, iv.vreg, iv.start, iv.end)
    &&& iv.is_oop == m.vregs[iv.vreg.0 as int].is_oop
    &&& iv.is_fp == m.vregs[iv.vreg.0 as int].is_fp
    &&& iv.crosses_safepoint == (deopt_named(m, c, iv.vreg) || crosses_safepoint(
        c,
        iv.start,
        iv.end,
    ))
    &&& iv.crosses_call == crosses_call(c, iv.start, iv.end)
    &&& iv.assignment is None
    &&& iv.resident_reg is None
}

/// One interval for each register that has one, in register order.
pub open spec fn are_intervals(
    m: MethodView,
    c: Seq<Cell>,
    ls: Seq<(u32, u32)>,
    ivs: Seq<LiveInterval>,
) -> bool {
    &&& forall|k: int|
        0 <= k < ivs.len() ==> is_interval(m, c, ls, #[trigger] ivs[k]) && ivs[k].vreg.0
            < m.vregs.len()
    &&& forall|j: int, k: int|
        0 <= j < k < ivs.len() ==> (#[trigger] ivs[j]).vreg.0 < (#[trigger] ivs[k]).vreg.0
    &&& forall|v: int|
        0 <= v < m.vregs.len() ==> (#[trigger] has_interval(m, c, VReg(v as u32)) <==> exists|
            k: int,
        |
            0 <= k < ivs.len() && (#[trigger] ivs[k]).vreg == VReg(v as u32))
}

/// A loop carries `v` around to position `p` outside its own range; then every safepoint of that
/// loop outside the range must find it.
pub open spec fn loop_fact(c: Seq<Cell>, ls: Seq<(u32, u32)>, v: VReg, sp: u32) -> bool {
    exists|f: int, k: int, s: u32, e: u32|
        #![trigger exact_facts(c)[f], ls[k], organic(c, v, s, e)]
        0 <= f < exact_facts(c).len() && 0 <= k < ls.len() && exact_facts(c)[f].0 == v && organic(
            c,
            v,
            s,
            e,
        ) && carries(ls[k], s, e, exact_facts(c)[f].1, sp) && safepoints(c).contains(sp)
}

pub open spec fn carries(l: (u32, u32), s: u32, e: u32, p: u32, sp: u32) -> bool {
    &&& !(s <= p <= e)
    &&& l.0 <= p <= l.1
    &&& s <= l.1 && e >= l.0
    &&& l.0 <= sp <= l.1
    &&& !(s < sp < e)
}

/// The facts beyond the intervals: the exact ones in order, then the loop facts, each once.
pub open spec fn are_facts(c: Seq<Cell>, ls: Seq<(u32, u32)>, f: Seq<(VReg, u32)>) -> bool {
    let n = exact_facts(c).len() as int;
    &&& f.len() >= n
    &&& f.take(n) == exact_facts(c)
    &&& forall|k: int| n <= k < f.len() ==> loop_fact(c, ls, (#[trigger] f[k]).0, f[k].1)
    &&& forall|v: VReg, sp: u32|
        #[trigger] loop_fact(c, ls, v, sp) ==> f.skip(n).contains((v, sp))
    &&& forall|j: int, k: int| n <= j < k < f.len() ==> #[trigger] f[j] != #[trigger] f[k]
}

/// The starts of all blocks, by block index.
pub open spec fn are_starts(m: MethodView, order: Seq<BlockId>, starts: Map<u32, u32>) -> bool {
    &&& forall|b: u32| starts.dom().contains(b) <==> b < m.blocks.len()
    &&& forall|b: u32|
        b < m.blocks.len() ==> #[trigger] starts[b] == block_start(m, order, BlockId(b))
}

/// Every position has a number.
pub open spec fn line_fits(m: MethodView) -> bool {
    let order = emission_order(m.blocks);
    &&& m.blocks.len() <= u32::MAX
    &&& m.vregs.len() <= u32::MAX
    &&& targets_ok(m.blocks)
    &&& line(m, order, order.len() as int).len() <= u32::MAX
}

/// What one pass over the line gathers.
struct Scan {
    safepoints: Vec<u32>,
    calls: Vec<u32>,
    first: HashMap<u32, u32>,
    last: HashMap<u32, u32>,
    exact: Vec<(VReg, u32)>,
    last_site: Option<u32>,
}

spec fn calls_of(c: Seq<Cell>, calls: Seq<u32>) -> bool {
    &&& forall|k: int|
        0 <= k < calls.len() ==> (#[trigger] calls[k]) < c.len() && is_call(c[calls[k] as int].op)
    &&& forall|p: int|
        0 <= p < c.len() && is_call((#[trigger] c[p]).op) ==> calls.contains(p as u32)
}

spec fn firsts_of(c: Seq<Cell>, first: Map<u32, u32>) -> bool {
    &&& forall|v: u32| #[trigger] first.dom().contains(v) <==> touched(c, VReg(v))
    &&& forall|v: u32| #[trigger] first.dom().contains(v) ==> first_touch(c, VReg(v), first[v] as int)
}

spec fn lasts_of(c: Seq<Cell>, last: Map<u32, u32>) -> bool {
    &&& forall|v: u32| #[trigger] last.dom().contains(v) <==> touched(c, VReg(v))
    &&& forall|v: u32| #[trigger] last.dom().contains(v) ==> last_touch(c, VReg(v), last[v] as int)
}

impl Scan {
    spec fn of(self, c: Seq<Cell>) -> bool {
        &&& self.safepoints@ == safepoints(c)
        &&& calls_of(c, self.calls@)
        &&& firsts_of(c, self.first@)
        &&& lasts_of(c, self.last@)
        &&& self.exact@ == exact_facts(c)
        &&& match self.last_site {
            Some(p) => last_site(c, p as int),
            None => !any_site(c),
        }
    }

    fn new() -> (r: Scan)
        ensures
            r.of(Seq::empty()),
    {
        let r = Scan {
            safepoints: Vec::new(),
            calls: Vec::new(),
            first: HashMap::new(),
            last: HashMap::new(),
            exact: Vec::new(),
            last_site: None,
        };
        assert(r.safepoints@ =~= safepoints(Seq::empty()));
        assert(r.exact@ =~= exact_facts(Seq::empty()));
        r
    }

    /// Records the registers that position `p` and every safepoint before it must find.
    fn record(&mut self, regs: &Vec<VReg>, p: u32)
        ensures
            final(self).exact@ == old(self).exact@ + facts_of_all(regs@, p, old(self).safepoints@),
            final(self).safepoints == old(self).safepoints,
            final(self).calls == old(self).calls,
            final(self).first == old(self).first,
            final(self).last == old(self).last,
            final(self).last_site == old(self).last_site,
    {
        let ghost e0 = self.exact@;
        let ghost sps = self.safepoints@;
        assert(regs@.take(0) =~= seq![]);
        assert(self.exact@ =~= e0 + facts_of_all(regs@.take(0), p, sps));
        for k in 0..regs.len()
            invariant
                self.safepoints == old(self).safepoints,
                self.calls == old(self).calls,
                self.first == old(self).first,
                self.last == old(self).last,
                self.last_site == old(self).last_site,
                sps == self.safepoints@,
                self.exact@ == e0 + facts_of_all(regs@.take(k as int), p, sps),
        {
            let v = regs[k];
            let ghost e1 = self.exact@;
            let ghost f = facts_of(v, p, sps);
            self.exact.push((v, p));
            assert(self.exact@ =~= e1 + f.take(1));
            let n: usize = self.safepoints.len();
            for j in 0..n
                invariant
                    self.safepoints == old(self).safepoints,
                    self.calls == old(self).calls,
                    self.first == old(self).first,
                    self.last == old(self).last,
                    self.last_site == old(self).last_site,
                    n == self.safepoints@.len(),
                    sps == self.safepoints@,
                    f == facts_of(v, p, sps),
                    self.exact@ == e1 + f.take(j + 1),
            {
                let sp: u32 = self.safepoints[j];
                self.exact.push((v, sp));
                assert(f[j + 1] == (v, sp));
                assert(self.exact@ =~= e1 + f.take(j + 2));
            }
            proof {
                assert(f.take(n + 1) =~= f);
                assert(regs@.take(k + 1).drop_last() =~= regs@.take(k as int));
                assert(regs@.take(k + 1).last() == v);
                assert(self.exact@ =~= e0 + facts_of_all(regs@.take(k + 1), p, sps));
            }
        }
        assert(regs@.take(regs@.len() as int) =~= regs@);
    }

    /// Takes up the operation at position `p`.
    fn add(&mut self, p: u32, op: &Ir, live: &Vec<VReg>, site: bool, Ghost(c): Ghost<Seq<Cell>>)
        requires
            old(self).of(c),
            c.len() == p,
            p < u32::MAX,
        ensures
            final(self).of(c.push(Cell { op: op@, live: live@, site })),
    {
        let ghost cell = Cell { op: op@, live: live@, site };
        let ghost d = c.push(cell);
        assert(d.drop_last() =~= c);
        self.record(live, p);
        assert(self.exact@ == exact_facts(d));
        if is_safepoint_op(op) {
            self.safepoints.push(p);
        }
        assert(self.safepoints@ == safepoints(d));
        if site {
            self.last_site = Some(p);
        }
        proof {
            assert(d[p as int] == cell);
            if !site {
                match self.last_site {
                    Some(q) => {
                        assert(d[q as int] == c[q as int]);
                        assert forall|r: int| q < r < d.len() implies !(#[trigger] d[r]).site by {
                            if r < c.len() {
                                assert(d[r] == c[r]);
                            }
                        }
                    },
                    None => {
                        assert forall|r: int| 0 <= r < d.len() implies !(#[trigger] d[r]).site by {
                            if r < c.len() {
                                assert(d[r] == c[r]);
                                assert(!c[r].site);
                            }
                        }
                    },
                }
            }
        }
        let ghost calls0 = self.calls@;
        if matches!(op, Ir::CallSend { .. } | Ir::CallRuntime { .. }) {
            self.calls.push(p);
        }
        proof {
            lemma_calls(c, cell, calls0, self.calls@, p);
        }
        let regs = op.uses();
        self.add_reads(&regs, p);
        if let Some(v) = op.defs() {
            if !self.first.contains_key(&v.0) {
                self.first.insert(v.0, p);
            }
            self.last.insert(v.0, p);
        }
        proof {
            lemma_firsts(c, cell, old(self).first@, self.first@, p);
            lemma_lasts(c, cell, old(self).last@, self.last@, p);
        }
    }

    /// Takes up the reads of the operation at position `p`.
    fn add_reads(&mut self, regs: &Vec<VReg>, p: u32)
        ensures
            final(self).safepoints == old(self).safepoints,
            final(self).calls == old(self).calls,
            final(self).exact == old(self).exact,
            final(self).last_site == old(self).last_site,
            forall|v: u32|
                #[trigger] final(self).last@.dom().contains(v) <==> old(self).last@.dom().contains(v)
                    || regs@.contains(VReg(v)),
            forall|v: u32|
                #[trigger] final(self).last@.dom().contains(v) ==> final(self).last@[v] == (
                if regs@.contains(VReg(v)) {
                    p
                } else {
                    old(self).last@[v]
                }),
            forall|v: u32|
                #[trigger] final(self).first@.dom().contains(v) <==> old(self).first@.dom().contains(
                    v,
                ) || regs@.contains(VReg(v)),
            forall|v: u32|
                #[trigger] final(self).first@.dom().contains(v) ==> final(self).first@[v] == (if old(
                    self,
                ).first@.dom().contains(v) {
                    old(self).first@[v]
                } else {
                    p
                }),
    {
        let ghost f0 = self.first@;
        let ghost l0 = self.last@;
        for k in 0..regs.len()
            invariant
                self.safepoints == old(self).safepoints,
                self.calls == old(self).calls,
                self.exact == old(self).exact,
                self.last_site == old(self).last_site,
                forall|v: u32|
                    #[trigger] self.first@.dom().contains(v) <==> f0.dom().contains(v)
                        || regs@.take(k as int).contains(VReg(v)),
                forall|v: u32|
                    #[trigger] self.first@.dom().contains(v) ==> self.first@[v] == (
                    if f0.dom().contains(v) {
                        f0[v]
                    } else {
                        p
                    }),
                forall|v: u32|
                    #[trigger] self.last@.dom().contains(v) <==> l0.dom().contains(v)
                        || regs@.take(k as int).contains(VReg(v)),
                forall|v: u32|
                    #[trigger] self.last@.dom().contains(v) ==> self.last@[v] == (if regs@.take(
                        k as int,
                    ).contains(VReg(v)) {
                        p
                    } else {
                        l0[v]
                    }),
        {
            let v = regs[k];
            proof {
                assert(regs@.take(k + 1) =~= regs@.take(k as int).push(v));
                assert forall|w: VReg| #[trigger] regs@.take(k + 1).contains(w) <==> (regs@.take(
                    k as int,
                ).contains(w) || w == v) by {
                    let a = regs@.take(k as int);
                    if a.contains(w) {
                        let j = choose|j: int| 0 <= j < a.len() && a[j] == w;
                        assert(a.push(v)[j] == w);
                    }
                    if w == v {
                        assert(a.push(v)[k as int] == w);
                    }
                }
            }
            if !self.first.contains_key(&v.0) {
                self.first.insert(v.0, p);
            }
            self.last.insert(v.0, p);
        }
        assert(regs@.take(regs@.len() as int) =~= regs@);
    }
}

proof fn lemma_calls(c: Seq<Cell>, cell: Cell, a: Seq<u32>, b: Seq<u32>, p: u32)
    requires
        calls_of(c, a),
        c.len() == p,
        b == (if is_call(cell.op) {
            a.push(p)
        } else {
            a
        }),
    ensures
        calls_of(c.push(cell), b),
{
    let d = c.push(cell);
    assert forall|k: int| 0 <= k < b.len() implies (#[trigger] b[k]) < d.len() && is_call(
        d[b[k] as int].op,
    ) by {
        if k < a.len() {
            assert(b[k] == a[k]);
            assert(d[a[k] as int] == c[a[k] as int]);
        }
    }
    assert forall|q: int| 0 <= q < d.len() && is_call((#[trigger] d[q]).op) implies b.contains(
        q as u32,
    ) by {
        if q < c.len() {
            assert(d[q] == c[q]);
            let k = choose|k: int| 0 <= k < a.len() && a[k] == q as u32;
            assert(b[k] == q as u32);
        } else {
            assert(b[a.len() as int] == q as u32);
        }
    }
}

proof fn lemma_lasts(c: Seq<Cell>, cell: Cell, a: Map<u32, u32>, b: Map<u32, u32>, p: u32)
    requires
        lasts_of(c, a),
        c.len() == p,
        forall|v: u32|
            #[trigger] b.dom().contains(v) <==> a.dom().contains(v) || cell.op.reads().contains(
                VReg(v),
            ) || cell.op.write() == Some(VReg(v)),
        forall|v: u32|
            #[trigger] b.dom().contains(v) ==> b[v] == (if cell.op.reads().contains(VReg(v))
                || cell.op.write() == Some(VReg(v)) {
                p
            } else {
                a[v]
            }),
    ensures
        lasts_of(c.push(cell), b),
{
    let d = c.push(cell);
    assert forall|v: u32| #[trigger] b.dom().contains(v) <==> touched(d, VReg(v)) by {
        let w = VReg(v);
        if a.dom().contains(v) {
            let q = choose|q: int| 0 <= q < c.len() && #[trigger] touches_at(c, q, w);
            assert(touches_at(d, q, w));
        }
        if b.dom().contains(v) && !a.dom().contains(v) {
            assert(touches_at(d, p as int, w));
        }
        if touched(d, w) {
            let q = choose|q: int| 0 <= q < d.len() && #[trigger] touches_at(d, q, w);
            if q < c.len() {
                assert(touches_at(c, q, w));
                assert(a.dom().contains(v));
            }
        }
    }
    assert forall|v: u32| #[trigger] b.dom().contains(v) implies last_touch(
        d,
        VReg(v),
        b[v] as int,
    ) by {
        let w = VReg(v);
        if cell.op.reads().contains(w) || cell.op.write() == Some(w) {
            assert(touches_at(d, p as int, w));
        } else {
            assert(a.dom().contains(v));
            assert(touches_at(c, a[v] as int, w));
            assert(touches_at(d, a[v] as int, w));
            assert forall|q: int| a[v] < q < d.len() implies !#[trigger] touches_at(d, q, w) by {
                if q < c.len() {
                    assert(!touches_at(c, q, w));
                }
            }
        }
    }
}

proof fn lemma_firsts(c: Seq<Cell>, cell: Cell, a: Map<u32, u32>, b: Map<u32, u32>, p: u32)
    requires
        firsts_of(c, a),
        c.len() == p,
        forall|v: u32|
            #[trigger] b.dom().contains(v) <==> a.dom().contains(v) || cell.op.reads().contains(
                VReg(v),
            ) || cell.op.write() == Some(VReg(v)),
        forall|v: u32|
            #[trigger] b.dom().contains(v) ==> b[v] == (if a.dom().contains(v) {
                a[v]
            } else {
                p
            }),
    ensures
        firsts_of(c.push(cell), b),
{
    let d = c.push(cell);
    assert forall|v: u32| #[trigger] b.dom().contains(v) <==> touched(d, VReg(v)) by {
        let w = VReg(v);
        if a.dom().contains(v) {
            let q = choose|q: int| 0 <= q < c.len() && #[trigger] touches_at(c, q, w);
            assert(touches_at(d, q, w));
        }
        if b.dom().contains(v) && !a.dom().contains(v) {
            assert(touches_at(d, p as int, w));
        }
        if touched(d, w) {
            let q = choose|q: int| 0 <= q < d.len() && #[trigger] touches_at(d, q, w);
            if q < c.len() {
                assert(touches_at(c, q, w));
                assert(a.dom().contains(v));
            }
        }
    }
    assert forall|v: u32| #[trigger] b.dom().contains(v) implies first_touch(
        d,
        VReg(v),
        b[v] as int,
    ) by {
        let w = VReg(v);
        if a.dom().contains(v) {
            assert(touches_at(c, a[v] as int, w));
            assert(touches_at(d, a[v] as int, w));
            assert forall|q: int| 0 <= q < a[v] implies !#[trigger] touches_at(d, q, w) by {
                assert(!touches_at(c, q, w));
            }
        } else {
            assert(touches_at(d, p as int, w));
            assert forall|q: int| 0 <= q < p implies !#[trigger] touches_at(d, q, w) by {
                assert(!touches_at(c, q, w)) by {
                    if touches_at(c, q, w) {
                        assert(touched(c, w));
                    }
                }
            }
        }
    }
}

pub(crate) proof fn lemma_line_prefix(m: MethodView, order: Seq<BlockId>, j: int, k: int)
    requires
        0 <= j <= k,
    ensures
        line(m, order, j).len() <= line(m, order, k).len(),
    decreases k - j,
{
    if j < k {
        lemma_line_prefix(m, order, j, k - 1);
    }
}

/// The receiver and the slots.
fn frame_list(argc: u8, ntemps: u8) -> (r: Vec<VReg>)
    ensures
        r@ == Seq::new((1 + argc + ntemps) as nat, |i: int| VReg(i as u32)),
{
    let n: u32 = 1 + argc as u32 + ntemps as u32;
    let mut r: Vec<VReg> = Vec::new();
    for i in 0..n
        invariant
            r@.len() == i,
            forall|j: int| 0 <= j < i ==> #[trigger] r@[j] == VReg(j as u32),
    {
        r.push(VReg(i));
    }
    assert(r@ =~= Seq::new((1 + argc + ntemps) as nat, |i: int| VReg(i as u32)));
    r
}

fn append(to: &mut Vec<VReg>, from: &Vec<VReg>)
    ensures
        final(to)@ == old(to)@ + from@,
{
    let mut c = crate::ir::copy_regs(from);
    to.append(&mut c);
}

/// What deoptimization at operation `i` must find, and whether it has a site at all.
fn live_at(frame: &Vec<VReg>, b: &IrBlock, i: usize, Ghost(m): Ghost<MethodView>) -> (r: (
    Vec<VReg>,
    bool,
))
    requires
        frame@ == frame_regs(m),
        i < b@.code.len(),
    ensures
        r.0@ == live_regs(m, b@.deopt_sites, i as int),
        r.1 == has_site_at(b@.deopt_sites, i as int),
{
    let ghost sites = b@.deopt_sites;
    let n: usize = b.deopt_sites.len();
    let mut trap: Option<usize> = None;
    let mut spliced: Option<usize> = None;
    let mut any = false;
    for k in 0..n
        invariant
            n == sites.len(),
            sites == b@.deopt_sites,
            any == (exists|j: int| 0 <= j < k && (#[trigger] sites[j]).0 == i),
            match trap {
                Some(t) => t < n && trap_site(sites, i as int, 0) == Some(sites[t as int].1),
                None => trap_site(sites, i as int, 0) == trap_site(sites, i as int, k as int),
            },
            match spliced {
                Some(t) => t < n && spliced_site(sites, i as int, 0) == Some(sites[t as int].1)
                    && sites[t as int].1.inline is Some,
                None => spliced_site(sites, i as int, 0) == spliced_site(
                    sites,
                    i as int,
                    k as int,
                ),
            },
    {
        assert(sites[k as int] == crate::ir::site_view(b.deopt_sites@[k as int]));
        if b.deopt_sites[k].0 as usize == i {
            any = true;
            assert(sites[k as int].0 == i);
            let raw = &b.deopt_sites[k].1;
            let leaves = matches!(
                raw.kind,
                SafepointKind::UncommonTrap | SafepointKind::LoopPoll
            );
            if trap.is_none() && leaves {
                trap = Some(k);
            }
            if spliced.is_none() && raw.inline.is_some() {
                spliced = Some(k);
            }
        }
    }
    let mut live: Vec<VReg> = Vec::new();
    if let Some(t) = trap {
        assert(sites[t as int] == crate::ir::site_view(b.deopt_sites@[t as int]));
        append(&mut live, frame);
        append(&mut live, &b.deopt_sites[t].1.stack);
    }
    let ghost l1 = live@;
    if let Some(t) = spliced {
        assert(sites[t as int] == crate::ir::site_view(b.deopt_sites@[t as int]));
        append(&mut live, frame);
        if let Some(inline) = &b.deopt_sites[t].1.inline {
            let refs = inline.refs();
            append(&mut live, &refs);
        }
        append(&mut live, &b.deopt_sites[t].1.stack);
    }
    assert(live@ =~= live_regs(m, sites, i as int));
    (live, any)
}

/// The layout of the line: where the blocks of the order start and end.
struct Layout {
    starts: HashMap<u32, u32>,
    firsts: Vec<u32>,
    ends: Vec<u32>,
}

impl Layout {
    spec fn of(self, m: MethodView, order: Seq<BlockId>) -> bool {
        layout_of(m, order, order.len() as int, self.starts@, self.firsts@, self.ends@)
    }
}

spec fn layout_of(
    m: MethodView,
    order: Seq<BlockId>,
    k: int,
    starts: Map<u32, u32>,
    firsts: Seq<u32>,
    ends: Seq<u32>,
) -> bool {
    &&& firsts.len() == k
    &&& ends.len() == k
    &&& forall|j: int| 0 <= j < k ==> #[trigger] firsts[j] == start_at(m, order, j)
    &&& forall|j: int| 0 <= j < k ==> #[trigger] ends[j] == end_at(m, order, j)
    &&& forall|b: u32|
        #[trigger] starts.dom().contains(b) <==> exists|j: int|
            0 <= j < k && (#[trigger] order[j]).0 == b
    &&& forall|j: int|
        0 <= j < k ==> starts[(#[trigger] order[j]).0] == start_at(m, order, j)
}

proof fn lemma_layout_step(
    m: MethodView,
    order: Seq<BlockId>,
    k: int,
    starts: Map<u32, u32>,
    firsts: Seq<u32>,
    ends: Seq<u32>,
    start: u32,
    end: u32,
)
    requires
        0 <= k < order.len(),
        order.no_duplicates(),
        layout_of(m, order, k, starts, firsts, ends),
        start == start_at(m, order, k),
        end == end_at(m, order, k),
    ensures
        layout_of(
            m,
            order,
            k + 1,
            starts.insert(order[k].0, start),
            firsts.push(start),
            ends.push(end),
        ),
{
    let st1 = starts.insert(order[k].0, start);
    assert forall|bb: u32| #[trigger] st1.dom().contains(bb) <==> exists|j: int|
        0 <= j < k + 1 && (#[trigger] order[j]).0 == bb by {
        if starts.dom().contains(bb) {
            let j = choose|j: int| 0 <= j < k && (#[trigger] order[j]).0 == bb;
            assert(order[j].0 == bb);
        }
        if bb == order[k].0 {
            assert(order[k].0 == bb);
        }
        if exists|j: int| 0 <= j < k + 1 && (#[trigger] order[j]).0 == bb {
            let j = choose|j: int| 0 <= j < k + 1 && (#[trigger] order[j]).0 == bb;
            if j < k {
                assert(starts.dom().contains(bb));
            }
        }
    }
    assert forall|j: int| 0 <= j < k + 1 implies st1[(#[trigger] order[j]).0] == start_at(
        m,
        order,
        j,
    ) by {
        if j < k {
            assert(order[j] != order[k]);
            assert(order[j].0 != order[k].0);
        }
    }
}

/// One pass over the line.
fn scan_line(m: &IrMethod, order: &Vec<BlockId>) -> (r: (Scan, Layout))
    requires
        line_fits(m@),
        order@ == emission_order(m@.blocks),
    ensures
        r.0.of(line(m@, order@, order@.len() as int)),
        r.1.of(m@, order@),
{
    let ghost mv = m@;
    let n: usize = order.len();
    let frame = frame_list(m.argc, m.ntemps);
    let mut scan = Scan::new();
    let mut starts: HashMap<u32, u32> = HashMap::new();
    let mut firsts: Vec<u32> = Vec::new();
    let mut ends: Vec<u32> = Vec::new();
    let mut pos: u32 = 0;
    proof {
        law_order_is_permutation(mv.blocks);
    }
    for k in 0..n
        invariant
            mv == m@,
            n == order@.len(),
            frame@ == frame_regs(mv),
            mv.blocks.len() <= u32::MAX,
            order@.no_duplicates(),
            forall|j: int| 0 <= j < n ==> (#[trigger] order@[j]).0 < mv.blocks.len(),
            line(mv, order@, n as int).len() <= u32::MAX,
            pos == line(mv, order@, k as int).len(),
            scan.of(line(mv, order@, k as int)),
            layout_of(mv, order@, k as int, starts@, firsts@, ends@),
    {
        let bid = order[k];
        let ghost st0 = starts@;
        let ghost c0 = line(mv, order@, k as int);
        let ghost b = mv.blocks[bid.0 as int];
        let ghost cells = block_cells(mv, b);
        proof {
            lemma_line_prefix(mv, order@, k + 1, n as int);
            assert(b == m.blocks@[bid.0 as int]@);
            assert(c0 + cells.take(0) =~= c0);
        }
        let ghost f0 = firsts@;
        let ghost e0 = ends@;
        let ghost f0_start = pos;
        starts.insert(bid.0, pos);
        firsts.push(pos);
        let len: usize = m.blocks[bid.0 as usize].code.len();
        for i in 0..len
            invariant
                mv == m@,
                bid.0 < mv.blocks.len(),
                b == mv.blocks[bid.0 as int],
                b == m.blocks@[bid.0 as int]@,
                len == b.code.len(),
                cells == block_cells(mv, b),
                frame@ == frame_regs(mv),
                (c0 + cells).len() <= u32::MAX,
                pos == c0.len() + i,
                scan.of(c0 + cells.take(i as int)),
        {
            let block = &m.blocks[bid.0 as usize];
            let (live, site) = live_at(&frame, block, i, Ghost(mv));
            assert(b.code[i as int] == block.code@[i as int]@);
            scan.add(pos, &block.code[i], &live, site, Ghost(c0 + cells.take(i as int)));
            assert((c0 + cells.take(i as int)).push(cells[i as int]) =~= c0 + cells.take(i + 1));
            pos = pos + 1;
        }
        assert(cells.take(len as int) =~= cells);
        let last: u32 = if pos == 0 {
            0
        } else {
            pos - 1
        };
        ends.push(last);
        proof {
            lemma_layout_step(mv, order@, k as int, st0, f0, e0, f0_start, last);
        }
    }
    (scan, Layout { starts, firsts, ends })
}

pub(crate) proof fn lemma_block_start(m: MethodView, order: Seq<BlockId>, j: int)
    requires
        order.no_duplicates(),
        0 <= j < order.len(),
    ensures
        block_start(m, order, order[j]) == start_at(m, order, j),
{
    let k = order.index_of(order[j]);
    assert(order.contains(order[j]));
    assert(0 <= k < order.len() && order[k] == order[j]);
    assert(k == j);
}

/// The loops of the method.
fn find_loops(m: &IrMethod, order: &Vec<BlockId>, l: &Layout) -> (r: Vec<(u32, u32)>)
    requires
        line_fits(m@),
        order@ == emission_order(m@.blocks),
        l.of(m@, order@),
    ensures
        r@ == loops(m@, order@),
{
    let ghost mv = m@;
    let n: usize = order.len();
    let mut r: Vec<(u32, u32)> = Vec::new();
    proof {
        law_order_is_permutation(mv.blocks);
    }
    assert(r@ =~= loops_upto(mv, order@, 0, 0));
    for k in 0..n
        invariant
            mv == m@,
            n == order@.len(),
            line_fits(mv),
            order@ == emission_order(mv.blocks),
            order@.len() == mv.blocks.len(),
            order@.no_duplicates(),
            forall|j: int| 0 <= j < n ==> (#[trigger] order@[j]).0 < mv.blocks.len(),
            forall|b: int| 0 <= b < mv.blocks.len() ==> #[trigger] order@.contains(BlockId(b as u32)),
            l.of(mv, order@),
            r@ == loops_upto(mv, order@, k as int, 0),
    {
        let bid = order[k];
        let ghost ts = targets(mv.blocks[bid.0 as int].code);
        assert(mv.blocks[bid.0 as int] == m.blocks@[bid.0 as int]@);
        let succs = successors(&m.blocks[bid.0 as usize]);
        for j in 0..succs.len()
            invariant
                mv == m@,
                k < n,
                n == order@.len(),
                bid == order@[k as int],
                bid.0 < mv.blocks.len(),
                line_fits(mv),
                order@.no_duplicates(),
                forall|b: int|
                    0 <= b < mv.blocks.len() ==> #[trigger] order@.contains(BlockId(b as u32)),
                l.of(mv, order@),
                ts == targets(mv.blocks[bid.0 as int].code),
                succs@ == ts,
                r@ == loops_upto(mv, order@, k as int, j as int),
        {
            let t = succs[j];
            assert(targets(mv.blocks[bid.0 as int].code)[j as int] == t);
            assert(t.0 < mv.blocks.len());
            assert(order@.contains(BlockId(t.0 as int as u32)));
            let ghost q = choose|q: int| 0 <= q < order@.len() && order@[q] == t;
            proof {
                assert(order@[q].0 == t.0);
                assert(l.starts@.dom().contains(t.0));
                lemma_block_start(mv, order@, q);
            }
            let a: u32 = match l.starts.get(&t.0) {
                Some(x) => *x,
                None => 0,
            };
            if a <= l.firsts[k] {
                r.push((a, l.ends[k]));
            }
        }
    }
    r
}

/// The least range around `[s, e]` that covers every loop it touches and sticks out of.
fn widen(ls: &Vec<(u32, u32)>, s: u32, e: u32) -> (r: (u32, u32))
    requires
        s <= e,
        forall|k: int| 0 <= k < ls@.len() ==> (#[trigger] ls@[k]).0 <= ls@[k].1,
    ensures
        widened(ls@, s, e, r.0, r.1),
        r.0 <= r.1,
{
    let mut a: u32 = s;
    let mut b: u32 = e;
    let mut changed = true;
    while changed
        invariant
            a <= s,
            e <= b,
            a <= b,
            forall|k: int| 0 <= k < ls@.len() ==> (#[trigger] ls@[k]).0 <= ls@[k].1,
            !changed ==> loop_closed(ls@, a, b),
            forall|x: u32, y: u32|
                x <= s && e <= y && #[trigger] loop_closed(ls@, x, y) ==> x <= a && b <= y,
        decreases a + (u32::MAX - b), changed as int,
    {
        changed = false;
        let ghost a0 = a;
        let ghost b0 = b;
        for k in 0..ls.len()
            invariant
                a <= a0,
                b0 <= b,
                a <= s,
                e <= b,
                a <= b,
                changed == (a < a0 || b > b0),
                forall|x: u32, y: u32|
                    x <= s && e <= y && #[trigger] loop_closed(ls@, x, y) ==> x <= a && b <= y,
                forall|j: int| 0 <= j < ls@.len() ==> (#[trigger] ls@[j]).0 <= ls@[j].1,
                !changed ==> forall|j: int|
                    0 <= j < k && a <= (#[trigger] ls@[j]).1 && b >= ls@[j].0 && (a < ls@[j].0 || b
                        > ls@[j].1) ==> a <= ls@[j].0 && ls@[j].1 <= b,
        {
            let (lo, hi) = ls[k];
            if a <= hi && b >= lo && (a < lo || b > hi) {
                proof {
                    assert forall|x: u32, y: u32|
                        x <= s && e <= y && #[trigger] loop_closed(ls@, x, y) implies x <= lo && hi
                        <= y by {
                        assert(x <= a && b <= y);
                        assert(ls@[k as int] == (lo, hi));
                    }
                }
                if a > lo {
                    a = lo;
                    changed = true;
                }
                if b < hi {
                    b = hi;
                    changed = true;
                }
            }
        }
    }
    (a, b)
}

proof fn lemma_loops_ordered(m: MethodView, order: Seq<BlockId>, k: int, j: int)
    requires
        line_fits(m),
        order == emission_order(m.blocks),
        0 <= k <= order.len(),
        0 <= j,
        k == order.len() ==> j == 0,
        k < order.len() ==> j <= targets(m.blocks[order[k].0 as int].code).len(),
    ensures
        forall|i: int|
            0 <= i < loops_upto(m, order, k, j).len() ==> (#[trigger] loops_upto(m, order, k, j)[i]).0
                <= loops_upto(m, order, k, j)[i].1 && loops_upto(m, order, k, j)[i].1 < line(
                m,
                order,
                order.len() as int,
            ).len(),
    decreases k, j,
{
    law_order_is_permutation(m.blocks);
    if j > 0 {
        lemma_loops_ordered(m, order, k, j - 1);
        if back_edge(m, order, k, j - 1) {
            let ts = targets(m.blocks[order[k].0 as int].code);
            assert(m.blocks[order[k].0 as int].code.len() > 0) by {
                if m.blocks[order[k].0 as int].code.len() == 0 {
                    assert(ts.len() == 0);
                }
            }
            lemma_line_prefix(m, order, k + 1, order.len() as int);
            let rest = loops_upto(m, order, k, j - 1);
            let all = loops_upto(m, order, k, j);
            let lo = block_start(m, order, ts[j - 1]);
            let hi = end_at(m, order, k);
            assert(start_at(m, order, k + 1) == start_at(m, order, k) + m.blocks[order[k].0 as int].code.len());
            assert(lo <= hi <= u32::MAX);
            assert(all == rest.push((lo as u32, hi as u32)));
            assert forall|i: int| 0 <= i < all.len() implies (#[trigger] all[i]).0 <= all[i].1
                && all[i].1 < line(m, order, order.len() as int).len() by {
                if i < rest.len() {
                    assert(all[i] == rest[i]);
                }
            }
        } else {
            let rest = loops_upto(m, order, k, j - 1);
            assert(loops_upto(m, order, k, j) == rest);
            assert forall|i: int| 0 <= i < rest.len() implies (#[trigger] rest[i]).0 <= rest[i].1
                && rest[i].1 < line(m, order, order.len() as int).len() by {}
        }
    } else if k > 0 {
        lemma_loops_ordered(
            m,
            order,
            k - 1,
            targets(m.blocks[order[k - 1].0 as int].code).len() as int,
        );
        let rest = loops_upto(
            m,
            order,
            k - 1,
            targets(m.blocks[order[k - 1].0 as int].code).len() as int,
        );
        assert(loops_upto(m, order, k, j) == rest);
        assert forall|i: int| 0 <= i < rest.len() implies (#[trigger] rest[i]).0 <= rest[i].1
                && rest[i].1 < line(m, order, order.len() as int).len() by {}
    } else {
        assert(loops_upto(m, order, k, j).len() == 0);
    }
}

pub(crate) proof fn lemma_last_site(c: Seq<Cell>, n: int)
    requires
        0 <= n <= c.len(),
        any_site(c),
        forall|q: int| n <= q < c.len() ==> !(#[trigger] c[q]).site,
    ensures
        exists|p: int| last_site(c, p),
    decreases n,
{
    if n > 0 && c[n - 1].site {
        assert(last_site(c, n - 1));
    } else if n > 0 {
        lemma_last_site(c, n - 1);
    }
}

/// Every interval is a range of positions, from a first one on; it ends at most one position past
/// the last operation.
pub proof fn law_ranges_lie_on_the_line(m: MethodView, iv: LiveInterval)
    requires
        line_fits(m),
        ({
            let order = emission_order(m.blocks);
            is_interval(m, line(m, order, order.len() as int), loops(m, order), iv)
        }),
    ensures
        ({
            let order = emission_order(m.blocks);
            iv.start <= iv.end && iv.end <= line(m, order, order.len() as int).len()
        }),
{
    let order = emission_order(m.blocks);
    let c = line(m, order, order.len() as int);
    let ls = loops(m, order);
    let v = iv.vreg;
    if ctx_live(m, c, v) {
        lemma_last_site(c, c.len() as int);
        let p = choose|p: int| last_site(c, p);
        assert(last_site(c, p));
    }
    if touched(c, v) {
        lemma_loops_ordered(m, order, order.len() as int, 0);
        let (s0, e0, e1) = choose|s0: u32, e0: u32, e1: u32|
            #[trigger] organic(c, v, s0, e0) && #[trigger] widened(ls, s0, e0, iv.start, e1)
                && past_sites(m, c, v, e1, iv.end);
        assert(s0 < c.len() && e0 < c.len());
        let top = (c.len() - 1) as u32;
        assert(loop_closed(ls, 0, top));
        assert(e1 <= top);
        assert(touches_at(c, e0 as int, v));
        assert(s0 <= e0);
    }
}

/// A register's range covers all its uses and all its definitions: nothing reads or writes it before
/// the start or after the end.
pub proof fn law_uses_are_covered(m: MethodView, iv: LiveInterval, p: int)
    requires
        line_fits(m),
        ({
            let order = emission_order(m.blocks);
            let c = line(m, order, order.len() as int);
            &&& is_interval(m, c, loops(m, order), iv)
            &&& 0 <= p < c.len()
            &&& touches_at(c, p, iv.vreg)
        }),
    ensures
        iv.start <= p <= iv.end,
{
    let order = emission_order(m.blocks);
    let c = line(m, order, order.len() as int);
    let ls = loops(m, order);
    let v = iv.vreg;
    assert(touched(c, v));
    let (s0, e0, e1) = choose|s0: u32, e0: u32, e1: u32|
        #[trigger] organic(c, v, s0, e0) && #[trigger] widened(ls, s0, e0, iv.start, e1)
            && past_sites(m, c, v, e1, iv.end);
    if ctx_live(m, c, v) {
        lemma_last_site(c, c.len() as int);
        let q = choose|q: int| last_site(c, q);
        assert(last_site(c, q));
    }
    assert(s0 <= p) by {
        if p < s0 {
            assert(!touches_at(c, p, v));
        }
    }
    assert(p <= e0) by {
        if p > e0 {
            assert(!touches_at(c, p, v));
        }
    }
}

/// The method without any deoptimization site.
pub open spec fn without_sites(m: MethodView) -> MethodView {
    MethodView {
        blocks: m.blocks.map_values(|b: BlockView| BlockView { deopt_sites: seq![], ..b }),
        ..m
    }
}

/// Both lines have the same operations.
spec fn same_ops(a: Seq<Cell>, b: Seq<Cell>) -> bool {
    a.len() == b.len() && forall|p: int| 0 <= p < a.len() ==> (#[trigger] a[p]).op == b[p].op
}

proof fn lemma_same_line(m: MethodView, order: Seq<BlockId>, k: int)
    requires
        0 <= k <= order.len(),
        forall|j: int| 0 <= j < order.len() ==> (#[trigger] order[j]).0 < m.blocks.len(),
    ensures
        same_ops(line(m, order, k), line(without_sites(m), order, k)),
    decreases k,
{
    if k > 0 {
        lemma_same_line(m, order, k - 1);
        let n = without_sites(m);
        let id = order[k - 1].0 as int;
        assert(n.blocks[id].code == m.blocks[id].code);
        let a = line(m, order, k);
        let b = line(n, order, k);
        let a0 = line(m, order, k - 1);
        let b0 = line(n, order, k - 1);
        assert forall|p: int| 0 <= p < a.len() implies (#[trigger] a[p]).op == b[p].op by {
            if p < a0.len() {
                assert(a[p] == a0[p] && b[p] == b0[p]);
            } else {
                assert(a[p].op == m.blocks[id].code[p - a0.len()]);
                assert(b[p].op == n.blocks[id].code[p - a0.len()]);
            }
        }
    }
}

proof fn lemma_same_safepoints(a: Seq<Cell>, b: Seq<Cell>)
    requires
        same_ops(a, b),
    ensures
        safepoints(a) == safepoints(b),
    decreases a.len(),
{
    if a.len() > 0 {
        assert(same_ops(a.drop_last(), b.drop_last())) by {
            assert forall|p: int| 0 <= p < a.len() - 1 implies (#[trigger] a.drop_last()[p]).op
                == b.drop_last()[p].op by {
                assert(a[p].op == b[p].op);
            }
        }
        lemma_same_safepoints(a.drop_last(), b.drop_last());
        assert(a[a.len() - 1].op == b[a.len() - 1].op);
    }
}

proof fn lemma_same_loops(m: MethodView, order: Seq<BlockId>, k: int, j: int)
    requires
        0 <= k <= order.len(),
        k == order.len() ==> j == 0,
        k < order.len() ==> j <= targets(m.blocks[order[k].0 as int].code).len(),
        targets_ok(m.blocks),
        forall|j: int| 0 <= j < order.len() ==> (#[trigger] order[j]).0 < m.blocks.len(),
        forall|b: BlockId|
            b.0 < m.blocks.len() ==> #[trigger] block_start(m, order, b) == block_start(
                without_sites(m),
                order,
                b,
            ),
        forall|i: int|
            0 <= i <= order.len() ==> #[trigger] start_at(m, order, i) == start_at(
                without_sites(m),
                order,
                i,
            ),
    ensures
        loops_upto(m, order, k, j) == loops_upto(without_sites(m), order, k, j),
    decreases k, j,
{
    let n = without_sites(m);
    if j > 0 {
        assert(n.blocks[order[k].0 as int].code == m.blocks[order[k].0 as int].code);
        lemma_same_loops(m, order, k, j - 1);
        assert(start_at(m, order, k) == start_at(n, order, k));
        assert(start_at(m, order, k + 1) == start_at(n, order, k + 1));
        assert(order[k].0 < m.blocks.len());
        let t = targets(m.blocks[order[k].0 as int].code)[j - 1];
        assert(t.0 < m.blocks.len());
        assert(block_start(m, order, t) == block_start(n, order, t));
    } else if k > 0 {
        assert(n.blocks[order[k - 1].0 as int].code == m.blocks[order[k - 1].0 as int].code);
        lemma_same_loops(
            m,
            order,
            k - 1,
            targets(m.blocks[order[k - 1].0 as int].code).len() as int,
        );
    }
}

proof fn lemma_same_touches(a: Seq<Cell>, b: Seq<Cell>, v: VReg, s: u32, e: u32)
    requires
        same_ops(a, b),
        organic(a, v, s, e),
    ensures
        touched(b, v),
        organic(b, v, s, e),
{
    assert forall|p: int| 0 <= p < a.len() implies #[trigger] touches_at(b, p, v) == touches_at(
        a,
        p,
        v,
    ) by {
        assert(a[p].op == b[p].op);
    }
    assert(touches_at(b, s as int, v));
}

/// Deoptimization sites never widen a range. Without captured temporaries, taking all sites away
/// leaves the order of emission, the safepoints and the start of every block as they are, and each
/// register that some operation reads or writes keeps its range.
pub proof fn law_sites_do_not_widen(m: MethodView, a: LiveInterval, b: LiveInterval, id: BlockId)
    requires
        line_fits(m),
        m.ctx_vregs.len() == 0,
        a.vreg == b.vreg,
        ({
            let n = without_sites(m);
            let order = emission_order(m.blocks);
            let c = line(m, order, order.len() as int);
            &&& touched(c, a.vreg)
            &&& is_interval(m, c, loops(m, order), a)
            &&& is_interval(n, line(n, order, order.len() as int), loops(n, order), b)
        }),
    ensures
        ({
            let n = without_sites(m);
            let order = emission_order(m.blocks);
            &&& emission_order(n.blocks) == order
            &&& safepoints(line(n, order, order.len() as int)) == safepoints(
                line(m, order, order.len() as int),
            )
            &&& m.blocks.len() > id.0 ==> block_start(n, order, id) == block_start(m, order, id)
            &&& a.start == b.start
            &&& a.end == b.end
        }),
{
    let n = without_sites(m);
    let order = emission_order(m.blocks);
    let v = a.vreg;
    lemma_same_order(m.blocks, n.blocks, m.blocks.len() as int);
    law_order_is_permutation(m.blocks);
    let c = line(m, order, order.len() as int);
    let d = line(n, order, order.len() as int);
    lemma_same_line(m, order, order.len() as int);
    lemma_same_safepoints(c, d);
    assert forall|i: int| 0 <= i <= order.len() implies #[trigger] start_at(m, order, i)
        == start_at(n, order, i) by {
        lemma_same_line(m, order, i);
    }
    assert forall|x: BlockId| x.0 < m.blocks.len() implies #[trigger] block_start(m, order, x)
        == block_start(n, order, x) by {
        assert(order.contains(BlockId(x.0 as int as u32)));
        lemma_same_line(m, order, order.index_of(x));
    }
    lemma_same_loops(m, order, order.len() as int, 0);
    let ls = loops(m, order);
    let (s0, e0, e1) = choose|s0: u32, e0: u32, e1: u32|
        #[trigger] organic(c, v, s0, e0) && #[trigger] widened(ls, s0, e0, a.start, e1)
            && past_sites(m, c, v, e1, a.end);
    lemma_same_touches(c, d, v, s0, e0);
    let (s2, e2, e3) = choose|s2: u32, e2: u32, e3: u32|
        #[trigger] organic(d, v, s2, e2) && #[trigger] widened(ls, s2, e2, b.start, e3)
            && past_sites(n, d, v, e3, b.end);
    lemma_organic_unique(d, v, s0, e0, s2, e2);
    assert(loop_closed(ls, a.start, e1) && loop_closed(ls, b.start, e3));
}

pub(crate) proof fn lemma_live_facts(c: Seq<Cell>, p: int, v: VReg)
    requires
        0 <= p < c.len(),
        c[p].live.contains(v),
    ensures
        exact_facts(c).contains((v, p as u32)),
        forall|k: int|
            0 <= k < safepoints(c.take(p)).len() ==> exact_facts(c).contains(
                (v, #[trigger] safepoints(c.take(p))[k]),
            ),
    decreases c.len(),
{
    let d = c.drop_last();
    let last = facts_of_all(c.last().live, (c.len() - 1) as u32, safepoints(d));
    let all = exact_facts(c);
    if p == c.len() - 1 {
        assert(c.take(p) =~= d);
        lemma_facts_of_all(c.last().live, (c.len() - 1) as u32, safepoints(d), v);
        assert forall|x: (VReg, u32)| last.contains(x) implies #[trigger] all.contains(x) by {
            let k = choose|k: int| 0 <= k < last.len() && last[k] == x;
            assert(all[exact_facts(d).len() + k] == x);
        }
    } else {
        assert(d[p] == c[p]);
        lemma_live_facts(d, p, v);
        assert(d.take(p) =~= c.take(p));
        assert forall|x: (VReg, u32)| exact_facts(d).contains(x) implies #[trigger] all.contains(
            x,
        ) by {
            let k = choose|k: int| 0 <= k < exact_facts(d).len() && exact_facts(d)[k] == x;
            assert(all[k] == x);
        }
    }
}

proof fn lemma_facts_of_all(regs: Seq<VReg>, p: u32, earlier: Seq<u32>, v: VReg)
    requires
        regs.contains(v),
    ensures
        facts_of_all(regs, p, earlier).contains((v, p)),
        forall|k: int|
            0 <= k < earlier.len() ==> facts_of_all(regs, p, earlier).contains(
                (v, #[trigger] earlier[k]),
            ),
    decreases regs.len(),
{
    let d = regs.drop_last();
    let all = facts_of_all(regs, p, earlier);
    let a = facts_of_all(d, p, earlier);
    let b = facts_of(regs.last(), p, earlier);
    if regs.last() == v {
        assert(b[0] == (v, p));
        assert(all[a.len() as int] == (v, p));
        assert forall|k: int| 0 <= k < earlier.len() implies all.contains(
            (v, #[trigger] earlier[k]),
        ) by {
            assert(b[1 + k] == (v, earlier[k]));
            assert(all[a.len() + 1 + k] == (v, earlier[k]));
        }
    } else {
        let k0 = choose|k: int| 0 <= k < regs.len() && regs[k] == v;
        assert(d[k0] == v);
        lemma_facts_of_all(d, p, earlier, v);
        assert forall|x: (VReg, u32)| a.contains(x) implies #[trigger] all.contains(x) by {
            let k = choose|k: int| 0 <= k < a.len() && a[k] == x;
            assert(all[k] == x);
        }
    }
}

pub(crate) proof fn lemma_safepoints(c: Seq<Cell>, p: u32)
    requires
        c.len() <= u32::MAX,
    ensures
        safepoints(c).contains(p) <==> p < c.len() && safepoint_op(c[p as int].op),
        forall|k: int| 0 <= k < safepoints(c).len() ==> (#[trigger] safepoints(c)[k]) < c.len(),
    decreases c.len(),
{
    if c.len() > 0 {
        let d = c.drop_last();
        lemma_safepoints(d, p);
        let a = safepoints(d);
        let last = (c.len() - 1) as u32;
        if safepoint_op(c.last().op) {
            assert(safepoints(c) == a.push(last));
            if a.contains(p) {
                let k = choose|k: int| 0 <= k < a.len() && a[k] == p;
                assert(a.push(last)[k] == p);
            }
            if p == last {
                assert(a.push(last)[a.len() as int] == p);
            }
            if safepoints(c).contains(p) && p != last {
                let k = choose|k: int| 0 <= k < a.push(last).len() && a.push(last)[k] == p;
                assert(a[k] == p);
            }
        }
        if p < d.len() {
            assert(d[p as int] == c[p as int]);
        }
        assert forall|k: int| 0 <= k < safepoints(c).len() implies (#[trigger] safepoints(c)[k])
            < c.len() by {
            if k < a.len() {
                assert(safepoints(c)[k] == a[k]);
                assert(a[k] < d.len());
            }
        }
    }
}

proof fn lemma_organic_unique(c: Seq<Cell>, v: VReg, s: u32, e: u32, s2: u32, e2: u32)
    requires
        organic(c, v, s, e),
        organic(c, v, s2, e2),
    ensures
        s == s2,
        e == e2,
{
    assert(touches_at(c, s as int, v));
    assert(touches_at(c, s2 as int, v));
    assert(touches_at(c, e as int, v));
    assert(touches_at(c, e2 as int, v));
}

impl Scan {
    /// The range of `v` from its first mention to its last.
    fn organic_range(&self, v: VReg, Ghost(c): Ghost<Seq<Cell>>) -> (r: Option<(u32, u32)>)
        requires
            self.of(c),
        ensures
            r is Some == touched(c, v),
            r matches Some(x) ==> organic(c, v, x.0, x.1) && x.0 <= x.1,
    {
        let s: u32 = match self.first.get(&v.0) {
            Some(x) => *x,
            None => return None,
        };
        match self.last.get(&v.0) {
            Some(x) => {
                assert(touches_at(c, *x as int, v));
                Some((s, *x))
            },
            None => None,
        }
    }
}

fn fact_key(v: VReg, sp: u32) -> (r: u64)
    ensures
        r == key_of(v, sp),
{
    v.0 as u64 * 0x1_0000_0000 + sp as u64
}

spec fn key_of(v: VReg, sp: u32) -> u64 {
    (v.0 * 0x1_0000_0000 + sp) as u64
}

/// The loop fact that exact fact `f` and loop `k` give for safepoint `sp`.
spec fn fact_from(
    c: Seq<Cell>,
    ls: Seq<(u32, u32)>,
    f: int,
    k: int,
    v: VReg,
    sp: u32,
) -> bool {
    exists|s: u32, e: u32|
        exact_facts(c)[f].0 == v && #[trigger] organic(c, v, s, e) && carries(
            ls[k],
            s,
            e,
            exact_facts(c)[f].1,
            sp,
        ) && safepoints(c).contains(sp)
}

spec fn keyed(extra: Seq<(VReg, u32)>, seen: Set<u64>) -> bool {
    &&& forall|j: int|
        0 <= j < extra.len() ==> seen.contains(key_of((#[trigger] extra[j]).0, extra[j].1))
    &&& forall|v: VReg, sp: u32|
        seen.contains(#[trigger] key_of(v, sp)) ==> extra.contains((v, sp))
    &&& forall|i: int, j: int|
        0 <= i < j < extra.len() ==> #[trigger] extra[i] != #[trigger] extra[j]
}

/// Adds a fact unless it is there.
fn add_fact(extra: &mut Vec<(VReg, u32)>, seen: &mut HashSet<u64>, v: VReg, sp: u32)
    requires
        keyed(old(extra)@, old(seen)@),
    ensures
        keyed(final(extra)@, final(seen)@),
        final(extra)@ == old(extra)@ || final(extra)@ == old(extra)@.push((v, sp)),
        final(extra)@.contains((v, sp)),
{
    let k: u64 = fact_key(v, sp);
    let ghost e0 = extra@;
    if !seen.contains(&k) {
        seen.insert(k);
        extra.push((v, sp));
        proof {
            assert(extra@[e0.len() as int] == (v, sp));
            assert forall|w: VReg, q: u32| seen@.contains(#[trigger] key_of(w, q)) implies extra@.contains(
                (w, q),
            ) by {
                if key_of(w, q) == k {
                    assert(w.0 == v.0 && q == sp) by (nonlinear_arith)
                        requires
                            w.0 * 0x1_0000_0000 + q == v.0 * 0x1_0000_0000 + sp,
                            0 <= q <= u32::MAX,
                            0 <= sp <= u32::MAX,
                    {
                    }
                } else {
                    assert(e0.contains((w, q)));
                    let j = choose|j: int| 0 <= j < e0.len() && e0[j] == (w, q);
                    assert(extra@[j] == (w, q));
                }
            }
            assert forall|i: int, j: int| 0 <= i < j < extra@.len() implies #[trigger] extra@[i]
                != #[trigger] extra@[j] by {
                if j == e0.len() && extra@[i] == extra@[j] {
                    assert(e0[i] == (v, sp));
                    assert(seen@.contains(key_of(e0[i].0, e0[i].1)));
                }
            }
        }
    }
}

/// The loop facts, each once.
fn find_loop_facts(scan: &Scan, ls: &Vec<(u32, u32)>, Ghost(c): Ghost<Seq<Cell>>) -> (r: Vec<
    (VReg, u32),
>)
    requires
        scan.of(c),
        c.len() <= u32::MAX,
    ensures
        forall|k: int| 0 <= k < r@.len() ==> loop_fact(c, ls@, (#[trigger] r@[k]).0, r@[k].1),
        forall|v: VReg, sp: u32| #[trigger] loop_fact(c, ls@, v, sp) ==> r@.contains((v, sp)),
        forall|i: int, j: int| 0 <= i < j < r@.len() ==> #[trigger] r@[i] != #[trigger] r@[j],
{
    let mut extra: Vec<(VReg, u32)> = Vec::new();
    let mut seen: HashSet<u64> = HashSet::new();
    let ghost ex = exact_facts(c);
    let ghost sps = safepoints(c);
    for f in 0..scan.exact.len()
        invariant
            scan.of(c),
            c.len() <= u32::MAX,
            ex == exact_facts(c),
            sps == safepoints(c),
            keyed(extra@, seen@),
            forall|k: int|
                0 <= k < extra@.len() ==> loop_fact(c, ls@, (#[trigger] extra@[k]).0, extra@[k].1),
            forall|g: int, k: int, v: VReg, sp: u32|
                0 <= g < f && 0 <= k < ls@.len() && #[trigger] fact_from(c, ls@, g, k, v, sp)
                    ==> extra@.contains((v, sp)),
    {
        let (v, p) = scan.exact[f];
        assert(ex[f as int] == (v, p));
        let range = scan.organic_range(v, Ghost(c));
        if let Some((s, e)) = range {
        for k in 0..ls.len()
            invariant
                scan.of(c),
                c.len() <= u32::MAX,
                f < ex.len(),
                ex == exact_facts(c),
                sps == safepoints(c),
                ex[f as int] == (v, p),
                organic(c, v, s, e),
                keyed(extra@, seen@),
                forall|j: int|
                    0 <= j < extra@.len() ==> loop_fact(
                        c,
                        ls@,
                        (#[trigger] extra@[j]).0,
                        extra@[j].1,
                    ),
                forall|g: int, j: int, w: VReg, sp: u32|
                    0 <= g < f && 0 <= j < ls@.len() && #[trigger] fact_from(c, ls@, g, j, w, sp)
                        ==> extra@.contains((w, sp)),
                forall|j: int, w: VReg, sp: u32|
                    0 <= j < k && #[trigger] fact_from(c, ls@, f as int, j, w, sp)
                        ==> extra@.contains((w, sp)),
        {
            let (lo, hi) = ls[k];
            assert(ls@[k as int] == (lo, hi));
            let n: usize = scan.safepoints.len();
            for q in 0..n
                invariant
                    scan.of(c),
                    n == sps.len(),
                    k < ls@.len(),
                    ls@[k as int] == (lo, hi),
                    f < ex.len(),
                    ex == exact_facts(c),
                    sps == safepoints(c),
                    ex[f as int] == (v, p),
                    organic(c, v, s, e),
                    keyed(extra@, seen@),
                    forall|j: int|
                        0 <= j < extra@.len() ==> loop_fact(
                            c,
                            ls@,
                            (#[trigger] extra@[j]).0,
                            extra@[j].1,
                        ),
                    forall|g: int, j: int, w: VReg, sp: u32|
                        0 <= g < f && 0 <= j < ls@.len() && #[trigger] fact_from(
                            c,
                            ls@,
                            g,
                            j,
                            w,
                            sp,
                        ) ==> extra@.contains((w, sp)),
                    forall|j: int, w: VReg, sp: u32|
                        0 <= j < k && #[trigger] fact_from(c, ls@, f as int, j, w, sp)
                            ==> extra@.contains((w, sp)),
                    forall|j: int|
                        0 <= j < q && carries((lo, hi), s, e, p, #[trigger] sps[j])
                            ==> extra@.contains((v, sps[j])),
            {
                let sp: u32 = scan.safepoints[q];
                assert(sps[q as int] == sp);
                let outside = !(s <= p && p <= e);
                if outside && lo <= p && p <= hi && s <= hi && e >= lo && lo <= sp && sp <= hi && !(s
                    < sp && sp < e) {
                    let ghost x0 = extra@;
                    add_fact(&mut extra, &mut seen, v, sp);
                    proof {
                        assert(sps.contains(sp));
                        assert(loop_fact(c, ls@, v, sp)) by {
                            assert(exact_facts(c)[f as int].0 == v && organic(c, v, s, e) && carries(
                                ls@[k as int],
                                s,
                                e,
                                exact_facts(c)[f as int].1,
                                sp,
                            ));
                        }
                        lemma_grows(x0, extra@, (v, sp));
                    }
                }
            }
            proof {
                assert forall|w: VReg, sp: u32| #[trigger] fact_from(
                    c,
                    ls@,
                    f as int,
                    k as int,
                    w,
                    sp,
                ) implies extra@.contains((w, sp)) by {
                    let (a, b) = choose|a: u32, b: u32|
                        ex[f as int].0 == w && #[trigger] organic(c, w, a, b) && carries(
                            ls@[k as int],
                            a,
                            b,
                            ex[f as int].1,
                            sp,
                        ) && safepoints(c).contains(sp);
                    lemma_organic_unique(c, v, s, e, a, b);
                    let q = choose|q: int| 0 <= q < sps.len() && sps[q] == sp;
                    assert(carries((lo, hi), s, e, p, sps[q]));
                }
            }
        }
        } else {
            proof {
                assert forall|k: int, w: VReg, sp: u32|
                    0 <= k < ls@.len() implies !#[trigger] fact_from(c, ls@, f as int, k, w, sp) by {
                    if fact_from(c, ls@, f as int, k, w, sp) {
                        let (a, b) = choose|a: u32, b: u32|
                            ex[f as int].0 == w && #[trigger] organic(c, w, a, b) && carries(
                                ls@[k],
                                a,
                                b,
                                ex[f as int].1,
                                sp,
                            ) && safepoints(c).contains(sp);
                        assert(touches_at(c, a as int, w));
                        assert(touched(c, v));
                    }
                }
            }
        }
    }
    proof {
        assert forall|v: VReg, sp: u32| #[trigger] loop_fact(c, ls@, v, sp) implies extra@.contains(
            (v, sp),
        ) by {
            let (f, k, s, e) = choose|f: int, k: int, s: u32, e: u32|
                #![trigger exact_facts(c)[f], ls@[k], organic(c, v, s, e)]
                0 <= f < exact_facts(c).len() && 0 <= k < ls@.len() && exact_facts(c)[f].0 == v
                    && organic(c, v, s, e) && carries(ls@[k], s, e, exact_facts(c)[f].1, sp)
                    && safepoints(c).contains(sp);
            assert(fact_from(c, ls@, f, k, v, sp));
        }
    }
    extra
}

proof fn lemma_grows(a: Seq<(VReg, u32)>, b: Seq<(VReg, u32)>, x: (VReg, u32))
    requires
        b == a || b == a.push(x),
    ensures
        forall|y: (VReg, u32)| #[trigger] a.contains(y) ==> b.contains(y),
{
    assert forall|y: (VReg, u32)| #[trigger] a.contains(y) implies b.contains(y) by {
        let k = choose|k: int| 0 <= k < a.len() && a[k] == y;
        assert(b[k] == y);
    }
}

/// What the interval of a register is built from.
struct Lines {
    scan: Scan,
    loops: Vec<(u32, u32)>,
    /// The registers that exact facts name.
    named: HashSet<u32>,
}

impl Lines {
    spec fn of(self, c: Seq<Cell>, ls: Seq<(u32, u32)>) -> bool {
        &&& self.scan.of(c)
        &&& self.loops@ == ls
        &&& c.len() <= u32::MAX
        &&& forall|k: int| 0 <= k < ls.len() ==> (#[trigger] ls[k]).0 <= ls[k].1
        &&& forall|v: u32|
            #[trigger] self.named@.contains(v) <==> fact_named(exact_facts(c), VReg(v))
    }

    /// Does a safepoint lie in `[s, e)`?
    fn any_safepoint(&self, s: u32, e: u32, Ghost(c): Ghost<Seq<Cell>>, Ghost(ls): Ghost<
        Seq<(u32, u32)>,
    >) -> (r: bool)
        requires
            self.of(c, ls),
        ensures
            r == crosses_safepoint(c, s, e),
    {
        let list = &self.scan.safepoints;
        for k in 0..list.len()
            invariant
                list == self.scan.safepoints,
                self.of(c, ls),
                forall|j: int| 0 <= j < k ==> !(s <= (#[trigger] list@[j]) && e > list@[j]),
        {
            let p: u32 = list[k];
            if s <= p && e > p {
                proof {
                    assert(list@.contains(p));
                    lemma_safepoints(c, p);
                    let x = c[p as int];
                }
                return true;
            }
        }
        proof {
            if crosses_safepoint(c, s, e) {
                let p = choose|p: int|
                    s <= p < e && 0 <= p < c.len() && safepoint_op((#[trigger] c[p]).op);
                lemma_safepoints(c, p as u32);
                let j = choose|j: int| 0 <= j < list@.len() && list@[j] == p as u32;
                assert(!(s <= list@[j] && e > list@[j]));
            }
        }
        false
    }

    /// Does a call lie strictly inside `[s, e]`?
    fn any_call(&self, s: u32, e: u32, Ghost(c): Ghost<Seq<Cell>>, Ghost(ls): Ghost<
        Seq<(u32, u32)>,
    >) -> (r: bool)
        requires
            self.of(c, ls),
        ensures
            r == crosses_call(c, s, e),
    {
        let list = &self.scan.calls;
        for k in 0..list.len()
            invariant
                list == self.scan.calls,
                self.of(c, ls),
                forall|j: int| 0 <= j < k ==> !(s < (#[trigger] list@[j]) && e > list@[j]),
        {
            let p: u32 = list[k];
            if s < p && e > p {
                proof {
                    let x = c[p as int];
                }
                return true;
            }
        }
        proof {
            if crosses_call(c, s, e) {
                let p = choose|p: int|
                    s < p < e && 0 <= p < c.len() && is_call((#[trigger] c[p]).op);
                assert(list@.contains(p as u32));
                let j = choose|j: int| 0 <= j < list@.len() && list@[j] == p as u32;
                assert(!(s < list@[j] && e > list@[j]));
            }
        }
        false
    }

    /// The interval of register `v`, if it has one.
    fn interval_of(
        &self,
        m: &IrMethod,
        v: VReg,
        Ghost(c): Ghost<Seq<Cell>>,
        Ghost(ls): Ghost<Seq<(u32, u32)>>,
    ) -> (r: Option<LiveInterval>)
        requires
            self.of(c, ls),
            v.0 < m@.vregs.len(),
        ensures
            r is Some == has_interval(m@, c, v),
            r matches Some(iv) ==> iv.vreg == v && is_interval(m@, c, ls, iv),
    {
        let ctx = crate::passes::contains_reg(&m.ctx_vregs, v);
        let is_ctx_live = ctx && self.scan.last_site.is_some();
        assert(is_ctx_live == ctx_live(m@, c, v)) by {
            if let Some(p) = self.scan.last_site {
                assert(c[p as int].site);
            }
        }
        let named = self.named.contains(&v.0) || is_ctx_live;
        assert(named == deopt_named(m@, c, v));
        let range = self.scan.organic_range(v, Ghost(c));
        let (s, e1) = match range {
            Some((s0, e0)) => {
                let (a, b) = widen(&self.loops, s0, e0);
                (a, b)
            },
            None => {
                if !named {
                    return None;
                }
                (0, 0)
            },
        };
        let mut e: u32 = e1;
        if is_ctx_live {
            if let Some(p) = self.scan.last_site {
                if e <= p {
                    e = p + 1;
                }
            }
        }
        proof {
            assert(past_sites(m@, c, v, e1, e)) by {
                if ctx_live(m@, c, v) {
                    let p = self.scan.last_site->0;
                    assert forall|q: int| #[trigger] last_site(c, q) implies q == p by {
                        if q < p {
                            assert(c[p as int].site);
                        } else if q > p {
                            assert(c[q].site);
                        }
                    }
                }
            }
            if let Some((s0, e0)) = range {
                assert(organic(c, v, s0, e0) && widened(ls, s0, e0, s, e1));
            }
        }
        let crosses_safepoint = named || self.any_safepoint(s, e, Ghost(c), Ghost(ls));
        let crosses_call = self.any_call(s, e, Ghost(c), Ghost(ls));
        let info = m.vregs[v.0 as usize];
        Some(
            LiveInterval {
                vreg: v,
                start: s,
                end: e,
                is_oop: info.is_oop,
                is_fp: info.is_fp,
                crosses_safepoint,
                crosses_call,
                assignment: None,
                resident_reg: None,
            },
        )
    }
}

/// The registers that facts name.
fn named_regs(facts: &Vec<(VReg, u32)>) -> (r: HashSet<u32>)
    ensures
        forall|v: u32| #[trigger] r@.contains(v) <==> fact_named(facts@, VReg(v)),
{
    let mut r: HashSet<u32> = HashSet::new();
    for k in 0..facts.len()
        invariant
            forall|v: u32|
                #[trigger] r@.contains(v) <==> exists|j: int|
                    0 <= j < k && (#[trigger] facts@[j]).0 == VReg(v),
    {
        let ghost r0 = r@;
        r.insert(facts[k].0.0);
        assert forall|v: u32| #[trigger] r@.contains(v) <==> exists|j: int|
            0 <= j < k + 1 && (#[trigger] facts@[j]).0 == VReg(v) by {
            if r0.contains(v) {
                let j = choose|j: int| 0 <= j < k && (#[trigger] facts@[j]).0 == VReg(v);
                assert(facts@[j].0 == VReg(v));
            }
            if v == facts@[k as int].0.0 {
                assert(facts@[k as int].0 == VReg(v));
            }
            if exists|j: int| 0 <= j < k + 1 && (#[trigger] facts@[j]).0 == VReg(v) {
                let j = choose|j: int| 0 <= j < k + 1 && (#[trigger] facts@[j]).0 == VReg(v);
                if j < k {
                    assert(r0.contains(v));
                }
            }
        }
    }
    r
}

/// Lays the blocks out in a line and finds, for each register, the range of positions over which it
/// lives. Returns the order of emission, the intervals, the positions of safepoints, the position at
/// which each block starts, and the facts about safepoints beyond what the intervals say.
pub fn compute_intervals(m: &IrMethod) -> (r: (
    Vec<BlockId>,
    Vec<LiveInterval>,
    Vec<u32>,
    HashMap<u32, u32>,
    Vec<(VReg, u32)>,
))
    requires
        line_fits(m@),
    ensures
        r.0@ == emission_order(m@.blocks),
        ({
            let c = line(m@, r.0@, r.0@.len() as int);
            let ls = loops(m@, r.0@);
            &&& are_intervals(m@, c, ls, r.1@)
            &&& r.2@ == safepoints(c)
            &&& are_starts(m@, r.0@, r.3@)
            &&& are_facts(c, ls, r.4@)
        }),
{
    let order = reverse_postorder(&m.blocks);
    let (scan, layout) = scan_line(m, &order);
    let ghost c = line(m@, order@, order@.len() as int);
    let ghost ls = loops(m@, order@);
    let loops = find_loops(m, &order, &layout);
    proof {
        lemma_loops_ordered(m@, order@, order@.len() as int, 0);
    }
    let mut extra = find_loop_facts(&scan, &loops, Ghost(c));
    let named = named_regs(&scan.exact);
    let lines = Lines { scan, loops, named };
    let mut ivs: Vec<LiveInterval> = Vec::new();
    let n: u32 = m.vregs.len() as u32;
    for v in 0..n
        invariant
            n == m@.vregs.len(),
            lines.of(c, ls),
            forall|k: int|
                0 <= k < ivs@.len() ==> is_interval(m@, c, ls, #[trigger] ivs@[k]) && ivs@[k].vreg.0
                    < v,
            forall|j: int, k: int|
                0 <= j < k < ivs@.len() ==> (#[trigger] ivs@[j]).vreg.0 < (
                #[trigger] ivs@[k]).vreg.0,
            forall|w: int|
                0 <= w < v ==> (#[trigger] has_interval(m@, c, VReg(w as u32)) <==> exists|k: int|
                    0 <= k < ivs@.len() && (#[trigger] ivs@[k]).vreg == VReg(w as u32)),
    {
        let ghost i0 = ivs@;
        let found = lines.interval_of(m, VReg(v), Ghost(c), Ghost(ls));
        if let Some(iv) = found {
            ivs.push(iv);
        }
        proof {
            assert forall|w: int| 0 <= w < v + 1 implies (#[trigger] has_interval(
                m@,
                c,
                VReg(w as u32),
            ) <==> exists|k: int| 0 <= k < ivs@.len() && (#[trigger] ivs@[k]).vreg == VReg(
                w as u32,
            )) by {
                if w < v {
                    if exists|k: int| 0 <= k < i0.len() && (#[trigger] i0[k]).vreg == VReg(w as u32) {
                        let k = choose|k: int|
                            0 <= k < i0.len() && (#[trigger] i0[k]).vreg == VReg(w as u32);
                        assert(ivs@[k].vreg == VReg(w as u32));
                    }
                    if exists|k: int|
                        0 <= k < ivs@.len() && (#[trigger] ivs@[k]).vreg == VReg(w as u32) {
                        let k = choose|k: int|
                            0 <= k < ivs@.len() && (#[trigger] ivs@[k]).vreg == VReg(w as u32);
                        assert(k < i0.len());
                        assert(i0[k].vreg == VReg(w as u32));
                    }
                } else {
                    if found is Some {
                        assert(ivs@[i0.len() as int].vreg == VReg(w as u32));
                    } else {
                        assert forall|k: int| 0 <= k < ivs@.len() implies (#[trigger] ivs@[k]).vreg
                            != VReg(w as u32) by {
                            assert(ivs@[k].vreg.0 < v);
                        }
                    }
                }
            }
        }
    }
    let Lines { scan, loops: _, named: _ } = lines;
    let Scan { safepoints, calls: _, first: _, last: _, exact, last_site: _ } = scan;
    let Layout { starts, firsts: _, ends: _ } = layout;
    let ghost x = extra@;
    let mut facts = exact;
    facts.append(&mut extra);
    proof {
        let ex = exact_facts(c);
        let k0 = ex.len() as int;
        assert(facts@ == ex + x);
        assert(facts@.take(k0) =~= ex);
        assert(facts@.skip(k0) =~= x);
        assert forall|k: int| k0 <= k < facts@.len() implies loop_fact(
            c,
            ls,
            (#[trigger] facts@[k]).0,
            facts@[k].1,
        ) by {
            assert(facts@[k] == x[k - k0]);
        }
        assert forall|j: int, k: int| k0 <= j < k < facts@.len() implies #[trigger] facts@[j]
            != #[trigger] facts@[k] by {
            assert(facts@[j] == x[j - k0]);
            assert(facts@[k] == x[k - k0]);
        }
        law_order_is_permutation(m@.blocks);
        assert forall|b: u32| starts@.dom().contains(b) <==> b < m@.blocks.len() by {
            if b < m@.blocks.len() {
                assert(order@.contains(BlockId(b as int as u32)));
                let j = choose|j: int| 0 <= j < order@.len() && order@[j] == BlockId(b);
                assert(order@[j].0 == b);
            }
        }
        assert forall|b: u32| b < m@.blocks.len() implies #[trigger] starts@[b] == block_start(
            m@,
            order@,
            BlockId(b),
        ) by {
            assert(order@.contains(BlockId(b as int as u32)));
            let j = choose|j: int| 0 <= j < order@.len() && order@[j] == BlockId(b);
            assert(starts@[order@[j].0] == start_at(m@, order@, j));
            lemma_block_start(m@, order@, j);
        }
    }
    (order, ivs, safepoints, starts, facts)
}

} // verus!

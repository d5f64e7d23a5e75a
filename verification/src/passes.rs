//! What the optimization passes share: the registers that code and deoptimization metadata name,
//! their numbers of occurrences, and the removal of operations from a block.

use vstd::prelude::*;
use crate::ir::{
    code_view, copy_regs, site_view, BlockView, DeoptRaw, DeoptView, InlineSite, InlineView, Ir,
    IrBlock, IrView, VReg,
};

verus! {

/// How often `v` occurs.
pub open spec fn occurrences(s: Seq<VReg>, v: VReg) -> nat
    decreases s.len(),
{
    if s.len() == 0 {
        0
    } else {
        occurrences(s.drop_last(), v) + (if s.last() == v {
            1nat
        } else {
            0
        })
    }
}

pub(crate) proof fn lemma_occurrences_bound(s: Seq<VReg>, v: VReg)
    ensures
        occurrences(s, v) <= s.len(),
        occurrences(s, v) > 0 <==> s.contains(v),
    decreases s.len(),
{
    if s.len() > 0 {
        lemma_occurrences_bound(s.drop_last(), v);
        if s.last() == v {
            assert(s[s.len() - 1] == v);
        }
        if s.drop_last().contains(v) {
            let k = choose|k: int| 0 <= k < s.len() - 1 && s.drop_last()[k] == v;
            assert(s[k] == v);
        }
        if s.contains(v) && s.last() != v {
            let k = choose|k: int| 0 <= k < s.len() && s[k] == v;
            assert(s.drop_last()[k] == v);
        }
    }
}

pub(crate) proof fn lemma_occurrences_push(s: Seq<VReg>, x: VReg, v: VReg)
    ensures
        occurrences(s.push(x), v) == occurrences(s, v) + (if x == v {
            1nat
        } else {
            0
        }),
{
    assert(s.push(x).drop_last() =~= s);
}

pub(crate) proof fn lemma_occurrences_concat(a: Seq<VReg>, b: Seq<VReg>, v: VReg)
    ensures
        occurrences(a + b, v) == occurrences(a, v) + occurrences(b, v),
    decreases b.len(),
{
    if b.len() == 0 {
        assert(a + b =~= a);
    } else {
        assert((a + b).drop_last() =~= a + b.drop_last());
        lemma_occurrences_concat(a, b.drop_last(), v);
    }
}

/// The registers that a description of spliced extents names, innermost first.
pub open spec fn inline_refs(i: InlineView) -> Seq<VReg>
    decreases i,
{
    seq![i.receiver] + i.slots + i.caller_pending_stack + (match i.parent {
        Some(p) => inline_refs(*p),
        None => seq![],
    })
}

/// The registers that a deoptimization site names.
pub open spec fn raw_refs(r: DeoptView) -> Seq<VReg> {
    r.stack + (match r.inline {
        Some(i) => inline_refs(i),
        None => seq![],
    })
}

pub open spec fn sites_refs(s: Seq<(u32, DeoptView)>) -> Seq<VReg>
    decreases s.len(),
{
    if s.len() == 0 {
        seq![]
    } else {
        sites_refs(s.drop_last()) + raw_refs(s.last().1)
    }
}

/// The registers that code reads.
pub open spec fn code_reads(c: Seq<IrView>) -> Seq<VReg>
    decreases c.len(),
{
    if c.len() == 0 {
        seq![]
    } else {
        code_reads(c.drop_last()) + c.last().reads()
    }
}

/// Everything that a block reads or names: its operands, its deoptimization sites, and the
/// registers that its predecessors fill.
pub open spec fn block_refs(b: BlockView) -> Seq<VReg> {
    code_reads(b.code) + sites_refs(b.deopt_sites) + b.entry_stack
}

pub open spec fn all_refs(bs: Seq<BlockView>) -> Seq<VReg>
    decreases bs.len(),
{
    if bs.len() == 0 {
        seq![]
    } else {
        all_refs(bs.drop_last()) + block_refs(bs.last())
    }
}

/// Every register of the list is one of the first `n`.
pub open spec fn below(s: Seq<VReg>, n: nat) -> bool {
    forall|k: int| 0 <= k < s.len() ==> (#[trigger] s[k]).0 < n
}

/// Every register that the operation writes is one of the first `n`.
pub open spec fn write_below(op: IrView, n: nat) -> bool {
    op.write() is Some ==> (op.write()->0).0 < n
}

/// Every register that the block mentions is one of the first `n`.
pub open spec fn block_below(b: BlockView, n: nat) -> bool {
    &&& below(block_refs(b), n)
    &&& forall|i: int| 0 <= i < b.code.len() ==> write_below(#[trigger] b.code[i], n)
}

pub open spec fn blocks_below(bs: Seq<BlockView>, n: nat) -> bool {
    forall|b: int| 0 <= b < bs.len() ==> block_below(#[trigger] bs[b], n)
}

pub(crate) proof fn lemma_all_refs_below(bs: Seq<BlockView>, n: nat)
    requires
        blocks_below(bs, n),
    ensures
        below(all_refs(bs), n),
    decreases bs.len(),
{
    if bs.len() > 0 {
        assert forall|b: int| 0 <= b < bs.len() - 1 implies block_below(
            #[trigger] bs.drop_last()[b],
            n,
        ) by {
            assert(block_below(bs[b], n));
        }
        lemma_all_refs_below(bs.drop_last(), n);
        assert(block_below(bs[bs.len() - 1], n));
    }
}

/// Appends the registers of `from`.
fn append_regs(to: &mut Vec<VReg>, from: &Vec<VReg>)
    ensures
        final(to)@ == old(to)@ + from@,
{
    let mut c = copy_regs(from);
    to.append(&mut c);
}

impl InlineSite {
    /// The registers named at every level.
    pub(crate) fn refs(&self) -> (r: Vec<VReg>)
        ensures
            r@ == inline_refs(self.model()),
        decreases self,
    {
        let mut r: Vec<VReg> = Vec::new();
        r.push(self.receiver);
        assert(r@ =~= seq![self.receiver]);
        append_regs(&mut r, &self.slots);
        append_regs(&mut r, &self.caller_pending_stack);
        match &self.parent {
            Some(p) => {
                let rest = p.refs();
                append_regs(&mut r, &rest);
            },
            None => {},
        }
        assert(r@ =~= inline_refs(self.model()));
        r
    }
}

impl DeoptRaw {
    /// The registers that this site names.
    pub(crate) fn refs(&self) -> (r: Vec<VReg>)
        ensures
            r@ == raw_refs(self@),
    {
        let mut r = copy_regs(&self.stack);
        match &self.inline {
            Some(i) => {
                let rest = i.refs();
                append_regs(&mut r, &rest);
            },
            None => {},
        }
        assert(r@ =~= raw_refs(self@));
        r
    }
}

impl IrBlock {
    /// Everything that this block reads or names.
    pub(crate) fn refs(&self) -> (r: Vec<VReg>)
        ensures
            r@ == block_refs(self@),
    {
        let mut r: Vec<VReg> = Vec::new();
        assert(self@.code.take(0) =~= seq![]);
        for i in 0..self.code.len()
            invariant
                r@ == code_reads(self@.code.take(i as int)),
        {
            assert(self@.code.take(i + 1).drop_last() =~= self@.code.take(i as int));
            assert(self@.code.take(i + 1).last() == self.code@[i as int]@);
            let u = self.code[i].uses();
            append_regs(&mut r, &u);
        }
        assert(self@.code.take(self@.code.len() as int) =~= self@.code);
        let ghost c = r@;
        assert(self@.deopt_sites.take(0) =~= seq![]);
        assert(r@ =~= c + sites_refs(self@.deopt_sites.take(0)));
        for i in 0..self.deopt_sites.len()
            invariant
                r@ == c + sites_refs(self@.deopt_sites.take(i as int)),
        {
            let ghost before = sites_refs(self@.deopt_sites.take(i as int));
            assert(self@.deopt_sites.take(i + 1).drop_last() =~= self@.deopt_sites.take(i as int));
            assert(self@.deopt_sites.take(i + 1).last().1 == self.deopt_sites@[i as int].1@);
            let u = self.deopt_sites[i].1.refs();
            append_regs(&mut r, &u);
            assert(r@ =~= c + (before + u@));
        }
        assert(self@.deopt_sites.take(self@.deopt_sites.len() as int) =~= self@.deopt_sites);
        append_regs(&mut r, &self.entry_stack);
        r
    }
}

/// `counts[v]` is the number of occurrences of register `v`.
pub open spec fn counts_of(counts: Seq<u32>, s: Seq<VReg>) -> bool {
    forall|v: int| 0 <= v < counts.len() ==> #[trigger] counts[v] == occurrences(s, VReg(v as u32))
}

/// No register occurs more often than a counter can tell.
pub open spec fn countable(s: Seq<VReg>, n: nat) -> bool {
    forall|v: int| 0 <= v < n ==> #[trigger] occurrences(s, VReg(v as u32)) <= u32::MAX
}

pub(crate) proof fn lemma_countable_prefix(a: Seq<VReg>, b: Seq<VReg>, n: nat)
    requires
        countable(a + b, n),
    ensures
        countable(a, n),
{
    assert forall|v: int| 0 <= v < n implies #[trigger] occurrences(a, VReg(v as u32))
        <= u32::MAX by {
        lemma_occurrences_concat(a, b, VReg(v as u32));
        assert(occurrences(a + b, VReg(v as u32)) <= u32::MAX);
    }
}

/// Counts the registers of `regs` on top of those of `seen`.
pub(crate) fn count_regs(counts: &mut Vec<u32>, regs: &Vec<VReg>, Ghost(seen): Ghost<Seq<VReg>>)
    requires
        counts_of(old(counts)@, seen),
        old(counts)@.len() <= u32::MAX + 1,
        below(regs@, old(counts)@.len()),
        countable(seen + regs@, old(counts)@.len()),
    ensures
        counts_of(final(counts)@, seen + regs@),
        final(counts)@.len() == old(counts)@.len(),
{
    assert(seen + regs@.take(0) =~= seen);
    for k in 0..regs.len()
        invariant
            counts_of(counts@, seen + regs@.take(k as int)),
            counts@.len() == old(counts)@.len(),
            counts@.len() <= u32::MAX + 1,
            below(regs@, counts@.len()),
            countable(seen + regs@, counts@.len()),
    {
        let ghost s0 = seen + regs@.take(k as int);
        let v = regs[k];
        proof {
            assert(seen + regs@.take(k + 1) =~= s0.push(v));
            assert(seen + regs@ =~= s0.push(v) + regs@.skip(k + 1));
            lemma_countable_prefix(s0.push(v), regs@.skip(k + 1), counts@.len());
            assert(occurrences(s0.push(v), VReg(v.0 as int as u32)) <= u32::MAX);
            assert forall|w: int| 0 <= w < counts@.len() implies #[trigger] occurrences(
                s0.push(v),
                VReg(w as u32),
            ) == occurrences(s0, VReg(w as u32)) + (if w == v.0 {
                1nat
            } else {
                0
            }) by {
                lemma_occurrences_push(s0, v, VReg(w as u32));
            }
            assert(counts@[v.0 as int] == occurrences(s0, VReg(v.0)));
        }
        let c: u32 = counts[v.0 as usize];
        counts[v.0 as usize] = c + 1;
    }
    assert(regs@.take(regs@.len() as int) =~= regs@);
}

/// `marks[v]` tells whether register `v` occurs.
pub open spec fn marks_of(marks: Seq<bool>, s: Seq<VReg>) -> bool {
    forall|v: int| 0 <= v < marks.len() ==> #[trigger] marks[v] == s.contains(VReg(v as u32))
}

/// Marks the registers of `regs` on top of those of `seen`.
pub(crate) fn mark_regs(marks: &mut Vec<bool>, regs: &Vec<VReg>, Ghost(seen): Ghost<Seq<VReg>>)
    requires
        marks_of(old(marks)@, seen),
        old(marks)@.len() <= u32::MAX + 1,
        below(regs@, old(marks)@.len()),
    ensures
        marks_of(final(marks)@, seen + regs@),
        final(marks)@.len() == old(marks)@.len(),
{
    assert(seen + regs@.take(0) =~= seen);
    for k in 0..regs.len()
        invariant
            marks_of(marks@, seen + regs@.take(k as int)),
            marks@.len() == old(marks)@.len(),
            marks@.len() <= u32::MAX + 1,
            below(regs@, marks@.len()),
    {
        let ghost s0 = seen + regs@.take(k as int);
        let v = regs[k];
        proof {
            assert(seen + regs@.take(k + 1) =~= s0.push(v));
            assert forall|w: VReg| #[trigger] s0.push(v).contains(w) == (s0.contains(w) || w
                == v) by {
                if s0.contains(w) {
                    let j = choose|j: int| 0 <= j < s0.len() && s0[j] == w;
                    assert(s0.push(v)[j] == w);
                }
                if w == v {
                    assert(s0.push(v)[s0.len() as int] == w);
                }
            }
        }
        marks[v.0 as usize] = true;
    }
    assert(regs@.take(regs@.len() as int) =~= regs@);
}

pub(crate) fn no_marks(n: usize) -> (r: Vec<bool>)
    ensures
        r@.len() == n,
        marks_of(r@, seq![]),
{
    let mut r: Vec<bool> = Vec::new();
    for i in 0..n
        invariant
            r@.len() == i,
            forall|j: int| 0 <= j < i ==> #[trigger] r@[j] == false,
    {
        r.push(false);
    }
    r
}

pub(crate) fn contains_reg(s: &Vec<VReg>, v: VReg) -> (r: bool)
    ensures
        r == s@.contains(v),
{
    for k in 0..s.len()
        invariant
            forall|j: int| 0 <= j < k ==> s@[j] != v,
    {
        if s[k] == v {
            assert(s@[k as int] == v);
            return true;
        }
    }
    false
}

/// Everything that operations read.
pub open spec fn all_reads(bs: Seq<BlockView>) -> Seq<VReg>
    decreases bs.len(),
{
    if bs.len() == 0 {
        seq![]
    } else {
        all_reads(bs.drop_last()) + code_reads(bs.last().code)
    }
}

/// Every register that predecessors fill.
pub open spec fn all_entries(bs: Seq<BlockView>) -> Seq<VReg>
    decreases bs.len(),
{
    if bs.len() == 0 {
        seq![]
    } else {
        all_entries(bs.drop_last()) + bs.last().entry_stack
    }
}

/// Every register that deoptimization sites name.
pub open spec fn all_named(bs: Seq<BlockView>) -> Seq<VReg>
    decreases bs.len(),
{
    if bs.len() == 0 {
        seq![]
    } else {
        all_named(bs.drop_last()) + sites_refs(bs.last().deopt_sites)
    }
}

pub(crate) proof fn lemma_block_parts_below(b: BlockView, n: nat)
    requires
        block_below(b, n),
    ensures
        below(code_reads(b.code), n),
        below(sites_refs(b.deopt_sites), n),
        below(b.entry_stack, n),
{
    let r = block_refs(b);
    let c = code_reads(b.code);
    let d = sites_refs(b.deopt_sites);
    assert forall|k: int| 0 <= k < c.len() implies (#[trigger] c[k]).0 < n by {
        assert(r[k] == c[k]);
    }
    assert forall|k: int| 0 <= k < d.len() implies (#[trigger] d[k]).0 < n by {
        assert(r[c.len() + k] == d[k]);
    }
    assert forall|k: int| 0 <= k < b.entry_stack.len() implies (#[trigger] b.entry_stack[k]).0
        < n by {
        assert(r[c.len() + d.len() + k] == b.entry_stack[k]);
    }
}

impl IrBlock {
    /// Everything that this block's operations read.
    pub(crate) fn code_refs(&self) -> (r: Vec<VReg>)
        ensures
            r@ == code_reads(self@.code),
    {
        let mut r: Vec<VReg> = Vec::new();
        assert(self@.code.take(0) =~= seq![]);
        for i in 0..self.code.len()
            invariant
                r@ == code_reads(self@.code.take(i as int)),
        {
            assert(self@.code.take(i + 1).drop_last() =~= self@.code.take(i as int));
            assert(self@.code.take(i + 1).last() == self.code@[i as int]@);
            let u = self.code[i].uses();
            append_regs(&mut r, &u);
        }
        assert(self@.code.take(self@.code.len() as int) =~= self@.code);
        r
    }

    /// Everything that this block's deoptimization sites name.
    pub(crate) fn site_refs(&self) -> (r: Vec<VReg>)
        ensures
            r@ == sites_refs(self@.deopt_sites),
    {
        let mut r: Vec<VReg> = Vec::new();
        assert(self@.deopt_sites.take(0) =~= seq![]);
        for i in 0..self.deopt_sites.len()
            invariant
                r@ == sites_refs(self@.deopt_sites.take(i as int)),
        {
            assert(self@.deopt_sites.take(i + 1).drop_last() =~= self@.deopt_sites.take(i as int));
            assert(self@.deopt_sites.take(i + 1).last().1 == self.deopt_sites@[i as int].1@);
            let u = self.deopt_sites[i].1.refs();
            append_regs(&mut r, &u);
        }
        assert(self@.deopt_sites.take(self@.deopt_sites.len() as int) =~= self@.deopt_sites);
        r
    }
}

/// Which registers operations read, which predecessors fill, and which sites name.
pub struct Census {
    pub read: Vec<bool>,
    pub entry: Vec<bool>,
    pub named: Vec<bool>,
}

impl Census {
    pub open spec fn of(self, bs: Seq<BlockView>, n: nat) -> bool {
        &&& self.read@.len() == n
        &&& self.entry@.len() == n
        &&& self.named@.len() == n
        &&& marks_of(self.read@, all_reads(bs))
        &&& marks_of(self.entry@, all_entries(bs))
        &&& marks_of(self.named@, all_named(bs))
    }
}

/// Takes the census of all blocks.
pub(crate) fn take_census(blocks: &Vec<IrBlock>, n: usize) -> (r: Census)
    requires
        n <= u32::MAX + 1,
        blocks_below(crate::ir::blocks_view(blocks@), n as nat),
    ensures
        r.of(crate::ir::blocks_view(blocks@), n as nat),
{
    let mut read = no_marks(n);
    let mut entry = no_marks(n);
    let mut named = no_marks(n);
    let ghost bs = crate::ir::blocks_view(blocks@);
    assert(bs.take(0) =~= seq![]);
    for k in 0..blocks.len()
        invariant
            bs == crate::ir::blocks_view(blocks@),
            n <= u32::MAX + 1,
            blocks_below(bs, n as nat),
            read@.len() == n,
            entry@.len() == n,
            named@.len() == n,
            marks_of(read@, all_reads(bs.take(k as int))),
            marks_of(entry@, all_entries(bs.take(k as int))),
            marks_of(named@, all_named(bs.take(k as int))),
    {
        proof {
            assert(bs.take(k + 1).drop_last() =~= bs.take(k as int));
            assert(bs.take(k + 1).last() == blocks@[k as int]@);
            assert(block_below(bs[k as int], n as nat));
            lemma_block_parts_below(bs[k as int], n as nat);
        }
        let c = blocks[k].code_refs();
        let s = blocks[k].site_refs();
        mark_regs(&mut read, &c, Ghost(all_reads(bs.take(k as int))));
        mark_regs(&mut entry, &blocks[k].entry_stack, Ghost(all_entries(bs.take(k as int))));
        mark_regs(&mut named, &s, Ghost(all_named(bs.take(k as int))));
    }
    assert(bs.take(bs.len() as int) =~= bs);
    Census { read, entry, named }
}

/// A block refers to a register by reading it, naming it, or having it filled.
pub(crate) proof fn lemma_refs_split(bs: Seq<BlockView>, v: VReg)
    ensures
        all_refs(bs).contains(v) == (all_reads(bs).contains(v) || all_named(bs).contains(v)
            || all_entries(bs).contains(v)),
    decreases bs.len(),
{
    if bs.len() > 0 {
        let p = bs.drop_last();
        let b = bs.last();
        lemma_refs_split(p, v);
        lemma_contains_concat(all_refs(p), block_refs(b), v);
        lemma_contains_concat(
            code_reads(b.code) + sites_refs(b.deopt_sites),
            b.entry_stack,
            v,
        );
        lemma_contains_concat(code_reads(b.code), sites_refs(b.deopt_sites), v);
        lemma_contains_concat(all_reads(p), code_reads(b.code), v);
        lemma_contains_concat(all_named(p), sites_refs(b.deopt_sites), v);
        lemma_contains_concat(all_entries(p), b.entry_stack, v);
    }
}

pub(crate) proof fn lemma_contains_concat(a: Seq<VReg>, b: Seq<VReg>, v: VReg)
    ensures
        (a + b).contains(v) == (a.contains(v) || b.contains(v)),
{
    if a.contains(v) {
        let k = choose|k: int| 0 <= k < a.len() && a[k] == v;
        assert((a + b)[k] == v);
    }
    if b.contains(v) {
        let k = choose|k: int| 0 <= k < b.len() && b[k] == v;
        assert((a + b)[a.len() + k] == v);
    }
    if (a + b).contains(v) {
        let k = choose|k: int| 0 <= k < (a + b).len() && (a + b)[k] == v;
        if k < a.len() {
            assert(a[k] == v);
        } else {
            assert(b[k - a.len()] == v);
        }
    }
}

/// How many of the first `n` flags are set.
pub open spec fn kept(keep: Seq<bool>, n: int) -> nat
    decreases n,
{
    if n <= 0 {
        0
    } else {
        kept(keep, n - 1) + (if keep[n - 1] {
            1nat
        } else {
            0
        })
    }
}

/// The operations whose flag is set, among the first `n`.
pub open spec fn selected(code: Seq<IrView>, keep: Seq<bool>, n: int) -> Seq<IrView>
    decreases n,
{
    if n <= 0 {
        seq![]
    } else if keep[n - 1] {
        selected(code, keep, n - 1).push(code[n - 1])
    } else {
        selected(code, keep, n - 1)
    }
}

/// A block without the operations whose flag is not set. Deoptimization sites follow their
/// operations. A site past the end of the code has nothing to follow.
pub open spec fn compacted(b: BlockView, keep: Seq<bool>) -> Option<BlockView> {
    if forall|i: int| 0 <= i < b.code.len() ==> keep[i] {
        Some(b)
    } else if exists|k: int|
        0 <= k < b.deopt_sites.len() && (#[trigger] b.deopt_sites[k]).0 > b.code.len() {
        None
    } else {
        Some(
            BlockView {
                code: selected(b.code, keep, b.code.len() as int),
                deopt_sites: b.deopt_sites.map_values(
                    |s: (u32, DeoptView)| (kept(keep, s.0 as int) as u32, s.1),
                ),
                ..b
            },
        )
    }
}

pub(crate) proof fn lemma_kept_bound(keep: Seq<bool>, n: int)
    requires
        0 <= n,
    ensures
        kept(keep, n) <= n,
    decreases n,
{
    if n > 0 {
        lemma_kept_bound(keep, n - 1);
    }
}

/// Removes the operations whose flag is not set.
pub(crate) fn compact(b: &mut IrBlock, keep: &Vec<bool>)
    requires
        keep@.len() == old(b)@.code.len(),
        compacted(old(b)@, keep@) is Some,
    ensures
        compacted(old(b)@, keep@) == Some(final(b)@),
{
    let n: usize = b.code.len();
    let mut all = true;
    let mut before: Vec<u32> = Vec::new();
    let mut count: u64 = 0;
    let ghost b0 = b@;
    for i in 0..n
        invariant
            n == keep@.len(),
            all == (forall|j: int| 0 <= j < i ==> keep@[j]),
            before@.len() == i,
            count == kept(keep@, i as int),
            forall|j: int| 0 <= j < i ==> #[trigger] before@[j] == kept(keep@, j) as u32,
    {
        proof {
            lemma_kept_bound(keep@, i as int);
        }
        before.push(count as u32);
        if keep[i] {
            count = count + 1;
        } else {
            all = false;
        }
    }
    if all {
        return ;
    }
    before.push(count as u32);
    let mut old_code: Vec<Ir> = Vec::new();
    core::mem::swap(&mut old_code, &mut b.code);
    let mut code: Vec<Ir> = Vec::new();
    assert(code_view(code@) =~= seq![]);
    let mut k: usize = 0;
    for op in it: old_code.into_iter()
        invariant
            code_view(it.seq()) == b0.code,
            keep@.len() == b0.code.len(),
            n == b0.code.len(),
            k == it.index(),
            code_view(code@) == selected(b0.code, keep@, k as int),
    {
        let ghost c0 = code@;
        assert(b0.code[k as int] == op@);
        if keep[k] {
            code.push(op);
            assert(code_view(code@) =~= code_view(c0).push(op@));
        }
        k = k + 1;
    }
    b.code = code;
    let m: usize = b.deopt_sites.len();
    let ghost f = |s: (u32, DeoptView)| (kept(keep@, s.0 as int) as u32, s.1);
    for j in 0..m
        invariant
            b@.code == selected(b0.code, keep@, b0.code.len() as int),
            b@.id == b0.id,
            b@.bci == b0.bci,
            b@.entry_stack == b0.entry_stack,
            m == b.deopt_sites@.len(),
            m == b0.deopt_sites.len(),
            before@.len() == b0.code.len() + 1,
            forall|i: int| 0 <= i < before@.len() ==> #[trigger] before@[i] == kept(keep@, i) as u32,
            forall|i: int|
                0 <= i < m ==> (#[trigger] b0.deopt_sites[i]).0 <= b0.code.len(),
            forall|i: int|
                j <= i < m ==> site_view(#[trigger] b.deopt_sites@[i]) == b0.deopt_sites[i],
            forall|i: int|
                0 <= i < j ==> site_view(#[trigger] b.deopt_sites@[i]) == (
                kept(keep@, b0.deopt_sites[i].0 as int) as u32,
                b0.deopt_sites[i].1,
            ),
    {
        assert(site_view(b.deopt_sites@[j as int]) == b0.deopt_sites[j as int]);
        let ci: u32 = b.deopt_sites[j].0;
        b.deopt_sites[j].0 = before[ci as usize];
    }
    assert(b@.deopt_sites =~= b0.deopt_sites.map_values(f));
}

} // verus!

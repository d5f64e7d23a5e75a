//! Removal of Double boxes: a value that is boxed and unboxed again stays unboxed, a literal is
//! unboxed at compile time, a box that only deoptimization needs is made there, and a box that
//! nobody needs is not made.

use std::collections::HashMap;
use vstd::prelude::*;
use crate::ir::{
    blocks_view, code_view, site_view, BlockView, DeoptView, Ir, IrBlock, IrView, PoolEntry,
    PoolLit, RelocKind, VReg,
};
use crate::passes::{
    all_entries, all_reads, all_refs, block_below, blocks_below, compact, compacted, contains_reg,
    lemma_refs_split, sites_refs, take_census, Census,
};
use crate::world::VmState;

verus! {

broadcast use vstd::std_specs::hash::group_hash_axioms;

pub open spec fn subst(map: Map<u32, VReg>, v: VReg) -> VReg {
    if map.dom().contains(v.0) {
        map[v.0]
    } else {
        v
    }
}

/// The operation with the unboxed operands replaced.
pub open spec fn subst_fp(map: Map<u32, VReg>, op: IrView) -> IrView {
    match op {
        Ir::FArith { op, dst, a, b } => Ir::FArith { op, dst, a: subst(map, a), b: subst(map, b) },
        Ir::FCmpVal { op, dst, a, b } => Ir::FCmpVal {
            op,
            dst,
            a: subst(map, a),
            b: subst(map, b),
        },
        Ir::FCmpBr { op, a, b, if_true, if_false } => Ir::FCmpBr {
            op,
            a: subst(map, a),
            b: subst(map, b),
            if_true,
            if_false,
        },
        Ir::FBox { dst, src } => Ir::FBox { dst, src: subst(map, src) },
        _ => op,
    }
}

/// A block during the cancellation of boxes.
pub ghost struct Cancel {
    /// What each box made so far holds.
    pub boxed: Map<u32, VReg>,
    /// What each cancelled unboxing stands for.
    pub unboxed: Map<u32, VReg>,
    pub code: Seq<IrView>,
    pub keep: Seq<bool>,
}

/// The first `n` operations: unboxing a box made in this block goes away, and what read the
/// unboxed value reads the value that was boxed.
pub open spec fn cancel(code: Seq<IrView>, n: int) -> Cancel
    decreases n,
{
    if n <= 0 {
        Cancel { boxed: Map::empty(), unboxed: Map::empty(), code, keep: seq![] }
    } else {
        cancel_op(cancel(code, n - 1), n - 1)
    }
}

pub open spec fn cancel_op(c: Cancel, i: int) -> Cancel {
    let op = subst_fp(c.unboxed, c.code[i]);
    let code = c.code.update(i, op);
    match op {
        Ir::FUnbox { dst, src, .. } => if c.boxed.dom().contains(src.0) {
            Cancel {
                unboxed: c.unboxed.insert(dst.0, c.boxed[src.0]),
                code,
                keep: c.keep.push(false),
                ..c
            }
        } else {
            Cancel { code, keep: c.keep.push(true), ..c }
        },
        Ir::FBox { dst, src } => Cancel {
            boxed: c.boxed.insert(dst.0, src),
            code,
            keep: c.keep.push(true),
            ..c
        },
        _ => Cancel { code, keep: c.keep.push(true), ..c },
    }
}

pub open spec fn cancelled_block(b: BlockView) -> Option<BlockView> {
    let c = cancel(b.code, b.code.len() as int);
    compacted(BlockView { code: c.code, ..b }, c.keep)
}

/// `f` applied to the first `k` blocks.
pub open spec fn map_blocks(
    bs: Seq<BlockView>,
    f: spec_fn(BlockView) -> Option<BlockView>,
    k: int,
) -> Option<Seq<BlockView>>
    decreases k,
{
    if k <= 0 {
        Some(bs)
    } else {
        match map_blocks(bs, f, k - 1) {
            None => None,
            Some(done) => match f(done[k - 1]) {
                None => None,
                Some(b) => Some(done.update(k - 1, b)),
            },
        }
    }
}

pub(crate) proof fn lemma_map_blocks(
    bs: Seq<BlockView>,
    f: spec_fn(BlockView) -> Option<BlockView>,
    j: int,
    k: int,
)
    requires
        0 <= j <= k <= bs.len(),
        map_blocks(bs, f, k) is Some,
    ensures
        map_blocks(bs, f, j) is Some,
        map_blocks(bs, f, j)->0.len() == bs.len(),
        forall|i: int| j <= i < bs.len() ==> #[trigger] (map_blocks(bs, f, j)->0)[i] == bs[i],
    decreases k, k - j,
{
    if j < k {
        lemma_map_blocks(bs, f, j, k - 1);
    } else if j > 0 {
        lemma_map_blocks(bs, f, j - 1, k - 1);
    }
}

pub open spec fn cancelled(bs: Seq<BlockView>) -> Option<Seq<BlockView>> {
    map_blocks(bs, |b: BlockView| cancelled_block(b), bs.len() as int)
}

/// The bits of the Double that a pool literal is.
pub open spec fn literal_double(vm: VmState, pool: Seq<PoolEntry>, lit: PoolLit) -> Option<u64> {
    if pool[lit.0 as int].kind == Some(RelocKind::Oop) {
        vm.double(pool[lit.0 as int].value)
    } else {
        None
    }
}

/// The registers that the first `n` operations load with a Double literal, on top of `known`.
pub open spec fn doubles_in(
    vm: VmState,
    pool: Seq<PoolEntry>,
    code: Seq<IrView>,
    n: int,
    known: Map<u32, u64>,
) -> Map<u32, u64>
    decreases n,
{
    if n <= 0 {
        known
    } else {
        let k = doubles_in(vm, pool, code, n - 1, known);
        match code[n - 1] {
            Ir::ConstPool { dst, lit } => match literal_double(vm, pool, lit) {
                Some(bits) => k.insert(dst.0, bits),
                None => k,
            },
            _ => k,
        }
    }
}

/// The registers that the first `k` blocks load with a Double literal.
pub open spec fn const_doubles(
    vm: VmState,
    pool: Seq<PoolEntry>,
    bs: Seq<BlockView>,
    k: int,
) -> Map<u32, u64>
    decreases k,
{
    if k <= 0 {
        Map::empty()
    } else {
        doubles_in(
            vm,
            pool,
            bs[k - 1].code,
            bs[k - 1].code.len() as int,
            const_doubles(vm, pool, bs, k - 1),
        )
    }
}

/// Every pool literal that code loads exists.
pub open spec fn lits_ok(bs: Seq<BlockView>, pool: Seq<PoolEntry>) -> bool {
    forall|b: int, i: int|
        0 <= b < bs.len() && 0 <= i < bs[b].code.len() ==> (#[trigger] bs[b].code[i] matches
            Ir::ConstPool { lit, .. } ==> lit.0 < pool.len())
}

pub open spec fn fold_op(known: Map<u32, u64>, op: IrView) -> IrView {
    match op {
        Ir::FUnbox { dst, src, .. } => if known.dom().contains(src.0) {
            Ir::FConst { dst, bits: known[src.0] }
        } else {
            op
        },
        _ => op,
    }
}

pub open spec fn fold_block(known: Map<u32, u64>, b: BlockView) -> BlockView {
    BlockView { code: b.code.map_values(|op: IrView| fold_op(known, op)), ..b }
}

/// Unboxing a Double literal is a constant: the pool word is a Double whatever happens to it.
pub open spec fn folded(vm: VmState, pool: Seq<PoolEntry>, bs: Seq<BlockView>) -> Option<
    Seq<BlockView>,
> {
    if lits_ok(bs, pool) {
        let known = const_doubles(vm, pool, bs, bs.len() as int);
        Some(bs.map_values(|b: BlockView| fold_block(known, b)))
    } else {
        None
    }
}

/// A deoptimization site of the block names `v`.
pub open spec fn site_named(b: BlockView, v: VReg) -> bool {
    sites_refs(b.deopt_sites).contains(v)
}

pub open spec fn trap_only(b: BlockView) -> bool {
    b.code.len() == 1 && b.code[0] is UncommonTrap
}

/// The box that `op`, an operation of block `b`, makes is needed by deoptimization alone, and only
/// in blocks that do nothing but trap.
pub open spec fn sinkable(bs: Seq<BlockView>, b: int, op: IrView) -> bool {
    match op {
        Ir::FBox { dst, .. } => {
            &&& !all_reads(bs).contains(dst)
            &&& !all_entries(bs).contains(dst)
            &&& exists|t: int| 0 <= t < bs.len() && site_named(#[trigger] bs[t], dst)
            &&& forall|t: int|
                0 <= t < bs.len() && site_named(#[trigger] bs[t], dst) ==> trap_only(bs[t]) && t
                    != b
        },
        _ => false,
    }
}

/// The boxes of the first `n` operations of block `b` that block `t` makes itself.
pub open spec fn sunk_from(bs: Seq<BlockView>, t: int, b: int, n: int) -> Seq<IrView>
    decreases n,
{
    if n <= 0 {
        seq![]
    } else {
        let op = bs[b].code[n - 1];
        let rest = sunk_from(bs, t, b, n - 1);
        match op {
            Ir::FBox { dst, .. } => if sinkable(bs, b, op) && site_named(bs[t], dst) {
                rest.push(op)
            } else {
                rest
            },
            _ => rest,
        }
    }
}

/// The boxes of the first `k` blocks that block `t` makes itself.
pub open spec fn sunk_into(bs: Seq<BlockView>, t: int, k: int) -> Seq<IrView>
    decreases k,
{
    if k <= 0 {
        seq![]
    } else {
        sunk_into(bs, t, k - 1) + sunk_from(bs, t, k - 1, bs[k - 1].code.len() as int)
    }
}

/// A block with operations put in front; the deoptimization sites follow their operations.
pub open spec fn prepended(b: BlockView, ins: Seq<IrView>) -> Option<BlockView> {
    if ins.len() == 0 {
        Some(b)
    } else if exists|k: int|
        0 <= k < b.deopt_sites.len() && (#[trigger] b.deopt_sites[k]).0 + ins.len() > u32::MAX {
        None
    } else {
        Some(
            BlockView {
                code: ins + b.code,
                deopt_sites: b.deopt_sites.map_values(
                    |s: (u32, DeoptView)| ((s.0 + ins.len()) as u32, s.1),
                ),
                ..b
            },
        )
    }
}

pub open spec fn unsunk(bs: Seq<BlockView>, b: int) -> Seq<bool> {
    Seq::new(bs[b].code.len(), |i: int| !sinkable(bs, b, bs[b].code[i]))
}

/// Block `b` after sinking: without the boxes that moved out, with those that moved in.
pub open spec fn sunk_block(bs: Seq<BlockView>, b: int) -> Option<BlockView> {
    match compacted(bs[b], unsunk(bs, b)) {
        None => None,
        Some(c) => prepended(c, sunk_into(bs, b, bs.len() as int)),
    }
}

/// Boxes that only deoptimization needs move to where it happens; `n` is the number of registers.
pub open spec fn sunk(bs: Seq<BlockView>, n: nat) -> Option<Seq<BlockView>> {
    if !blocks_below(bs, n) || exists|b: int|
        0 <= b < bs.len() && #[trigger] sunk_block(bs, b) is None {
        None
    } else {
        Some(Seq::new(bs.len(), |b: int| sunk_block(bs, b)->0))
    }
}

pub open spec fn live_flags(refs: Seq<VReg>, b: BlockView) -> Seq<bool> {
    Seq::new(
        b.code.len(),
        |i: int|
            match b.code[i] {
                Ir::FBox { dst, .. } => refs.contains(dst),
                _ => true,
            },
    )
}

/// Without the boxes that nothing refers to.
pub open spec fn without_dead_boxes(bs: Seq<BlockView>, n: nat) -> Option<Seq<BlockView>> {
    if !blocks_below(bs, n) {
        None
    } else {
        let refs = all_refs(bs);
        map_blocks(
            bs,
            |b: BlockView| compacted(b, live_flags(refs, b)),
            bs.len() as int,
        )
    }
}

fn subst_reg(map: &HashMap<u32, VReg>, v: VReg) -> (r: VReg)
    ensures
        r == subst(map@, v),
{
    match map.get(&v.0) {
        Some(x) => *x,
        None => v,
    }
}

fn subst_op(map: &HashMap<u32, VReg>, op: &mut Ir)
    ensures
        final(op)@ == subst_fp(map@, old(op)@),
{
    match op {
        Ir::FArith { a, b, .. } => {
            *a = subst_reg(map, *a);
            *b = subst_reg(map, *b);
        },
        Ir::FCmpVal { a, b, .. } => {
            *a = subst_reg(map, *a);
            *b = subst_reg(map, *b);
        },
        Ir::FCmpBr { a, b, .. } => {
            *a = subst_reg(map, *a);
            *b = subst_reg(map, *b);
        },
        Ir::FBox { src, .. } => {
            *src = subst_reg(map, *src);
        },
        _ => {},
    }
}

/// Cancels boxes in one block.
fn cancel_block(b: &mut IrBlock)
    requires
        cancelled_block(old(b)@) is Some,
    ensures
        cancelled_block(old(b)@) == Some(final(b)@),
{
    let mut boxed: HashMap<u32, VReg> = HashMap::new();
    let mut unboxed: HashMap<u32, VReg> = HashMap::new();
    let mut keep: Vec<bool> = Vec::new();
    let n: usize = b.code.len();
    let ghost b0 = b@;
    for i in 0..n
        invariant
            n == b0.code.len(),
            b@ == (BlockView { code: b@.code, ..b0 }),
            cancel(b0.code, i as int) == (Cancel {
                boxed: boxed@,
                unboxed: unboxed@,
                code: b@.code,
                keep: keep@,
            }),
            keep@.len() == i,
            b@.code.len() == n,
    {
        let ghost c = cancel(b0.code, i as int);
        assert(b.code@[i as int]@ == b@.code[i as int]);
        subst_op(&unboxed, &mut b.code[i]);
        assert(b@.code =~= c.code.update(i as int, subst_fp(c.unboxed, c.code[i as int])));
        assert(b.code@[i as int]@ == b@.code[i as int]);
        let mut stays = true;
        match &b.code[i] {
            Ir::FUnbox { dst, src, .. } => {
                let held: Option<VReg> = match boxed.get(&src.0) {
                    Some(x) => Some(*x),
                    None => None,
                };
                if let Some(x) = held {
                    unboxed.insert(dst.0, x);
                    stays = false;
                }
            },
            Ir::FBox { dst, src } => {
                boxed.insert(dst.0, *src);
            },
            _ => {},
        }
        keep.push(stays);
    }
    compact(b, &keep);
}

/// Cancels boxes in every block.
pub(crate) fn cancel_boxes(blocks: &mut Vec<IrBlock>)
    requires
        cancelled(blocks_view(old(blocks)@)) is Some,
    ensures
        cancelled(blocks_view(old(blocks)@)) == Some(blocks_view(final(blocks)@)),
{
    let n: usize = blocks.len();
    let ghost bs = blocks_view(blocks@);
    let ghost f = |b: BlockView| cancelled_block(b);
    for k in 0..n
        invariant
            n == blocks@.len(),
            n == bs.len(),
            f == (|b: BlockView| cancelled_block(b)),
            map_blocks(bs, f, n as int) is Some,
            map_blocks(bs, f, k as int) == Some(blocks_view(blocks@)),
    {
        let ghost done = blocks_view(blocks@);
        proof {
            lemma_map_blocks(bs, f, k as int, n as int);
            lemma_map_blocks(bs, f, k + 1, n as int);
            assert(done[k as int] == blocks@[k as int]@);
            assert(f(done[k as int]) is Some);
        }
        cancel_block(&mut blocks[k]);
        assert(blocks_view(blocks@) =~= done.update(k as int, blocks@[k as int]@));
    }
}

/// The registers that are loaded with a Double literal.
pub(crate) fn find_const_doubles(vm: &VmState, pool: &Vec<PoolEntry>, blocks: &Vec<IrBlock>) -> (r: HashMap<
    u32,
    u64,
>)
    requires
        lits_ok(blocks_view(blocks@), pool@),
    ensures
        r@ == const_doubles(*vm, pool@, blocks_view(blocks@), blocks@.len() as int),
{
    let mut known: HashMap<u32, u64> = HashMap::new();
    let ghost bs = blocks_view(blocks@);
    for k in 0..blocks.len()
        invariant
            bs == blocks_view(blocks@),
            lits_ok(bs, pool@),
            known@ == const_doubles(*vm, pool@, bs, k as int),
    {
        let ghost before = known@;
        assert(bs[k as int] == blocks@[k as int]@);
        let len: usize = blocks[k].code.len();
        for i in 0..len
            invariant
                k < blocks@.len(),
                len == blocks@[k as int].code@.len(),
                bs == blocks_view(blocks@),
                bs[k as int] == blocks@[k as int]@,
                lits_ok(bs, pool@),
                known@ == doubles_in(*vm, pool@, bs[k as int].code, i as int, before),
        {
            assert(bs[k as int].code[i as int] == blocks@[k as int].code@[i as int]@);
            if let Ir::ConstPool { dst, lit } = &blocks[k].code[i] {
                let e = pool[lit.0 as usize];
                if e.kind == Some(RelocKind::Oop) {
                    if let Some(bits) = vm.double_bits(e.value) {
                        known.insert(dst.0, bits);
                    }
                }
            }
        }
    }
    known
}

/// Folds the unboxing of Double literals.
pub(crate) fn fold_literals(vm: &VmState, pool: &Vec<PoolEntry>, blocks: &mut Vec<IrBlock>)
    requires
        folded(*vm, pool@, blocks_view(old(blocks)@)) is Some,
    ensures
        folded(*vm, pool@, blocks_view(old(blocks)@)) == Some(blocks_view(final(blocks)@)),
{
    let known = find_const_doubles(vm, pool, blocks);
    let n: usize = blocks.len();
    let ghost bs = blocks_view(blocks@);
    for k in 0..n
        invariant
            n == blocks@.len(),
            n == bs.len(),
            forall|j: int|
                0 <= j < k ==> #[trigger] blocks_view(blocks@)[j] == fold_block(known@, bs[j]),
            forall|j: int| k <= j < n ==> #[trigger] blocks_view(blocks@)[j] == bs[j],
    {
        assert(blocks_view(blocks@)[k as int] == blocks@[k as int]@);
        let ghost all0 = blocks_view(blocks@);
        let b = &mut blocks[k];
        let len: usize = b.code.len();
        let ghost b0 = b@;
        for i in 0..len
            invariant
                len == b0.code.len(),
                b@.code.len() == len,
                b@ == (BlockView { code: b@.code, ..b0 }),
                forall|j: int|
                    0 <= j < i ==> #[trigger] b@.code[j] == fold_op(known@, b0.code[j]),
                forall|j: int| i <= j < len ==> #[trigger] b@.code[j] == b0.code[j],
        {
            assert(b.code@[i as int]@ == b@.code[i as int]);
            let ghost c0 = b@.code;
            let found: Option<(VReg, u64)> = match &b.code[i] {
                Ir::FUnbox { dst, src, .. } => match known.get(&src.0) {
                    Some(bits) => Some((*dst, *bits)),
                    None => None,
                },
                _ => None,
            };
            if let Some((dst, bits)) = found {
                b.code[i] = Ir::FConst { dst, bits };
            }
            assert(b@.code =~= c0.update(i as int, fold_op(known@, b0.code[i as int])));
        }
        assert(b@.code =~= fold_block(known@, b0).code);
        assert(blocks_view(blocks@) =~= all0.update(k as int, fold_block(known@, b0)));
    }
    assert(blocks_view(blocks@) =~= bs.map_values(|b: BlockView| fold_block(known@, b)));
}

/// The registers that each block's sites name, and which blocks do nothing but trap.
struct TrapCensus {
    named: Vec<Vec<VReg>>,
    trap: Vec<bool>,
}

impl TrapCensus {
    spec fn of(self, bs: Seq<BlockView>) -> bool {
        &&& self.named@.len() == bs.len()
        &&& self.trap@.len() == bs.len()
        &&& forall|b: int|
            0 <= b < bs.len() ==> (#[trigger] self.named@[b])@ == sites_refs(bs[b].deopt_sites)
        &&& forall|b: int| 0 <= b < bs.len() ==> #[trigger] self.trap@[b] == trap_only(bs[b])
    }
}

fn take_trap_census(blocks: &Vec<IrBlock>) -> (r: TrapCensus)
    ensures
        r.of(blocks_view(blocks@)),
{
    let mut named: Vec<Vec<VReg>> = Vec::new();
    let mut trap: Vec<bool> = Vec::new();
    let ghost bs = blocks_view(blocks@);
    for b in 0..blocks.len()
        invariant
            bs == blocks_view(blocks@),
            named@.len() == b,
            trap@.len() == b,
            forall|j: int|
                0 <= j < b ==> (#[trigger] named@[j])@ == sites_refs(bs[j].deopt_sites),
            forall|j: int| 0 <= j < b ==> #[trigger] trap@[j] == trap_only(bs[j]),
    {
        assert(bs[b as int] == blocks@[b as int]@);
        named.push(blocks[b].site_refs());
        assert(blocks@[b as int].code@.len() > 0 ==> bs[b as int].code[0]
            == blocks@[b as int].code@[0]@);
        trap.push(
            blocks[b].code.len() == 1 && matches!(blocks[b].code[0], Ir::UncommonTrap { .. }),
        );
    }
    TrapCensus { named, trap }
}

/// Is the box that an operation of block `b` makes needed only where deoptimization happens?
fn is_sinkable(c: &Census, t: &TrapCensus, b: usize, op: &Ir, Ghost(bs): Ghost<Seq<BlockView>>, Ghost(
    n,
): Ghost<nat>) -> (r: bool)
    requires
        c.of(bs, n),
        t.of(bs),
        op@ matches Ir::FBox { dst, .. } ==> dst.0 < n,
    ensures
        r == sinkable(bs, b as int, op@),
{
    let dst: VReg = match op {
        Ir::FBox { dst, .. } => *dst,
        _ => return false,
    };
    assert(VReg(dst.0 as int as u32) == dst);
    if c.read[dst.0 as usize] || c.entry[dst.0 as usize] {
        return false;
    }
    let mut found = false;
    for k in 0..t.named.len()
        invariant
            t.of(bs),
            !all_reads(bs).contains(dst),
            !all_entries(bs).contains(dst),
            op@ matches Ir::FBox { dst: d, .. } && d == dst,
            found == (exists|j: int| 0 <= j < k && site_named(#[trigger] bs[j], dst)),
            forall|j: int|
                0 <= j < k && site_named(#[trigger] bs[j], dst) ==> trap_only(bs[j]) && j != b,
    {
        assert(t.named@[k as int]@ == sites_refs(bs[k as int].deopt_sites));
        if contains_reg(&t.named[k], dst) {
            assert(site_named(bs[k as int], dst));
            if !t.trap[k] || k == b {
                return false;
            }
            found = true;
        }
    }
    found
}

/// Puts operations in front of a block.
fn prepend(b: &mut IrBlock, ins: Vec<Ir>)
    requires
        prepended(old(b)@, code_view(ins@)) is Some,
    ensures
        prepended(old(b)@, code_view(ins@)) == Some(final(b)@),
{
    let k: usize = ins.len();
    if k == 0 {
        return ;
    }
    let ghost b0 = b@;
    let ghost front = code_view(ins@);
    let mut all = ins;
    let mut rest: Vec<Ir> = Vec::new();
    core::mem::swap(&mut rest, &mut b.code);
    all.append(&mut rest);
    b.code = all;
    assert(b@.code =~= front + b0.code);
    let m: usize = b.deopt_sites.len();
    let ghost f = |s: (u32, DeoptView)| ((s.0 + front.len()) as u32, s.1);
    for j in 0..m
        invariant
            k == front.len(),
            m == b0.deopt_sites.len(),
            b@.deopt_sites.len() == m,
            b@ == (BlockView { code: front + b0.code, deopt_sites: b@.deopt_sites, ..b0 }),
            f == (|s: (u32, DeoptView)| ((s.0 + front.len()) as u32, s.1)),
            forall|i: int|
                0 <= i < m ==> (#[trigger] b0.deopt_sites[i]).0 + front.len() <= u32::MAX,
            forall|i: int| 0 <= i < j ==> #[trigger] b@.deopt_sites[i] == f(b0.deopt_sites[i]),
            forall|i: int| j <= i < m ==> #[trigger] b@.deopt_sites[i] == b0.deopt_sites[i],
    {
        assert(b@.deopt_sites[j as int] == site_view(b.deopt_sites@[j as int]));
        let ghost s0 = b@.deopt_sites;
        let ci: u32 = b.deopt_sites[j].0;
        b.deopt_sites[j].0 = ci + k as u32;
        assert(b@.deopt_sites =~= s0.update(j as int, f(b0.deopt_sites[j as int])));
    }
    assert(b@.deopt_sites =~= b0.deopt_sites.map_values(f));
}

spec fn sinking(
    bs: Seq<BlockView>,
    ins: Seq<Vec<Ir>>,
    b: int,
    i: int,
) -> bool {
    ins.len() == bs.len() && forall|t: int|
        0 <= t < bs.len() ==> code_view((#[trigger] ins[t])@) == sunk_into(bs, t, b) + sunk_from(
            bs,
            t,
            b,
            i,
        )
}

/// Moves boxes that only deoptimization needs to where it happens.
pub(crate) fn sink_boxes(blocks: &mut Vec<IrBlock>, n: usize)
    requires
        n <= u32::MAX + 1,
        sunk(blocks_view(old(blocks)@), n as nat) is Some,
    ensures
        sunk(blocks_view(old(blocks)@), n as nat) == Some(blocks_view(final(blocks)@)),
{
    let ghost bs = blocks_view(blocks@);
    let nb: usize = blocks.len();
    let census = take_census(blocks, n);
    let traps = take_trap_census(blocks);
    let mut ins: Vec<Vec<Ir>> = Vec::new();
    let mut keeps: Vec<Vec<bool>> = Vec::new();
    for t in 0..nb
        invariant
            ins@.len() == t,
            forall|j: int| 0 <= j < t ==> (#[trigger] ins@[j])@.len() == 0,
    {
        ins.push(Vec::new());
    }
    assert(sinking(bs, ins@, 0, 0)) by {
        assert forall|t: int| 0 <= t < bs.len() implies code_view((#[trigger] ins@[t])@)
            == sunk_into(bs, t, 0) + sunk_from(bs, t, 0, 0) by {
            assert(code_view(ins@[t]@) =~= sunk_into(bs, t, 0) + sunk_from(bs, t, 0, 0));
        }
    }
    for b in 0..nb
        invariant
            nb == blocks@.len(),
            bs == blocks_view(blocks@),
            blocks_below(bs, n as nat),
            census.of(bs, n as nat),
            traps.of(bs),
            sinking(bs, ins@, b as int, 0),
            keeps@.len() == b,
            forall|j: int| 0 <= j < b ==> (#[trigger] keeps@[j])@ == unsunk(bs, j),
    {
        assert(bs[b as int] == blocks@[b as int]@);
        let len: usize = blocks[b].code.len();
        let mut keep: Vec<bool> = Vec::new();
        for i in 0..len
            invariant
                nb == blocks@.len(),
                b < nb,
                bs == blocks_view(blocks@),
                bs[b as int] == blocks@[b as int]@,
                len == bs[b as int].code.len(),
                blocks_below(bs, n as nat),
                census.of(bs, n as nat),
                traps.of(bs),
                sinking(bs, ins@, b as int, i as int),
                keep@.len() == i,
                forall|j: int| 0 <= j < i ==> #[trigger] keep@[j] == unsunk(bs, b as int)[j],
        {
            let ghost op = bs[b as int].code[i as int];
            assert(op == blocks@[b as int].code@[i as int]@);
            assert(block_below(bs[b as int], n as nat));
            assert(crate::passes::write_below(op, n as nat));
            let s = is_sinkable(
                &census,
                &traps,
                b,
                &blocks[b].code[i],
                Ghost(bs),
                Ghost(n as nat),
            );
            keep.push(!s);
            let ghost ins0 = ins@;
            if s {
                if let Ir::FBox { dst, src } = &blocks[b].code[i] {
                    for t in 0..nb
                        invariant
                            nb == bs.len(),
                            traps.of(bs),
                            ins@.len() == nb,
                            op == (Ir::<Seq<VReg>>::FBox { dst: *dst, src: *src }),
                            forall|j: int|
                                0 <= j < t ==> code_view((#[trigger] ins@[j])@) == (
                                if site_named(bs[j], *dst) {
                                    code_view(ins0[j]@).push(op)
                                } else {
                                    code_view(ins0[j]@)
                                }),
                            forall|j: int| t <= j < nb ==> #[trigger] ins@[j] == ins0[j],
                    {
                        assert(traps.named@[t as int]@ == sites_refs(bs[t as int].deopt_sites));
                        if contains_reg(&traps.named[t], *dst) {
                            let ghost v0 = ins@[t as int]@;
                            ins[t].push(Ir::FBox { dst: *dst, src: *src });
                            assert(code_view(ins@[t as int]@) =~= code_view(v0).push(op));
                        }
                    }
                }
            }
            assert(sinking(bs, ins@, b as int, i + 1)) by {
                assert forall|t: int| 0 <= t < bs.len() implies code_view((#[trigger] ins@[t])@)
                    == sunk_into(bs, t, b as int) + sunk_from(bs, t, b as int, i + 1) by {
                    assert(code_view(ins0[t]@) == sunk_into(bs, t, b as int) + sunk_from(
                        bs,
                        t,
                        b as int,
                        i as int,
                    ));
                    assert(code_view(ins@[t]@) =~= sunk_into(bs, t, b as int) + sunk_from(
                        bs,
                        t,
                        b as int,
                        i + 1,
                    ));
                }
            }
        }
        assert(keep@ =~= unsunk(bs, b as int));
        keeps.push(keep);
        assert(sinking(bs, ins@, b + 1, 0)) by {
            assert forall|t: int| 0 <= t < bs.len() implies code_view((#[trigger] ins@[t])@)
                == sunk_into(bs, t, b + 1) + sunk_from(bs, t, b + 1, 0) by {
                assert(code_view(ins@[t]@) =~= sunk_into(bs, t, b + 1) + sunk_from(
                    bs,
                    t,
                    b + 1,
                    0,
                ));
            }
        }
    }
    let mut b: usize = 0;
    for front in it: ins.into_iter()
        invariant
            nb == blocks@.len(),
            nb == bs.len(),
            nb == it.seq().len(),
            b == it.index(),
            sinking(bs, it.seq(), nb as int, 0),
            keeps@.len() == nb,
            forall|j: int| 0 <= j < nb ==> (#[trigger] keeps@[j])@ == unsunk(bs, j),
            sunk(bs, n as nat) is Some,
            forall|j: int|
                0 <= j < b ==> Some(#[trigger] blocks_view(blocks@)[j]) == sunk_block(bs, j),
            forall|j: int| b <= j < nb ==> #[trigger] blocks_view(blocks@)[j] == bs[j],
    {
        let ghost all0 = blocks_view(blocks@);
        assert(blocks_view(blocks@)[b as int] == blocks@[b as int]@);
        assert(code_view(front@) =~= sunk_into(bs, b as int, nb as int));
        assert(!(sunk_block(bs, b as int) is None));
        compact(&mut blocks[b], &keeps[b]);
        prepend(&mut blocks[b], front);
        assert(blocks_view(blocks@) =~= all0.update(b as int, blocks@[b as int]@));
        b = b + 1;
    }
    assert(blocks_view(blocks@) =~= Seq::new(bs.len(), |b: int| sunk_block(bs, b)->0));
}

/// Removes the boxes that nothing refers to.
pub(crate) fn remove_dead_boxes(blocks: &mut Vec<IrBlock>, n: usize)
    requires
        n <= u32::MAX + 1,
        without_dead_boxes(blocks_view(old(blocks)@), n as nat) is Some,
    ensures
        without_dead_boxes(blocks_view(old(blocks)@), n as nat) == Some(
            blocks_view(final(blocks)@),
        ),
{
    let ghost bs = blocks_view(blocks@);
    let ghost refs = all_refs(bs);
    let census = take_census(blocks, n);
    let ghost f = |b: BlockView| compacted(b, live_flags(refs, b));
    let nb: usize = blocks.len();
    for k in 0..nb
        invariant
            nb == blocks@.len(),
            nb == bs.len(),
            blocks_below(bs, n as nat),
            census.of(bs, n as nat),
            refs == all_refs(bs),
            f == (|b: BlockView| compacted(b, live_flags(refs, b))),
            map_blocks(bs, f, nb as int) is Some,
            map_blocks(bs, f, k as int) == Some(blocks_view(blocks@)),
    {
        let ghost done = blocks_view(blocks@);
        proof {
            lemma_map_blocks(bs, f, k as int, nb as int);
            lemma_map_blocks(bs, f, k + 1, nb as int);
            assert(done[k as int] == bs[k as int]);
            assert(done[k as int] == blocks@[k as int]@);
            assert(f(done[k as int]) is Some);
            assert(block_below(bs[k as int], n as nat));
        }
        let len: usize = blocks[k].code.len();
        let mut keep: Vec<bool> = Vec::new();
        for i in 0..len
            invariant
                k < nb,
                nb == blocks@.len(),
                blocks@[k as int]@ == bs[k as int],
                len == bs[k as int].code.len(),
                block_below(bs[k as int], n as nat),
                census.of(bs, n as nat),
                refs == all_refs(bs),
                keep@.len() == i,
                forall|j: int|
                    0 <= j < i ==> #[trigger] keep@[j] == live_flags(refs, bs[k as int])[j],
        {
            assert(bs[k as int].code[i as int] == blocks@[k as int].code@[i as int]@);
            assert(crate::passes::write_below(bs[k as int].code[i as int], n as nat));
            let live = match &blocks[k].code[i] {
                Ir::FBox { dst, .. } => {
                    let d: usize = dst.0 as usize;
                    proof {
                        lemma_refs_split(bs, *dst);
                        assert(VReg(d as int as u32) == *dst);
                    }
                    census.read[d] || census.named[d] || census.entry[d]
                },
                _ => true,
            };
            keep.push(live);
        }
        assert(keep@ =~= live_flags(refs, bs[k as int]));
        compact(&mut blocks[k], &keep);
        assert(blocks_view(blocks@) =~= done.update(k as int, blocks@[k as int]@));
    }
}

} // verus!

//! The order in which blocks are emitted: reverse postorder, the entry first.

use vstd::prelude::*;
use crate::ir::{blocks_view, BlockId, BlockView, Ir, IrBlock, IrView};

verus! {

/// Where an operation can transfer control to, fail edges included.
pub open spec fn op_targets(op: IrView) -> Seq<BlockId> {
    match op {
        Ir::Jump { target } => seq![target],
        Ir::BoolBr { if_true, if_false, not_bool, .. } => seq![if_true, if_false, not_bool],
        Ir::SmiCmpBr { if_true, if_false, fail, .. } => seq![if_true, if_false, fail],
        Ir::FCmpBr { if_true, if_false, .. } => seq![if_true, if_false],
        Ir::SmiArith { fail, .. } => seq![fail],
        Ir::SmiCmpVal { fail, .. } => seq![fail],
        Ir::BoolNot { fail, .. } => seq![fail],
        Ir::ArrayAt { fail, .. } => seq![fail],
        Ir::ArrayAtPut { fail, .. } => seq![fail],
        Ir::FUnbox { fail, .. } => seq![fail],
        Ir::VecArith { fail, .. } => seq![fail],
        Ir::GuardKlass { fail, .. } => seq![fail],
        _ => seq![],
    }
}

/// Where code can transfer control to, in code order.
pub open spec fn targets(code: Seq<IrView>) -> Seq<BlockId>
    decreases code.len(),
{
    if code.len() == 0 {
        seq![]
    } else {
        targets(code.drop_last()) + op_targets(code.last())
    }
}

/// Every block that this block can transfer control to, fail edges included.
pub fn successors(block: &IrBlock) -> (r: Vec<BlockId>)
    ensures
        r@ == targets(block@.code),
{
    let mut r: Vec<BlockId> = Vec::new();
    assert(block@.code.take(0) =~= seq![]);
    for i in 0..block.code.len()
        invariant
            r@ == targets(block@.code.take(i as int)),
    {
        let ghost r0 = r@;
        let ghost op = block@.code[i as int];
        assert(block@.code.take(i + 1).drop_last() =~= block@.code.take(i as int));
        assert(block@.code.take(i + 1).last() == op);
        assert(op == block.code@[i as int]@);
        match &block.code[i] {
            Ir::Jump { target } => r.push(*target),
            Ir::BoolBr { if_true, if_false, not_bool, .. } => {
                r.push(*if_true);
                r.push(*if_false);
                r.push(*not_bool);
            },
            Ir::SmiCmpBr { if_true, if_false, fail, .. } => {
                r.push(*if_true);
                r.push(*if_false);
                r.push(*fail);
            },
            Ir::FCmpBr { if_true, if_false, .. } => {
                r.push(*if_true);
                r.push(*if_false);
            },
            Ir::SmiArith { fail, .. }
            | Ir::SmiCmpVal { fail, .. }
            | Ir::BoolNot { fail, .. }
            | Ir::ArrayAt { fail, .. }
            | Ir::ArrayAtPut { fail, .. }
            | Ir::FUnbox { fail, .. }
            | Ir::VecArith { fail, .. }
            | Ir::GuardKlass { fail, .. } => r.push(*fail),
            _ => {},
        }
        assert(r@ =~= r0 + op_targets(op));
    }
    assert(block@.code.take(block@.code.len() as int) =~= block@.code);
    r
}

/// How many flags are not set.
pub open spec fn unset(f: Seq<bool>) -> nat
    decreases f.len(),
{
    if f.len() == 0 {
        0
    } else {
        unset(f.drop_last()) + (if f.last() {
            0nat
        } else {
            1
        })
    }
}

pub(crate) proof fn lemma_unset_update(f: Seq<bool>, i: int)
    requires
        0 <= i < f.len(),
        !f[i],
    ensures
        unset(f.update(i, true)) == unset(f) - 1,
    decreases f.len(),
{
    let g = f.update(i, true);
    if i == f.len() - 1 {
        assert(g.drop_last() =~= f.drop_last());
    } else {
        assert(g.drop_last() =~= f.drop_last().update(i, true));
        lemma_unset_update(f.drop_last(), i);
    }
}

/// A depth-first walk: which blocks were seen, and the blocks in the order in which they were left.
pub ghost struct Dfs {
    pub seen: Seq<bool>,
    pub post: Seq<BlockId>,
}

/// Walks from block `b`.
pub open spec fn visit(bs: Seq<BlockView>, b: int, d: Dfs) -> Dfs
    decreases unset(d.seen), 0nat, 0nat,
{
    if b < 0 || b >= d.seen.len() || d.seen[b] {
        d
    } else {
        let d1 = Dfs { seen: d.seen.update(b, true), ..d };
        let d2 = if unset(d1.seen) < unset(d.seen) {
            visit_all(bs, targets(bs[b].code), d1)
        } else {
            d1
        };
        Dfs { post: d2.post.push(BlockId(b as u32)), ..d2 }
    }
}

/// Walks from each of `ts` in turn.
pub open spec fn visit_all(bs: Seq<BlockView>, ts: Seq<BlockId>, d: Dfs) -> Dfs
    decreases unset(d.seen), 1nat, ts.len(),
{
    if ts.len() == 0 {
        d
    } else {
        let d1 = visit(bs, ts[0].0 as int, d);
        if unset(d1.seen) <= unset(d.seen) {
            visit_all(bs, ts.skip(1), d1)
        } else {
            d1
        }
    }
}

/// The blocks in the order of emission: for each root, in index order, the reverse of the order in
/// which the walk from it left the blocks. `order_upto` takes the first `k` roots.
pub open spec fn order_upto(bs: Seq<BlockView>, k: int) -> (Seq<BlockId>, Seq<bool>)
    decreases k,
{
    if k <= 0 {
        (seq![], Seq::new(bs.len(), |i: int| false))
    } else {
        let (order, seen) = order_upto(bs, k - 1);
        let d = visit(bs, k - 1, Dfs { seen, post: seq![] });
        (order + d.post.reverse(), d.seen)
    }
}

pub open spec fn emission_order(bs: Seq<BlockView>) -> Seq<BlockId> {
    order_upto(bs, bs.len() as int).0
}

/// Every jump leads to a block.
pub open spec fn targets_ok(bs: Seq<BlockView>) -> bool {
    forall|b: int, k: int|
        0 <= b < bs.len() && 0 <= k < targets(bs[b].code).len() ==> (#[trigger] targets(
            bs[b].code,
        )[k]).0 < bs.len()
}

/// What a walk keeps: blocks stay seen, and the blocks that become seen are exactly those that are
/// left, each once.
pub open spec fn dfs_extends(d: Dfs, e: Dfs) -> bool {
    &&& e.seen.len() == d.seen.len()
    &&& unset(e.seen) <= unset(d.seen)
    &&& d.post.len() <= e.post.len()
    &&& forall|i: int| 0 <= i < d.post.len() ==> #[trigger] e.post[i] == d.post[i]
    &&& forall|i: int| 0 <= i < d.seen.len() && #[trigger] d.seen[i] ==> e.seen[i]
    &&& forall|j: int|
        d.post.len() <= j < e.post.len() ==> (#[trigger] e.post[j]).0 < e.seen.len()
            && e.seen[e.post[j].0 as int] && !d.seen[e.post[j].0 as int]
    &&& forall|i: int|
        0 <= i < d.seen.len() && e.seen[i] && !#[trigger] d.seen[i] ==> exists|j: int|
            d.post.len() <= j < e.post.len() && (#[trigger] e.post[j]).0 == i
    &&& forall|j: int, k: int|
        d.post.len() <= j < k < e.post.len() ==> #[trigger] e.post[j] != #[trigger] e.post[k]
}

proof fn lemma_dfs_trans(a: Dfs, b: Dfs, c: Dfs)
    requires
        dfs_extends(a, b),
        dfs_extends(b, c),
    ensures
        dfs_extends(a, c),
{
    assert forall|i: int| 0 <= i < a.post.len() implies #[trigger] c.post[i] == a.post[i] by {
        assert(b.post[i] == a.post[i]);
    }
    assert forall|i: int| 0 <= i < a.seen.len() && #[trigger] a.seen[i] implies c.seen[i] by {
        assert(b.seen[i]);
    }
    assert forall|j: int| a.post.len() <= j < c.post.len() implies (#[trigger] c.post[j]).0
        < c.seen.len() && c.seen[c.post[j].0 as int] && !a.seen[c.post[j].0 as int] by {
        if j < b.post.len() {
            assert(c.post[j] == b.post[j]);
            assert(b.seen[b.post[j].0 as int]);
        } else {
            assert(!b.seen[c.post[j].0 as int]);
        }
    }
    assert forall|i: int| 0 <= i < a.seen.len() && c.seen[i] && !#[trigger] a.seen[i] implies exists|
        j: int,
    | a.post.len() <= j < c.post.len() && (#[trigger] c.post[j]).0 == i by {
        if b.seen[i] {
            let j = choose|j: int| a.post.len() <= j < b.post.len() && (#[trigger] b.post[j]).0 == i;
            assert(c.post[j].0 == i);
        } else {
            let j = choose|j: int| b.post.len() <= j < c.post.len() && (#[trigger] c.post[j]).0 == i;
            assert(c.post[j].0 == i);
        }
    }
    assert forall|j: int, k: int| a.post.len() <= j < k < c.post.len() implies #[trigger] c.post[j]
        != #[trigger] c.post[k] by {
        if k < b.post.len() {
            assert(c.post[j] == b.post[j]);
            assert(c.post[k] == b.post[k]);
        } else if j >= b.post.len() {
        } else {
            assert(c.post[j] == b.post[j]);
            assert(b.seen[b.post[j].0 as int]);
            assert(!b.seen[c.post[k].0 as int]);
        }
    }
}

pub(crate) proof fn lemma_visit(bs: Seq<BlockView>, b: int, d: Dfs)
    requires
        d.seen.len() == bs.len(),
        bs.len() <= u32::MAX,
        0 <= b < bs.len(),
    ensures
        dfs_extends(d, visit(bs, b, d)),
        visit(bs, b, d).seen[b],
        !d.seen[b] ==> visit(bs, b, d).post.len() > d.post.len() && visit(bs, b, d).post.last()
            == BlockId(b as u32),
    decreases unset(d.seen), 0nat, 0nat,
{
    if !d.seen[b] {
        let d1 = Dfs { seen: d.seen.update(b, true), ..d };
        lemma_unset_update(d.seen, b);
        lemma_visit_all(bs, targets(bs[b].code), d1);
        let d2 = visit_all(bs, targets(bs[b].code), d1);
        let e = visit(bs, b, d);
        assert(e == Dfs { post: d2.post.push(BlockId(b as u32)), ..d2 });
        assert(d1.seen[b]);
        assert forall|i: int| 0 <= i < d.seen.len() && #[trigger] d.seen[i] implies e.seen[i] by {
            assert(d1.seen[i]);
        }
        assert forall|j: int| d.post.len() <= j < e.post.len() implies (#[trigger] e.post[j]).0
            < e.seen.len() && e.seen[e.post[j].0 as int] && !d.seen[e.post[j].0 as int] by {
            if j < d2.post.len() {
                assert(e.post[j] == d2.post[j]);
                assert(!d1.seen[d2.post[j].0 as int]);
            }
        }
        assert forall|i: int| 0 <= i < d.seen.len() && e.seen[i] && !#[trigger] d.seen[i] implies exists|
            j: int,
        | d.post.len() <= j < e.post.len() && (#[trigger] e.post[j]).0 == i by {
            if i == b {
                assert(e.post[d2.post.len() as int].0 == i);
            } else {
                assert(!d1.seen[i]);
                let j = choose|j: int|
                    d1.post.len() <= j < d2.post.len() && (#[trigger] d2.post[j]).0 == i;
                assert(e.post[j].0 == i);
            }
        }
        assert forall|j: int, k: int| d.post.len() <= j < k < e.post.len() implies #[trigger] e.post[j]
            != #[trigger] e.post[k] by {
            assert(e.post[j] == d2.post[j]);
            assert(!d1.seen[d2.post[j].0 as int]);
            if k < d2.post.len() {
                assert(e.post[k] == d2.post[k]);
            }
        }
    }
}

pub(crate) proof fn lemma_visit_all(bs: Seq<BlockView>, ts: Seq<BlockId>, d: Dfs)
    requires
        d.seen.len() == bs.len(),
        bs.len() <= u32::MAX,
    ensures
        dfs_extends(d, visit_all(bs, ts, d)),
    decreases unset(d.seen), 1nat, ts.len(),
{
    if ts.len() > 0 {
        let b = ts[0].0 as int;
        if b < bs.len() {
            lemma_visit(bs, b, d);
        } else {
            assert(visit(bs, b, d) == d);
        }
        let d1 = visit(bs, b, d);
        lemma_visit_all(bs, ts.skip(1), d1);
        lemma_dfs_trans(d, d1, visit_all(bs, ts.skip(1), d1));
    }
}

/// What the order holds after the first `k` roots: each block that was seen, once.
spec fn order_ok(bs: Seq<BlockView>, k: int, order: Seq<BlockId>, seen: Seq<bool>) -> bool {
    &&& seen.len() == bs.len()
    &&& forall|i: int| 0 <= i < k ==> #[trigger] seen[i]
    &&& forall|j: int|
        0 <= j < order.len() ==> (#[trigger] order[j]).0 < bs.len() && seen[order[j].0 as int]
    &&& forall|i: int|
        0 <= i < bs.len() && #[trigger] seen[i] ==> exists|j: int|
            0 <= j < order.len() && (#[trigger] order[j]).0 == i
    &&& forall|j: int, l: int|
        0 <= j < l < order.len() ==> #[trigger] order[j] != #[trigger] order[l]
    &&& k > 0 ==> order.len() > 0 && order[0] == BlockId(0)
}

proof fn lemma_order_upto(bs: Seq<BlockView>, k: int)
    requires
        0 <= k <= bs.len(),
        bs.len() <= u32::MAX,
    ensures
        order_ok(bs, k, order_upto(bs, k).0, order_upto(bs, k).1),
    decreases k,
{
    if k > 0 {
        lemma_order_upto(bs, k - 1);
        let (o, seen) = order_upto(bs, k - 1);
        let d = Dfs { seen, post: seq![] };
        lemma_visit(bs, k - 1, d);
        let e = visit(bs, k - 1, d);
        let r = e.post.reverse();
        let o1 = o + r;
        let n = o.len();
        assert forall|j: int| n <= j < o1.len() implies #[trigger] o1[j] == e.post[e.post.len() - 1
            - (j - n)] by {}
        assert forall|i: int| 0 <= i < k implies #[trigger] e.seen[i] by {
            if i < k - 1 {
                assert(seen[i]);
            }
        }
        assert forall|j: int| 0 <= j < o1.len() implies (#[trigger] o1[j]).0 < bs.len()
            && e.seen[o1[j].0 as int] by {
            if j < n {
                assert(o1[j] == o[j]);
                assert(seen[o[j].0 as int]);
            } else {
                assert(o1[j] == e.post[e.post.len() - 1 - (j - n)]);
            }
        }
        assert forall|i: int| 0 <= i < bs.len() && #[trigger] e.seen[i] implies exists|j: int|
            0 <= j < o1.len() && (#[trigger] o1[j]).0 == i by {
            if seen[i] {
                let j = choose|j: int| 0 <= j < o.len() && (#[trigger] o[j]).0 == i;
                assert(o1[j].0 == i);
            } else {
                let j = choose|j: int| 0 <= j < e.post.len() && (#[trigger] e.post[j]).0 == i;
                assert(o1[n + e.post.len() - 1 - j].0 == i);
            }
        }
        assert forall|j: int, l: int| 0 <= j < l < o1.len() implies #[trigger] o1[j]
            != #[trigger] o1[l] by {
            if l < n {
                assert(o1[j] == o[j] && o1[l] == o[l]);
            } else if j >= n {
                assert(e.post[e.post.len() - 1 - (l - n)] != e.post[e.post.len() - 1 - (j - n)]);
            } else {
                assert(o1[j] == o[j]);
                assert(seen[o[j].0 as int]);
                assert(!seen[e.post[e.post.len() - 1 - (l - n)].0 as int]);
            }
        }
        if k == 1 {
            assert(!seen[0]);
            assert(o.len() == 0) by {
                if o.len() > 0 {
                    assert(seen[o[0].0 as int]);
                }
            }
            assert(o1[0] == e.post.last());
        } else {
            assert(o1[0] == o[0]);
        }
    }
}

/// The order of emission holds every block exactly once, and starts with the entry.
pub proof fn law_order_is_permutation(bs: Seq<BlockView>)
    requires
        bs.len() <= u32::MAX,
    ensures
        emission_order(bs).len() == bs.len(),
        emission_order(bs).no_duplicates(),
        forall|j: int|
            0 <= j < emission_order(bs).len() ==> (#[trigger] emission_order(bs)[j]).0 < bs.len(),
        forall|b: int|
            0 <= b < bs.len() ==> #[trigger] emission_order(bs).contains(BlockId(b as u32)),
        bs.len() > 0 ==> emission_order(bs)[0] == BlockId(0),
{
    let n = bs.len() as int;
    lemma_order_upto(bs, n);
    let (o, seen) = order_upto(bs, n);
    assert forall|b: int| 0 <= b < n implies #[trigger] o.contains(BlockId(b as u32)) by {
        assert(seen[b]);
        let j = choose|j: int| 0 <= j < o.len() && (#[trigger] o[j]).0 == b;
        assert(o[j] == BlockId(b as u32));
    }
    let f = |x: BlockId| x.0 as int;
    let all = o.map_values(f);
    assert(all.no_duplicates()) by {
        assert forall|i: int, j: int| 0 <= i < all.len() && 0 <= j < all.len() && i != j implies all[i]
            != all[j] by {
            if i < j {
                assert(o[i] != o[j]);
            } else {
                assert(o[j] != o[i]);
            }
        }
    }
    let want = vstd::set_lib::set_int_range(0, n);
    vstd::set_lib::lemma_int_range(0, n);
    assert(all.to_set() =~= want) by {
        assert forall|x: int| all.to_set().contains(x) == want.contains(x) by {
            if want.contains(x) {
                assert(o.contains(BlockId(x as u32)));
                let j = choose|j: int| 0 <= j < o.len() && o[j] == BlockId(x as u32);
                assert(all[j] == x);
            }
            if all.to_set().contains(x) {
                let j = choose|j: int| 0 <= j < all.len() && all[j] == x;
                assert(o[j].0 < bs.len());
            }
        }
    }
    all.unique_seq_to_set();
}

proof fn lemma_visit_len(bs: Seq<BlockView>, b: int, d: Dfs)
    requires
        d.seen.len() == bs.len(),
        bs.len() <= u32::MAX,
    ensures
        visit(bs, b, d).seen.len() == bs.len(),
        unset(visit(bs, b, d).seen) <= unset(d.seen),
{
    if 0 <= b < bs.len() {
        lemma_visit(bs, b, d);
    }
}

/// Walks from block `b`.
fn dfs(blocks: &Vec<IrBlock>, b: usize, seen: &mut Vec<bool>, post: &mut Vec<BlockId>)
    requires
        targets_ok(blocks_view(blocks@)),
        blocks@.len() <= u32::MAX,
        b < blocks@.len(),
        old(seen)@.len() == blocks@.len(),
    ensures
        visit(blocks_view(blocks@), b as int, Dfs { seen: old(seen)@, post: old(post)@ }) == (Dfs {
            seen: final(seen)@,
            post: final(post)@,
        }),
        final(seen)@.len() == blocks@.len(),
    decreases unset(old(seen)@),
{
    if seen[b] {
        return ;
    }
    let ghost bs = blocks_view(blocks@);
    let ghost d = Dfs { seen: seen@, post: post@ };
    proof {
        lemma_unset_update(seen@, b as int);
        assert(bs[b as int] == blocks@[b as int]@);
    }
    seen[b] = true;
    let succs = successors(&blocks[b]);
    let ghost d1 = Dfs { seen: seen@, post: post@ };
    let ghost want = visit_all(bs, succs@, d1);
    assert(succs@.skip(0) =~= succs@);
    for k in 0..succs.len()
        invariant
            bs == blocks_view(blocks@),
            b < blocks@.len(),
            succs@ == targets(bs[b as int].code),
            targets_ok(bs),
            blocks@.len() <= u32::MAX,
            seen@.len() == blocks@.len(),
            d.seen == old(seen)@,
            unset(seen@) < unset(d.seen),
            want == visit_all(bs, succs@.skip(k as int), Dfs { seen: seen@, post: post@ }),
    {
        let ghost e = Dfs { seen: seen@, post: post@ };
        proof {
            assert(targets(bs[b as int].code)[k as int] == succs@[k as int]);
            assert(succs@.skip(k as int)[0] == succs@[k as int]);
            assert(succs@.skip(k as int).skip(1) =~= succs@.skip(k + 1));
            lemma_visit_len(bs, succs@[k as int].0 as int, e);
        }
        dfs(blocks, succs[k].0 as usize, seen, post);
    }
    post.push(BlockId(b as u32));
}

/// The blocks in the order of emission.
pub fn reverse_postorder(blocks: &Vec<IrBlock>) -> (r: Vec<BlockId>)
    requires
        targets_ok(blocks_view(blocks@)),
        blocks@.len() <= u32::MAX,
    ensures
        r@ == emission_order(blocks_view(blocks@)),
{
    let n: usize = blocks.len();
    let ghost bs = blocks_view(blocks@);
    let mut seen: Vec<bool> = Vec::new();
    for i in 0..n
        invariant
            seen@.len() == i,
            forall|j: int| 0 <= j < i ==> !#[trigger] seen@[j],
    {
        seen.push(false);
    }
    assert(seen@ =~= Seq::new(bs.len(), |i: int| false));
    let mut order: Vec<BlockId> = Vec::new();
    for b in 0..n
        invariant
            n == blocks@.len(),
            n == bs.len(),
            bs == blocks_view(blocks@),
            targets_ok(bs),
            n <= u32::MAX,
            seen@.len() == n,
            order_upto(bs, b as int) == (order@, seen@),
    {
        let mut post: Vec<BlockId> = Vec::new();
        assert(post@ =~= seq![]);
        dfs(blocks, b, &mut seen, &mut post);
        let ghost o0 = order@;
        let ghost r = post@.reverse();
        let m: usize = post.len();
        assert(order@ =~= o0 + r.take(0));
        for k in 0..m
            invariant
                m == post@.len(),
                r == post@.reverse(),
                order@ == o0 + r.take(k as int),
        {
            order.push(post[m - 1 - k]);
            assert(order@ =~= o0 + r.take(k + 1));
        }
        assert(r.take(m as int) =~= r);
    }
    order
}

} // verus!

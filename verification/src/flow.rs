//! What the order of emission keeps of the control flow.

use vstd::prelude::*;
use crate::ir::{BlockId, BlockView};
use crate::order::{
    dfs_extends, emission_order, law_order_is_permutation, lemma_unset_update, lemma_visit,
    lemma_visit_all, order_upto, targets, unset, visit, visit_all, Dfs,
};

verus! {

/// Block `u` can transfer control to block `v`.
pub open spec fn leads(bs: Seq<BlockView>, u: int, v: int) -> bool {
    &&& 0 <= u < bs.len()
    &&& 0 <= v < bs.len()
    &&& targets(bs[u].code).contains(BlockId(v as u32))
}

/// A walk along jumps, from `a` to `b`.
pub open spec fn is_walk(bs: Seq<BlockView>, p: Seq<int>, a: int, b: int) -> bool {
    &&& p.len() > 0
    &&& p[0] == a
    &&& p.last() == b
    &&& forall|i: int| 0 <= i < p.len() - 1 ==> leads(bs, #[trigger] p[i], p[i + 1])
}

/// Some walk goes from `a` to `b`.
pub open spec fn walks_to(bs: Seq<BlockView>, a: int, b: int) -> bool {
    exists|p: Seq<int>| is_walk(bs, p, a, b)
}

/// A walk from the entry arrives at `b`.
pub open spec fn reachable(bs: Seq<BlockView>, b: int) -> bool {
    walks_to(bs, 0, b)
}

/// No walk from a reachable block leads back to it.
pub open spec fn acyclic(bs: Seq<BlockView>) -> bool {
    forall|p: Seq<int>, b: int| #[trigger]
        is_walk(bs, p, b, b) && reachable(bs, b) ==> p.len() == 1
}

proof fn lemma_push(bs: Seq<BlockView>, p: Seq<int>, a: int, b: int, t: int)
    requires
        is_walk(bs, p, a, b),
        leads(bs, b, t),
    ensures
        is_walk(bs, p.push(t), a, t),
{
    let q = p.push(t);
    assert forall|i: int| 0 <= i < q.len() - 1 implies leads(bs, #[trigger] q[i], q[i + 1]) by {
        if i < p.len() - 1 {
            assert(leads(bs, p[i], p[i + 1]));
        }
    }
}

proof fn lemma_reach_on(bs: Seq<BlockView>, b: int, t: int)
    requires
        reachable(bs, b),
        leads(bs, b, t),
    ensures
        reachable(bs, t),
{
    let p = choose|p: Seq<int>| is_walk(bs, p, 0, b);
    lemma_push(bs, p, 0, b, t);
}

/// The blocks left between `d` and `e` are reachable, and what they lead to was seen.
spec fn followed(bs: Seq<BlockView>, d: Dfs, e: Dfs) -> bool {
    &&& forall|j: int|
        d.post.len() <= j < e.post.len() ==> reachable(bs, (#[trigger] e.post[j]).0 as int)
    &&& forall|j: int, v: int|
        d.post.len() <= j < e.post.len() && #[trigger] leads(
            bs,
            (#[trigger] e.post[j]).0 as int,
            v,
        ) ==> e.seen[v]
}

proof fn lemma_followed_trans(bs: Seq<BlockView>, d: Dfs, m: Dfs, e: Dfs)
    requires
        d.seen.len() == bs.len(),
        dfs_extends(d, m),
        dfs_extends(m, e),
        followed(bs, d, m),
        followed(bs, m, e),
    ensures
        followed(bs, d, e),
{
    assert forall|j: int| d.post.len() <= j < e.post.len() implies reachable(
        bs,
        (#[trigger] e.post[j]).0 as int,
    ) by {
        if j < m.post.len() {
            assert(e.post[j] == m.post[j]);
        }
    }
    assert forall|j: int, v: int|
        d.post.len() <= j < e.post.len() && #[trigger] leads(
            bs,
            (#[trigger] e.post[j]).0 as int,
            v,
        ) implies e.seen[v] by {
        if j < m.post.len() {
            assert(e.post[j] == m.post[j]);
            assert(leads(bs, m.post[j].0 as int, v));
            assert(m.seen[v]);
        }
    }
}

proof fn lemma_visit_followed(bs: Seq<BlockView>, b: int, d: Dfs)
    requires
        d.seen.len() == bs.len(),
        bs.len() <= u32::MAX,
        0 <= b < bs.len(),
        reachable(bs, b),
    ensures
        followed(bs, d, visit(bs, b, d)),
    decreases unset(d.seen), 0nat, 0nat,
{
    if !d.seen[b] {
        let d1 = Dfs { seen: d.seen.update(b, true), ..d };
        lemma_unset_update(d.seen, b);
        let ts = targets(bs[b].code);
        assert forall|k: int| 0 <= k < ts.len() && (#[trigger] ts[k]).0 < bs.len() implies leads(
            bs,
            b,
            ts[k].0 as int,
        ) by {
            assert(ts.contains(ts[k]));
        }
        lemma_all_followed(bs, b, ts, d1);
        let d2 = visit_all(bs, ts, d1);
        let e = visit(bs, b, d);
        assert(e == Dfs { post: d2.post.push(BlockId(b as u32)), ..d2 });
        assert forall|j: int| d.post.len() <= j < e.post.len() implies reachable(
            bs,
            (#[trigger] e.post[j]).0 as int,
        ) by {
            if j < d2.post.len() {
                assert(e.post[j] == d2.post[j]);
            }
        }
        assert forall|j: int, v: int|
            d.post.len() <= j < e.post.len() && #[trigger] leads(
                bs,
                (#[trigger] e.post[j]).0 as int,
                v,
            ) implies e.seen[v] by {
            if j < d2.post.len() {
                assert(e.post[j] == d2.post[j]);
                assert(leads(bs, d2.post[j].0 as int, v));
            } else {
                let k = choose|k: int| 0 <= k < ts.len() && ts[k] == BlockId(v as u32);
                assert(ts[k].0 == v);
            }
        }
    }
}

proof fn lemma_all_followed(bs: Seq<BlockView>, b: int, ts: Seq<BlockId>, d: Dfs)
    requires
        d.seen.len() == bs.len(),
        bs.len() <= u32::MAX,
        reachable(bs, b),
        forall|k: int|
            0 <= k < ts.len() && (#[trigger] ts[k]).0 < bs.len() ==> leads(bs, b, ts[k].0 as int),
    ensures
        followed(bs, d, visit_all(bs, ts, d)),
        dfs_extends(d, visit_all(bs, ts, d)),
        forall|k: int|
            0 <= k < ts.len() && (#[trigger] ts[k]).0 < bs.len() ==> visit_all(
                bs,
                ts,
                d,
            ).seen[ts[k].0 as int],
    decreases unset(d.seen), 1nat, ts.len(),
{
    lemma_visit_all(bs, ts, d);
    if ts.len() > 0 {
        let t = ts[0].0 as int;
        let d1 = visit(bs, t, d);
        let rest = ts.skip(1);
        if t < bs.len() {
            assert(leads(bs, b, ts[0].0 as int));
            lemma_reach_on(bs, b, t);
            lemma_visit(bs, t, d);
            lemma_visit_followed(bs, t, d);
        } else {
            assert(d1 == d);
        }
        assert forall|k: int| 0 <= k < rest.len() && (#[trigger] rest[k]).0 < bs.len() implies leads(
            bs,
            b,
            rest[k].0 as int,
        ) by {
            assert(rest[k] == ts[k + 1]);
        }
        lemma_all_followed(bs, b, rest, d1);
        let e = visit_all(bs, rest, d1);
        lemma_followed_trans(bs, d, d1, e);
        assert forall|k: int| 0 <= k < ts.len() && (#[trigger] ts[k]).0 < bs.len() implies e.seen[ts[k].0 as int] by {
            if k == 0 {
                assert(d1.seen[t]);
            } else {
                assert(rest[k - 1] == ts[k]);
            }
        }
    }
}

/// The walk from the entry: it sees exactly the reachable blocks, and they make up the front of the
/// order.
proof fn lemma_front(bs: Seq<BlockView>) -> (e: Dfs)
    requires
        0 < bs.len() <= u32::MAX,
    ensures
        e == visit(bs, 0, Dfs { seen: Seq::new(bs.len(), |i: int| false), post: seq![] }),
        dfs_extends(Dfs { seen: Seq::new(bs.len(), |i: int| false), post: seq![] }, e),
        forall|b: int| 0 <= b < bs.len() ==> (#[trigger] e.seen[b] <==> reachable(bs, b)),
        e.post.reverse().is_prefix_of(emission_order(bs)),
{
    let d = Dfs { seen: Seq::new(bs.len(), |i: int| false), post: seq![] };
    let e = visit(bs, 0, d);
    let zero = seq![0int];
    assert(is_walk(bs, zero, 0, 0));
    lemma_visit(bs, 0, d);
    lemma_visit_followed(bs, 0, d);
    assert forall|b: int| 0 <= b < bs.len() implies (#[trigger] e.seen[b] <==> reachable(bs, b)) by {
        if e.seen[b] {
            assert(!d.seen[b]);
            let j = choose|j: int| 0 <= j < e.post.len() && (#[trigger] e.post[j]).0 == b;
            assert(reachable(bs, e.post[j].0 as int));
        }
        if reachable(bs, b) {
            let p = choose|p: Seq<int>| is_walk(bs, p, 0, b);
            lemma_walk_seen(bs, d, e, p, 0, b);
        }
    }
    lemma_prefix(bs, bs.len() as int);
    assert(order_upto(bs, 0).0 =~= seq![]);
    assert(order_upto(bs, 1).0 =~= e.post.reverse()) by {
        assert(order_upto(bs, 0) == (Seq::<BlockId>::empty(), d.seen));
    }
    e
}

/// A walk from a block that was seen stays among the blocks that were seen.
proof fn lemma_walk_seen(bs: Seq<BlockView>, d: Dfs, e: Dfs, p: Seq<int>, a: int, b: int)
    requires
        d.seen.len() == bs.len(),
        bs.len() <= u32::MAX,
        d.post.len() == 0,
        forall|i: int| 0 <= i < bs.len() ==> !#[trigger] d.seen[i],
        dfs_extends(d, e),
        followed(bs, d, e),
        is_walk(bs, p, a, b),
        0 <= a < bs.len(),
        e.seen[a],
    ensures
        0 <= b < bs.len(),
        e.seen[b],
    decreases p.len(),
{
    if p.len() > 1 {
        let q = p.drop_last();
        let u = q.last();
        assert(is_walk(bs, q, a, u)) by {
            assert forall|i: int| 0 <= i < q.len() - 1 implies leads(
                bs,
                #[trigger] q[i],
                q[i + 1],
            ) by {
                assert(leads(bs, p[i], p[i + 1]));
            }
        }
        lemma_walk_seen(bs, d, e, q, a, u);
        assert(leads(bs, p[p.len() - 2], p[p.len() - 2 + 1]));
        assert(!d.seen[u]);
        let j = choose|j: int| 0 <= j < e.post.len() && (#[trigger] e.post[j]).0 == u;
        assert(leads(bs, e.post[j].0 as int, b));
    }
}

/// The order grows root by root.
proof fn lemma_prefix(bs: Seq<BlockView>, k: int)
    requires
        1 <= k,
    ensures
        order_upto(bs, 1).0.is_prefix_of(order_upto(bs, k).0),
    decreases k,
{
    if k > 1 {
        lemma_prefix(bs, k - 1);
        let a = order_upto(bs, 1).0;
        let b = order_upto(bs, k - 1).0;
        let c = order_upto(bs, k).0;
        assert(b.is_prefix_of(c)) by {
            let (o, seen) = order_upto(bs, k - 1);
            let x = visit(bs, k - 1, Dfs { seen, post: seq![] });
            assert(c == b + x.post.reverse());
            assert(c.take(b.len() as int) =~= b);
        }
        assert(c.take(a.len() as int) =~= b.take(a.len() as int));
    }
}

/// Both have the same code, block by block.
pub open spec fn same_code(a: Seq<BlockView>, b: Seq<BlockView>) -> bool {
    a.len() == b.len() && forall|i: int| 0 <= i < a.len() ==> (#[trigger] a[i]).code == b[i].code
}

proof fn lemma_same_visit(a: Seq<BlockView>, b: Seq<BlockView>, k: int, d: Dfs)
    requires
        same_code(a, b),
        d.seen.len() == a.len(),
    ensures
        visit(a, k, d) == visit(b, k, d),
        visit(a, k, d).seen.len() == a.len(),
    decreases unset(d.seen), 0nat, 0nat,
{
    if 0 <= k < d.seen.len() && !d.seen[k] {
        let d1 = Dfs { seen: d.seen.update(k, true), ..d };
        assert(a[k].code == b[k].code);
        if unset(d1.seen) < unset(d.seen) {
            lemma_same_visit_all(a, b, targets(a[k].code), d1);
        }
    }
}

proof fn lemma_same_visit_all(a: Seq<BlockView>, b: Seq<BlockView>, ts: Seq<BlockId>, d: Dfs)
    requires
        same_code(a, b),
        d.seen.len() == a.len(),
    ensures
        visit_all(a, ts, d) == visit_all(b, ts, d),
        visit_all(a, ts, d).seen.len() == a.len(),
    decreases unset(d.seen), 1nat, ts.len(),
{
    if ts.len() > 0 {
        lemma_same_visit(a, b, ts[0].0 as int, d);
        let d1 = visit(a, ts[0].0 as int, d);
        if unset(d1.seen) <= unset(d.seen) {
            lemma_same_visit_all(a, b, ts.skip(1), d1);
        }
    }
}

/// The order of emission depends on the code alone.
pub(crate) proof fn lemma_same_order(a: Seq<BlockView>, b: Seq<BlockView>, k: int)
    requires
        same_code(a, b),
    ensures
        order_upto(a, k) == order_upto(b, k),
        order_upto(a, k).1.len() == a.len(),
    decreases k,
{
    if k > 0 {
        lemma_same_order(a, b, k - 1);
        lemma_same_visit(a, b, k - 1, Dfs { seen: order_upto(a, k - 1).1, post: seq![] });
    } else {
        assert(order_upto(a, k).1 =~= order_upto(b, k).1);
    }
}

/// Blocks that control can reach come before all others.
pub proof fn law_reachable_blocks_come_first(bs: Seq<BlockView>, i: int, j: int)
    requires
        bs.len() <= u32::MAX,
        0 <= i < emission_order(bs).len(),
        0 <= j < emission_order(bs).len(),
        reachable(bs, emission_order(bs)[i].0 as int),
        !reachable(bs, emission_order(bs)[j].0 as int),
    ensures
        i < j,
{
    let o = emission_order(bs);
    law_order_is_permutation(bs);
    let e = lemma_front(bs);
    let r = e.post.reverse();
    assert(o.take(r.len() as int) == r);
    let u = o[i].0 as int;
    assert(e.seen[u]);
    assert(!Seq::new(bs.len(), |i: int| false)[u]);
    let h = choose|h: int| 0 <= h < e.post.len() && (#[trigger] e.post[h]).0 == u;
    let k = e.post.len() - 1 - h;
    assert(r[k] == e.post[h]);
    assert(o[k] == r[k]) by {
        assert(o.take(r.len() as int)[k] == o[k]);
    }
    assert(o[k] == o[i]);
    assert(k == i);
    if j < r.len() {
        assert(o.take(r.len() as int)[j] == o[j]);
        assert(r[j] == e.post[e.post.len() - 1 - j]);
        assert(e.seen[e.post[e.post.len() - 1 - j].0 as int]);
    }
}

/// From every block that was entered and not left yet, a walk leads to `b`.
spec fn open_lead_to(bs: Seq<BlockView>, d: Dfs, b: int) -> bool {
    forall|g: int|
        0 <= g < bs.len() && #[trigger] d.seen[g] && !d.post.contains(BlockId(g as u32))
            ==> walks_to(bs, g, b)
}

/// What the blocks left between `d` and `e` lead to was left before them, or leads back to them.
spec fn settled(bs: Seq<BlockView>, d: Dfs, e: Dfs) -> bool {
    forall|j: int, v: int|
        d.post.len() <= j < e.post.len() && #[trigger] leads(
            bs,
            (#[trigger] e.post[j]).0 as int,
            v,
        ) ==> e.post.take(j).contains(BlockId(v as u32)) || walks_to(bs, v, e.post[j].0 as int)
}

/// A walk leaves the blocks that it enters, so those still open were open before.
proof fn lemma_open_kept(bs: Seq<BlockView>, d: Dfs, e: Dfs, b: int)
    requires
        d.seen.len() == bs.len(),
        bs.len() <= u32::MAX,
        dfs_extends(d, e),
        open_lead_to(bs, d, b),
    ensures
        open_lead_to(bs, e, b),
{
    assert forall|g: int|
        0 <= g < bs.len() && #[trigger] e.seen[g] && !e.post.contains(
            BlockId(g as u32),
        ) implies walks_to(bs, g, b) by {
        if !d.seen[g] {
            let j = choose|j: int|
                d.post.len() <= j < e.post.len() && (#[trigger] e.post[j]).0 == g;
            assert(e.post[j] == BlockId(g as u32));
        } else if d.post.contains(BlockId(g as u32)) {
            let j = choose|j: int| 0 <= j < d.post.len() && d.post[j] == BlockId(g as u32);
            assert(e.post[j] == BlockId(g as u32));
        }
    }
}

proof fn lemma_settled_trans(bs: Seq<BlockView>, d: Dfs, m: Dfs, e: Dfs)
    requires
        dfs_extends(d, m),
        dfs_extends(m, e),
        settled(bs, d, m),
        settled(bs, m, e),
    ensures
        settled(bs, d, e),
{
    assert forall|j: int, v: int|
        d.post.len() <= j < e.post.len() && #[trigger] leads(
            bs,
            (#[trigger] e.post[j]).0 as int,
            v,
        ) implies e.post.take(j).contains(BlockId(v as u32)) || walks_to(
        bs,
        v,
        e.post[j].0 as int,
    ) by {
        if j < m.post.len() {
            assert(e.post[j] == m.post[j]);
            assert(leads(bs, m.post[j].0 as int, v));
            assert(e.post.take(j) =~= m.post.take(j));
        }
    }
}

proof fn lemma_visit_settled(bs: Seq<BlockView>, b: int, d: Dfs)
    requires
        d.seen.len() == bs.len(),
        bs.len() <= u32::MAX,
        0 <= b < bs.len(),
        reachable(bs, b),
        open_lead_to(bs, d, b),
    ensures
        settled(bs, d, visit(bs, b, d)),
    decreases unset(d.seen), 0nat, 0nat,
{
    if !d.seen[b] {
        let d1 = Dfs { seen: d.seen.update(b, true), ..d };
        lemma_unset_update(d.seen, b);
        let ts = targets(bs[b].code);
        assert forall|k: int| 0 <= k < ts.len() && (#[trigger] ts[k]).0 < bs.len() implies leads(
            bs,
            b,
            ts[k].0 as int,
        ) by {
            assert(ts.contains(ts[k]));
        }
        assert(is_walk(bs, seq![b], b, b));
        assert(open_lead_to(bs, d1, b)) by {
            assert forall|g: int|
                0 <= g < bs.len() && #[trigger] d1.seen[g] && !d1.post.contains(
                    BlockId(g as u32),
                ) implies walks_to(bs, g, b) by {
                if g != b {
                    assert(d.seen[g]);
                }
            }
        }
        lemma_all_settled(bs, b, ts, d1);
        lemma_all_followed(bs, b, ts, d1);
        let d2 = visit_all(bs, ts, d1);
        lemma_open_kept(bs, d1, d2, b);
        let e = visit(bs, b, d);
        assert(e == Dfs { post: d2.post.push(BlockId(b as u32)), ..d2 });
        assert forall|j: int, v: int|
            d.post.len() <= j < e.post.len() && #[trigger] leads(
                bs,
                (#[trigger] e.post[j]).0 as int,
                v,
            ) implies e.post.take(j).contains(BlockId(v as u32)) || walks_to(
            bs,
            v,
            e.post[j].0 as int,
        ) by {
            if j < d2.post.len() {
                assert(e.post[j] == d2.post[j]);
                assert(leads(bs, d2.post[j].0 as int, v));
                assert(e.post.take(j) =~= d2.post.take(j));
            } else {
                assert(e.post.take(j) =~= d2.post);
                let k = choose|k: int| 0 <= k < ts.len() && ts[k] == BlockId(v as u32);
                assert(ts[k].0 == v);
                assert(d2.seen[v]);
            }
        }
    }
}

proof fn lemma_all_settled(bs: Seq<BlockView>, b: int, ts: Seq<BlockId>, d: Dfs)
    requires
        d.seen.len() == bs.len(),
        bs.len() <= u32::MAX,
        reachable(bs, b),
        open_lead_to(bs, d, b),
        forall|k: int|
            0 <= k < ts.len() && (#[trigger] ts[k]).0 < bs.len() ==> leads(bs, b, ts[k].0 as int),
    ensures
        settled(bs, d, visit_all(bs, ts, d)),
        dfs_extends(d, visit_all(bs, ts, d)),
    decreases unset(d.seen), 1nat, ts.len(),
{
    lemma_visit_all(bs, ts, d);
    if ts.len() > 0 {
        let t = ts[0].0 as int;
        let d1 = visit(bs, t, d);
        let rest = ts.skip(1);
        if t < bs.len() {
            assert(leads(bs, b, ts[0].0 as int));
            lemma_reach_on(bs, b, t);
            lemma_visit(bs, t, d);
            assert(open_lead_to(bs, d, t)) by {
                assert forall|g: int|
                    0 <= g < bs.len() && #[trigger] d.seen[g] && !d.post.contains(
                        BlockId(g as u32),
                    ) implies walks_to(bs, g, t) by {
                    let p = choose|p: Seq<int>| is_walk(bs, p, g, b);
                    lemma_push(bs, p, g, b, t);
                }
            }
            lemma_visit_settled(bs, t, d);
        } else {
            assert(d1 == d);
        }
        assert forall|k: int| 0 <= k < rest.len() && (#[trigger] rest[k]).0 < bs.len() implies leads(
            bs,
            b,
            rest[k].0 as int,
        ) by {
            assert(rest[k] == ts[k + 1]);
        }
        lemma_open_kept(bs, d, d1, b);
        lemma_all_settled(bs, b, rest, d1);
        lemma_settled_trans(bs, d, d1, visit_all(bs, rest, d1));
    }
}

/// Jumps between reachable blocks go forward, except those that close a loop: a block comes before
/// every block that it leads to, or that block leads back to it.
pub proof fn law_jumps_back_close_loops(bs: Seq<BlockView>, i: int, j: int)
    requires
        bs.len() <= u32::MAX,
        0 <= i < emission_order(bs).len(),
        0 <= j < emission_order(bs).len(),
        reachable(bs, emission_order(bs)[i].0 as int),
        leads(bs, emission_order(bs)[i].0 as int, emission_order(bs)[j].0 as int),
    ensures
        i < j || walks_to(bs, emission_order(bs)[j].0 as int, emission_order(bs)[i].0 as int),
{
    let o = emission_order(bs);
    law_order_is_permutation(bs);
    let e = lemma_front(bs);
    let d = Dfs { seen: Seq::new(bs.len(), |i: int| false), post: seq![] };
    assert(is_walk(bs, seq![0int], 0, 0));
    assert(open_lead_to(bs, d, 0)) by {
        assert forall|g: int| 0 <= g < bs.len() implies !#[trigger] d.seen[g] by {}
    }
    lemma_visit_settled(bs, 0, d);
    let r = e.post.reverse();
    assert(o.take(r.len() as int) == r);
    let u = o[i].0 as int;
    let v = o[j].0 as int;
    assert(e.seen[u] && !d.seen[u]);
    let h = choose|h: int| 0 <= h < e.post.len() && (#[trigger] e.post[h]).0 == u;
    assert(leads(bs, e.post[h].0 as int, v));
    if e.post.take(h).contains(BlockId(v as u32)) {
        let g = choose|g: int| 0 <= g < h && e.post.take(h)[g] == BlockId(v as u32);
        let n = e.post.len();
        assert(r[n - 1 - h] == e.post[h]);
        assert(r[n - 1 - g] == e.post[g]);
        assert(o.take(r.len() as int)[n - 1 - h] == o[n - 1 - h]);
        assert(o.take(r.len() as int)[n - 1 - g] == o[n - 1 - g]);
        assert(o[n - 1 - h] == o[i]);
        assert(o[n - 1 - g] == o[j]);
        assert(i == n - 1 - h && j == n - 1 - g);
    }
}

/// Where the reachable blocks form no loop, every jump between them goes forward.
pub proof fn law_edges_go_forward(bs: Seq<BlockView>, i: int, j: int)
    requires
        bs.len() <= u32::MAX,
        acyclic(bs),
        0 <= i < emission_order(bs).len(),
        0 <= j < emission_order(bs).len(),
        reachable(bs, emission_order(bs)[i].0 as int),
        leads(bs, emission_order(bs)[i].0 as int, emission_order(bs)[j].0 as int),
    ensures
        i < j,
{
    let u = emission_order(bs)[i].0 as int;
    let v = emission_order(bs)[j].0 as int;
    law_jumps_back_close_loops(bs, i, j);
    if walks_to(bs, v, u) {
        let p = choose|p: Seq<int>| is_walk(bs, p, v, u);
        lemma_push(bs, p, v, u, v);
        lemma_reach_on(bs, u, v);
        assert(is_walk(bs, p.push(v), v, v));
    }
}

} // verus!

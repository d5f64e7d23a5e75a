//! Copy propagation removes a copy only where nothing refers to its register any more.
//!
//! The pass counts: a copy goes when as many references to its register were renamed as there were.
//! That is enough because every reference is renamed at most once, and because a register that
//! others are renamed to keeps the reference that made it so. Both hold where each fail block serves
//! one operation and has its sites at its start, as the translation leaves it.

use vstd::prelude::*;
use crate::copyprop::{
    alias_after, aliased, fail_edge, find_block, hits, keep_flags, killed, lemma_resolve_op,
    no_alias, operands, propagated, removable, resolve, resolve_all, resolve_fails,
    resolve_inline, resolve_op, resolve_raw, resolved, single_writes, start_walk, walk,
    walk_blocks, walk_site, walk_sites, without_copies, Alias, Prop, Walk,
};
use crate::ir::{BlockId, BlockView, DeoptView, InlineView, Ir, IrView, VReg};
use crate::passes::{
    all_refs, block_refs, code_reads, compacted, inline_refs, lemma_occurrences_bound,
    lemma_occurrences_concat, lemma_occurrences_push, occurrences, raw_refs, selected, sites_refs,
};

verus! {

/// Nothing is an alias of `d`.
spec fn no_value(alias: Alias, d: VReg) -> bool {
    forall|k: int| 0 <= k < alias.len() ==> #[trigger] alias[k] != Some(d)
}

proof fn lemma_hits_count(alias: Alias, s: Seq<VReg>, d: VReg)
    ensures
        occurrences(hits(alias, s), d) == (if aliased(alias, d) {
            occurrences(s, d)
        } else {
            0
        }),
    decreases s.len(),
{
    if s.len() > 0 {
        lemma_hits_count(alias, s.drop_last(), d);
        if aliased(alias, s.last()) {
            lemma_occurrences_push(hits(alias, s.drop_last()), s.last(), d);
        }
    }
}

proof fn lemma_resolved_count(alias: Alias, s: Seq<VReg>, d: VReg)
    requires
        no_value(alias, d),
    ensures
        occurrences(resolve_all(alias, s), d) == (if aliased(alias, d) {
            0
        } else {
            occurrences(s, d)
        }),
    decreases s.len(),
{
    if s.len() > 0 {
        lemma_resolved_count(alias, s.drop_last(), d);
        assert(resolve_all(alias, s).drop_last() =~= resolve_all(alias, s.drop_last()));
        assert(resolve_all(alias, s).last() == resolve(alias, s.last()));
    }
}

proof fn lemma_inline_refs(alias: Alias, i: InlineView)
    ensures
        inline_refs(resolve_inline(alias, i)) == resolve_all(alias, inline_refs(i)),
    decreases i,
{
    match i.parent {
        Some(p) => lemma_inline_refs(alias, *p),
        None => {},
    }
    assert(inline_refs(resolve_inline(alias, i)) =~= resolve_all(alias, inline_refs(i)));
}

pub(crate) proof fn lemma_raw_refs(alias: Alias, r: DeoptView)
    ensures
        raw_refs(resolve_raw(alias, r)) == resolve_all(alias, raw_refs(r)),
{
    match r.inline {
        Some(i) => lemma_inline_refs(alias, i),
        None => {},
    }
    assert(raw_refs(resolve_raw(alias, r)) =~= resolve_all(alias, raw_refs(r)));
}

proof fn lemma_sites_push(s: Seq<(u32, DeoptView)>, k: int, d: VReg)
    requires
        0 <= k < s.len(),
    ensures
        occurrences(sites_refs(s.take(k + 1)), d) == occurrences(sites_refs(s.take(k)), d)
            + occurrences(raw_refs(s[k].1), d),
{
    assert(s.take(k + 1).drop_last() =~= s.take(k));
    assert(s.take(k + 1).last() == s[k]);
    lemma_occurrences_concat(sites_refs(s.take(k)), raw_refs(s[k].1), d);
}

proof fn lemma_code_push(c: Seq<IrView>, k: int, d: VReg)
    requires
        0 <= k < c.len(),
    ensures
        occurrences(code_reads(c.take(k + 1)), d) == occurrences(code_reads(c.take(k)), d)
            + occurrences(c[k].reads(), d),
{
    assert(c.take(k + 1).drop_last() =~= c.take(k));
    assert(c.take(k + 1).last() == c[k]);
    lemma_occurrences_concat(code_reads(c.take(k)), c[k].reads(), d);
}

/// All sites of the block stand at its first operation.
pub open spec fn sites_first(b: BlockView) -> bool {
    forall|k: int| 0 <= k < b.deopt_sites.len() ==> (#[trigger] b.deopt_sites[k]).0 == 0
}

/// The references to `d` in the first `n` operations and the first `p` sites. Sites at the start of
/// a fail block are left to the operation that fails.
spec fn due(b: BlockView, fail: bool, n: int, p: int, d: VReg) -> int {
    occurrences(code_reads(b.code.take(n)), d) + (if fail {
        0
    } else {
        occurrences(sites_refs(b.deopt_sites.take(p)), d) as int
    })
}

/// The relations recorded for fail blocks after the first `f` have no alias of `d`.
spec fn fails_clear(fails: Seq<(BlockId, Alias)>, f: int, d: VReg) -> bool {
    forall|k: int| f <= k < fails.len() ==> no_value((#[trigger] fails[k]).1, d)
}

/// A walk over a block, from `w0` to `w` after `n` operations: renamed references are no more than
/// there were, and if they were all, none is left and nothing was renamed to `d`.
spec fn walk_counts(b: BlockView, fail: bool, w0: Walk, n: int, w: Walk, d: VReg) -> bool {
    let h = occurrences(w.hits, d) - occurrences(w0.hits, d);
    &&& 0 <= w.p <= b.deopt_sites.len()
    &&& w.block.entry_stack == b.entry_stack
    &&& w.block.id == b.id
    &&& w.block.code.len() == b.code.len()
    &&& w.block.deopt_sites.len() == b.deopt_sites.len()
    &&& forall|i: int| n <= i < b.code.len() ==> #[trigger] w.block.code[i] == b.code[i]
    &&& forall|k: int|
        w.p <= k < b.deopt_sites.len() ==> #[trigger] w.block.deopt_sites[k] == b.deopt_sites[k]
    &&& w0.fails.len() <= w.fails.len()
    &&& forall|k: int| 0 <= k < w0.fails.len() ==> #[trigger] w.fails[k] == w0.fails[k]
    &&& 0 <= h <= due(b, fail, n, w.p, d)
    &&& fail ==> w.block.deopt_sites == b.deopt_sites
    &&& fail && n > 0 ==> w.p == b.deopt_sites.len()
    &&& n == 0 ==> no_alias(w.alias)
    &&& h == due(b, fail, n, w.p, d) ==> {
        &&& no_value(w.alias, d)
        &&& fails_clear(w.fails, w0.fails.len() as int, d)
        &&& occurrences(code_reads(w.block.code.take(n)), d) == 0
        &&& !fail ==> occurrences(sites_refs(w.block.deopt_sites.take(w.p)), d) == 0
    }
}

proof fn lemma_empty_alias(alias: Alias, s: Seq<VReg>)
    requires
        no_alias(alias),
    ensures
        resolve_all(alias, s) == s,
{
    assert(resolve_all(alias, s) =~= s);
}

proof fn lemma_empty_inline(alias: Alias, i: InlineView)
    requires
        no_alias(alias),
    ensures
        resolve_inline(alias, i) == i,
    decreases i,
{
    lemma_empty_alias(alias, i.slots);
    lemma_empty_alias(alias, i.caller_pending_stack);
    match i.parent {
        Some(p) => lemma_empty_inline(alias, *p),
        None => {},
    }
}

proof fn lemma_empty_raw(alias: Alias, r: DeoptView)
    requires
        no_alias(alias),
    ensures
        resolve_raw(alias, r) == r,
{
    lemma_empty_alias(alias, r.stack);
    match r.inline {
        Some(i) => lemma_empty_inline(alias, i),
        None => {},
    }
}

proof fn lemma_sites_counts(b: BlockView, fail: bool, w0: Walk, n: int, w: Walk, d: VReg)
    requires
        walk_counts(b, fail, w0, n, w, d),
        0 <= n < b.code.len(),
        fail ==> sites_first(b),
    ensures
        walk_counts(b, fail, w0, n, walk_sites(n, w), d),
        walk_sites(n, w).alias == w.alias,
        walk_sites(n, w).fails == w.fails,
        walk_sites(n, w).block.code == w.block.code,
        fail ==> walk_sites(n, w).p == b.deopt_sites.len(),
    decreases w.block.deopt_sites.len() - w.p,
{
    if 0 <= w.p < w.block.deopt_sites.len() && w.block.deopt_sites[w.p].0 == n {
        let v = walk_site(w);
        let (ci, raw) = w.block.deopt_sites[w.p];
        let p = w.p;
        assert(w.block.deopt_sites[p] == b.deopt_sites[p]);
        lemma_occurrences_concat(w.hits, hits(w.alias, raw_refs(raw)), d);
        lemma_hits_count(w.alias, raw_refs(raw), d);
        lemma_sites_push(b.deopt_sites, p, d);
        lemma_raw_refs(w.alias, raw);
        if fail {
            assert(n == 0);
            lemma_empty_raw(w.alias, raw);
            assert(v.block.deopt_sites =~= w.block.deopt_sites);
            assert(!aliased(w.alias, d));
        } else {
            lemma_sites_push(v.block.deopt_sites, p, d);
            assert(v.block.deopt_sites.take(p) =~= w.block.deopt_sites.take(p));
            let h = occurrences(v.hits, d) - occurrences(w0.hits, d);
            if h == due(b, fail, n, v.p, d) {
                lemma_resolved_count(w.alias, raw_refs(raw), d);
            }
        }
        assert forall|k: int| v.p <= k < b.deopt_sites.len() implies
            #[trigger] v.block.deopt_sites[k] == b.deopt_sites[k] by {
            assert(w.block.deopt_sites[k] == b.deopt_sites[k]);
        }
        lemma_sites_counts(b, fail, w0, n, v, d);
    } else if fail && w.p < b.deopt_sites.len() {
        assert(w.block.deopt_sites[w.p] == b.deopt_sites[w.p]);
        assert(n > 0);
    }
}

proof fn lemma_alias_clear(alias: Alias, single: Seq<bool>, op: IrView, d: VReg)
    requires
        no_value(alias, d),
        occurrences(op.reads(), d) == 0,
        op.write() matches Some(x) ==> x.0 < alias.len(),
    ensures
        no_value(alias_after(alias, single, op), d),
{
    let a = match op.write() {
        Some(x) => killed(alias, x),
        None => alias,
    };
    assert(no_value(a, d)) by {
        assert forall|k: int| 0 <= k < a.len() implies #[trigger] a[k] != Some(d) by {
            assert(alias[k] != Some(d));
        }
    }
    match op {
        Ir::Move { dst, src } => {
            lemma_occurrences_bound(op.reads(), d);
            assert(op.reads()[0] == src);
            assert(src != d);
            assert(resolve(a, src) != d);
            let after = alias_after(alias, single, op);
            assert forall|k: int| 0 <= k < after.len() implies #[trigger] after[k] != Some(d) by {
                if k != dst.0 {
                    assert(after[k] == a[k]);
                }
            }
        },
        _ => {},
    }
}

proof fn lemma_walk_counts(
    b: BlockView,
    fail: bool,
    single: Seq<bool>,
    w0: Walk,
    n: int,
    d: VReg,
)
    requires
        w0.block == b,
        w0.p == 0,
        no_alias(w0.alias),
        0 <= n <= b.code.len(),
        fail ==> sites_first(b),
        forall|i: int|
            0 <= i < b.code.len() ==> ((#[trigger] b.code[i]).write() matches Some(x) ==> x.0
                < w0.alias.len()),
    ensures
        walk_counts(b, fail, w0, n, walk(single, n, w0), d),
        walk(single, n, w0).alias.len() == w0.alias.len(),
    decreases n,
{
    if n == 0 {
        assert(b.code.take(0) =~= seq![]);
        assert(b.deopt_sites.take(0) =~= seq![]);
        assert(no_value(w0.alias, d));
    } else {
        lemma_walk_counts(b, fail, single, w0, n - 1, d);
        let p = walk(single, n - 1, w0);
        let i = n - 1;
        lemma_sites_counts(b, fail, w0, i, p, d);
        let w1 = walk_sites(i, p);
        let op = b.code[i];
        assert(w1.block.code[i] == op);
        let op1 = resolve_op(w1.alias, op);
        let w = walk(single, n, w0);
        lemma_resolve_op(w1.alias, op);
        lemma_occurrences_concat(w1.hits, hits(w1.alias, operands(op)), d);
        lemma_hits_count(w1.alias, operands(op), d);
        lemma_code_push(b.code, i, d);
        lemma_code_push(w.block.code, i, d);
        assert(w.block.code.take(i) =~= w1.block.code.take(i));
        assert(w.block.code[i] == op1);
        assert(op.write() matches Some(x) ==> x.0 < w0.alias.len());
        if op is RetSelf {
            assert(operands(op) =~= seq![]);
        }
        let h = occurrences(w.hits, d) - occurrences(w0.hits, d);
        if h == due(b, fail, n, w.p, d) {
            lemma_resolved_count(w1.alias, operands(op), d);
            assert(occurrences(op1.reads(), d) == 0);
            lemma_alias_clear(w1.alias, single, op1, d);
        }
        assert(w.alias.len() == w0.alias.len());
    }
}

/// The fail blocks of the first `n` operations, in order.
pub open spec fn edges(code: Seq<IrView>, n: int) -> Seq<BlockId>
    decreases n,
{
    if n <= 0 {
        seq![]
    } else {
        match fail_edge(code[n - 1]) {
            Some(b) => edges(code, n - 1).push(b),
            None => edges(code, n - 1),
        }
    }
}

/// The fail blocks of the first `k` blocks.
pub open spec fn all_edges(bs: Seq<BlockView>, k: int) -> Seq<BlockId>
    decreases k,
{
    if k <= 0 {
        seq![]
    } else {
        all_edges(bs, k - 1) + edges(bs[k - 1].code, bs[k - 1].code.len() as int)
    }
}

pub open spec fn is_fail(bs: Seq<BlockView>, j: int) -> bool {
    all_edges(bs, bs.len() as int).contains(BlockId(j as u32))
}

/// Blocks stand at their numbers. Each fail block serves one operation, and its sites stand at its
/// start.
pub open spec fn fails_apart(bs: Seq<BlockView>) -> bool {
    &&& forall|k: int| 0 <= k < bs.len() ==> (#[trigger] bs[k]).id.0 == k
    &&& all_edges(bs, bs.len() as int).no_duplicates()
    &&& forall|k: int| 0 <= k < bs.len() && is_fail(bs, k) ==> sites_first(#[trigger] bs[k])
}

/// The recorded fail blocks are among the edges seen, each once.
spec fn ids_ok(fails: Seq<(BlockId, Alias)>, e: Seq<BlockId>) -> bool {
    &&& forall|k: int| 0 <= k < fails.len() ==> e.contains((#[trigger] fails[k]).0)
    &&& forall|j: int, k: int|
        0 <= j < k < fails.len() ==> (#[trigger] fails[j]).0 != (#[trigger] fails[k]).0
}

proof fn lemma_contains_left(a: Seq<BlockId>, b: Seq<BlockId>, x: BlockId)
    requires
        a.contains(x),
    ensures
        (a + b).contains(x),
{
    let k = choose|k: int| 0 <= k < a.len() && a[k] == x;
    assert((a + b)[k] == x);
}

proof fn lemma_walk_ids(
    b: BlockView,
    fail: bool,
    single: Seq<bool>,
    w0: Walk,
    n: int,
    e: Seq<BlockId>,
    d: VReg,
)
    requires
        w0.block == b,
        w0.p == 0,
        no_alias(w0.alias),
        0 <= n <= b.code.len(),
        fail ==> sites_first(b),
        forall|i: int|
            0 <= i < b.code.len() ==> ((#[trigger] b.code[i]).write() matches Some(x) ==> x.0
                < w0.alias.len()),
        ids_ok(w0.fails, e),
        (e + edges(b.code, n)).no_duplicates(),
    ensures
        ids_ok(walk(single, n, w0).fails, e + edges(b.code, n)),
    decreases n,
{
    if n == 0 {
        assert(e + edges(b.code, 0) =~= e);
    } else {
        let i = n - 1;
        let f = e + edges(b.code, i);
        let g = e + edges(b.code, n);
        assert(f.no_duplicates()) by {
            assert forall|x: int, y: int| 0 <= x < y < f.len() implies f[x] != f[y] by {
                assert(g[x] == f[x] && g[y] == f[y]);
            }
        }
        lemma_walk_ids(b, fail, single, w0, i, e, d);
        lemma_walk_counts(b, fail, single, w0, i, d);
        let p = walk(single, i, w0);
        lemma_sites_counts(b, fail, w0, i, p, d);
        let w1 = walk_sites(i, p);
        assert(w1.block.code[i] == b.code[i]);
        let w = walk(single, n, w0);
        if fail_edge(b.code[i]) is Some {
            let x = fail_edge(b.code[i])->0;
            assert(g =~= f.push(x));
            assert(g[f.len() as int] == x);
            assert forall|k: int| 0 <= k < w.fails.len() implies g.contains(
                (#[trigger] w.fails[k]).0,
            ) by {
                if k < w1.fails.len() {
                    assert(f.contains(w1.fails[k].0));
                    lemma_contains_left(f, seq![x], w1.fails[k].0);
                    assert(g =~= f + seq![x]);
                }
            }
            assert forall|j: int, k: int| 0 <= j < k < w.fails.len() implies (
            #[trigger] w.fails[j]).0 != (#[trigger] w.fails[k]).0 by {
                if k == w1.fails.len() {
                    assert(f.contains(w1.fails[j].0));
                    let h = choose|h: int| 0 <= h < f.len() && f[h] == w1.fails[j].0;
                    assert(g[h] == f[h] && g[h] != g[f.len() as int]);
                }
            }
        } else {
            assert(g =~= f);
        }
    }
}

/// The references to `d` that a block may account for.
spec fn part(b: BlockView, fail: bool, done: bool, d: VReg) -> nat {
    occurrences(code_reads(b.code), d) + occurrences(b.entry_stack, d) + (if fail && !done {
        0
    } else {
        occurrences(sites_refs(b.deopt_sites), d)
    })
}

spec fn owed(bs: Seq<BlockView>, done: Seq<bool>, k: int, d: VReg) -> nat
    decreases k,
{
    if k <= 0 {
        0
    } else {
        owed(bs, done, k - 1, d) + part(bs[k - 1], is_fail(bs, k - 1), done[k - 1], d)
    }
}

/// No reference to `d` is left; the sites of a fail block may still wait.
spec fn clean(c: BlockView, waits: bool, d: VReg) -> bool {
    &&& occurrences(code_reads(c.code), d) == 0
    &&& occurrences(c.entry_stack, d) == 0
    &&& !waits ==> occurrences(sites_refs(c.deopt_sites), d) == 0
}

proof fn lemma_sites_concat(a: Seq<(u32, DeoptView)>, b: Seq<(u32, DeoptView)>, d: VReg)
    ensures
        occurrences(sites_refs(a + b), d) == occurrences(sites_refs(a), d) + occurrences(
            sites_refs(b),
            d,
        ),
    decreases b.len(),
{
    if b.len() == 0 {
        assert(a + b =~= a);
    } else {
        assert((a + b).drop_last() =~= a + b.drop_last());
        lemma_sites_concat(a, b.drop_last(), d);
        lemma_occurrences_concat(sites_refs((a + b).drop_last()), raw_refs(b.last().1), d);
        lemma_occurrences_concat(sites_refs(b.drop_last()), raw_refs(b.last().1), d);
    }
}

/// One block: renamed references are no more than its part, and if they are all of it, it is clean.
proof fn lemma_block_counts(b: BlockView, fail: bool, single: Seq<bool>, w0: Walk, d: VReg)
    requires
        w0.block == b,
        w0.p == 0,
        no_alias(w0.alias),
        fail ==> sites_first(b),
        forall|i: int|
            0 <= i < b.code.len() ==> ((#[trigger] b.code[i]).write() matches Some(x) ==> x.0
                < w0.alias.len()),
    ensures
        ({
            let w = walk(single, b.code.len() as int, w0);
            let h = occurrences(w.hits, d) - occurrences(w0.hits, d);
            &&& w.block.id == b.id
            &&& fail ==> w.block.deopt_sites == b.deopt_sites
            &&& w0.fails.is_prefix_of(w.fails)
            &&& h <= part(b, fail, false, d)
            &&& h == part(b, fail, false, d) ==> clean(w.block, fail, d) && fails_clear(
                w.fails,
                w0.fails.len() as int,
                d,
            )
        }),
{
    let n = b.code.len() as int;
    let w = walk(single, n, w0);
    lemma_walk_counts(b, fail, single, w0, n, d);
    assert(b.code.take(n) =~= b.code);
    assert(w.block.code.take(n) =~= w.block.code);
    let s = b.deopt_sites;
    let t = w.block.deopt_sites;
    assert(s =~= s.take(w.p) + s.skip(w.p));
    lemma_sites_concat(s.take(w.p), s.skip(w.p), d);
    assert(t =~= t.take(w.p) + t.skip(w.p));
    lemma_sites_concat(t.take(w.p), t.skip(w.p), d);
    assert(t.skip(w.p) =~= s.skip(w.p));
    assert(w0.fails =~= w.fails.subrange(0, w0.fails.len() as int));
}

spec fn none_done(bs: Seq<BlockView>) -> Seq<bool> {
    Seq::new(bs.len(), |j: int| false)
}

proof fn lemma_edges_prefix(bs: Seq<BlockView>, j: int, k: int)
    requires
        0 <= j <= k,
    ensures
        all_edges(bs, j).len() <= all_edges(bs, k).len(),
        forall|x: int|
            0 <= x < all_edges(bs, j).len() ==> #[trigger] all_edges(bs, j)[x] == all_edges(bs, k)[x],
    decreases k,
{
    if j < k {
        lemma_edges_prefix(bs, j, k - 1);
    }
}

/// What walking the first `k` blocks keeps.
spec fn blocks_count(bs: Seq<BlockView>, k: int, y: Prop, d: VReg) -> bool {
    &&& y.blocks.len() == bs.len()
    &&& forall|i: int| 0 <= i < bs.len() ==> (#[trigger] y.blocks[i]).id == bs[i].id
    &&& forall|i: int| k <= i < bs.len() ==> #[trigger] y.blocks[i] == bs[i]
    &&& forall|i: int|
        0 <= i < bs.len() && is_fail(bs, i) ==> (#[trigger] y.blocks[i]).deopt_sites
            == bs[i].deopt_sites
    &&& ids_ok(y.fails, all_edges(bs, k))
    &&& occurrences(y.hits, d) <= owed(bs, none_done(bs), k, d)
    &&& occurrences(y.hits, d) == owed(bs, none_done(bs), k, d) ==> {
        &&& fails_clear(y.fails, 0, d)
        &&& forall|i: int| 0 <= i < k ==> clean(#[trigger] y.blocks[i], is_fail(bs, i), d)
    }
}

spec fn writes_in(bs: Seq<BlockView>, n: nat) -> bool {
    forall|b: int, i: int|
        0 <= b < bs.len() && 0 <= i < bs[b].code.len() ==> ((
        #[trigger] bs[b].code[i]).write() matches Some(x) ==> x.0 < n)
}

proof fn lemma_blocks_count(bs: Seq<BlockView>, single: Seq<bool>, n: nat, k: int, d: VReg)
    requires
        fails_apart(bs),
        writes_in(bs, n),
        0 <= k <= bs.len(),
    ensures
        blocks_count(
            bs,
            k,
            walk_blocks(single, n, k, Prop { blocks: bs, hits: seq![], fails: seq![] }),
            d,
        ),
    decreases k,
{
    let x = Prop { blocks: bs, hits: seq![], fails: seq![] };
    if k > 0 {
        lemma_blocks_count(bs, single, n, k - 1, d);
        let y = walk_blocks(single, n, k - 1, x);
        let b = y.blocks[k - 1];
        assert(b == bs[k - 1]);
        let fail = is_fail(bs, k - 1);
        let w0 = start_walk(n, b, y);
        let len = b.code.len() as int;
        let w = walk(single, len, w0);
        assert forall|i: int| 0 <= i < b.code.len() implies ((
        #[trigger] b.code[i]).write() matches Some(v) ==> v.0 < w0.alias.len()) by {
            assert(bs[k - 1].code[i].write() matches Some(v) ==> v.0 < n);
        }
        lemma_block_counts(b, fail, single, w0, d);
        let e = all_edges(bs, k - 1);
        let g = all_edges(bs, k);
        let all = all_edges(bs, bs.len() as int);
        lemma_edges_prefix(bs, k, bs.len() as int);
        assert(g.no_duplicates()) by {
            assert forall|p: int, q: int| 0 <= p < q < g.len() implies g[p] != g[q] by {
                assert(all[p] == g[p] && all[q] == g[q]);
            }
        }
        assert(e + edges(b.code, len) == g);
        lemma_walk_ids(b, fail, single, w0, len, e, d);
        let z = walk_blocks(single, n, k, x);
        assert(z.blocks == y.blocks.update(k - 1, w.block));
        assert(none_done(bs)[k - 1] == false);
        if occurrences(z.hits, d) == owed(bs, none_done(bs), k, d) {
            assert(fails_clear(z.fails, 0, d)) by {
                assert forall|q: int| 0 <= q < z.fails.len() implies no_value(
                    (#[trigger] z.fails[q]).1,
                    d,
                ) by {
                    if q < y.fails.len() {
                        assert(z.fails[q] == y.fails[q]);
                    }
                }
            }
            assert forall|i: int| 0 <= i < k implies clean(
                #[trigger] z.blocks[i],
                is_fail(bs, i),
                d,
            ) by {
                if i < k - 1 {
                    assert(z.blocks[i] == y.blocks[i]);
                }
            }
        }
    }
}

/// The blocks whose sites the first `m` recorded failures have renamed.
spec fn done_by(bs: Seq<BlockView>, fails: Seq<(BlockId, Alias)>, m: int) -> Seq<bool> {
    Seq::new(
        bs.len(),
        |j: int| exists|i: int| 0 <= i < m && (#[trigger] fails[i]).0 == BlockId(j as u32),
    )
}

proof fn lemma_owed_same(bs: Seq<BlockView>, a: Seq<bool>, b: Seq<bool>, k: int, d: VReg)
    requires
        0 <= k <= bs.len(),
        forall|j: int| 0 <= j < k ==> #[trigger] a[j] == b[j],
    ensures
        owed(bs, a, k, d) == owed(bs, b, k, d),
    decreases k,
{
    if k > 0 {
        lemma_owed_same(bs, a, b, k - 1, d);
        assert(a[k - 1] == b[k - 1]);
    }
}

/// One more fail block accounts for its sites.
proof fn lemma_owed_more(bs: Seq<BlockView>, a: Seq<bool>, b: Seq<bool>, j: int, k: int, d: VReg)
    requires
        0 <= j < k <= bs.len(),
        is_fail(bs, j),
        !a[j],
        b[j],
        forall|i: int| 0 <= i < k && i != j ==> #[trigger] a[i] == b[i],
    ensures
        owed(bs, b, k, d) == owed(bs, a, k, d) + occurrences(sites_refs(bs[j].deopt_sites), d),
    decreases k,
{
    if j == k - 1 {
        lemma_owed_same(bs, a, b, k - 1, d);
    } else {
        lemma_owed_more(bs, a, b, j, k - 1, d);
        assert(a[k - 1] == b[k - 1]);
    }
}

pub(crate) proof fn lemma_sites_resolved(alias: Alias, s: Seq<(u32, DeoptView)>)
    ensures
        sites_refs(s.map_values(|x: (u32, DeoptView)| (x.0, resolve_raw(alias, x.1))))
            == resolve_all(alias, sites_refs(s)),
    decreases s.len(),
{
    let f = |x: (u32, DeoptView)| (x.0, resolve_raw(alias, x.1));
    let t = s.map_values(f);
    if s.len() > 0 {
        lemma_sites_resolved(alias, s.drop_last());
        assert(t.drop_last() =~= s.drop_last().map_values(f));
        lemma_raw_refs(alias, s.last().1);
        assert(sites_refs(t) =~= resolve_all(alias, sites_refs(s)));
    } else {
        assert(sites_refs(t) =~= resolve_all(alias, sites_refs(s)));
    }
}

proof fn lemma_find(bs: Seq<BlockView>, id: BlockId, from: int)
    requires
        0 <= from <= bs.len(),
        forall|k: int| 0 <= k < bs.len() ==> (#[trigger] bs[k]).id.0 == k,
        from <= id.0,
    ensures
        find_block(bs, id, from) == (if id.0 < bs.len() {
            id.0 as int
        } else {
            bs.len() as int
        }),
    decreases bs.len() - from,
{
    if from < bs.len() && bs[from].id != id {
        assert(bs[from].id.0 == from);
        lemma_find(bs, id, from + 1);
    } else if from < bs.len() {
        assert(bs[from].id.0 == from);
    }
}

/// What renaming the sites of the first `m` recorded failures keeps.
spec fn fails_count(
    bs: Seq<BlockView>,
    fails: Seq<(BlockId, Alias)>,
    m: int,
    y: Prop,
    d: VReg,
) -> bool {
    let done = done_by(bs, fails, m);
    &&& y.blocks.len() == bs.len()
    &&& forall|i: int| 0 <= i < bs.len() ==> (#[trigger] y.blocks[i]).id == bs[i].id
    &&& forall|i: int|
        0 <= i < bs.len() && is_fail(bs, i) && !done[i] ==> (#[trigger] y.blocks[i]).deopt_sites
            == bs[i].deopt_sites
    &&& occurrences(y.hits, d) <= owed(bs, done, bs.len() as int, d)
    &&& occurrences(y.hits, d) == owed(bs, done, bs.len() as int, d) ==> {
        &&& fails_clear(fails, 0, d)
        &&& forall|i: int|
            0 <= i < bs.len() ==> clean(#[trigger] y.blocks[i], is_fail(bs, i) && !done[i], d)
    }
}

proof fn lemma_fails_count(bs: Seq<BlockView>, x: Prop, m: int, d: VReg)
    requires
        fails_apart(bs),
        bs.len() <= u32::MAX,
        blocks_count(bs, bs.len() as int, x, d),
        0 <= m <= x.fails.len(),
    ensures
        fails_count(bs, x.fails, m, resolve_fails(x.fails, m, x), d),
    decreases m,
{
    let n = bs.len() as int;
    let fails = x.fails;
    if m == 0 {
        lemma_owed_same(bs, none_done(bs), done_by(bs, fails, 0), n, d);
    } else {
        lemma_fails_count(bs, x, m - 1, d);
        let y = resolve_fails(fails, m - 1, x);
        let z = resolve_fails(fails, m, x);
        let (id, alias) = fails[m - 1];
        let a = done_by(bs, fails, m - 1);
        let b = done_by(bs, fails, m);
        assert forall|k: int| 0 <= k < y.blocks.len() implies (#[trigger] y.blocks[k]).id.0 == k by {
            assert(bs[k].id.0 == k);
        }
        lemma_find(y.blocks, id, 0);
        let j = id.0 as int;
        assert forall|i: int| 0 <= i < n && i != j implies #[trigger] a[i] == b[i] by {
            if b[i] {
                let q = choose|q: int|
                    0 <= q < m && (#[trigger] fails[q]).0 == BlockId(i as u32);
                assert(q != m - 1);
            }
            if a[i] {
                let q = choose|q: int|
                    0 <= q < m - 1 && (#[trigger] fails[q]).0 == BlockId(i as u32);
                assert(0 <= q < m);
            }
        }
        if j < n {
            assert(all_edges(bs, n).contains(fails[m - 1].0));
            assert(BlockId(j as u32) == id);
            assert(is_fail(bs, j));
            assert(!a[j]) by {
                if a[j] {
                    let q = choose|q: int|
                        0 <= q < m - 1 && (#[trigger] fails[q]).0 == BlockId(j as u32);
                    assert(fails[q].0 != fails[m - 1].0);
                }
            }
            assert(b[j]) by {
                assert(fails[m - 1].0 == BlockId(j as u32));
            }
            lemma_owed_more(bs, a, b, j, n, d);
            let s = bs[j].deopt_sites;
            assert(y.blocks[j].deopt_sites == s);
            lemma_occurrences_concat(y.hits, hits(alias, sites_refs(s)), d);
            lemma_hits_count(alias, sites_refs(s), d);
            lemma_sites_resolved(alias, s);
            if occurrences(z.hits, d) == owed(bs, b, n, d) {
                assert(no_value(fails[m - 1].1, d));
                lemma_resolved_count(alias, sites_refs(s), d);
                assert forall|i: int| 0 <= i < n implies clean(
                    #[trigger] z.blocks[i],
                    is_fail(bs, i) && !b[i],
                    d,
                ) by {
                    assert(clean(y.blocks[i], is_fail(bs, i) && !a[i], d));
                    if i != j {
                        assert(z.blocks[i] == y.blocks[i]);
                    }
                }
            }
            assert forall|i: int|
                0 <= i < bs.len() && is_fail(bs, i) && !b[i] implies (
            #[trigger] z.blocks[i]).deopt_sites == bs[i].deopt_sites by {
                assert(i != j);
                assert(z.blocks[i] == y.blocks[i]);
            }
        } else {
            assert(z == y);
            assert(a =~= b);
        }
    }
}

proof fn lemma_refs_count(bs: Seq<BlockView>, k: int, done: Seq<bool>, all: Seq<BlockView>, d: VReg)
    requires
        0 <= k <= all.len(),
        bs == all.take(k),
    ensures
        owed(all, done, k, d) <= occurrences(all_refs(bs), d),
        owed(all, done, k, d) == occurrences(all_refs(bs), d) ==> forall|i: int|
            0 <= i < k && is_fail(all, i) && !done[i] ==> occurrences(
                sites_refs((#[trigger] all[i]).deopt_sites),
                d,
            ) == 0,
    decreases k,
{
    if k > 0 {
        let p = bs.drop_last();
        assert(p =~= all.take(k - 1));
        lemma_refs_count(p, k - 1, done, all, d);
        let b = bs.last();
        assert(b == all[k - 1]);
        lemma_block_refs_count(b, d);
        lemma_occurrences_concat(all_refs(p), block_refs(b), d);
    }
}

proof fn lemma_block_refs_count(b: BlockView, d: VReg)
    ensures
        occurrences(block_refs(b), d) == occurrences(code_reads(b.code), d) + occurrences(
            sites_refs(b.deopt_sites),
            d,
        ) + occurrences(b.entry_stack, d),
{
    lemma_occurrences_concat(
        code_reads(b.code) + sites_refs(b.deopt_sites),
        b.entry_stack,
        d,
    );
    lemma_occurrences_concat(code_reads(b.code), sites_refs(b.deopt_sites), d);
}

proof fn lemma_all_clean(bs: Seq<BlockView>, d: VReg)
    requires
        forall|i: int| 0 <= i < bs.len() ==> clean(#[trigger] bs[i], false, d),
    ensures
        occurrences(all_refs(bs), d) == 0,
    decreases bs.len(),
{
    if bs.len() > 0 {
        let p = bs.drop_last();
        assert forall|i: int| 0 <= i < p.len() implies clean(#[trigger] p[i], false, d) by {
            assert(clean(bs[i], false, d));
        }
        lemma_all_clean(p, d);
        assert(clean(bs[bs.len() - 1], false, d));
        lemma_block_refs_count(bs.last(), d);
        lemma_occurrences_concat(all_refs(p), block_refs(bs.last()), d);
    }
}

proof fn lemma_selected_count(code: Seq<IrView>, keep: Seq<bool>, n: int, d: VReg)
    requires
        0 <= n <= code.len(),
    ensures
        occurrences(code_reads(selected(code, keep, n)), d) <= occurrences(
            code_reads(code.take(n)),
            d,
        ),
    decreases n,
{
    if n > 0 {
        lemma_selected_count(code, keep, n - 1, d);
        lemma_code_push(code, n - 1, d);
        let s = selected(code, keep, n - 1);
        if keep[n - 1] {
            let t = s.push(code[n - 1]);
            assert(t.drop_last() =~= s);
            lemma_occurrences_concat(code_reads(s), code[n - 1].reads(), d);
        }
    }
}

proof fn lemma_sites_renumbered(s: Seq<(u32, DeoptView)>, t: Seq<(u32, DeoptView)>)
    requires
        s.len() == t.len(),
        forall|k: int| 0 <= k < s.len() ==> (#[trigger] t[k]).1 == s[k].1,
    ensures
        sites_refs(t) == sites_refs(s),
    decreases s.len(),
{
    if s.len() > 0 {
        assert forall|k: int| 0 <= k < t.drop_last().len() implies (
        #[trigger] t.drop_last()[k]).1 == s.drop_last()[k].1 by {
            assert(t[k].1 == s[k].1);
        }
        lemma_sites_renumbered(s.drop_last(), t.drop_last());
        assert(t[t.len() - 1].1 == s[s.len() - 1].1);
    }
}

proof fn lemma_compact_clean(b: BlockView, keep: Seq<bool>, d: VReg)
    requires
        clean(b, false, d),
        compacted(b, keep) is Some,
    ensures
        clean(compacted(b, keep)->0, false, d),
{
    let c = compacted(b, keep)->0;
    let n = b.code.len() as int;
    lemma_selected_count(b.code, keep, n, d);
    assert(b.code.take(n) =~= b.code);
    if c != b {
        lemma_sites_renumbered(b.deopt_sites, c.deopt_sites);
    }
}

proof fn lemma_without_copies_clean(
    single: Seq<bool>,
    refs: Seq<VReg>,
    changed: Seq<VReg>,
    bs: Seq<BlockView>,
    k: int,
    d: VReg,
)
    requires
        0 <= k <= bs.len(),
        without_copies(single, refs, changed, bs, k) is Some,
        forall|i: int| 0 <= i < bs.len() ==> clean(#[trigger] bs[i], false, d),
    ensures
        (without_copies(single, refs, changed, bs, k)->0).len() == bs.len(),
        forall|i: int|
            0 <= i < bs.len() ==> clean(
                #[trigger] (without_copies(single, refs, changed, bs, k)->0)[i],
                false,
                d,
            ),
    decreases k,
{
    if k > 0 {
        lemma_without_copies_clean(single, refs, changed, bs, k - 1, d);
        let done = without_copies(single, refs, changed, bs, k - 1)->0;
        let b = done[k - 1];
        assert(clean(b, false, d));
        lemma_compact_clean(b, keep_flags(single, refs, changed, b), d);
        let r = without_copies(single, refs, changed, bs, k)->0;
        assert forall|i: int| 0 <= i < bs.len() implies clean(#[trigger] r[i], false, d) by {
            if i != k - 1 {
                assert(r[i] == done[i]);
            }
        }
    }
}

/// No reference is renamed more than once.
pub(crate) proof fn lemma_renamed_once(bs: Seq<BlockView>, n: nat, d: VReg)
    requires
        fails_apart(bs),
        bs.len() <= u32::MAX,
        crate::passes::blocks_below(bs, n),
    ensures
        occurrences(resolved(bs, n).hits, d) <= occurrences(all_refs(bs), d),
{
    let single = single_writes(bs, n);
    let len = bs.len() as int;
    lemma_writes_in(bs, n);
    lemma_blocks_count(bs, single, n, len, d);
    let x = walk_blocks(single, n, len, Prop { blocks: bs, hits: seq![], fails: seq![] });
    lemma_fails_count(bs, x, x.fails.len() as int, d);
    let done = done_by(bs, x.fails, x.fails.len() as int);
    assert(bs.take(len) =~= bs);
    lemma_refs_count(bs, len, done, bs, d);
}

proof fn lemma_writes_in(bs: Seq<BlockView>, n: nat)
    requires
        crate::passes::blocks_below(bs, n),
    ensures
        writes_in(bs, n),
{
    assert forall|b: int, i: int|
        0 <= b < bs.len() && 0 <= i < bs[b].code.len() implies ((
    #[trigger] bs[b].code[i]).write() matches Some(x) ==> x.0 < n) by {
        assert(crate::passes::block_below(bs[b], n));
        assert(crate::passes::write_below(bs[b].code[i], n));
    }
}

/// Where a copy is removed, nothing refers to its register any more: no operation reads it, no
/// deoptimization site names it, and no block expects it on entry.
pub proof fn law_removed_copies_are_unread(bs: Seq<BlockView>, n: nat, op: IrView)
    requires
        fails_apart(bs),
        bs.len() <= u32::MAX,
        propagated(bs, n) is Some,
        op is Move,
        removable(single_writes(bs, n), all_refs(bs), resolved(bs, n).hits, op),
    ensures
        !all_refs(propagated(bs, n)->0).contains(op->Move_dst),
{
    let d = op->Move_dst;
    let single = single_writes(bs, n);
    let len = bs.len() as int;
    lemma_writes_in(bs, n);
    lemma_blocks_count(bs, single, n, len, d);
    let x = walk_blocks(single, n, len, Prop { blocks: bs, hits: seq![], fails: seq![] });
    lemma_fails_count(bs, x, x.fails.len() as int, d);
    let y = resolved(bs, n);
    let done = done_by(bs, x.fails, x.fails.len() as int);
    assert(bs.take(len) =~= bs);
    lemma_refs_count(bs, len, done, bs, d);
    assert forall|i: int| 0 <= i < y.blocks.len() implies clean(#[trigger] y.blocks[i], false, d) by {
        assert(clean(y.blocks[i], is_fail(bs, i) && !done[i], d));
        if is_fail(bs, i) && !done[i] {
            assert(y.blocks[i].deopt_sites == bs[i].deopt_sites);
        }
    }
    lemma_without_copies_clean(single, all_refs(bs), y.hits, y.blocks, len, d);
    let r = propagated(bs, n)->0;
    lemma_all_clean(r, d);
    lemma_occurrences_bound(all_refs(r), d);
}

} // verus!

//! Copy propagation names only registers that exist, reads no more than before, and leaves every
//! operation what it was.

use vstd::prelude::*;
use crate::copies::{lemma_raw_refs, lemma_sites_resolved};
use crate::copyprop::{
    alias_after, find_block, keep_flags, killed, law_resolving_maps_operands, operands, propagated,
    resolve, resolve_all, resolve_fails, resolve_op, resolved, single_writes, start_walk, walk,
    walk_blocks, walk_site, walk_sites, without_copies, Alias, Prop, Walk,
};
use crate::endings::{lemma_compact_rets, lemma_same_rets, rets_last};
use crate::ir::{BlockId, BlockView, DeoptView, Ir, IrView, VReg, VRegInfo};
use crate::kinds::{blocks_fit, code_fits, general, lemma_fits_below, op_fits, unboxed};
use crate::passes::{
    all_refs, below, block_below, blocks_below, code_reads, compacted, lemma_block_parts_below,
    lemma_kept_bound, raw_refs, sites_refs, write_below,
};
use crate::promote::{lemma_ops_below, op_below};
use crate::sound_passes::{
    block_shape, blocks_shape, lemma_below_concat, lemma_code_below, lemma_compact_below,
    lemma_find_block, lemma_resolve_fails_shape, lemma_selected, lemma_walk_blocks_shape,
    lemma_without_copies_shape, Sizes,
};
use crate::tidy::lemma_selected_reads;

verus! {

/// Every register that stands for another exists and is of its kind.
spec fn alias_below(alias: Alias, vs: Seq<VRegInfo>) -> bool {
    &&& alias.len() <= vs.len()
    &&& forall|k: int|
        0 <= k < alias.len() && (#[trigger] alias[k]) is Some ==> (alias[k]->0).0 < vs.len()
            && vs[(alias[k]->0).0 as int].is_fp == vs[k].is_fp
}

proof fn lemma_resolve_kind(alias: Alias, v: VReg, vs: Seq<VRegInfo>)
    requires
        alias_below(alias, vs),
        v.0 < vs.len(),
    ensures
        resolve(alias, v).0 < vs.len(),
        general(resolve(alias, v), vs) == general(v, vs),
        unboxed(resolve(alias, v), vs) == unboxed(v, vs),
{
}

/// `b` is `a` with registers renamed.
spec fn renamed(a: IrView, b: IrView, vs: Seq<VRegInfo>) -> bool {
    exists|alias: Alias| alias_below(alias, vs) && b == resolve_op(alias, a)
}

spec fn code_renamed(a: Seq<IrView>, b: Seq<IrView>, vs: Seq<VRegInfo>) -> bool {
    &&& a.len() == b.len()
    &&& forall|i: int| 0 <= i < a.len() ==> renamed(a[i], #[trigger] b[i], vs)
}

proof fn lemma_resolve_below(alias: Alias, s: Seq<VReg>, vs: Seq<VRegInfo>)
    requires
        alias_below(alias, vs),
        below(s, vs.len()),
    ensures
        below(resolve_all(alias, s), vs.len()),
{
    let r = resolve_all(alias, s);
    assert forall|k: int| 0 <= k < r.len() implies (#[trigger] r[k]).0 < vs.len() by {
        assert(r[k] == resolve(alias, s[k]));
        assert(s[k].0 < vs.len());
    }
}

/// What a renamed operation is.
proof fn lemma_renamed(a: IrView, b: IrView, vs: Seq<VRegInfo>)
    requires
        renamed(a, b, vs),
    ensures
        b.reads().len() == a.reads().len(),
        op_below(a, vs.len()) ==> op_below(b, vs.len()),
        op_fits(a, vs) ==> op_fits(b, vs),
        a is Ret == b is Ret,
{
    let alias = choose|alias: Alias| alias_below(alias, vs) && b == resolve_op(alias, a);
    law_resolving_maps_operands(alias, a);
    if op_below(a, vs.len()) && !(a is RetSelf) {
        lemma_resolve_below(alias, a.reads(), vs);
    }
    if op_fits(a, vs) && !(a is RetSelf) {
        let r = a.reads();
        lemma_fits_below(a, vs);
        assert forall|i: int| 0 <= i < r.len() implies b.reads()[i] == resolve(
            alias,
            #[trigger] r[i],
        ) && general(b.reads()[i], vs) == general(r[i], vs) && unboxed(b.reads()[i], vs)
            == unboxed(r[i], vs) by {
            assert(r[i].0 < vs.len());
            lemma_resolve_kind(alias, r[i], vs);
        }
        assert(op_fits(b, vs)) by {
            let q = b.reads();
            assert forall|i: int| 0 <= i < q.len() implies general(#[trigger] q[i], vs)
                == general(r[i], vs) && unboxed(q[i], vs) == unboxed(r[i], vs) by {
                assert(r[i] == a.reads()[i]);
            }
            if r.len() > 0 {
                assert(general(q[0], vs) == general(r[0], vs));
            }
            if r.len() > 1 {
                assert(general(q[1], vs) == general(r[1], vs));
            }
        }
    }
}

proof fn lemma_raw_below(s: Seq<(u32, DeoptView)>, n: nat)
    ensures
        below(sites_refs(s), n) <==> forall|k: int|
            0 <= k < s.len() ==> below(raw_refs((#[trigger] s[k]).1), n),
    decreases s.len(),
{
    if s.len() > 0 {
        let d = s.drop_last();
        lemma_raw_below(d, n);
        lemma_below_concat(sites_refs(d), raw_refs(s.last().1), n);
        if below(sites_refs(s), n) {
            assert forall|k: int| 0 <= k < s.len() implies below(
                raw_refs((#[trigger] s[k]).1),
                n,
            ) by {
                if k < d.len() {
                    assert(below(raw_refs(d[k].1), n));
                }
            }
        }
        if forall|k: int| 0 <= k < s.len() ==> below(raw_refs((#[trigger] s[k]).1), n) {
            assert forall|k: int| 0 <= k < d.len() implies below(
                raw_refs((#[trigger] d[k]).1),
                n,
            ) by {
                assert(below(raw_refs(s[k].1), n));
            }
            assert(below(raw_refs(s[s.len() - 1].1), n));
        }
    }
}

/// What the walk over a block keeps.
spec fn walk_fit(b: BlockView, w: Walk, vs: Seq<VRegInfo>) -> bool {
    &&& alias_below(w.alias, vs)
    &&& w.alias.len() == vs.len()
    &&& forall|k: int| 0 <= k < w.fails.len() ==> alias_below((#[trigger] w.fails[k]).1, vs)
    &&& below(sites_refs(w.block.deopt_sites), vs.len())
    &&& w.block.entry_stack == b.entry_stack
    &&& code_renamed(b.code, w.block.code, vs)
}

proof fn lemma_walk_sites_fit(b: BlockView, i: int, w: Walk, vs: Seq<VRegInfo>)
    requires
        walk_fit(b, w, vs),
    ensures
        walk_fit(b, walk_sites(i, w), vs),
        walk_sites(i, w).block.code == w.block.code,
    decreases w.block.deopt_sites.len() - w.p,
{
    if 0 <= w.p < w.block.deopt_sites.len() && w.block.deopt_sites[w.p].0 == i {
        let v = walk_site(w);
        let s = w.block.deopt_sites;
        let t = v.block.deopt_sites;
        lemma_raw_below(s, vs.len());
        lemma_raw_below(t, vs.len());
        assert forall|k: int| 0 <= k < t.len() implies below(raw_refs((#[trigger] t[k]).1), vs.len()) by {
            assert(below(raw_refs(s[k].1), vs.len()));
            if k == w.p {
                lemma_raw_refs(w.alias, s[k].1);
                lemma_resolve_below(w.alias, raw_refs(s[k].1), vs);
            }
        }
        lemma_walk_sites_fit(b, i, v, vs);
    }
}

proof fn lemma_alias_after_below(alias: Alias, single: Seq<bool>, op: IrView, vs: Seq<VRegInfo>)
    requires
        alias_below(alias, vs),
        alias.len() == vs.len(),
        op_fits(op, vs),
    ensures
        alias_below(alias_after(alias, single, op), vs),
        alias_after(alias, single, op).len() == vs.len(),
{
    let a = match op.write() {
        Some(d) => killed(alias, d),
        None => alias,
    };
    assert forall|k: int| 0 <= k < a.len() && (#[trigger] a[k]) is Some implies (a[k]->0).0 < vs.len() by {
        assert(alias[k] is Some);
    }
    if let Ir::Move { dst, src } = op {
        assert(op.reads()[0] == src);
        let r = resolve(a, src);
        assert(r.0 < vs.len());
        let c = alias_after(alias, single, op);
        assert forall|k: int| 0 <= k < c.len() && (#[trigger] c[k]) is Some implies (c[k]->0).0
            < vs.len() by {
            if c[k] != Some(r) {
                assert(c[k] == a[k]);
            }
        }
    }
}

proof fn lemma_same_renamed(code: Seq<IrView>, vs: Seq<VRegInfo>)
    ensures
        code_renamed(code, code, vs),
{
    let none: Alias = seq![];
    assert forall|i: int| 0 <= i < code.len() implies renamed(code[i], #[trigger] code[i], vs) by {
        let op = code[i];
        law_resolving_maps_operands(none, op);
        assert(alias_below(none, vs));
        assert(resolve_all(none, operands(op)) =~= operands(op));
        assert(resolve_op(none, op) == op) by {
            assert(resolve_op(none, op) == crate::copyprop::with_operands(op, operands(op)));
        }
    }
}

proof fn lemma_walk_fit(b: BlockView, single: Seq<bool>, k: int, w: Walk, vs: Seq<VRegInfo>)
    requires
        w.block == b,
        0 <= k <= b.code.len(),
        walk_fit(b, w, vs),
        code_fits(b.code, vs),
    ensures
        walk_fit(b, walk(single, k, w), vs),
        forall|i: int|
            k <= i < b.code.len() ==> #[trigger] walk(single, k, w).block.code[i] == b.code[i],
    decreases k,
{
    if k > 0 {
        lemma_walk_fit(b, single, k - 1, w, vs);
        let p = walk(single, k - 1, w);
        lemma_walk_sites_fit(b, k - 1, p, vs);
        let w1 = walk_sites(k - 1, p);
        let r = walk(single, k, w);
        let op = w1.block.code[k - 1];
        assert(op == b.code[k - 1]);
        let op1 = resolve_op(w1.alias, op);
        assert(renamed(b.code[k - 1], op1, vs));
        assert(op_fits(b.code[k - 1], vs));
        lemma_renamed(op, op1, vs);
        lemma_alias_after_below(w1.alias, single, op1, vs);
        assert(r.block.code == w1.block.code.update(k - 1, op1));
        assert forall|i: int| 0 <= i < b.code.len() implies renamed(
            b.code[i],
            #[trigger] r.block.code[i],
            vs,
        ) by {
            if i != k - 1 {
                assert(r.block.code[i] == w1.block.code[i]);
                assert(renamed(b.code[i], w1.block.code[i], vs));
            }
        }
        assert forall|j: int| 0 <= j < r.fails.len() implies alias_below(
            (#[trigger] r.fails[j]).1,
            vs,
        ) by {
            if j < w1.fails.len() {
                assert(r.fails[j] == w1.fails[j]);
            }
        }
    }
}

/// What propagation makes of the blocks, before copies are dropped.
spec fn blocks_renamed(bs: Seq<BlockView>, cs: Seq<BlockView>, vs: Seq<VRegInfo>) -> bool {
    &&& cs.len() == bs.len()
    &&& forall|i: int| 0 <= i < bs.len() ==> code_renamed(bs[i].code, (#[trigger] cs[i]).code, vs)
    &&& blocks_below(cs, vs.len())
}

proof fn lemma_block_renamed(b: BlockView, c: BlockView, vs: Seq<VRegInfo>)
    requires
        block_below(b, vs.len()),
        code_renamed(b.code, c.code, vs),
        below(sites_refs(c.deopt_sites), vs.len()),
        c.entry_stack == b.entry_stack,
    ensures
        block_below(c, vs.len()),
{
    lemma_ops_below(b, vs.len());
    lemma_block_parts_below(b, vs.len());
    assert forall|i: int| 0 <= i < c.code.len() implies below(#[trigger] c.code[i].reads(), vs.len())
        && write_below(c.code[i], vs.len()) by {
        assert(renamed(b.code[i], c.code[i], vs));
        assert(op_below(b.code[i], vs.len()));
        lemma_renamed(b.code[i], c.code[i], vs);
    }
    lemma_code_below(c.code, vs.len());
    lemma_below_concat(code_reads(c.code), sites_refs(c.deopt_sites), vs.len());
    lemma_below_concat(code_reads(c.code) + sites_refs(c.deopt_sites), c.entry_stack, vs.len());
}

proof fn lemma_walk_blocks_fit(bs: Seq<BlockView>, single: Seq<bool>, k: int, vs: Seq<VRegInfo>)
    requires
        blocks_below(bs, vs.len()),
        blocks_fit(bs, vs),
        0 <= k <= bs.len(),
    ensures
        ({
            let y = walk_blocks(single, vs.len(), k, Prop { blocks: bs, hits: seq![], fails: seq![] });
            &&& blocks_renamed(bs, y.blocks, vs)
            &&& forall|i: int| k <= i < bs.len() ==> #[trigger] y.blocks[i] == bs[i]
            &&& forall|j: int| 0 <= j < y.fails.len() ==> alias_below((#[trigger] y.fails[j]).1, vs)
        }),
    decreases k,
{
    let x = Prop { blocks: bs, hits: seq![], fails: seq![] };
    if k > 0 {
        lemma_walk_blocks_fit(bs, single, k - 1, vs);
        let y = walk_blocks(single, vs.len(), k - 1, x);
        let b = y.blocks[k - 1];
        assert(b == bs[k - 1]);
        assert(block_below(bs[k - 1], vs.len()));
        assert(code_fits(bs[k - 1].code, vs));
        let w0 = start_walk(vs.len(), b, y);
        lemma_same_renamed(b.code, vs);
        lemma_block_parts_below(b, vs.len());
        assert(walk_fit(b, w0, vs));
        lemma_walk_fit(b, single, b.code.len() as int, w0, vs);
        let w = walk(single, b.code.len() as int, w0);
        lemma_block_renamed(b, w.block, vs);
        let z = walk_blocks(single, vs.len(), k, x);
        assert forall|i: int| 0 <= i < bs.len() implies code_renamed(
            bs[i].code,
            (#[trigger] z.blocks[i]).code,
            vs,
        ) && block_below(z.blocks[i], vs.len()) by {
            if i != k - 1 {
                assert(z.blocks[i] == y.blocks[i]);
                assert(code_renamed(bs[i].code, y.blocks[i].code, vs));
                assert(block_below(y.blocks[i], vs.len()));
            }
        }
        assert forall|i: int| k <= i < bs.len() implies #[trigger] z.blocks[i] == bs[i] by {
            assert(z.blocks[i] == y.blocks[i]);
        }
    } else {
        assert forall|i: int| 0 <= i < bs.len() implies code_renamed(
            bs[i].code,
            (#[trigger] bs[i]).code,
            vs,
        ) by {
            lemma_same_renamed(bs[i].code, vs);
        }
    }
}

proof fn lemma_resolve_fails_fit(
    bs: Seq<BlockView>,
    fails: Seq<(BlockId, Alias)>,
    k: int,
    x: Prop,
    vs: Seq<VRegInfo>,
)
    requires
        blocks_renamed(bs, x.blocks, vs),
        0 <= k <= fails.len(),
        forall|j: int| 0 <= j < fails.len() ==> alias_below((#[trigger] fails[j]).1, vs),
    ensures
        blocks_renamed(bs, resolve_fails(fails, k, x).blocks, vs),
    decreases k,
{
    if k > 0 {
        lemma_resolve_fails_fit(bs, fails, k - 1, x, vs);
        let y = resolve_fails(fails, k - 1, x);
        let (id, alias) = fails[k - 1];
        assert(alias_below(fails[k - 1].1, vs));
        let j = find_block(y.blocks, id, 0);
        lemma_find_block(y.blocks, id, 0);
        let z = resolve_fails(fails, k, x);
        if j < y.blocks.len() {
            let b = y.blocks[j];
            let c = z.blocks[j];
            assert(block_below(b, vs.len()));
            lemma_block_parts_below(b, vs.len());
            lemma_sites_resolved(alias, b.deopt_sites);
            lemma_resolve_below(alias, sites_refs(b.deopt_sites), vs);
            lemma_same_renamed(b.code, vs);
            lemma_block_renamed(b, c, vs);
            assert forall|i: int| 0 <= i < bs.len() implies code_renamed(
                bs[i].code,
                (#[trigger] z.blocks[i]).code,
                vs,
            ) && block_below(z.blocks[i], vs.len()) by {
                assert(code_renamed(bs[i].code, y.blocks[i].code, vs));
                assert(block_below(y.blocks[i], vs.len()));
                if i != j {
                    assert(z.blocks[i] == y.blocks[i]);
                }
            }
        }
    }
}

/// What propagation makes of one block.
pub open spec fn shrunk(b: BlockView, c: BlockView, vs: Seq<VRegInfo>) -> bool {
    &&& code_fits(b.code, vs) ==> code_fits(c.code, vs)
    &&& c.code.len() <= b.code.len()
    &&& code_reads(c.code).len() <= code_reads(b.code).len()
    &&& rets_last(b.code) ==> rets_last(c.code)
}

proof fn lemma_renamed_reads(a: Seq<IrView>, b: Seq<IrView>, vs: Seq<VRegInfo>, k: int)
    requires
        code_renamed(a, b, vs),
        0 <= k <= a.len(),
    ensures
        code_reads(b.take(k)).len() == code_reads(a.take(k)).len(),
    decreases k,
{
    if k > 0 {
        lemma_renamed_reads(a, b, vs, k - 1);
        assert(a.take(k).drop_last() =~= a.take(k - 1));
        assert(b.take(k).drop_last() =~= b.take(k - 1));
        assert(renamed(a[k - 1], b[k - 1], vs));
        lemma_renamed(a[k - 1], b[k - 1], vs);
    } else {
        assert(a.take(0) =~= seq![]);
        assert(b.take(0) =~= seq![]);
    }
}

proof fn lemma_shrunk(
    b: BlockView,
    x: BlockView,
    keep: Seq<bool>,
    vs: Seq<VRegInfo>,
)
    requires
        code_renamed(b.code, x.code, vs),
        compacted(x, keep) is Some,
    ensures
        shrunk(b, compacted(x, keep)->0, vs),
{
    let c = compacted(x, keep)->0;
    let len = x.code.len() as int;
    lemma_renamed_reads(b.code, x.code, vs, len);
    assert(b.code.take(len) =~= b.code);
    assert(x.code.take(len) =~= x.code);
    if !(forall|i: int| 0 <= i < x.code.len() ==> keep[i]) {
        lemma_selected(x.code, keep, len);
        lemma_selected_reads(x.code, keep, len);
        lemma_kept_bound(keep, len);
    }
    if rets_last(b.code) {
        assert forall|i: int| 0 <= i < b.code.len() implies (#[trigger] x.code[i]) is Ret
            == b.code[i] is Ret by {
            assert(renamed(b.code[i], x.code[i], vs));
            lemma_renamed(b.code[i], x.code[i], vs);
        }
        lemma_same_rets(b.code, x.code);
        lemma_compact_rets(x, keep);
    }
    if code_fits(b.code, vs) {
        assert forall|j: int| 0 <= j < c.code.len() implies op_fits(#[trigger] c.code[j], vs) by {
            assert(x.code.contains(c.code[j])) by {
                if c.code == x.code {
                    assert(x.code[j] == c.code[j]);
                }
            }
            let i = choose|i: int| 0 <= i < x.code.len() && x.code[i] == c.code[j];
            assert(renamed(b.code[i], x.code[i], vs));
            assert(op_fits(b.code[i], vs));
            lemma_renamed(b.code[i], x.code[i], vs);
        }
    }
}

proof fn lemma_without_copies_fit(
    bs: Seq<BlockView>,
    single: Seq<bool>,
    refs: Seq<VReg>,
    changed: Seq<VReg>,
    xs: Seq<BlockView>,
    k: int,
    vs: Seq<VRegInfo>,
    z: Sizes,
)
    requires
        blocks_renamed(bs, xs, vs),
        blocks_shape(xs, z),
        0 <= k <= xs.len(),
        without_copies(single, refs, changed, xs, k) is Some,
    ensures
        ({
            let r = without_copies(single, refs, changed, xs, k)->0;
            &&& r.len() == bs.len()
            &&& blocks_below(r, vs.len())
            &&& forall|i: int| 0 <= i < k ==> shrunk(bs[i], #[trigger] r[i], vs)
            &&& forall|i: int| k <= i < bs.len() ==> #[trigger] r[i] == xs[i]
        }),
    decreases k,
{
    if k > 0 {
        lemma_without_copies_fit(bs, single, refs, changed, xs, k - 1, vs, z);
        lemma_without_copies_shape(single, refs, changed, xs, k - 1, z);
        let done = without_copies(single, refs, changed, xs, k - 1)->0;
        let r = without_copies(single, refs, changed, xs, k)->0;
        let x = done[k - 1];
        assert(x == xs[k - 1]);
        assert(block_shape(x, z));
        assert(block_below(x, vs.len()));
        assert(code_renamed(bs[k - 1].code, xs[k - 1].code, vs));
        let keep = keep_flags(single, refs, changed, x);
        lemma_compact_below(x, keep, vs.len(), z);
        lemma_shrunk(bs[k - 1], x, keep, vs);
        assert forall|i: int| 0 <= i < r.len() implies block_below(#[trigger] r[i], vs.len()) by {
            if i != k - 1 {
                assert(r[i] == done[i]);
            }
        }
        assert forall|i: int| 0 <= i < k implies shrunk(bs[i], #[trigger] r[i], vs) by {
            if i != k - 1 {
                assert(r[i] == done[i]);
            }
        }
        assert forall|i: int| k <= i < bs.len() implies #[trigger] r[i] == xs[i] by {
            assert(r[i] == done[i]);
        }
    }
}

/// Copy propagation keeps registers in range, and counts from growing.
pub(crate) proof fn lemma_propagated_fit(
    bs: Seq<BlockView>,
    vs: Seq<VRegInfo>,
    z: Sizes,
)
    requires
        blocks_shape(bs, z),
        blocks_fit(bs, vs),
        propagated(bs, vs.len()) is Some,
    ensures
        blocks_fit(propagated(bs, vs.len())->0, vs),
        blocks_below(propagated(bs, vs.len())->0, vs.len()),
        (propagated(bs, vs.len())->0).len() == bs.len(),
        forall|i: int| 0 <= i < bs.len() ==> shrunk(bs[i], #[trigger] (propagated(bs, vs.len())->0)[i], vs),
{
    let single = single_writes(bs, vs.len());
    let x0 = Prop { blocks: bs, hits: seq![], fails: seq![] };
    lemma_walk_blocks_shape(single, vs.len(), bs.len() as int, x0, z);
    lemma_walk_blocks_fit(bs, single, bs.len() as int, vs);
    let x = walk_blocks(single, vs.len(), bs.len() as int, x0);
    lemma_resolve_fails_shape(x.fails, x.fails.len() as int, x, z);
    lemma_resolve_fails_fit(bs, x.fails, x.fails.len() as int, x, vs);
    let y = resolved(bs, vs.len());
    lemma_without_copies_fit(
        bs,
        single,
        all_refs(bs),
        y.hits,
        y.blocks,
        y.blocks.len() as int,
        vs,
        z,
    );
    let r = propagated(bs, vs.len())->0;
    assert forall|i: int| 0 <= i < r.len() implies code_fits((#[trigger] r[i]).code, vs) by {
        assert(shrunk(bs[i], r[i], vs));
        assert(code_fits(bs[i].code, vs));
    }
}

} // verus!

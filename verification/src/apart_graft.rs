//! Grafting keeps fail blocks apart.

use vstd::prelude::*;
use crate::apart::{
    ap, apart, apart_alloc_op, apart_array_op, apart_block_body, apart_body_send, apart_ctx_push,
    apart_ctx_store, apart_double_op, apart_enter_body, apart_nil_temps, apart_nlr_op,
    apart_not_op, apart_ref_op, apart_simple, apart_smi_op, blocks_use, code_apart, code_uses,
    ext, extends, goes, group_apart, lemma_alloc_out_blocks, lemma_extends_trans, ready, unused,
    Blocks,
};
use crate::classify::{array_kind, double_kind, not_speculatable, ref_eq, smi_kind};
use crate::copyprop::fail_edge;
use crate::depths::{entry_depths, entry_sources, feed, moves, EntryStackSource};
use crate::graft::{
    block_entry, block_site, dead_block, fresh_blocks, fresh_regs, graft_all, graft_block_send,
    graft_blocks, graft_cfg, graft_extent, graft_instr, graft_plain_send, graft_send, graft_start,
    graft_step, graft_terminator, graft_walk, guard_closures, inner_block, inner_block_proto,
    merge_regs, no_phantom, phantom_closures, rank, resized, return_op, scaffold, seg_block,
    start_pos, BlockArg, ExtentView, GraftView, Pos, WalkEnd,
};
use crate::ir::{BlockId, BlockView, DeoptView, Ir, IrView, VReg};
use crate::ops::{alloc_out, alloc_site, arg_is_pooled};
use crate::scopes::SafepointKind;
use crate::splice::{enter_body, next_regs, nil_temps, SiteView};
use crate::translator::{pool_oop, put_block, CtxView, OutView, SegView, St};
use crate::world::{Instr, InterpreterIc, Terminator};

verus! {

/// The block exists and is not finished.
pub open spec fn vacant(bl: Blocks, b: BlockId) -> bool {
    b.0 < bl.len() && bl[b.0 as int] is None
}

proof fn lemma_put_uses(bl: Blocks, b: BlockView, e: BlockId)
    requires
        vacant(bl, b.id),
    ensures
        blocks_use(put_block(bl, b.id.0 as int, b), e) <==> blocks_use(bl, e) || code_uses(b.code, e),
{
    let id = b.id.0 as int;
    let bl2 = put_block(bl, id, b);
    if blocks_use(bl, e) {
        let i = choose|i: int|
            0 <= i < bl.len() && (#[trigger] bl[i]) is Some && code_uses((bl[i]->0).code, e);
        assert(bl2[i] == bl[i]);
    }
    if code_uses(b.code, e) {
        assert(bl2[id] == Some(b));
    }
    if blocks_use(bl2, e) {
        let i = choose|i: int|
            0 <= i < bl2.len() && (#[trigger] bl2[i]) is Some && code_uses((bl2[i]->0).code, e);
        if i != id {
            assert(bl2[i] == bl[i]);
        }
    }
}

/// Finishing a block with the code at hand leaves no code.
pub(crate) proof fn lemma_finish(bl: Blocks, code: Seq<IrView>, b: BlockView)
    requires
        apart(bl, code),
        vacant(bl, b.id),
        b.code == code,
    ensures
        apart(put_block(bl, b.id.0 as int, b), Seq::empty()),
{
    reveal(apart);
    let id = b.id.0 as int;
    let bl2 = put_block(bl, id, b);
    let none = Seq::<IrView>::empty();
    assert forall|e: BlockId| #[trigger] blocks_use(bl2, e) implies ready(bl2, e) by {
        lemma_put_uses(bl, b, e);
        assert(ready(bl, e));
    }
    assert forall|i: int, j: int, e: BlockId|
        0 <= i < j < bl2.len() && bl2[i] is Some && bl2[j] is Some implies !(#[trigger] code_uses(
        (bl2[i]->0).code,
        e,
    ) && #[trigger] code_uses((bl2[j]->0).code, e)) by {
        if i == id {
            assert(bl2[j] == bl[j]);
            if code_uses((bl[j]->0).code, e) {
                assert(bl[j] is Some);
                assert(blocks_use(bl, e));
            }
        } else if j == id {
            assert(bl2[i] == bl[i]);
            if code_uses((bl[i]->0).code, e) {
                assert(bl[i] is Some);
                assert(blocks_use(bl, e));
            }
        } else {
            assert(bl2[i] == bl[i] && bl2[j] == bl[j]);
        }
    }
    assert forall|i: int| 0 <= i < bl2.len() && (#[trigger] bl2[i]) is Some implies code_apart(
        (bl2[i]->0).code,
    ) by {
        if i != id {
            assert(bl2[i] == bl[i]);
        }
    }
    assert forall|e: BlockId| #[trigger] code_uses(none, e) implies ready(bl2, e) && !blocks_use(
        bl2,
        e,
    ) by {}
}

/// Appended operations that cannot fail change nothing.
pub(crate) proof fn lemma_append(s: St, ops: Seq<IrView>)
    requires
        forall|p: int| 0 <= p < ops.len() ==> fail_edge(#[trigger] ops[p]) is None,
    ensures
        forall|bl: Blocks| #[trigger]
            apart(bl, s.seg.code) ==> apart(bl, s.seg.code + ops),
        forall|bl: Blocks, e: BlockId| #[trigger]
            unused(bl, s.seg.code, e) ==> unused(bl, s.seg.code + ops, e),
        forall|bl: Blocks, c: Seq<IrView>, bl2: Blocks| #[trigger]
            extends(bl, c, bl2, s.seg.code) ==> extends(bl, c, bl2, s.seg.code + ops),
    decreases ops.len(),
{
    broadcast use group_apart;

    if ops.len() == 0 {
        assert(s.seg.code + ops =~= s.seg.code);
    } else {
        let d = ops.drop_last();
        assert forall|p: int| 0 <= p < d.len() implies fail_edge(#[trigger] d[p]) is None by {
            assert(fail_edge(ops[p]) is None);
        }
        lemma_append(s, d);
        assert(s.seg.code + ops =~= (s.seg.code + d).push(ops.last()));
        assert(fail_edge(ops[ops.len() - 1]) is None);
    }
}

pub(crate) proof fn apart_feed(
    sources: Seq<EntryStackSource>,
    entry_stacks: Seq<Option<Seq<VReg>>>,
    t: int,
    exit: Seq<VReg>,
    s: St,
)
    ensures
        feed(sources, entry_stacks, t, exit, s.seg) matches Some(g) ==> {
            &&& forall|bl: Blocks| #[trigger] apart(bl, s.seg.code) ==> apart(bl, g.code)
            &&& forall|bl: Blocks, e: BlockId| #[trigger]
                unused(bl, s.seg.code, e) ==> unused(bl, g.code, e)
            &&& forall|bl: Blocks, c: Seq<IrView>, bl2: Blocks| #[trigger]
                extends(bl, c, bl2, s.seg.code) ==> extends(bl, c, bl2, g.code)
        },
{
    if sources[t] is Merge && entry_stacks[t] is Some && (entry_stacks[t]->0).len() == exit.len() {
        let ops = moves(entry_stacks[t]->0, exit);
        assert forall|p: int| 0 <= p < ops.len() implies fail_edge(#[trigger] ops[p]) is None by {}
        lemma_append(s, ops);
    }
}

proof fn apart_fresh_blocks(o: OutView, n: nat)
    ensures
        fresh_blocks(o, n).blocks.len() == o.blocks.len() + n,
        forall|i: int|
            0 <= i < o.blocks.len() ==> #[trigger] fresh_blocks(o, n).blocks[i] == o.blocks[i],
        forall|i: int|
            o.blocks.len() <= i < o.blocks.len() + n ==> #[trigger] fresh_blocks(
                o,
                n,
            ).blocks[i] is None,
        forall|code: Seq<IrView>| #[trigger]
            apart(o.blocks, code) ==> apart(fresh_blocks(o, n).blocks, code),
        forall|bl: Blocks, c: Seq<IrView>, code: Seq<IrView>| #[trigger]
            extends(bl, c, o.blocks, code) ==> extends(bl, c, fresh_blocks(o, n).blocks, code),
    decreases n,
{
    broadcast use group_apart;

    if n > 0 {
        apart_fresh_blocks(o, (n - 1) as nat);
    }
}

proof fn lemma_fresh_regs_blocks(o: OutView, n: nat)
    ensures
        fresh_regs(o, n).blocks == o.blocks,
    decreases n,
{
    if n > 0 {
        lemma_fresh_regs_blocks(o, (n - 1) as nat);
    }
}

pub(crate) proof fn lemma_merge_regs_blocks(
    sources: Seq<EntryStackSource>,
    depths: Seq<i32>,
    k: nat,
    o: OutView,
)
    ensures
        merge_regs(sources, depths, k, o) matches Some((p, _)) ==> p.blocks == o.blocks,
    decreases k,
{
    if k > 0 {
        lemma_merge_regs_blocks(sources, depths, (k - 1) as nat, o);
        match merge_regs(sources, depths, (k - 1) as nat, o) {
            Some((p, _)) => {
                if depths[k - 1] >= 0 {
                    lemma_fresh_regs_blocks(p, depths[k - 1] as nat);
                }
            },
            None => {},
        }
    }
}

/// The blocks of an extent: all different, none before `base`.
spec fn ids_apart(x: ExtentView, base: int) -> bool {
    &&& x.ids.len() == x.m.cfg.blocks@.len()
    &&& forall|i: int| 0 <= i < x.ids.len() ==> base <= (#[trigger] x.ids[i]).0 && x.ids[i] != x.cont
    &&& forall|i: int, j: int|
        0 <= i < j < x.ids.len() ==> (#[trigger] x.ids[i]) != (#[trigger] x.ids[j])
    &&& base <= x.cont.0
}

/// The blocks from the `b`-th on are not finished, and neither is the continuation.
spec fn ids_vacant(x: ExtentView, b: int, bl: Blocks) -> bool {
    &&& forall|i: int| b <= i < x.ids.len() ==> vacant(bl, #[trigger] x.ids[i])
    &&& vacant(bl, x.cont)
}

proof fn apart_graft_start(
    cx: CtxView,
    x: SiteView,
    blockarg: Option<BlockArg>,
    mode: GraftView,
    s: St,
)
    requires
        ap(s),
    ensures
        graft_start(cx, x, blockarg, mode, s) matches Some((t, e)) ==> goes(s, Some(t)) && (
        e matches Some(e) ==> ids_apart(e, s.out.blocks.len() as int) && ids_vacant(
            e,
            0,
            t.out.blocks,
        )),
{
    let m = cx.vm.m(x.callee);
    let n = m.cfg.blocks@.len();
    if mode.is_block && s.out.spliced_multibb == u32::MAX {
    } else {
        broadcast use group_apart;

        let sa = if mode.is_block {
            s.with_out(OutView { spliced_multibb: (s.out.spliced_multibb + 1) as u32, ..s.out })
        } else {
            s
        };
        let sb = sa.intern(pool_oop(m.oop));
        assert(sb.out.blocks == s.out.blocks);
        let gc = guard_closures(blockarg, s.depth());
        apart_enter_body(cx.vm, x, gc, sb);
        if enter_body(cx.vm, x, gc, sb) is Some {
            let s1 = enter_body(cx.vm, x, gc, sb)->0;
            apart_fresh_blocks(s1.out, n + 1);
            let o0 = fresh_blocks(s1.out, n + 1).fresh(true);
            lemma_merge_regs_blocks(
                entry_sources(m.cfg, entry_depths(m, m.cfg)),
                entry_depths(m, m.cfg),
                n,
                o0,
            );
            if scaffold(m, s1.out) is Some {
                let (o1, es) = scaffold(m, s1.out)->0;
                let e = graft_extent(cx, x, blockarg, mode, s, s1.out, es);
                assert(o1.blocks == fresh_blocks(s1.out, n + 1).blocks);
                assert(apart(s1.out.blocks, s1.seg.code));
                assert(extends(s.out.blocks, s.seg.code, s1.out.blocks, s1.seg.code));
                assert forall|i: int| 0 <= i < e.ids.len() implies vacant(
                    o1.blocks,
                    #[trigger] e.ids[i],
                ) by {
                    assert(e.ids[i].0 == s1.out.blocks.len() + i);
                    assert(fresh_blocks(s1.out, n + 1).blocks[s1.out.blocks.len() + i] is None);
                }
                assert(e.cont.0 == s1.out.blocks.len() + n);
                assert(fresh_blocks(s1.out, n + 1).blocks[(s1.out.blocks.len() + n) as int] is None);
                assert(ids_apart(e, s.out.blocks.len() as int));
            }
        }
    }
}

proof fn apart_return_op(x: ExtentView, v: VReg, s: St)
    requires
        ap(s),
    ensures
        goes(s, Some(return_op(x, v, s))),
{
    broadcast use group_apart;

}

proof fn apart_graft_instr(cx: CtxView, x: ExtentView, i: Instr, s: St)
    requires
        ap(s),
    ensures
        graft_instr(cx, x, i, s) matches Some((t, _)) ==> goes(s, Some(t)),
{
    broadcast use group_apart;

    match i {
        Instr::ReturnTos => apart_return_op(x, s.top(0), s.drop(1)),
        Instr::ReturnSelf => apart_return_op(x, x.this, s),
        Instr::BlockReturnTos => apart_return_op(x, s.top(0), s.drop(1)),
        Instr::NlrTos => apart_nlr_op(s),
        Instr::PushCtxTemp { idx, .. } => apart_ctx_push(cx, cx.method_ctx_vreg, idx, s),
        Instr::StoreCtxTempPop { idx, .. } => apart_ctx_store(cx, cx.method_ctx_vreg, idx, s),
        _ => apart_simple(cx.vm, x.m, i, x.this, x.slots, true, s),
    }
}

proof fn apart_graft_plain_send(
    cx: CtxView,
    x: ExtentView,
    ic: InterpreterIc,
    bci: usize,
    ph: Seq<bool>,
    s: St,
)
    requires
        ap(s),
    ensures
        graft_plain_send(cx, x, ic, bci, ph, s) matches Some(r) ==> goes(s, Some(r.0)),
{
    if s.depth() >= ic.argc + 1 {
        let below = resized(ph, (s.depth() - ic.argc - 1) as nat);
        let closures = match x.blockarg {
            Some(a) => phantom_closures(below, a.pool_ix),
            None => seq![],
        };
        apart_body_send(cx, ic, x.this, x.klass, bci, closures, x.proto, s);
    }
}

proof fn apart_graft_send(
    cx: CtxView,
    x: ExtentView,
    ic: InterpreterIc,
    bci: usize,
    ph: Seq<bool>,
    s: St,
)
    requires
        ap(s),
    ensures
        graft_send(cx, x, ic, bci, ph, s) matches Some(r) ==> goes(s, Some(r.0)),
{
    let vm = cx.vm;
    let proto = Some(x.proto);
    apart_graft_plain_send(cx, x, ic, bci, ph, s);
    if array_kind(vm, ic) is Some {
        apart_array_op(vm, array_kind(vm, ic)->0, bci, proto, s);
    } else if ref_eq(vm, ic) is Some && no_phantom(ph, 2) {
        apart_ref_op(ref_eq(vm, ic)->0, s);
    } else if not_speculatable(vm, ic) && no_phantom(ph, 1) {
        apart_not_op(vm, ic.selector, bci, proto, s);
    } else if smi_kind(vm, ic) is Some && !arg_is_pooled(s) {
        apart_smi_op(smi_kind(vm, ic)->0, bci, proto, s);
    } else if double_kind(vm, ic) is Some {
        apart_double_op(double_kind(vm, ic)->0, bci, proto, s);
    } else if ic.argc == 0 && no_phantom(ph, ph.len() as int) && s.depth() > 0 {
        let s1 = s.with_out(alloc_out(vm, s.out, ic, s.top(0), x.this, x.klass));
        lemma_alloc_out_blocks(vm, s, ic, s.top(0), x.this, x.klass);
        apart_graft_plain_send(cx, x, ic, bci, ph, s1);
        match alloc_site(vm, s.out, ic, s.top(0), x.this, x.klass) {
            Some((k, n)) => apart_alloc_op(k, n, bci, proto, s1),
            None => {},
        }
    }
}

proof fn apart_graft_terminator(x: ExtentView, b: int, last: usize, s: St, reach: Seq<bool>)
    requires
        ap(s),
    ensures
        graft_terminator(x, b, last, s, reach) matches Some((t, _)) ==> goes(s, Some(t)),
{
    broadcast use group_apart;

    match x.m.cfg.blocks@[b].terminator {
        Terminator::Return => {},
        Terminator::Fallthrough(t) => {
            apart_feed(x.sources, x.entry_stacks, t as int, s.seg.stack, s);
            assert(ext(s, s));
            assert(apart(s.out.blocks, s.seg.code));
        },
        Terminator::Jump { target, is_backward } => {
            let raw = DeoptView {
                stack: s.seg.stack,
                bci: x.m.cfg.blocks@[target as int].bci_start,
                kind: SafepointKind::LoopPoll,
                reexecute: true,
                stack_closures: seq![],
                inline: Some(x.proto),
            };
            let s1 = if is_backward {
                s.site(raw).emit(Ir::Poll)
            } else {
                s
            };
            assert(ap(s1));
            assert(ext(s, s1));
            apart_feed(x.sources, x.entry_stacks, target as int, s1.seg.stack, s1);
            assert(apart(s1.out.blocks, s1.seg.code));
            assert(extends(s.out.blocks, s.seg.code, s1.out.blocks, s1.seg.code));
        },
        Terminator::Branch { if_true, if_false } => {
            if s.depth() > 0 && s.out.can_block() {
                let s1 = s.drop(1).with_out(s.out.trap(last, s.seg.stack, seq![], Some(x.proto)));
                let e = s.out.block_id();
                assert(ap(s1));
                assert(ext(s, s1));
                assert(unused(s.out.blocks, s.seg.code, e));
                assert(unused(s1.out.blocks, s1.seg.code, e));
                apart_feed(x.sources, x.entry_stacks, if_true as int, s1.seg.stack, s1);
                match feed(x.sources, x.entry_stacks, if_true as int, s1.seg.stack, s1.seg) {
                    None => {},
                    Some(g1) => {
                        let s2 = St { seg: g1, ..s1 };
                        apart_feed(x.sources, x.entry_stacks, if_false as int, s1.seg.stack, s2);
                        match feed(
                            x.sources,
                            x.entry_stacks,
                            if_false as int,
                            s1.seg.stack,
                            g1,
                        ) {
                            None => {},
                            Some(g2) => {
                                assert(unused(s1.out.blocks, g2.code, e));
                                assert(apart(s1.out.blocks, g2.code));
                                assert(ready(s1.out.blocks, e));
                                assert(extends(
                                    s.out.blocks,
                                    s.seg.code,
                                    s1.out.blocks,
                                    s1.seg.code,
                                ));
                                assert(extends(s.out.blocks, s.seg.code, s1.out.blocks, g1.code));
                                assert(extends(s.out.blocks, s.seg.code, s1.out.blocks, g2.code));
                            },
                        }
                    },
                }
            }
        },
    }
}

proof fn apart_inner_block(
    cx: CtxView,
    x: ExtentView,
    a: BlockArg,
    args: Seq<VReg>,
    bci: usize,
    s: St,
)
    requires
        ap(s),
    ensures
        inner_block(cx, x, a, args, bci, s) matches Some((t, _)) ==> goes(s, Some(t)),
{
    reveal(inner_block);
    let m = cx.vm.m(a.block);
    let nil = pool_oop(cx.vm.universe.nil_obj);
    let slots = args + next_regs(s.out, m.ntemps as nat);
    let s1 = nil_temps(s.lit(nil), m.ntemps as nat, s.intern(nil));
    apart_nil_temps(s.lit(nil), m.ntemps as nat, s.intern(nil));
    let proto = inner_block_proto(cx, x, a, slots, bci, s.seg.stack);
    apart_block_body(cx, m, cx.self_vreg, slots, proto, s1);
    match inner_block(cx, x, a, args, bci, s) {
        Some((t, _)) => lemma_extends_trans(s, s1, t),
        None => {},
    }
}

/// From one state in a block to a later one, the block perhaps finished in between and another
/// begun: all other blocks stay as they are, and new operations fail to new blocks.
#[verifier::opaque]
pub open spec fn advances(s: St, cur: BlockId, t: St, cur2: BlockId) -> bool {
    &&& s.out.blocks.len() <= t.out.blocks.len()
    &&& forall|i: int|
        0 <= i < s.out.blocks.len() && i != cur.0 ==> #[trigger] t.out.blocks[i] == s.out.blocks[i]
    &&& forall|e: BlockId| #[trigger]
        code_uses(t.seg.code, e) ==> code_uses(s.seg.code, e) || blocks_use(s.out.blocks, e) || e.0
            >= s.out.blocks.len()
    &&& forall|e: BlockId| #[trigger]
        blocks_use(t.out.blocks, e) ==> code_uses(s.seg.code, e) || blocks_use(s.out.blocks, e)
            || e.0 >= s.out.blocks.len()
    &&& vacant(t.out.blocks, cur2)
    &&& cur2 == cur || cur2.0 >= s.out.blocks.len()
}

pub(crate) proof fn lemma_advances(s: St, t: St, cur: BlockId)
    requires
        ext(s, t),
        vacant(s.out.blocks, cur),
    ensures
        advances(s, cur, t, cur),
{
    reveal(extends);
    reveal(advances);
}

pub(crate) proof fn lemma_advances_trans(
    s: St,
    a: BlockId,
    t: St,
    b: BlockId,
    u: St,
    c: BlockId,
)
    requires
        advances(s, a, t, b),
        advances(t, b, u, c),
    ensures
        advances(s, a, u, c),
{
    reveal(advances);
    assert forall|i: int| 0 <= i < s.out.blocks.len() && i != a.0 implies
        #[trigger] u.out.blocks[i] == s.out.blocks[i] by {
        assert(t.out.blocks[i] == s.out.blocks[i]);
    }
}

/// Ending a block and beginning another that was not finished.
pub(crate) proof fn lemma_turns(s: St, cur: BlockId, t: St, b: BlockView, stack: Seq<VReg>, next: BlockId)
    requires
        ap(t),
        ext(s, t),
        vacant(s.out.blocks, cur),
        b.id == cur,
        b.code == t.seg.code,
        vacant(t.out.blocks, next),
        next.0 >= s.out.blocks.len(),
    ensures
        ({
            let u = St {
                out: t.out.finish(b),
                seg: SegView { stack, code: Seq::empty(), deopt: Seq::empty() },
            };
            ap(u) && advances(s, cur, u, next)
        }),
{
    reveal(extends);
    reveal(advances);
    let bl = t.out.blocks;
    assert(vacant(bl, cur)) by {
        assert(bl[cur.0 as int] == s.out.blocks[cur.0 as int]);
    }
    lemma_finish(bl, t.seg.code, b);
    let bl2 = put_block(bl, b.id.0 as int, b);
    assert forall|e: BlockId| #[trigger] blocks_use(bl2, e) implies code_uses(s.seg.code, e)
        || blocks_use(s.out.blocks, e) || e.0 >= s.out.blocks.len() by {
        lemma_put_uses(bl, b, e);
    }
    assert forall|i: int| 0 <= i < s.out.blocks.len() && i != cur.0 implies #[trigger] bl2[i]
        == s.out.blocks[i] by {
        assert(bl[i] == s.out.blocks[i]);
    }
}

spec fn pos_ap(p: Pos) -> bool {
    ap(p.s) && vacant(p.s.out.blocks, p.cur)
}

spec fn pos_goes(p: Pos, q: Pos) -> bool {
    ap(q.s) && advances(p.s, p.cur, q.s, q.cur)
}

proof fn lemma_pos_vacant(p: Pos, q: Pos)
    requires
        pos_goes(p, q),
    ensures
        pos_ap(q),
        p.s.out.blocks.len() <= q.s.out.blocks.len(),
{
    reveal(advances);
}

proof fn apart_graft_block_send(
    cx: CtxView,
    x: ExtentView,
    b: int,
    entry: Seq<VReg>,
    a: BlockArg,
    ic: InterpreterIc,
    bci: usize,
    p: Pos,
)
    requires
        pos_ap(p),
    ensures
        graft_block_send(cx, x, b, entry, a, ic, bci, p) matches Some((q, _)) ==> pos_goes(p, q),
    decreases rank(x.blockarg), 0nat, 0int,
{
    broadcast use group_apart;

    let depth = p.s.depth();
    let args = p.s.seg.stack.subrange(depth - ic.argc, depth as int);
    let s = p.s.drop(ic.argc + 1);
    if x.blockarg is None {
    } else if cx.vm.m(a.block).cfg.blocks@.len() > 1 {
        let site = block_site(cx, x.dep_klass, a, ic, args, bci);
        let mode = GraftView { is_block: true, parent: Some(Box::new(x.proto)) };
        apart_graft_cfg(cx, site, None, mode, s);
        match graft_cfg(cx, site, None, mode, s) {
            Some((s1, Some((res, enter, cont)))) => {
                let s2 = s1.emit(Ir::Jump { target: enter });
                assert(ap(s2));
                assert(ext(p.s, s2));
                let blk = seg_block(x, b, p.cur, entry, s2.seg);
                lemma_turns(p.s, p.cur, s2, blk, s1.seg.stack.push(res), cont);
            },
            _ => {},
        }
    } else {
        apart_inner_block(cx, x, a, args, bci, s);
        match inner_block(cx, x, a, args, bci, s) {
            Some((s1, _)) => lemma_advances(p.s, s1, p.cur),
            None => {},
        }
        match graft_block_send(cx, x, b, entry, a, ic, bci, p) {
            Some((q, _)) => lemma_advances(p.s, q.s, p.cur),
            None => {},
        }
    }
}

proof fn apart_graft_step(
    cx: CtxView,
    x: ExtentView,
    b: int,
    entry: Seq<VReg>,
    bci: usize,
    i: Instr,
    p: Pos,
)
    requires
        pos_ap(p),
    ensures
        graft_step(cx, x, b, entry, bci, i, p) matches Some((q, _)) ==> pos_goes(p, q),
    decreases rank(x.blockarg), 1nat, 0int,
{
    broadcast use group_apart;

    match i {
        Instr::Send { ic, .. } => {
            let ic = x.m.ics@[ic as int];
            let depth = p.s.depth();
            let ph = resized(p.ph, depth);
            if depth < ic.argc + 1 {
            } else if ph[depth - 1 - ic.argc] {
                match x.blockarg {
                    None => {},
                    Some(a) => {
                        apart_graft_block_send(cx, x, b, entry, a, ic, bci, Pos { ph, ..p });
                    },
                }
            } else {
                apart_graft_send(cx, x, ic, bci, ph, p.s);
                match graft_send(cx, x, ic, bci, ph, p.s) {
                    Some((s1, _, _)) => lemma_advances(p.s, s1, p.cur),
                    None => {},
                }
            }
        },
        _ => {
            apart_graft_instr(cx, x, i, p.s);
            match graft_instr(cx, x, i, p.s) {
                Some((s1, _)) => lemma_advances(p.s, s1, p.cur),
                None => {},
            }
            assert(ext(p.s, p.s.push(x.this)));
            lemma_advances(p.s, p.s.push(x.this), p.cur);
        },
    }
}

proof fn apart_graft_walk(
    cx: CtxView,
    x: ExtentView,
    b: int,
    entry: Seq<VReg>,
    bci: int,
    last: int,
    p: Pos,
)
    requires
        pos_ap(p),
    ensures
        graft_walk(cx, x, b, entry, bci, last, p) matches Some((q, _, _)) ==> pos_goes(p, q),
    decreases rank(x.blockarg), 2nat, x.m.code@.len() - bci,
{
    let m = x.m;
    if bci >= m.cfg.blocks@[b].bci_end {
        assert(ext(p.s, p.s)) by {
            broadcast use group_apart;

        }
        lemma_advances(p.s, p.s, p.cur);
    } else if bci < 0 || bci >= m.code@.len() || !(bci < m.next_at(bci) <= m.code@.len()) {
    } else {
        apart_graft_step(cx, x, b, entry, bci as usize, m.instr_at(bci), p);
        match graft_step(cx, x, b, entry, bci as usize, m.instr_at(bci), p) {
            None => {},
            Some((p1, end)) => if end is Fell {
                lemma_pos_vacant(p, p1);
                apart_graft_walk(cx, x, b, entry, m.next_at(bci), bci, p1);
                match graft_walk(cx, x, b, entry, m.next_at(bci), bci, p1) {
                    Some((q, _, _)) => lemma_advances_trans(
                        p.s,
                        p.cur,
                        p1.s,
                        p1.cur,
                        q.s,
                        q.cur,
                    ),
                    None => {},
                }
            },
        }
    }
}

/// From the blocks before grafting the `b`-th callee block on to those after: what was finished
/// stays, what is not to be filled stays unfinished, and new operations fail to new blocks.
#[verifier::opaque]
spec fn fills(x: ExtentView, b: int, bl: Blocks, bl2: Blocks) -> bool {
    &&& bl.len() <= bl2.len()
    &&& forall|i: int|
        0 <= i < bl.len() && !(exists|k: int| b <= k < x.ids.len() && (#[trigger] x.ids[k]).0 == i)
            ==> #[trigger] bl2[i] == bl[i]
    &&& forall|e: BlockId| #[trigger]
        blocks_use(bl2, e) ==> blocks_use(bl, e) || e.0 >= bl.len()
}

proof fn lemma_fills_step(x: ExtentView, b: int, bl: Blocks, bl1: Blocks, bl2: Blocks)
    requires
        0 <= b < x.ids.len(),
        bl.len() <= bl1.len(),
        forall|i: int| 0 <= i < bl.len() && i != x.ids[b].0 ==> #[trigger] bl1[i] == bl[i],
        forall|e: BlockId| #[trigger]
            blocks_use(bl1, e) ==> blocks_use(bl, e) || e.0 >= bl.len(),
        fills(x, b + 1, bl1, bl2),
    ensures
        fills(x, b, bl, bl2),
{
    reveal(fills);
    assert forall|i: int|
        0 <= i < bl.len() && !(exists|k: int|
            b <= k < x.ids.len() && (#[trigger] x.ids[k]).0 == i) implies #[trigger] bl2[i]
        == bl[i] by {
        assert(x.ids[b].0 != i);
        assert(bl1[i] == bl[i]);
        assert(!(exists|k: int| b + 1 <= k < x.ids.len() && (#[trigger] x.ids[k]).0 == i));
    }
}

proof fn lemma_still_vacant(x: ExtentView, b: int, base: int, bl: Blocks, bl1: Blocks)
    requires
        ids_apart(x, base),
        ids_vacant(x, b, bl),
        0 <= b < x.ids.len(),
        bl.len() <= bl1.len(),
        forall|i: int| 0 <= i < bl.len() && i != x.ids[b].0 ==> #[trigger] bl1[i] == bl[i],
    ensures
        ids_vacant(x, b + 1, bl1),
{
    assert forall|i: int| b + 1 <= i < x.ids.len() implies vacant(bl1, #[trigger] x.ids[i]) by {
        assert(vacant(bl, x.ids[i]));
        assert(x.ids[b] != x.ids[i]);
    }
    assert(x.ids[b] != x.cont);
}

proof fn apart_graft_blocks(
    cx: CtxView,
    x: ExtentView,
    b: int,
    exits: Seq<Option<Seq<VReg>>>,
    reach: Seq<bool>,
    out: OutView,
    base: int,
)
    requires
        apart(out.blocks, Seq::empty()),
        ids_apart(x, base),
        ids_vacant(x, b, out.blocks),
        0 <= b,
    ensures
        graft_blocks(cx, x, b, exits, reach, out) matches Some(o) ==> apart(
            o.blocks,
            Seq::empty(),
        ) && fills(x, b, out.blocks, o.blocks),
    decreases rank(x.blockarg), 3nat, x.m.cfg.blocks@.len() - b,
{
    let none = Seq::<IrView>::empty();
    let bl = out.blocks;
    if b < 0 || b >= x.m.cfg.blocks@.len() {
        reveal(fills);
    } else if !reach[b] {
        let d = dead_block(x.ids[b], x.send_bci);
        let o1 = out.finish(d);
        assert(vacant(bl, x.ids[b]));
        assert(apart(bl, none.push(d.code[0]))) by {
            broadcast use group_apart;

        }
        assert(none.push(d.code[0]) =~= d.code);
        lemma_finish(bl, d.code, d);
        assert forall|e: BlockId| #[trigger] blocks_use(o1.blocks, e) implies blocks_use(bl, e)
            || e.0 >= bl.len() by {
            lemma_put_uses(bl, d, e);
        }
        lemma_still_vacant(x, b, base, bl, o1.blocks);
        apart_graft_blocks(cx, x, b + 1, exits, reach, o1, base);
        match graft_blocks(cx, x, b, exits, reach, out) {
            Some(o) => lemma_fills_step(x, b, bl, o1.blocks, o.blocks),
            None => {},
        }
    } else {
        match block_entry(x, b, exits) {
            None => {},
            Some(entry) => {
                let start = x.m.cfg.blocks@[b].bci_start as int;
                let s = St {
                    out,
                    seg: SegView { stack: entry, code: Seq::empty(), deopt: Seq::empty() },
                };
                assert(vacant(bl, x.ids[b]));
                let p = start_pos(x, b, s);
                apart_graft_walk(cx, x, b, entry, start, start, p);
                match graft_walk(cx, x, b, entry, start, start, p) {
                    None => {},
                    Some((p1, end, last)) => {
                        lemma_pos_vacant(p, p1);
                        apart_graft_terminator(x, b, last as usize, p1.s, reach);
                        let closed = match end {
                            WalkEnd::Fell => graft_terminator(x, b, last as usize, p1.s, reach),
                            _ => Some((p1.s, reach)),
                        };
                        match closed {
                            None => {},
                            Some((s1, reach1)) => {
                                assert(ap(s1) && ext(p1.s, s1)) by {
                                    broadcast use group_apart;

                                }
                                let blk = seg_block(x, b, p1.cur, entry, s1.seg);
                                let o1 = s1.out.finish(blk);
                                lemma_block_done(p.s, p.cur, p1.s, p1.cur, s1, blk);
                                lemma_still_vacant(x, b, base, bl, o1.blocks);
                                let exits1 = exits.update(b, Some(s1.seg.stack));
                                apart_graft_blocks(cx, x, b + 1, exits1, reach1, o1, base);
                                match graft_blocks(cx, x, b, exits, reach, out) {
                                    Some(o) => lemma_fills_step(x, b, bl, o1.blocks, o.blocks),
                                    None => {},
                                }
                            },
                        }
                    },
                }
            },
        }
    }
}

/// A whole block, begun at `s` without code and finished at the end.
pub(crate) proof fn lemma_block_done(
    s: St,
    cur: BlockId,
    t: St,
    cur2: BlockId,
    u: St,
    b: BlockView,
)
    requires
        s.seg.code == Seq::<IrView>::empty(),
        advances(s, cur, t, cur2),
        ap(u),
        ext(t, u),
        b.id == cur2,
        b.code == u.seg.code,
    ensures
        ({
            let bl = u.out.finish(b).blocks;
            &&& apart(bl, Seq::empty())
            &&& s.out.blocks.len() <= bl.len()
            &&& forall|i: int|
                0 <= i < s.out.blocks.len() && i != cur.0 ==> #[trigger] bl[i] == s.out.blocks[i]
            &&& forall|e: BlockId| #[trigger]
                blocks_use(bl, e) ==> blocks_use(s.out.blocks, e) || e.0 >= s.out.blocks.len()
        }),
{
    reveal(extends);
    reveal(advances);
    let bl = u.out.finish(b).blocks;
    assert(vacant(u.out.blocks, cur2)) by {
        assert(u.out.blocks[cur2.0 as int] == t.out.blocks[cur2.0 as int]);
    }
    lemma_finish(u.out.blocks, u.seg.code, b);
    assert forall|e: BlockId| #[trigger] blocks_use(bl, e) implies blocks_use(s.out.blocks, e)
        || e.0 >= s.out.blocks.len() by {
        lemma_put_uses(u.out.blocks, b, e);
    }
    assert forall|i: int| 0 <= i < s.out.blocks.len() && i != cur.0 implies #[trigger] bl[i]
        == s.out.blocks[i] by {
        assert(t.out.blocks[i] == s.out.blocks[i]);
        assert(u.out.blocks[i] == t.out.blocks[i]);
    }
}

/// Filled blocks go with the code that was there before them.
proof fn lemma_filled_apart(x: ExtentView, s: St, t: St, obl: Blocks)
    requires
        ap(s),
        goes(s, Some(t)),
        ids_apart(x, s.out.blocks.len() as int),
        ids_vacant(x, 0, t.out.blocks),
        apart(obl, Seq::empty()),
        fills(x, 0, t.out.blocks, obl),
    ensures
        apart(obl, t.seg.code),
        extends(s.out.blocks, s.seg.code, obl, t.seg.code),
        s.out.blocks.len() <= obl.len(),
        vacant(obl, x.cont),
{
    reveal(extends);
    reveal(apart);
    reveal(fills);
    let bl = t.out.blocks;
    let code = t.seg.code;
    assert forall|i: int| 0 <= i < bl.len() && bl[i] is Some implies #[trigger] obl[i] == bl[i] by {
        assert(!(exists|k: int| 0 <= k < x.ids.len() && (#[trigger] x.ids[k]).0 == i)) by {
            if exists|k: int| 0 <= k < x.ids.len() && (#[trigger] x.ids[k]).0 == i {
                let k = choose|k: int| 0 <= k < x.ids.len() && (#[trigger] x.ids[k]).0 == i;
                assert(vacant(bl, x.ids[k]));
            }
        }
    }
    assert forall|e: BlockId| #[trigger] code_uses(code, e) implies ready(obl, e) && !blocks_use(
        obl,
        e,
    ) by {
        assert(ready(bl, e) && !blocks_use(bl, e));
        assert(obl[e.0 as int] == bl[e.0 as int]);
    }
    assert forall|i: int| 0 <= i < s.out.blocks.len() implies #[trigger] obl[i]
        == s.out.blocks[i] by {
        assert(bl[i] == s.out.blocks[i]);
        assert(!(exists|k: int| 0 <= k < x.ids.len() && (#[trigger] x.ids[k]).0 == i));
    }
    assert(obl[x.cont.0 as int] == bl[x.cont.0 as int]) by {
        assert(!(exists|k: int| 0 <= k < x.ids.len() && (#[trigger] x.ids[k]).0 == x.cont.0)) by {
            if exists|k: int| 0 <= k < x.ids.len() && (#[trigger] x.ids[k]).0 == x.cont.0 {
                let k = choose|k: int| 0 <= k < x.ids.len() && (#[trigger] x.ids[k]).0 == x.cont.0;
                assert(x.ids[k] != x.cont);
            }
        }
    }
}

pub(crate) proof fn apart_graft_cfg(
    cx: CtxView,
    x: SiteView,
    blockarg: Option<BlockArg>,
    mode: GraftView,
    s: St,
)
    requires
        ap(s),
    ensures
        graft_cfg(cx, x, blockarg, mode, s) matches Some((t, r)) ==> goes(s, Some(t)) && (
        r matches Some((_, _, cont)) ==> vacant(t.out.blocks, cont) && cont.0
            >= s.out.blocks.len()),
    decreases rank(blockarg), 5nat, 0int,
{
    apart_graft_start(cx, x, blockarg, mode, s);
    match graft_start(cx, x, blockarg, mode, s) {
        None => {},
        Some((s1, None)) => {},
        Some((s1, Some(e))) => {
            if e.blockarg == blockarg {
                let n = e.m.cfg.blocks@.len();
                let exits = Seq::new(n, |i: int| None::<Seq<VReg>>);
                let reach = Seq::new(n, |i: int| i == 0);
                assert(apart(s1.out.blocks, Seq::empty())) by {
                    lemma_no_code(s1.out.blocks, s1.seg.code);
                }
                apart_graft_blocks(
                    cx,
                    e,
                    0,
                    exits,
                    reach,
                    s1.out,
                    s.out.blocks.len() as int,
                );
                if graft_all(cx, e, s1.out) is Some {
                    let o = graft_all(cx, e, s1.out)->0;
                    lemma_filled_apart(e, s, s1, o.blocks);
                }
            }
        },
    }
}

/// Without the code at hand the blocks are still apart.
pub(crate) proof fn lemma_no_code(bl: Blocks, code: Seq<IrView>)
    requires
        apart(bl, code),
    ensures
        apart(bl, Seq::empty()),
{
    reveal(apart);
    let none = Seq::<IrView>::empty();
    assert forall|e: BlockId| #[trigger] code_uses(none, e) implies ready(bl, e) && !blocks_use(
        bl,
        e,
    ) by {}
}

} // verus!

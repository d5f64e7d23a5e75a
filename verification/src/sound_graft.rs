//! Grafting a callee's control flow keeps the output sound.

use vstd::prelude::*;
use crate::classify::{array_kind, double_kind, not_speculatable, ref_eq, smi_kind};
use crate::depths::{edges_to, entry_depths, entry_sources, feed, moves, preds, EntryStackSource};
use crate::graft::{
    block_entry, block_site, dead_block, fresh_blocks, fresh_regs, graft_all, graft_block_send,
    graft_blocks, graft_cfg, graft_extent, graft_instr, graft_plain_send, graft_send, graft_start,
    graft_step, graft_terminator, graft_walk, guard_closures, inner_block, inner_block_proto,
    merge_regs, no_phantom, phantom_closures, rank, resized, return_op, scaffold, seg_block,
    start_pos, BlockArg, ExtentView, GraftView, Pos, WalkEnd,
};
use crate::ir::{DeoptView, Ir, VReg};
use crate::ops::{alloc_out, alloc_site};
use crate::passes::inline_refs;
use crate::scopes::SafepointKind;
use crate::kinds::reg_ok;
use crate::sound::{
    block_ok, group_steps, grows, lemma_alloc_op, lemma_alloc_out, lemma_append_ops,
    lemma_array_op, lemma_body_send, lemma_ctx_push, lemma_ctx_store, lemma_double_op,
    lemma_filled, lemma_not_op, lemma_out_facts, lemma_out_same, lemma_ref_op, lemma_simple,
    lemma_smi_op, lemma_started, ok, op_ok, out_ok, regs_ok, steps, target_ok,
};
use crate::sound_splice::{
    cx_ok, lemma_block_body, lemma_enter_body, lemma_nil_temps, lemma_nlr_op, site_ok,
};
use crate::splice::{body_slots, enter_body, next_regs, nil_temps, SiteView};
use crate::translator::{pool_oop, CtxView, OutView, SegView, St};
use crate::world::{Cfg, Instr, InterpreterIc, Terminator};

verus! {

broadcast use crate::kinds::group_kinds;

pub open spec fn stacks_ok(es: Seq<Option<Seq<VReg>>>, o: OutView) -> bool {
    forall|i: int|
        0 <= i < es.len() && (#[trigger] es[i]) is Some ==> regs_ok(es[i]->0, o)
}

pub(crate) proof fn lemma_stacks_grow(es: Seq<Option<Seq<VReg>>>, a: OutView, b: OutView)
    requires
        stacks_ok(es, a),
        grows(a, b),
    ensures
        stacks_ok(es, b),
{
    assert forall|i: int| 0 <= i < es.len() && (#[trigger] es[i]) is Some implies regs_ok(
        es[i]->0,
        b,
    ) by {
        assert(regs_ok(es[i]->0, a));
    }
}

/// What a grafted extent names exists.
pub open spec fn ext_ok(x: ExtentView, o: OutView) -> bool {
    let n = x.m.cfg.blocks@.len();
    &&& reg_ok(x.this, o)
    &&& regs_ok(x.slots, o)
    &&& regs_ok(inline_refs(x.proto), o)
    &&& reg_ok(x.result, o)
    &&& target_ok(x.cont, o)
    &&& x.ids.len() == n
    &&& forall|i: int| 0 <= i < n ==> target_ok(#[trigger] x.ids[i], o)
    &&& x.entry_stacks.len() == n
    &&& x.sources.len() == n
    &&& stacks_ok(x.entry_stacks, o)
    &&& forall|i: int|
        0 <= i < n ==> (#[trigger] x.m.cfg.blocks@[i]).terminator.wf(n as int)
}

proof fn lemma_ext_grows(x: ExtentView, a: OutView, b: OutView)
    requires
        ext_ok(x, a),
        grows(a, b),
    ensures
        ext_ok(x, b),
{
    lemma_stacks_grow(x.entry_stacks, a, b);
    assert forall|i: int| 0 <= i < x.ids.len() implies target_ok(#[trigger] x.ids[i], b) by {
        assert(target_ok(x.ids[i], a));
    }
}

pub(crate) proof fn lemma_feed(
    sources: Seq<EntryStackSource>,
    entry_stacks: Seq<Option<Seq<VReg>>>,
    t: int,
    exit: Seq<VReg>,
    s: St,
)
    requires
        ok(s),
        stacks_ok(entry_stacks, s.out),
        0 <= t < entry_stacks.len(),
        regs_ok(exit, s.out),
    ensures
        feed(sources, entry_stacks, t, exit, s.seg) matches Some(g) ==> ok(
            St { seg: g, ..s },
        ) && g.stack == s.seg.stack,
{
    if sources[t] is Merge && entry_stacks[t] is Some && (entry_stacks[t]->0).len() == exit.len() {
        let regs = entry_stacks[t]->0;
        let ops = moves(regs, exit);
        assert forall|i: int| 0 <= i < ops.len() implies op_ok(#[trigger] ops[i], s.out) by {
            assert(reg_ok(regs[i], s.out));
            assert(reg_ok(exit[i], s.out));
        }
        lemma_append_ops(s, ops);
    } else {
        assert((St { seg: s.seg, ..s }) == s);
    }
}

pub(crate) proof fn lemma_fresh_regs(o: OutView, n: nat)
    requires
        out_ok(o),
    ensures
        out_ok(fresh_regs(o, n)),
        grows(o, fresh_regs(o, n)),
        fresh_regs(o, n).vregs.len() == o.vregs.len() + n,
        regs_ok(next_regs(o, n), fresh_regs(o, n)),
    decreases n,
{
    broadcast use group_steps;

    if n > 0 {
        lemma_fresh_regs(o, (n - 1) as nat);
        let p = fresh_regs(o, (n - 1) as nat);
        let t = fresh_regs(o, n);
        let a = next_regs(o, (n - 1) as nat);
        let b = next_regs(o, n);
        assert forall|i: int| 0 <= i < b.len() implies reg_ok(#[trigger] b[i], t) by {
            if i < n - 1 {
                assert(a[i] == b[i]);
                assert(reg_ok(a[i], p));
            } else {
                assert(b[i] == p.reg());
            }
        }
    }
}

proof fn lemma_fresh_blocks(o: OutView, n: nat)
    requires
        out_ok(o),
    ensures
        out_ok(fresh_blocks(o, n)),
        grows(o, fresh_blocks(o, n)),
        fresh_blocks(o, n).vregs == o.vregs,
        fresh_blocks(o, n).blocks.len() == o.blocks.len() + n,
    decreases n,
{
    broadcast use group_steps;

    if n > 0 {
        lemma_fresh_blocks(o, (n - 1) as nat);
    }
}

pub(crate) proof fn lemma_merge_regs(
    sources: Seq<EntryStackSource>,
    depths: Seq<i32>,
    k: nat,
    o: OutView,
)
    requires
        out_ok(o),
    ensures
        merge_regs(sources, depths, k, o) matches Some((p, es)) ==> out_ok(p) && grows(o, p)
            && es.len() == k && stacks_ok(es, p),
    decreases k,
{
    if k > 0 {
        lemma_merge_regs(sources, depths, (k - 1) as nat, o);
        match merge_regs(sources, depths, (k - 1) as nat, o) {
            Some((p, es)) => {
                if sources[k - 1] is Merge && depths[k - 1] >= 0 {
                    let n = depths[k - 1] as nat;
                    lemma_fresh_regs(p, n);
                    lemma_stacks_grow(es, p, fresh_regs(p, n));
                }
                if merge_regs(sources, depths, k, o) is Some {
                    let (q, fs) = merge_regs(sources, depths, k, o)->0;
                    assert forall|i: int|
                        0 <= i < fs.len() && (#[trigger] fs[i]) is Some implies regs_ok(
                        fs[i]->0,
                        q,
                    ) by {
                        if i < es.len() {
                            assert(fs[i] == es[i]);
                        }
                    }
                }
            },
            None => {},
        }
    }
}

proof fn lemma_graft_start(
    cx: CtxView,
    x: SiteView,
    blockarg: Option<BlockArg>,
    mode: GraftView,
    s: St,
)
    requires
        ok(s),
        site_ok(x, s.out),
        cx.vm.wf(),
        cx.vm.has(x.callee),
        mode.parent matches Some(p) ==> regs_ok(inline_refs(*p), s.out),
    ensures
        graft_start(cx, x, blockarg, mode, s) matches Some((t, e)) ==> steps(s, Some(t)) && (
        e matches Some(e) ==> ext_ok(e, t.out) && e.m == cx.vm.m(x.callee) && e.blockarg
            == blockarg),
{
    broadcast use group_steps;

    let m = cx.vm.m(x.callee);
    let n = m.cfg.blocks@.len();
    if mode.is_block && s.out.spliced_multibb == u32::MAX {
    } else {
        let sa = if mode.is_block {
            s.with_out(OutView { spliced_multibb: (s.out.spliced_multibb + 1) as u32, ..s.out })
        } else {
            s
        };
        lemma_out_same(s.out, sa.out);
        assert(ok(sa));
        let sb = sa.intern(pool_oop(m.oop));
        let gc = guard_closures(blockarg, s.depth());
        lemma_enter_body(cx.vm, x, gc, sb);
        assert(body_slots(cx.vm, x, s) =~= body_slots(cx.vm, x, sb));
        if enter_body(cx.vm, x, gc, sb) is Some {
            let s1 = enter_body(cx.vm, x, gc, sb)->0;
            lemma_fresh_blocks(s1.out, n + 1);
            let o0 = fresh_blocks(s1.out, n + 1).fresh(true);
            lemma_merge_regs(
                entry_sources(m.cfg, entry_depths(m, m.cfg)),
                entry_depths(m, m.cfg),
                n,
                o0,
            );
            if scaffold(m, s1.out) is Some {
                let (o1, es) = scaffold(m, s1.out)->0;
                let t = s1.with_stack(s.seg.stack).with_out(o1);
                assert(grows(s1.out, o0));
                assert(grows(s1.out, o1));
                assert(grows(s.out, o1));
                assert(ok(s1.with_stack(s.seg.stack)));
                assert(ok(t));
                let e = graft_extent(cx, x, blockarg, mode, s, s1.out, es);
                assert(m.wf(cx.vm.methods@.len() as int));
                assert(regs_ok(inline_refs(e.proto), o1)) by {
                    let refs = inline_refs(e.proto);
                    assert(regs_ok(e.proto.slots, o1));
                    assert(regs_ok(e.proto.caller_pending_stack, o1));
                    if e.proto.parent is Some {
                        assert(regs_ok(inline_refs(*(e.proto.parent->0)), o1));
                    }
                }
                assert forall|i: int| 0 <= i < n implies target_ok(#[trigger] e.ids[i], o1) by {}
                assert(e.sources.len() == n);
                assert forall|i: int| 0 <= i < n implies (
                #[trigger] e.m.cfg.blocks@[i]).terminator.wf(n as int) by {}
                assert(ext_ok(e, o1));
            }
        }
    }
}

proof fn lemma_return_op(x: ExtentView, v: VReg, s: St)
    requires
        ok(s),
        ext_ok(x, s.out),
        reg_ok(v, s.out),
    ensures
        ok(return_op(x, v, s)),
        grows(s.out, return_op(x, v, s).out),
{
    broadcast use group_steps;

}

proof fn lemma_graft_instr(cx: CtxView, x: ExtentView, i: Instr, s: St)
    requires
        ok(s),
        cx_ok(cx, s.out),
        ext_ok(x, s.out),
    ensures
        graft_instr(cx, x, i, s) matches Some((t, _)) ==> steps(s, Some(t)),
{
    broadcast use group_steps;

    match i {
        Instr::ReturnTos => {
            if s.depth() > 0 {
                lemma_return_op(x, s.top(0), s.drop(1));
            }
        },
        Instr::ReturnSelf => lemma_return_op(x, x.this, s),
        Instr::BlockReturnTos => {
            if s.depth() > 0 {
                lemma_return_op(x, s.top(0), s.drop(1));
            }
        },
        Instr::NlrTos => lemma_nlr_op(s),
        Instr::PushCtxTemp { idx, .. } => lemma_ctx_push(cx, cx.method_ctx_vreg, idx, s),
        Instr::StoreCtxTempPop { idx, .. } => lemma_ctx_store(cx, cx.method_ctx_vreg, idx, s),
        _ => lemma_simple(cx.vm, x.m, i, x.this, x.slots, true, s),
    }
}

proof fn lemma_graft_plain_send(
    cx: CtxView,
    x: ExtentView,
    ic: InterpreterIc,
    bci: usize,
    ph: Seq<bool>,
    s: St,
)
    requires
        ok(s),
        ext_ok(x, s.out),
    ensures
        graft_plain_send(cx, x, ic, bci, ph, s) matches Some(r) ==> steps(s, Some(r.0)),
{
    if s.depth() >= ic.argc + 1 {
        let below = resized(ph, (s.depth() - ic.argc - 1) as nat);
        let closures = match x.blockarg {
            Some(a) => phantom_closures(below, a.pool_ix),
            None => seq![],
        };
        lemma_body_send(cx, ic, x.this, x.klass, bci, closures, x.proto, s);
    }
}

proof fn lemma_graft_send(
    cx: CtxView,
    x: ExtentView,
    ic: InterpreterIc,
    bci: usize,
    ph: Seq<bool>,
    s: St,
)
    requires
        ok(s),
        ext_ok(x, s.out),
    ensures
        graft_send(cx, x, ic, bci, ph, s) matches Some(r) ==> steps(s, Some(r.0)),
{
    let vm = cx.vm;
    let proto = Some(x.proto);
    lemma_graft_plain_send(cx, x, ic, bci, ph, s);
    if array_kind(vm, ic) is Some {
        lemma_array_op(vm, array_kind(vm, ic)->0, bci, proto, s);
    } else if ref_eq(vm, ic) is Some && no_phantom(ph, 2) {
        lemma_ref_op(ref_eq(vm, ic)->0, s);
    } else if not_speculatable(vm, ic) && no_phantom(ph, 1) {
        lemma_not_op(vm, ic.selector, bci, proto, s);
    } else if smi_kind(vm, ic) is Some && !crate::ops::arg_is_pooled(s) {
        lemma_smi_op(smi_kind(vm, ic)->0, bci, proto, s);
    } else if double_kind(vm, ic) is Some {
        lemma_double_op(double_kind(vm, ic)->0, bci, proto, s);
    } else if ic.argc == 0 && no_phantom(ph, ph.len() as int) && s.depth() > 0 {
        let s1 = s.with_out(alloc_out(vm, s.out, ic, s.top(0), x.this, x.klass));
        lemma_alloc_out(vm, s, ic, s.top(0), x.this, x.klass);
        lemma_ext_grows(x, s.out, s1.out);
        lemma_graft_plain_send(cx, x, ic, bci, ph, s1);
        match alloc_site(vm, s.out, ic, s.top(0), x.this, x.klass) {
            Some((k, n)) => lemma_alloc_op(k, n, bci, proto, s1),
            None => {},
        }
    }
}

proof fn lemma_graft_terminator(x: ExtentView, b: int, last: usize, s: St, reach: Seq<bool>)
    requires
        ok(s),
        ext_ok(x, s.out),
        0 <= b < x.m.cfg.blocks@.len(),
    ensures
        graft_terminator(x, b, last, s, reach) matches Some((t, _)) ==> steps(s, Some(t)),
{
    broadcast use group_steps;

    let n = x.m.cfg.blocks@.len() as int;
    let term = x.m.cfg.blocks@[b].terminator;
    assert(term.wf(n));
    match term {
        Terminator::Return => {},
        Terminator::Fallthrough(t) => {
            lemma_feed(x.sources, x.entry_stacks, t as int, s.seg.stack, s);
        },
        Terminator::Jump { target, is_backward } => {
            let raw = DeoptView {
                stack: s.seg.stack,
                bci: x.m.cfg.blocks@[target as int].bci_start,
                kind: SafepointKind::LoopPoll,
                reexecute: true,
                stack_closures: seq![],
                inline: Some(x.proto),
            };
            let s1 = if is_backward {
                s.site(raw).emit(Ir::Poll)
            } else {
                s
            };
            assert(ok(s1));
            lemma_feed(x.sources, x.entry_stacks, target as int, s1.seg.stack, s1);
        },
        Terminator::Branch { if_true, if_false } => {
            if s.depth() > 0 && s.out.can_block() {
                let s1 = s.drop(1).with_out(s.out.trap(last, s.seg.stack, seq![], Some(x.proto)));
                assert(ok(s1));
                lemma_ext_grows(x, s.out, s1.out);
                lemma_feed(x.sources, x.entry_stacks, if_true as int, s1.seg.stack, s1);
                match feed(x.sources, x.entry_stacks, if_true as int, s1.seg.stack, s1.seg) {
                    None => {},
                    Some(g1) => {
                        let s2 = St { seg: g1, ..s1 };
                        lemma_feed(x.sources, x.entry_stacks, if_false as int, s1.seg.stack, s2);
                        match feed(
                            x.sources,
                            x.entry_stacks,
                            if_false as int,
                            s1.seg.stack,
                            g1,
                        ) {
                            None => {},
                            Some(g2) => {
                                let s3 = St { seg: g2, ..s1 };
                                assert(ok(s3));
                            },
                        }
                    },
                }
            }
        },
    }
}

proof fn lemma_inner_block(
    cx: CtxView,
    x: ExtentView,
    a: BlockArg,
    args: Seq<VReg>,
    bci: usize,
    s: St,
)
    requires
        ok(s),
        cx_ok(cx, s.out),
        ext_ok(x, s.out),
        regs_ok(args, s.out),
    ensures
        inner_block(cx, x, a, args, bci, s) matches Some((t, v)) ==> steps(s, Some(t)) && (
        v matches Some(v) ==> reg_ok(v, t.out)),
{
    broadcast use group_steps;

    reveal(inner_block);
    let m = cx.vm.m(a.block);
    let nil = pool_oop(cx.vm.universe.nil_obj);
    let slots = args + next_regs(s.out, m.ntemps as nat);
    let s1 = nil_temps(s.lit(nil), m.ntemps as nat, s.intern(nil));
    lemma_nil_temps(s.lit(nil), m.ntemps as nat, s.intern(nil));
    assert(next_regs(s.intern(nil).out, m.ntemps as nat) =~= next_regs(s.out, m.ntemps as nat));
    let proto = inner_block_proto(cx, x, a, slots, bci, s.seg.stack);
    assert(regs_ok(inline_refs(x.proto), s1.out));
    assert(regs_ok(inline_refs(proto), s1.out));
    lemma_block_body(cx, m, cx.self_vreg, slots, proto, s1);
}

/// A position in a grafted block.
spec fn pos_ok(p: Pos) -> bool {
    ok(p.s) && target_ok(p.cur, p.s.out)
}

spec fn pos_steps(p: Pos, q: Pos) -> bool {
    pos_ok(q) && grows(p.s.out, q.s.out)
}

/// What does not change while an extent is grafted.
spec fn graft_ok(cx: CtxView, x: ExtentView, o: OutView) -> bool {
    &&& cx.vm.wf()
    &&& cx_ok(cx, o)
    &&& ext_ok(x, o)
    &&& x.blockarg matches Some(a) ==> cx.vm.has(a.block)
}

proof fn lemma_graft_block_send(
    cx: CtxView,
    x: ExtentView,
    b: int,
    entry: Seq<VReg>,
    a: BlockArg,
    ic: InterpreterIc,
    bci: usize,
    p: Pos,
)
    requires
        pos_ok(p),
        graft_ok(cx, x, p.s.out),
        regs_ok(entry, p.s.out),
        p.s.depth() >= ic.argc + 1,
        x.blockarg == Some(a),
    ensures
        graft_block_send(cx, x, b, entry, a, ic, bci, p) matches Some((q, _)) ==> pos_steps(p, q),
    decreases rank(x.blockarg), 0nat, 0int,
{
    broadcast use group_steps;

    let depth = p.s.depth();
    let args = p.s.seg.stack.subrange(depth - ic.argc, depth as int);
    let s = p.s.drop(ic.argc + 1);
    assert(regs_ok(args, s.out));
    if cx.vm.m(a.block).cfg.blocks@.len() > 1 {
        let site = block_site(cx, x.dep_klass, a, ic, args, bci);
        let mode = GraftView { is_block: true, parent: Some(Box::new(x.proto)) };
        lemma_graft_cfg(cx, site, None, mode, s);
        match graft_cfg(cx, site, None, mode, s) {
            Some((s1, Some((res, enter, cont)))) => {
                let s2 = s1.emit(Ir::Jump { target: enter });
                assert(ok(s2));
                let blk = seg_block(x, b, p.cur, entry, s2.seg);
                lemma_filled(s2, blk);
                assert(out_ok(s2.out.finish(blk)));
                lemma_started(s2.out.finish(blk), s1.seg.stack.push(res));
            },
            _ => {},
        }
    } else {
        lemma_inner_block(cx, x, a, args, bci, s);
    }
}

proof fn lemma_graft_step(
    cx: CtxView,
    x: ExtentView,
    b: int,
    entry: Seq<VReg>,
    bci: usize,
    i: Instr,
    p: Pos,
)
    requires
        pos_ok(p),
        graft_ok(cx, x, p.s.out),
        regs_ok(entry, p.s.out),
    ensures
        graft_step(cx, x, b, entry, bci, i, p) matches Some((q, _)) ==> pos_steps(p, q),
    decreases rank(x.blockarg), 1nat, 0int,
{
    broadcast use group_steps;

    match i {
        Instr::Send { ic, .. } => {
            let ic = x.m.ics@[ic as int];
            let depth = p.s.depth();
            let ph = resized(p.ph, depth);
            if depth < ic.argc + 1 {
            } else if ph[depth - 1 - ic.argc] {
                match x.blockarg {
                    None => {},
                    Some(a) => {
                        lemma_graft_block_send(cx, x, b, entry, a, ic, bci, Pos { ph, ..p });
                    },
                }
            } else {
                lemma_graft_send(cx, x, ic, bci, ph, p.s);
            }
        },
        _ => {
            lemma_graft_instr(cx, x, i, p.s);
            assert(ok(p.s.push(x.this)));
        },
    }
}

proof fn lemma_graft_walk(
    cx: CtxView,
    x: ExtentView,
    b: int,
    entry: Seq<VReg>,
    bci: int,
    last: int,
    p: Pos,
)
    requires
        pos_ok(p),
        graft_ok(cx, x, p.s.out),
        regs_ok(entry, p.s.out),
    ensures
        graft_walk(cx, x, b, entry, bci, last, p) matches Some((q, _, _)) ==> pos_steps(p, q),
    decreases rank(x.blockarg), 2nat, x.m.code@.len() - bci,
{
    let m = x.m;
    if bci >= m.cfg.blocks@[b].bci_end {
    } else if bci < 0 || bci >= m.code@.len() || !(bci < m.next_at(bci) <= m.code@.len()) {
    } else {
        lemma_graft_step(cx, x, b, entry, bci as usize, m.instr_at(bci), p);
        match graft_step(cx, x, b, entry, bci as usize, m.instr_at(bci), p) {
            None => {},
            Some((p1, end)) => if end is Fell {
                lemma_ext_grows(x, p.s.out, p1.s.out);
                lemma_graft_walk(cx, x, b, entry, m.next_at(bci), bci, p1);
            },
        }
    }
}

proof fn lemma_graft_blocks(
    cx: CtxView,
    x: ExtentView,
    b: int,
    exits: Seq<Option<Seq<VReg>>>,
    reach: Seq<bool>,
    out: OutView,
)
    requires
        out_ok(out),
        graft_ok(cx, x, out),
        stacks_ok(exits, out),
        exits.len() == x.m.cfg.blocks@.len(),
        forall|i: int|
            0 <= i < x.sources.len() ==> ((#[trigger] x.sources[i]) matches EntryStackSource::Inherit(
                p,
            ) ==> p < x.sources.len()),
    ensures
        graft_blocks(cx, x, b, exits, reach, out) matches Some(o) ==> out_ok(o) && grows(out, o),
    decreases rank(x.blockarg), 3nat, x.m.cfg.blocks@.len() - b,
{
    broadcast use group_steps;

    if b < 0 || b >= x.m.cfg.blocks@.len() {
    } else if !reach[b] {
        let d = dead_block(x.ids[b], x.send_bci);
        lemma_out_facts(out);
        assert(op_ok(Ir::<Seq<VReg>>::RetSelf, out));
        assert(block_ok(d, out));
        let o1 = out.finish(d);
        assert(target_ok(x.ids[b], out));
        assert(out_ok(o1));
        lemma_ext_grows(x, out, o1);
        lemma_stacks_grow(exits, out, o1);
        lemma_graft_blocks(cx, x, b + 1, exits, reach, o1);
    } else {
        match block_entry(x, b, exits) {
            None => {},
            Some(entry) => {
                assert(regs_ok(entry, out));
                let start = x.m.cfg.blocks@[b].bci_start as int;
                let s = St {
                    out,
                    seg: SegView { stack: entry, code: Seq::empty(), deopt: Seq::empty() },
                };
                lemma_started(out, entry);
                assert(target_ok(x.ids[b], out));
                let p = start_pos(x, b, s);
                lemma_graft_walk(cx, x, b, entry, start, start, p);
                match graft_walk(cx, x, b, entry, start, start, p) {
                    None => {},
                    Some((p1, end, last)) => {
                        lemma_ext_grows(x, out, p1.s.out);
                        lemma_graft_terminator(x, b, last as usize, p1.s, reach);
                        let closed = match end {
                            WalkEnd::Fell => graft_terminator(x, b, last as usize, p1.s, reach),
                            _ => Some((p1.s, reach)),
                        };
                        match closed {
                            None => {},
                            Some((s1, reach1)) => {
                                let blk = seg_block(x, b, p1.cur, entry, s1.seg);
                                lemma_filled(s1, blk);
                                let o1 = s1.out.finish(blk);
                                assert(out_ok(o1));
                                lemma_ext_grows(x, out, o1);
                                lemma_stacks_grow(exits, out, o1);
                                assert(stacks_ok(exits.update(b, Some(s1.seg.stack)), o1));
                                lemma_graft_blocks(
                                    cx,
                                    x,
                                    b + 1,
                                    exits.update(b, Some(s1.seg.stack)),
                                    reach1,
                                    o1,
                                );
                            },
                        }
                    },
                }
            },
        }
    }
}

pub(crate) proof fn lemma_graft_cfg(
    cx: CtxView,
    x: SiteView,
    blockarg: Option<BlockArg>,
    mode: GraftView,
    s: St,
)
    requires
        ok(s),
        cx_ok(cx, s.out),
        site_ok(x, s.out),
        cx.vm.wf(),
        cx.vm.has(x.callee),
        blockarg matches Some(a) ==> cx.vm.has(a.block),
        mode.parent matches Some(p) ==> regs_ok(inline_refs(*p), s.out),
    ensures
        graft_cfg(cx, x, blockarg, mode, s) matches Some((t, r)) ==> steps(s, Some(t)) && (
        r matches Some((v, enter, cont)) ==> reg_ok(v, t.out) && target_ok(enter, t.out)
            && target_ok(cont, t.out)),
    decreases rank(blockarg), 5nat, 0int,
{
    broadcast use group_steps;

    lemma_graft_start(cx, x, blockarg, mode, s);
    match graft_start(cx, x, blockarg, mode, s) {
        None => {},
        Some((s1, None)) => {},
        Some((s1, Some(e))) => {
            let n = e.m.cfg.blocks@.len();
            lemma_sources(e.m.cfg, entry_depths(e.m, e.m.cfg));
            lemma_graft_blocks(
                cx,
                e,
                0,
                Seq::new(n, |i: int| None),
                Seq::new(n, |i: int| i == 0),
                s1.out,
            );
            if graft_all(cx, e, s1.out) is Some {
                let o = graft_all(cx, e, s1.out)->0;
                lemma_ext_grows(e, s1.out, o);
                assert(target_ok(e.ids[0], o));
            }
        },
    }
}

proof fn lemma_preds(cfg: Cfg, b: int, n: nat)
    ensures
        forall|k: int|
            0 <= k < preds(cfg, b, n).len() ==> 0 <= (#[trigger] preds(cfg, b, n)[k]).0 < n,
    decreases n,
{
    if n > 0 {
        lemma_preds(cfg, b, (n - 1) as nat);
        let ps = preds(cfg, b, (n - 1) as nat);
        let es = edges_to(cfg, n - 1, b);
        assert forall|k: int| 0 <= k < preds(cfg, b, n).len() implies 0 <= (#[trigger] preds(
            cfg,
            b,
            n,
        )[k]).0 < n by {
            if k < ps.len() {
                assert(preds(cfg, b, n)[k] == ps[k]);
            } else {
                assert(preds(cfg, b, n)[k] == es[k - ps.len()]);
            }
        }
    }
}

/// Blocks inherit from blocks.
pub(crate) proof fn lemma_sources(cfg: Cfg, depths: Seq<i32>)
    ensures
        forall|i: int|
            0 <= i < cfg.blocks@.len() ==> ((#[trigger] entry_sources(
                cfg,
                depths,
            )[i]) matches EntryStackSource::Inherit(p) ==> p < cfg.blocks@.len()),
{
    let n = cfg.blocks@.len();
    assert(cfg.blocks.len() == n);
    assert forall|i: int| 0 <= i < n implies ((#[trigger] entry_sources(
        cfg,
        depths,
    )[i]) matches EntryStackSource::Inherit(p) ==> p < n) by {
        lemma_preds(cfg, i, n);
        let ps = preds(cfg, i, n);
        if ps.len() == 1 {
            assert(0 <= ps[0].0 < n);
        }
    }
}

} // verus!

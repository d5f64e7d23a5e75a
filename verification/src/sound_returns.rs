//! A return stands last in its block: nothing is emitted behind one.

use vstd::prelude::*;
use crate::convert::{
    after_instr, nil_ops, param_ops, prologue, root_block_done, root_blocks, root_start,
    root_terminator, root_walk, translated, Lits, Plan, RootPos,
};
use crate::endings::{no_ret, rets_last, rets_ok};
use crate::depths::{entry_depths, entry_sources, feed, moves, EntryStackSource};
use crate::graft::{
    block_entry, block_site, fresh_blocks, fresh_regs, graft_block_send, graft_blocks,
    graft_cfg, graft_instr, graft_send, graft_start, graft_step, graft_terminator, graft_walk,
    guard_closures, inline_cfg, inner_block, merge_regs, rank, seg_block, start_pos, BlockArg,
    ExtentView, GraftView, Pos, WalkEnd,
};
use crate::instr::{
    alloc_closure, blockarg_callee, blockarg_splice, capture_stores, created_block, instr_step,
    value_splice,
};
use crate::ir::{Ir, PoolLit, VReg};
use crate::ops::{alloc_out, count_cold, ctx_push, ctx_store, simple};
use crate::root::{
    budgeted, dispatch_send, dominant_splice, generic_send, guard_shape, guarded_splice,
    profiled_send, root_klass, root_send, self_target, site_of, splices, static_splice,
    super_send, EndView, Step,
};
use crate::splice::{
    block_body, block_send, block_walk, body_klass, body_slots, enter_body, inline_leaf,
    inline_nonleaf, leaf_walk, method_proto, next_regs, nil_temps, nonleaf_send, nonleaf_walk,
    Site, SiteView,
};
use crate::translator::{pool_oop, CtxView, OutView, SegView, St};
use crate::world::{
    BlockArgSend, Cfg, InlineDecision, Instr, InterpreterIc, KlassOop, Method, MethodOop,
    SiteFeedback, Terminator, VmState,
};

verus! {

broadcast use crate::endings::group_returns;

/// The block being filled has no return yet.
pub open spec fn free(s: St) -> bool {
    no_ret(s.seg.code) && rets_ok(s.out.blocks)
}

/// The block being filled may end in a return.
pub open spec fn shut(s: St) -> bool {
    rets_last(s.seg.code) && rets_ok(s.out.blocks)
}

spec fn keeps(s: St, t: Option<St>) -> bool {
    t matches Some(t) ==> free(s) ==> free(t)
}

proof fn lemma_nil_temps(lit: PoolLit, n: nat, s: St)
    ensures
        keeps(s, Some(nil_temps(lit, n, s))),
    decreases n,
{
    if n > 0 {
        lemma_nil_temps(lit, (n - 1) as nat, s);
    }
}

proof fn lemma_enter_body(vm: VmState, x: SiteView, closures: Seq<(u16, u32)>, s: St)
    ensures
        keeps(s, enter_body(vm, x, closures, s)),
{
    if let Some(s1) = crate::splice::guard_op(x, closures, s) {
        let nil = pool_oop(vm.universe.nil_obj);
        lemma_nil_temps(s1.lit(nil), vm.m(x.callee).ntemps as nat, s1.intern(nil));
    }
}

proof fn lemma_leaf_walk(vm: VmState, m: Method, this: VReg, slots: Seq<VReg>, bci: int, s: St)
    ensures
        leaf_walk(vm, m, this, slots, bci, s) matches Some((t, _)) ==> keeps(s, Some(t)),
    decreases m.code@.len() - bci,
{
    if bci < 0 || bci >= m.code@.len() || !(bci < m.next_at(bci) <= m.code@.len()) {
    } else {
        let i = m.instr_at(bci);
        if !(i is ReturnTos) && !(i is ReturnSelf) {
            if let Some(s1) = simple(vm, m, i, this, slots, false, s) {
                lemma_leaf_walk(vm, m, this, slots, m.next_at(bci), s1);
            }
        }
    }
}

proof fn lemma_inline_leaf(cx: CtxView, x: SiteView, s: St)
    ensures
        inline_leaf(cx, x, s) matches Some((t, _)) ==> keeps(s, Some(t)),
{
    lemma_enter_body(cx.vm, x, seq![], s);
    if let Some(s1) = enter_body(cx.vm, x, seq![], s) {
        lemma_leaf_walk(cx.vm, cx.vm.m(x.callee), x.receiver, body_slots(cx.vm, x, s), 0, s1);
    }
}

proof fn lemma_simple(
    vm: VmState,
    m: Method,
    i: Instr,
    this: VReg,
    slots: Seq<VReg>,
    globals: bool,
    s: St,
)
    ensures
        keeps(s, simple(vm, m, i, this, slots, globals, s)),
{
}

proof fn lemma_nonleaf_send(
    cx: CtxView,
    m: Method,
    ic: InterpreterIc,
    this: VReg,
    klass: Option<KlassOop>,
    bci: usize,
    proto: crate::ir::InlineView,
    s: St,
)
    ensures
        nonleaf_send(cx, m, ic, this, klass, bci, proto, s) matches Some((t, _)) ==> keeps(
            s,
            Some(t),
        ),
{
}

proof fn lemma_block_send(
    cx: CtxView,
    ic: InterpreterIc,
    this: VReg,
    klass: Option<KlassOop>,
    bci: usize,
    proto: crate::ir::InlineView,
    s: St,
)
    ensures
        block_send(cx, ic, this, klass, bci, proto, s) matches Some((t, _)) ==> keeps(s, Some(t)),
{
}

spec fn walk_ok(s: St, r: Option<(St, Option<VReg>)>) -> bool {
    r matches Some((t, v)) ==> free(s) ==> (if v is Some {
        free(t)
    } else {
        shut(t)
    })
}

proof fn lemma_nonleaf_walk(
    cx: CtxView,
    m: Method,
    this: VReg,
    klass: Option<KlassOop>,
    slots: Seq<VReg>,
    proto: crate::ir::InlineView,
    bci: int,
    s: St,
)
    ensures
        nonleaf_walk(cx, m, this, klass, slots, proto, bci, s) matches Some((t, _)) ==> keeps(
            s,
            Some(t),
        ),
    decreases m.code@.len() - bci,
{
    if bci < 0 || bci >= m.code@.len() || !(bci < m.next_at(bci) <= m.code@.len()) {
    } else {
        let next = m.next_at(bci);
        let i = m.instr_at(bci);
        if i is ReturnTos || i is ReturnSelf {
        } else if let Instr::Send { ic, .. } = i {
            lemma_nonleaf_send(cx, m, m.ics@[ic as int], this, klass, bci as usize, proto, s);
            let r = nonleaf_send(cx, m, m.ics@[ic as int], this, klass, bci as usize, proto, s);
            if r is Some {
                let s1 = (r->0).0;
                assert(keeps(s, Some(s1)));
                if !(r->0).1 {
                    lemma_nonleaf_walk(cx, m, this, klass, slots, proto, next, s1);
                    assert(nonleaf_walk(cx, m, this, klass, slots, proto, bci, s)
                        == nonleaf_walk(cx, m, this, klass, slots, proto, next, s1));
                }
            }
        } else {
            lemma_simple(cx.vm, m, i, this, slots, true, s);
            let r = simple(cx.vm, m, i, this, slots, true, s);
            if r is Some {
                lemma_nonleaf_walk(cx, m, this, klass, slots, proto, next, r->0);
                assert(nonleaf_walk(cx, m, this, klass, slots, proto, bci, s) == nonleaf_walk(
                    cx,
                    m,
                    this,
                    klass,
                    slots,
                    proto,
                    next,
                    r->0,
                ));
            }
        }
    }
}

proof fn lemma_inline_nonleaf(cx: CtxView, x: SiteView, s: St)
    ensures
        inline_nonleaf(cx, x, s) matches Some((t, _)) ==> keeps(s, Some(t)),
{
    let m = cx.vm.m(x.callee);
    let s0 = s.intern(pool_oop(m.oop));
    lemma_enter_body(cx.vm, x, seq![], s0);
    if let Some(s1) = enter_body(cx.vm, x, seq![], s0) {
        lemma_nonleaf_walk(
            cx,
            m,
            x.receiver,
            body_klass(cx, x),
            body_slots(cx.vm, x, s),
            method_proto(cx.vm, x, s),
            0,
            s1,
        );
    }
}

proof fn lemma_ctx(cx: CtxView, idx: u16, s: St)
    ensures
        keeps(s, ctx_push(cx, cx.method_ctx_vreg, idx, s)),
        keeps(s, ctx_store(cx, cx.method_ctx_vreg, idx, s)),
{
}

proof fn lemma_block_walk(
    cx: CtxView,
    m: Method,
    this: VReg,
    klass: Option<KlassOop>,
    slots: Seq<VReg>,
    proto: crate::ir::InlineView,
    bci: int,
    s: St,
)
    ensures
        walk_ok(s, block_walk(cx, m, this, klass, slots, proto, bci, s)),
    decreases m.code@.len() - bci,
{
    let w = block_walk(cx, m, this, klass, slots, proto, bci, s);
    if bci < 0 || bci >= m.code@.len() || !(bci < m.next_at(bci) <= m.code@.len()) {
    } else {
        let next = m.next_at(bci);
        let i = m.instr_at(bci);
        if i is ReturnTos || i is ReturnSelf || i is BlockReturnTos {
            assert(walk_ok(s, w));
        } else if i is NlrTos {
            assert(walk_ok(s, w));
        } else if let Instr::Send { ic, .. } = i {
            lemma_block_send(cx, m.ics@[ic as int], this, klass, bci as usize, proto, s);
            let r = block_send(cx, m.ics@[ic as int], this, klass, bci as usize, proto, s);
            if r is Some {
                let s1 = (r->0).0;
                assert(keeps(s, Some(s1)));
                if !(r->0).1 {
                    lemma_block_walk(cx, m, this, klass, slots, proto, next, s1);
                    assert(w == block_walk(cx, m, this, klass, slots, proto, next, s1));
                } else {
                    assert(walk_ok(s, w));
                }
            }
        } else {
            let r = if let Instr::PushCtxTemp { idx, .. } = i {
                lemma_ctx(cx, idx, s);
                ctx_push(cx, cx.method_ctx_vreg, idx, s)
            } else if let Instr::StoreCtxTempPop { idx, .. } = i {
                lemma_ctx(cx, idx, s);
                ctx_store(cx, cx.method_ctx_vreg, idx, s)
            } else {
                lemma_simple(cx.vm, m, i, this, slots, false, s);
                simple(cx.vm, m, i, this, slots, false, s)
            };
            assert(keeps(s, r));
            if r is Some {
                lemma_block_walk(cx, m, this, klass, slots, proto, next, r->0);
                assert(w == block_walk(cx, m, this, klass, slots, proto, next, r->0));
            }
        }
    }
}

proof fn lemma_block_body(
    cx: CtxView,
    m: Method,
    this: VReg,
    slots: Seq<VReg>,
    proto: crate::ir::InlineView,
    s: St,
)
    ensures
        block_body(cx, m, this, slots, proto, s) matches Some((t, v)) ==> free(s) ==> (
        if v is Some {
            free(t)
        } else {
            shut(t)
        }),
{
    let klass = if this == cx.self_vreg {
        Some(cx.rcvr_klass)
    } else {
        None
    };
    lemma_block_walk(
        cx,
        m,
        this,
        klass,
        slots,
        proto,
        0,
        s.with_out(s.out.commit(m.inline_cost)).with_stack(seq![]),
    );
}

proof fn lemma_fresh_regs(o: OutView, n: nat)
    ensures
        fresh_regs(o, n).blocks == o.blocks,
    decreases n,
{
    if n > 0 {
        lemma_fresh_regs(o, (n - 1) as nat);
    }
}

proof fn lemma_fresh_blocks(o: OutView, n: nat)
    ensures
        rets_ok(o.blocks) ==> rets_ok(fresh_blocks(o, n).blocks),
    decreases n,
{
    if n > 0 {
        lemma_fresh_blocks(o, (n - 1) as nat);
    }
}

proof fn lemma_merge_regs(sources: Seq<EntryStackSource>, depths: Seq<i32>, k: nat, o: OutView)
    ensures
        merge_regs(sources, depths, k, o) matches Some((p, _)) ==> p.blocks == o.blocks,
    decreases k,
{
    if k > 0 {
        lemma_merge_regs(sources, depths, (k - 1) as nat, o);
        if let Some((p, _)) = merge_regs(sources, depths, (k - 1) as nat, o) {
            lemma_fresh_regs(p, depths[k - 1] as nat);
        }
    }
}

proof fn lemma_feed(
    sources: Seq<EntryStackSource>,
    entry_stacks: Seq<Option<Seq<VReg>>>,
    t: int,
    exit: Seq<VReg>,
    s: SegView,
)
    ensures
        feed(sources, entry_stacks, t, exit, s) matches Some(g) ==> no_ret(s.code) ==> no_ret(g.code),
{
    if let Some(regs) = entry_stacks[t] {
        let ops = moves(regs, exit);
        assert(no_ret(ops)) by {
            reveal(no_ret);
        }
    }
}

proof fn lemma_graft_start(
    cx: CtxView,
    x: SiteView,
    blockarg: Option<BlockArg>,
    mode: GraftView,
    s: St,
)
    ensures
        graft_start(cx, x, blockarg, mode, s) matches Some((t, _)) ==> keeps(s, Some(t)),
{
    let m = cx.vm.m(x.callee);
    let n = m.cfg.blocks@.len();
    if mode.is_block && s.out.spliced_multibb == u32::MAX {
    } else {
        let sa = if mode.is_block {
            s.with_out(OutView { spliced_multibb: (s.out.spliced_multibb + 1) as u32, ..s.out })
        } else {
            s
        };
        let sb = sa.intern(pool_oop(m.oop));
        lemma_enter_body(cx.vm, x, guard_closures(blockarg, s.depth()), sb);
        if let Some(s1) = enter_body(cx.vm, x, guard_closures(blockarg, s.depth()), sb) {
            lemma_fresh_blocks(s1.out, n + 1);
            lemma_merge_regs(
                entry_sources(m.cfg, entry_depths(m, m.cfg)),
                entry_depths(m, m.cfg),
                n,
                fresh_blocks(s1.out, n + 1).fresh(true),
            );
        }
    }
}

proof fn lemma_graft_terminator(x: ExtentView, b: int, last: usize, s: St, reach: Seq<bool>)
    ensures
        graft_terminator(x, b, last, s, reach) matches Some((t, _)) ==> keeps(s, Some(t)),
{
    match x.m.cfg.blocks@[b].terminator {
        Terminator::Return => {},
        Terminator::Fallthrough(t) => {
            lemma_feed(x.sources, x.entry_stacks, t as int, s.seg.stack, s.seg);
        },
        Terminator::Jump { target, is_backward } => {
            let s1 = if is_backward {
                s.site(
                    crate::ir::DeoptView {
                        stack: s.seg.stack,
                        bci: x.m.cfg.blocks@[target as int].bci_start,
                        kind: crate::scopes::SafepointKind::LoopPoll,
                        reexecute: true,
                        stack_closures: seq![],
                        inline: Some(x.proto),
                    },
                ).emit(Ir::Poll)
            } else {
                s
            };
            lemma_feed(x.sources, x.entry_stacks, target as int, s1.seg.stack, s1.seg);
        },
        Terminator::Branch { if_true, if_false } => {
            let s1 = s.drop(1).with_out(s.out.trap(last, s.seg.stack, seq![], Some(x.proto)));
            lemma_feed(x.sources, x.entry_stacks, if_true as int, s1.seg.stack, s1.seg);
            if let Some(g1) = feed(
                x.sources,
                x.entry_stacks,
                if_true as int,
                s1.seg.stack,
                s1.seg,
            ) {
                lemma_feed(x.sources, x.entry_stacks, if_false as int, s1.seg.stack, g1);
            }
        },
    }
}

spec fn walk_keeps(s: St, r: Option<(Pos, WalkEnd)>) -> bool {
    r matches Some((q, end)) ==> free(s) ==> (if end is Fell {
        free(q.s)
    } else {
        shut(q.s)
    })
}

proof fn lemma_graft_block_send(
    cx: CtxView,
    x: ExtentView,
    b: int,
    entry: Seq<VReg>,
    a: BlockArg,
    ic: InterpreterIc,
    bci: usize,
    p: Pos,
)
    ensures
        walk_keeps(p.s, graft_block_send(cx, x, b, entry, a, ic, bci, p)),
    decreases rank(x.blockarg), 0nat, 0int,
{
    let depth = p.s.depth();
    let args = p.s.seg.stack.subrange(depth - ic.argc, depth as int);
    let s = p.s.drop(ic.argc + 1);
    if x.blockarg is None {
    } else if cx.vm.m(a.block).cfg.blocks@.len() > 1 {
        lemma_graft_cfg(
            cx,
            block_site(cx, x.dep_klass, a, ic, args, bci),
            None,
            GraftView { is_block: true, parent: Some(Box::new(x.proto)) },
            s,
        );
    } else {
        reveal(inner_block);
        let m = cx.vm.m(a.block);
        let nil = pool_oop(cx.vm.universe.nil_obj);
        let slots = args + next_regs(s.out, m.ntemps as nat);
        lemma_nil_temps(s.lit(nil), m.ntemps as nat, s.intern(nil));
        lemma_block_body(
            cx,
            m,
            cx.self_vreg,
            slots,
            crate::graft::inner_block_proto(cx, x, a, slots, bci, s.seg.stack),
            nil_temps(s.lit(nil), m.ntemps as nat, s.intern(nil)),
        );
    }
}

proof fn lemma_graft_step(
    cx: CtxView,
    x: ExtentView,
    b: int,
    entry: Seq<VReg>,
    bci: usize,
    i: Instr,
    p: Pos,
)
    ensures
        walk_keeps(p.s, graft_step(cx, x, b, entry, bci, i, p)),
    decreases rank(x.blockarg), 1nat, 0int,
{
    match i {
        Instr::Send { ic, .. } => {
            let ic = x.m.ics@[ic as int];
            let depth = p.s.depth();
            let ph = crate::graft::resized(p.ph, depth);
            if depth < ic.argc + 1 {
            } else if ph[depth - 1 - ic.argc] {
                if let Some(a) = x.blockarg {
                    lemma_graft_block_send(cx, x, b, entry, a, ic, bci, Pos { ph, ..p });
                }
            } else {
                lemma_graft_send(cx, x, ic, bci, ph, p.s);
            }
        },
        _ => {
            lemma_graft_instr(cx, x, i, p.s);
        },
    }
}

proof fn lemma_graft_send(
    cx: CtxView,
    x: ExtentView,
    ic: InterpreterIc,
    bci: usize,
    ph: Seq<bool>,
    s: St,
)
    ensures
        graft_send(cx, x, ic, bci, ph, s) matches Some(r) ==> keeps(s, Some(r.0)),
{
}

proof fn lemma_graft_instr(cx: CtxView, x: ExtentView, i: Instr, s: St)
    ensures
        graft_instr(cx, x, i, s) matches Some((t, returned)) ==> free(s) ==> (if returned {
            shut(t)
        } else {
            free(t)
        }),
{
}

proof fn lemma_graft_walk(
    cx: CtxView,
    x: ExtentView,
    b: int,
    entry: Seq<VReg>,
    bci: int,
    last: int,
    p: Pos,
)
    ensures
        graft_walk(cx, x, b, entry, bci, last, p) matches Some((q, end, _)) ==> walk_keeps(
            p.s,
            Some((q, end)),
        ),
    decreases rank(x.blockarg), 2nat, x.m.code@.len() - bci,
{
    let m = x.m;
    if bci >= m.cfg.blocks@[b].bci_end {
    } else if bci < 0 || bci >= m.code@.len() || !(bci < m.next_at(bci) <= m.code@.len()) {
    } else {
        lemma_graft_step(cx, x, b, entry, bci as usize, m.instr_at(bci), p);
        match graft_step(cx, x, b, entry, bci as usize, m.instr_at(bci), p) {
            None => {},
            Some((p1, end)) => if end is Fell {
                lemma_graft_walk(cx, x, b, entry, m.next_at(bci), bci, p1);
            },
        }
    }
}

proof fn lemma_graft_blocks(
    cx: CtxView,
    x: ExtentView,
    b: int,
    exits: Seq<Option<Seq<VReg>>>,
    reach: Seq<bool>,
    out: OutView,
)
    ensures
        graft_blocks(cx, x, b, exits, reach, out) matches Some(o) ==> rets_ok(out.blocks)
            ==> rets_ok(o.blocks),
    decreases rank(x.blockarg), 3nat, x.m.cfg.blocks@.len() - b,
{
    if b < 0 || b >= x.m.cfg.blocks@.len() {
    } else if !reach[b] {
        let o1 = out.finish(crate::graft::dead_block(x.ids[b], x.send_bci));
        lemma_graft_blocks(cx, x, b + 1, exits, reach, o1);
    } else {
        match block_entry(x, b, exits) {
            None => {},
            Some(entry) => {
                let start = x.m.cfg.blocks@[b].bci_start as int;
                let s = St {
                    out,
                    seg: SegView { stack: entry, code: Seq::empty(), deopt: Seq::empty() },
                };
                let p = start_pos(x, b, s);
                lemma_graft_walk(cx, x, b, entry, start, start, p);
                match graft_walk(cx, x, b, entry, start, start, p) {
                    None => {},
                    Some((p1, end, last)) => {
                        lemma_graft_terminator(x, b, last as usize, p1.s, reach);
                        let closed = match end {
                            WalkEnd::Fell => graft_terminator(x, b, last as usize, p1.s, reach),
                            _ => Some((p1.s, reach)),
                        };
                        match closed {
                            None => {},
                            Some((s1, reach1)) => {
                                assert(rets_ok(out.blocks) ==> shut(s1));
                                lemma_graft_blocks(
                                    cx,
                                    x,
                                    b + 1,
                                    exits.update(b, Some(s1.seg.stack)),
                                    reach1,
                                    s1.out.finish(seg_block(x, b, p1.cur, entry, s1.seg)),
                                );
                            },
                        }
                    },
                }
            },
        }
    }
}

proof fn lemma_graft_cfg(
    cx: CtxView,
    x: SiteView,
    blockarg: Option<BlockArg>,
    mode: GraftView,
    s: St,
)
    ensures
        graft_cfg(cx, x, blockarg, mode, s) matches Some((t, _)) ==> keeps(s, Some(t)),
    decreases rank(blockarg), 5nat, 0int,
{
    lemma_graft_start(cx, x, blockarg, mode, s);
    match graft_start(cx, x, blockarg, mode, s) {
        Some((s1, Some(e))) => {
            if e.blockarg == blockarg {
                let n = e.m.cfg.blocks@.len();
                lemma_graft_blocks(
                    cx,
                    e,
                    0,
                    Seq::new(n, |i: int| None),
                    Seq::new(n, |i: int| i == 0),
                    s1.out,
                );
            }
        },
        _ => {},
    }
}

proof fn lemma_inline_cfg(
    cx: CtxView,
    x: SiteView,
    blockarg: Option<BlockArg>,
    mode: GraftView,
    s: St,
)
    ensures
        inline_cfg(cx, x, blockarg, mode, s) matches Some((t, _)) ==> keeps(s, Some(t)),
{
    reveal(inline_cfg);
    lemma_graft_cfg(cx, x, blockarg, mode, s);
}

proof fn lemma_splices(cx: CtxView, x: SiteView, s: St)
    ensures
        splices(cx, x, s) matches Some((t, _)) ==> keeps(s, Some(t)),
{
    reveal(splices);
    lemma_inline_leaf(cx, x, s);
    lemma_inline_nonleaf(cx, x, s);
    lemma_inline_cfg(cx, x, None, GraftView { is_block: false, parent: None }, s);
}

spec fn end_keeps(s: St, r: Option<(St, EndView)>) -> bool {
    r matches Some((t, _)) ==> keeps(s, Some(t))
}

proof fn lemma_static_splice(
    cx: CtxView,
    ic: InterpreterIc,
    target: Option<MethodOop>,
    dep_klass: KlassOop,
    bci: usize,
    s: St,
)
    ensures
        static_splice(cx, ic, target, dep_klass, bci, s) matches Some((t, _)) ==> keeps(s, Some(t)),
{
    if let Some(t) = target {
        lemma_splices(cx, site_of(ic, t, None, dep_klass, bci, s), s.drop(ic.argc + 1));
    }
}

proof fn lemma_dominant_splice(
    cx: CtxView,
    ic: InterpreterIc,
    klass: KlassOop,
    callee: MethodOop,
    guard: crate::world::GuardKind,
    bci: usize,
    s: St,
)
    ensures
        end_keeps(s, dominant_splice(cx, ic, klass, callee, guard, bci, s)),
{
    let n = ic.argc + 1;
    if s.depth() < n || ic.argc == 255 || !s.out.can_block() || !s.out.new_block().can_block() {
    } else {
        let below = s.drop(n);
        let x = site_of(ic, callee, None, klass, bci, s);
        let cont = s.out.block_id();
        let slow = s.out.new_block().block_id();
        let info = crate::ir::CallSiteInfo {
            selector: ic.selector,
            argc: (ic.argc + 1) as u8,
            static_klass: None,
        };
        let out = s.out.new_block().new_block().fresh(true).fresh(true).call_site(
            info,
            ic.feedback@,
        ).finish(
            crate::root::slow_block(
                slow,
                bci,
                s.reg(),
                s.fresh(true).reg(),
                s.out.call_sites.len() as u16,
                s.seg.stack.subrange(s.depth() - n, s.depth() as int),
                cont,
                below.seg.stack,
            ),
        );
        let e = pool_oop(klass.0);
        let s1 = below.with_out(out.intern(e)).emit(
            Ir::GuardKlass {
                obj: x.receiver,
                expect: out.lit(e),
                fail: slow,
                kind: guard_shape(guard),
            },
        );
        lemma_inline_leaf(cx, x, s1);
        reveal(no_ret);
        reveal(rets_last);
    }
}

proof fn lemma_profiled_send(cx: CtxView, ic: InterpreterIc, is_static: bool, bci: usize, s: St)
    ensures
        end_keeps(s, profiled_send(cx, ic, is_static, bci, s)),
{
    match budgeted(cx, ic, is_static, s) {
        None => {},
        Some((s1, d)) => match d {
            InlineDecision::Inline { callee, guard } => {
                if let SiteFeedback::Mono { klass, .. } = ic.feedback@ {
                    lemma_splices(
                        cx,
                        site_of(ic, callee, Some((klass, guard_shape(guard))), klass, bci, s1),
                        s1.drop(ic.argc + 1),
                    );
                }
                assert(end_keeps(s1, guarded_splice(cx, ic, callee, guard, bci, s1)));
            },
            InlineDecision::DominantWithSlowPath { case_klass, case_method, guard } => {
                lemma_dominant_splice(cx, ic, case_klass, case_method, guard, bci, s1);
            },
            _ => {},
        },
    }
}

proof fn lemma_dispatch_send(
    cx: CtxView,
    ic: InterpreterIc,
    bci: usize,
    s: St,
    sites: Seq<Option<usize>>,
)
    ensures
        end_keeps(s, dispatch_send(cx, ic, bci, s, sites)),
{
    let target = self_target(cx, ic, s, sites);
    lemma_static_splice(cx, ic, target, cx.rcvr_klass, bci, s);
    if let Some((s1, end)) = static_splice(cx, ic, target, cx.rcvr_klass, bci, s) {
        if let Some(s2) = count_cold(cx, ic, s1) {
            lemma_profiled_send(cx, ic, target is Some, bci, s2);
        }
    }
}

proof fn lemma_root_send(
    cx: CtxView,
    ic: InterpreterIc,
    is_super: bool,
    fusable: bool,
    bci: usize,
    s: St,
    sites: Seq<Option<usize>>,
)
    ensures
        end_keeps(s, root_send(cx, ic, is_super, fusable, bci, s, sites)),
{
    if is_super {
        if let Some(holder) = cx.vm.m(cx.method).holder {
            if let Some(info) = cx.vm.info(holder) {
                if let Some(sup) = info.superclass {
                    lemma_static_splice(cx, ic, cx.vm.lookup(sup, ic.selector), sup, bci, s);
                }
            }
        }
        assert(end_keeps(s, super_send(cx, ic, bci, s)));
    } else {
        lemma_dispatch_send(cx, ic, bci, s, sites);
        let s1 = s.with_out(
            alloc_out(cx.vm, s.out, ic, s.top(0), cx.self_vreg, root_klass(cx)),
        );
        lemma_dispatch_send(cx, ic, bci, s1, sites);
        assert(end_keeps(s, generic_send(cx, ic, bci, s, sites)));
    }
}

/// What an instruction leaves of the block: closed where control left it.
spec fn step_keeps(s: St, x: Step) -> bool {
    free(s) ==> (if x.end is Trapped {
        shut(x.s)
    } else {
        free(x.s)
    })
}

proof fn lemma_value_splice(
    cx: CtxView,
    site: usize,
    ic: InterpreterIc,
    bci: usize,
    s: St,
    sites: Seq<Option<usize>>,
)
    ensures
        value_splice(cx, site, ic, bci, s, sites) matches Some(x) ==> step_keeps(s, x),
{
    let n = ic.argc + 1;
    if let Some(blk) = created_block(cx, site) {
        if s.depth() >= n {
            let args = s.seg.stack.subrange(s.depth() - ic.argc, s.depth() as int);
            let below = s.drop(n);
            lemma_inline_cfg(
                cx,
                Site {
                    callee: blk,
                    guard: None,
                    dep_klass: cx.rcvr_klass,
                    selector: ic.selector,
                    receiver: cx.self_vreg,
                    args,
                    bci,
                },
                None,
                GraftView { is_block: true, parent: None },
                below,
            );
            let m = cx.vm.m(blk);
            let nil = pool_oop(cx.vm.universe.nil_obj);
            let e = pool_oop(m.oop);
            let slots = args + next_regs(below.out, m.ntemps as nat);
            let s1 = nil_temps(below.lit(nil), m.ntemps as nat, below.intern(nil));
            lemma_nil_temps(below.lit(nil), m.ntemps as nat, below.intern(nil));
            lemma_block_body(
                cx,
                m,
                cx.self_vreg,
                slots,
                crate::instr::value_proto(cx, s1.lit(e).0, slots, bci, below.seg.stack),
                s1.intern(e),
            );
        }
    }
}

proof fn lemma_blockarg_splice(
    cx: CtxView,
    t: BlockArgSend,
    ic: InterpreterIc,
    bci: usize,
    s: St,
    sites: Seq<Option<usize>>,
)
    ensures
        blockarg_splice(cx, t, ic, bci, s, sites) matches Some(x) ==> step_keeps(s, x),
{
    let n = ic.argc + 1;
    match (created_block(cx, t.site), blockarg_callee(cx, ic, t.devirt)) {
        (Some(blk), Some((guard, dep_klass, callee))) => {
            if s.depth() >= n {
                let e = pool_oop(cx.vm.m(blk).oop);
                lemma_inline_cfg(
                    cx,
                    site_of(ic, callee, guard, dep_klass, bci, s),
                    Some(BlockArg { arg_ix: t.arg_ix, block: blk, pool_ix: s.lit(e).0 }),
                    GraftView { is_block: false, parent: None },
                    s.drop(n).intern(e),
                );
            }
        },
        _ => {},
    }
}

/// An instruction returns out of the method.
pub open spec fn returns_value(i: Instr) -> bool {
    i is ReturnTos || i is BlockReturnTos
}

proof fn lemma_instr_step(
    cx: CtxView,
    i: Instr,
    fusable: bool,
    bci: usize,
    s: St,
    sites: Seq<Option<usize>>,
)
    ensures
        instr_step(cx, i, fusable, bci, s, sites) matches Some(x) ==> free(s) ==> (
        if x.end is Trapped || returns_value(i) {
            shut(x.s)
        } else {
            free(x.s)
        }) && (returns_value(i) ==> x.end is Next),
{
    let m = cx.vm.m(cx.method);
    if let Instr::Send { ic, super_ } = i {
        let site = m.ics@[ic as int];
        if let Some(t) = m.escape.blockarg_target(bci) {
            lemma_blockarg_splice(cx, t, site, bci, s, sites);
        } else if let Some(v) = m.escape.value_target(bci) {
            lemma_value_splice(cx, v, site, bci, s, sites);
        }
        lemma_root_send(cx, site, super_, fusable, bci, s, sites);
    }
    if let Instr::PushClosure { lit, ncopied } = i {
        lemma_alloc_closure(cx, lit, ncopied, bci, s);
    }
}

proof fn lemma_alloc_closure(cx: CtxView, lit: u16, ncopied: u8, bci: usize, s: St)
    ensures
        keeps(s, alloc_closure(cx, lit, ncopied, bci, s)),
{
    assert forall|d: VReg, first: int, vals: Seq<VReg>| no_ret(
        #[trigger] capture_stores(d, first, vals),
    ) by {
        reveal(no_ret);
    }
}

/// Returns end their blocks: what the decoder gives.
pub open spec fn returns_end(m: Method, cfg: Cfg) -> bool {
    forall|b: int, bci: int|
        #![trigger cfg.blocks@[b], m.code@[bci]]
        0 <= b < cfg.blocks@.len() && cfg.blocks@[b].bci_start <= bci < cfg.blocks@[b].bci_end
            && bci < m.code@.len() && m.code@[bci] is Some && returns_value(m.instr_at(bci))
            ==> m.next_at(bci) >= cfg.blocks@[b].bci_end && cfg.blocks@[b].terminator is Return
}

proof fn lemma_root_walk(
    cx: CtxView,
    m: Method,
    pl: Plan,
    b: int,
    entry: Seq<VReg>,
    bci: int,
    p: RootPos,
)
    requires
        m == cx.vm.m(cx.method),
        m.code_wf(),
        returns_end(m, pl.cfg),
        0 <= b < pl.cfg.blocks@.len(),
        pl.cfg.blocks@[b].bci_start <= bci,
        m.boundary(bci) || bci >= m.code@.len(),
    ensures
        root_walk(cx, m, pl, b, entry, bci, p) matches Some((q, trapped)) ==> free(p.s) ==> shut(q.s)
            && (free(q.s) || trapped || pl.cfg.blocks@[b].terminator is Return),
    decreases m.code@.len() - bci,
{
    let blk = pl.cfg.blocks@[b];
    if bci >= blk.bci_end {
    } else if bci < 0 || bci >= m.code@.len() || !(bci < m.next_at(bci) <= m.code@.len()) {
    } else {
        let next = m.next_at(bci);
        let fuse = crate::convert::fusable(m, blk, next);
        assert(m.code@[bci] is Some);
        lemma_instr_step(cx, m.instr_at(bci), fuse, bci as usize, p.s, p.sites);
        match instr_step(cx, m.instr_at(bci), fuse, bci as usize, p.s, p.sites) {
            None => {},
            Some(x) => {
                let (q, over) = after_instr(b, entry, next as usize, bci as usize, p, x);
                if returns_value(m.instr_at(bci)) {
                    assert(cfg_at(pl, b) == blk);
                    assert(next >= blk.bci_end);
                    if free(p.s) {
                        assert(x.end is Next);
                        assert(root_walk(cx, m, pl, b, entry, next, q) == Some((q, false)));
                    }
                } else if !over {
                    assert(free(p.s) ==> free(q.s));
                    lemma_root_walk(cx, m, pl, b, entry, next, q);
                }
            },
        }
    }
}

spec fn cfg_at(pl: Plan, b: int) -> crate::world::CfgBlock {
    pl.cfg.blocks@[b]
}

proof fn lemma_prologue(cx: CtxView, m: Method, lits: Lits, s: St)
    ensures
        keeps(s, Some(prologue(cx, m, lits, s))),
{
    assert forall|r: Seq<VReg>, n: nat| no_ret(#[trigger] param_ops(r, n)) by {
        reveal(no_ret);
    }
    assert forall|r: Seq<VReg>, l: PoolLit| no_ret(#[trigger] nil_ops(r, l)) by {
        reveal(no_ret);
    }
}

proof fn lemma_root_terminator(pl: Plan, b: int, p: RootPos)
    ensures
        root_terminator(pl, b, p) matches Some(t) ==> (free(p.s) ==> shut(t)) && (
        pl.cfg.blocks@[b].terminator is Return ==> t == p.s),
{
    let s = p.s;
    match pl.cfg.blocks@[b].terminator {
        Terminator::Return => {},
        Terminator::Fallthrough(t) => {
            lemma_feed(pl.sources, pl.entry_stacks, t as int, s.seg.stack, s.seg);
        },
        Terminator::Jump { target, is_backward } => {
            let g = if is_backward {
                s.seg.site(
                    crate::ir::DeoptView {
                        stack: s.seg.stack,
                        bci: pl.cfg.blocks@[target as int].bci_start,
                        kind: crate::scopes::SafepointKind::LoopPoll,
                        reexecute: true,
                        stack_closures: seq![],
                        inline: None,
                    },
                ).emit(Ir::Poll)
            } else {
                s.seg
            };
            lemma_feed(pl.sources, pl.entry_stacks, target as int, s.seg.stack, g);
        },
        Terminator::Branch { if_true, if_false } => {
            let exit = if p.pending is Some {
                s.seg.stack
            } else {
                s.seg.stack.drop_last()
            };
            lemma_feed(pl.sources, pl.entry_stacks, if_true as int, exit, s.seg);
            if let Some(g1) = feed(pl.sources, pl.entry_stacks, if_true as int, exit, s.seg) {
                lemma_feed(pl.sources, pl.entry_stacks, if_false as int, exit, g1);
            }
        },
    }
}

proof fn lemma_root_blocks(
    cx: CtxView,
    m: Method,
    pl: Plan,
    b: int,
    exits: Seq<Option<Seq<VReg>>>,
    reach: Seq<bool>,
    out: OutView,
)
    requires
        m == cx.vm.m(cx.method),
        m.code_wf(),
        m.cfg_wf(pl.cfg),
        returns_end(m, pl.cfg),
        rets_ok(out.blocks),
    ensures
        root_blocks(cx, m, pl, b, exits, reach, out) matches Some(o) ==> rets_ok(o.blocks),
    decreases pl.cfg.blocks@.len() - b,
{
    if b < 0 || b >= pl.cfg.blocks@.len() {
    } else if !reach[b] {
        let o1 = out.finish(
            crate::graft::dead_block(crate::convert::root_id(b), pl.cfg.blocks@[b].bci_start),
        );
        lemma_root_blocks(cx, m, pl, b + 1, exits, reach, o1);
    } else {
        match crate::convert::root_entry(pl, b, exits) {
            None => {},
            Some(entry) => {
                let blk = pl.cfg.blocks@[b];
                let s = St {
                    out,
                    seg: SegView { stack: entry, code: Seq::empty(), deopt: Seq::empty() },
                };
                lemma_prologue(cx, m, pl.lits, s);
                let start = root_start(cx, m, pl, b, entry, out);
                assert(free(start.s));
                assert(m.boundary(blk.bci_start as int));
                lemma_root_walk(cx, m, pl, b, entry, blk.bci_start as int, start);
                match root_walk(cx, m, pl, b, entry, blk.bci_start as int, start) {
                    None => {},
                    Some((p, trapped)) => {
                        lemma_root_terminator(pl, b, p);
                    },
                }
                match root_block_done(cx, m, pl, b, entry, reach, out) {
                    None => {},
                    Some((o1, exit, reach1)) => {
                        assert(rets_ok(o1.blocks));
                        lemma_root_blocks(
                            cx,
                            m,
                            pl,
                            b + 1,
                            exits.update(b, Some(exit)),
                            reach1,
                            o1,
                        );
                    },
                }
            },
        }
    }
}

/// Where returns end their bytecode blocks, they end the blocks of the translation.
pub(crate) proof fn lemma_translated_rets(cx: CtxView, m: Method, pl: Plan, o0: OutView)
    requires
        m == cx.vm.m(cx.method),
        m.code_wf(),
        m.cfg_wf(pl.cfg),
        returns_end(m, pl.cfg),
        rets_ok(o0.blocks),
    ensures
        translated(cx, m, pl, o0) matches Some(o) ==> rets_ok(o.blocks),
{
    let n = pl.cfg.blocks@.len();
    lemma_root_blocks(
        cx,
        m,
        pl,
        0,
        Seq::new(n, |i: int| None),
        Seq::new(n, |i: int| i == 0),
        o0,
    );
}

} // verus!

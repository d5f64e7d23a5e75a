//! A whole translation is sound.

use vstd::prelude::*;
use crate::convert::{
    after_instr, ctx_of, emit_all, empty_out, exit_stack, fusable, intern_lits, nil_ops, param_ops,
    prologue, root_block, root_block_done, root_blocks, root_branch, root_entry, root_id,
    root_jump, root_start, root_terminator, root_walk, split_target, translated, Lits, Plan,
    RootPos,
};
use crate::depths::{entry_depths, entry_sources, feed, EntryStackSource};
use crate::graft::{dead_block, merge_regs};
use crate::instr::instr_step;
use crate::ir::{DeoptView, Ir, IrView, VReg};
use crate::root::{PendingCmp, Step, StepEnd};
use crate::scopes::SafepointKind;
use crate::kinds::reg_ok;
use crate::sound::{
    block_ok, group_steps, grows, lemma_append_ops, lemma_filled, lemma_out_facts, lemma_out_same,
    lemma_started, lit_ok, ok, op_ok, ops_ok, out_ok, regs_ok, steps, target_ok,
};
use crate::sound_graft::{lemma_feed, lemma_merge_regs, lemma_sources, lemma_stacks_grow, stacks_ok};
use crate::sound_root::{lemma_instr_step, pending_ok, root_ok, step_ok};
use crate::sound_splice::cx_ok;
use crate::translator::{CtxView, OutView, SegView, St};
use crate::world::{Cfg, Method, Terminator, VmState};

verus! {

broadcast use crate::kinds::group_kinds;

/// The plan of a translation is in order.
pub open spec fn plan_ok(pl: Plan, o: OutView) -> bool {
    let n = pl.cfg.blocks@.len();
    &&& 0 < n <= o.blocks.len()
    &&& n <= u32::MAX
    &&& pl.sources.len() == n
    &&& pl.entry_stacks.len() == n
    &&& stacks_ok(pl.entry_stacks, o)
    &&& lit_ok(pl.lits.nil, o)
    &&& lit_ok(pl.lits.ctx_klass, o)
    &&& forall|i: int|
        0 <= i < n ==> ((#[trigger] pl.sources[i]) matches EntryStackSource::Inherit(p) ==> p < n)
    &&& forall|i: int| 0 <= i < n ==> (#[trigger] pl.cfg.blocks@[i]).terminator.wf(n as int)
}

proof fn lemma_plan_grows(pl: Plan, a: OutView, b: OutView)
    requires
        plan_ok(pl, a),
        grows(a, b),
    ensures
        plan_ok(pl, b),
{
    lemma_stacks_grow(pl.entry_stacks, a, b);
}

proof fn lemma_emit_all(s: St, ops: Seq<IrView>)
    requires
        ok(s),
        ops_ok(ops, s.out),
    ensures
        ok(emit_all(s, ops)),
{
    lemma_append_ops(s, ops);
}

proof fn lemma_param_ops(regs: Seq<VReg>, n: nat, o: OutView)
    requires
        regs_ok(regs, o),
        n <= regs.len(),
    ensures
        ops_ok(param_ops(regs, n), o),
{
    let ops = param_ops(regs, n);
    assert forall|i: int| 0 <= i < ops.len() implies op_ok(#[trigger] ops[i], o) by {
        assert(reg_ok(regs[i], o));
    }
}

proof fn lemma_nil_ops(regs: Seq<VReg>, nil: crate::ir::PoolLit, o: OutView)
    requires
        regs_ok(regs, o),
        lit_ok(nil, o),
    ensures
        ops_ok(nil_ops(regs, nil), o),
{
    let ops = nil_ops(regs, nil);
    assert forall|i: int| 0 <= i < ops.len() implies op_ok(#[trigger] ops[i], o) by {
        assert(reg_ok(regs[i], o));
    }
}

/// The registers that hold the method's frame.
spec fn frame_ok(cx: CtxView, m: Method) -> bool {
    &&& cx.temp_vregs.len() == m.nslots()
    &&& m.is_block ==> cx.block_closure_vreg == crate::convert::closure_reg(m)
}

proof fn lemma_prologue(cx: CtxView, m: Method, lits: Lits, s: St)
    requires
        ok(s),
        cx_ok(cx, s.out),
        frame_ok(cx, m),
        lit_ok(lits.nil, s.out),
        lit_ok(lits.ctx_klass, s.out),
    ensures
        steps(s, Some(prologue(cx, m, lits, s))),
        prologue(cx, m, lits, s).seg.stack == s.seg.stack,
{
    broadcast use group_steps;

    let params = param_ops(cx.temp_vregs, m.argc as nat);
    let rest = cx.temp_vregs.skip(m.argc as int);
    lemma_param_ops(cx.temp_vregs, m.argc as nat, s.out);
    assert(regs_ok(rest, s.out));
    lemma_nil_ops(rest, lits.nil, s.out);
    lemma_nil_ops(cx.ctx_vregs, lits.nil, s.out);
    if m.is_block {
        let closure = crate::convert::closure_reg(m)->0;
        let s0 = s.emit(Ir::Param { dst: closure, index: 0 });
        lemma_emit_all(s0, params);
        let s1 = emit_all(s0, params).emit(
            Ir::LoadField { dst: cx.self_vreg, obj: closure, byte_off: 40 },
        );
        assert(ok(s1));
        let s2 = match cx.block_ctx_vreg {
            Some(c) => s1.emit(Ir::LoadField { dst: c, obj: closure, byte_off: 48 }),
            None => s1,
        };
        assert(ok(s2));
        lemma_emit_all(s2, nil_ops(rest, lits.nil));
    } else {
        let s0 = s.emit(Ir::Param { dst: cx.self_vreg, index: 0 });
        lemma_emit_all(s0, params);
        lemma_emit_all(emit_all(s0, params), nil_ops(rest, lits.nil));
        let s1 = emit_all(emit_all(s0, params), nil_ops(rest, lits.nil));
        match cx.method_ctx_vreg {
            Some(ctx) => {
                let raw = DeoptView {
                    stack: seq![],
                    bci: 0,
                    kind: SafepointKind::Alloc,
                    reexecute: true,
                    stack_closures: seq![],
                    inline: None,
                };
                let s2 = s1.site(raw).emit(
                    Ir::Alloc { dst: ctx, klass: lits.ctx_klass, size_words: (4 + m.nctx) as u32 },
                );
                assert(ok(s2));
            },
            None => lemma_emit_all(s1, nil_ops(cx.ctx_vregs, lits.nil)),
        }
    }
}

/// A position in the method.
spec fn root_pos_ok(p: RootPos) -> bool {
    &&& ok(p.s)
    &&& target_ok(p.cur, p.s.out)
    &&& p.pending matches Some(c) ==> pending_ok(c, p.s.out)
    &&& p.sites.len() == p.s.depth()
}

proof fn lemma_pending_grows(c: PendingCmp<Seq<VReg>>, a: OutView, b: OutView)
    requires
        pending_ok(c, a),
        grows(a, b),
    ensures
        pending_ok(c, b),
{
}

proof fn lemma_after_instr(
    b: int,
    entry: Seq<VReg>,
    next: usize,
    bci: usize,
    p: RootPos,
    x: Step,
)
    requires
        root_pos_ok(p),
        step_ok(p.s, x),
        x.sites.len() == x.s.depth(),
        regs_ok(entry, p.s.out),
    ensures
        root_pos_ok(after_instr(b, entry, next, bci, p, x).0),
        grows(p.s.out, after_instr(b, entry, next, bci, p, x).0.s.out),
{
    broadcast use group_steps;

    if p.pending is Some {
        lemma_pending_grows(p.pending->0, p.s.out, x.s.out);
    }
    match x.end {
        StepEnd::Split(cont) => {
            let t = split_target(x.s.out, cont);
            assert(target_ok(t, x.s.out)) by {
                reveal(out_ok);
            }
            let s1 = x.s.emit(Ir::Jump { target: t });
            assert(ok(s1));
            let blk = root_block(b, p, entry, s1.seg);
            let o0 = OutView { pending_jump_target: None, ..x.s.out };
            lemma_out_same(x.s.out, o0);
            lemma_filled(s1, blk);
            let s2 = s1.with_out(o0);
            assert(ok(s2));
            lemma_filled(s2, blk);
            let out = o0.finish(blk);
            assert(out_ok(out));
            lemma_started(out, s1.seg.stack);
            if p.pending is Some {
                lemma_pending_grows(p.pending->0, x.s.out, out);
            }
        },
        _ => {},
    }
}

proof fn lemma_root_walk(
    cx: CtxView,
    m: Method,
    pl: Plan,
    b: int,
    entry: Seq<VReg>,
    bci: int,
    p: RootPos,
)
    requires
        root_pos_ok(p),
        root_ok(cx, p.s.out),
        m == cx.vm.m(cx.method),
        regs_ok(entry, p.s.out),
        bci < pl.cfg.blocks@[b].bci_end && 0 <= bci < m.code@.len() ==> m.boundary(bci),
    ensures
        root_walk(cx, m, pl, b, entry, bci, p) matches Some((q, _)) ==> root_pos_ok(q) && grows(
            p.s.out,
            q.s.out,
        ),
    decreases m.code@.len() - bci,
{
    let blk = pl.cfg.blocks@[b];
    if bci >= blk.bci_end {
    } else if bci < 0 || bci >= m.code@.len() || !(bci < m.next_at(bci) <= m.code@.len()) {
    } else {
        let next = m.next_at(bci);
        assert(m.wf(cx.vm.methods@.len() as int));
        assert(m.code@[bci] is Some);
        assert(m.instr_wf(m.instr_at(bci)));
        assert(m.boundary(next));
        let fuse = fusable(m, blk, next);
        lemma_instr_step(cx, m.instr_at(bci), fuse, bci as usize, p.s, p.sites);
        match instr_step(cx, m.instr_at(bci), fuse, bci as usize, p.s, p.sites) {
            None => {},
            Some(x) => {
                lemma_after_instr(b, entry, next as usize, bci as usize, p, x);
                let (q, over) = after_instr(b, entry, next as usize, bci as usize, p, x);
                if !over {
                    lemma_root_walk(cx, m, pl, b, entry, next, q);
                }
            },
        }
    }
}

proof fn lemma_root_branch(pl: Plan, if_true: int, if_false: int, p: RootPos)
    requires
        root_pos_ok(p),
        plan_ok(pl, p.s.out),
        0 <= if_true < pl.cfg.blocks@.len(),
        0 <= if_false < pl.cfg.blocks@.len(),
    ensures
        steps(p.s, root_branch(pl, if_true, if_false, p)),
{
    broadcast use group_steps;

    let s = p.s;
    let exit = if p.pending is Some {
        s.seg.stack
    } else {
        s.seg.stack.drop_last()
    };
    if (p.pending is None && s.depth() == 0) || (!(p.pending matches Some(PendingCmp::Float { .. }))
        && !s.out.can_block()) {
    } else {
        assert(regs_ok(exit, s.out));
        lemma_feed(pl.sources, pl.entry_stacks, if_true, exit, s);
        match feed(pl.sources, pl.entry_stacks, if_true, exit, s.seg) {
            None => {},
            Some(g1) => {
                let s0 = St { seg: g1, ..s };
                lemma_feed(pl.sources, pl.entry_stacks, if_false, exit, s0);
                match feed(pl.sources, pl.entry_stacks, if_false, exit, g1) {
                    None => {},
                    Some(g) => {
                        let s1 = St { seg: g, ..s };
                        assert(ok(s1));
                    },
                }
            },
        }
    }
}

proof fn lemma_root_jump(pl: Plan, t: int, exit: Seq<VReg>, s: St)
    requires
        ok(s),
        plan_ok(pl, s.out),
        0 <= t < pl.cfg.blocks@.len(),
        regs_ok(exit, s.out),
    ensures
        steps(s, root_jump(feed(pl.sources, pl.entry_stacks, t, exit, s.seg), s.out, t)),
{
    broadcast use group_steps;

    lemma_feed(pl.sources, pl.entry_stacks, t, exit, s);
    match feed(pl.sources, pl.entry_stacks, t, exit, s.seg) {
        None => {},
        Some(g) => {
            let s1 = St { out: s.out, seg: g };
            assert(ok(s1));
        },
    }
}

proof fn lemma_root_terminator(pl: Plan, b: int, p: RootPos)
    requires
        root_pos_ok(p),
        plan_ok(pl, p.s.out),
        0 <= b < pl.cfg.blocks@.len(),
    ensures
        steps(p.s, root_terminator(pl, b, p)),
{
    broadcast use group_steps;

    let s = p.s;
    let n = pl.cfg.blocks@.len() as int;
    let term = pl.cfg.blocks@[b].terminator;
    assert(term.wf(n));
    match term {
        Terminator::Return => {},
        Terminator::Fallthrough(t) => lemma_root_jump(pl, t as int, s.seg.stack, s),
        Terminator::Jump { target, is_backward } => {
            let raw = DeoptView {
                stack: s.seg.stack,
                bci: pl.cfg.blocks@[target as int].bci_start,
                kind: SafepointKind::LoopPoll,
                reexecute: true,
                stack_closures: seq![],
                inline: None,
            };
            let s1 = if is_backward {
                s.site(raw).emit(Ir::Poll)
            } else {
                s
            };
            assert(ok(s1));
            lemma_root_jump(pl, target as int, s.seg.stack, s1);
        },
        Terminator::Branch { if_true, if_false } => {
            lemma_root_branch(pl, if_true as int, if_false as int, p);
        },
    }
}

/// What does not change while a method is translated.
spec fn fixed_ok(cx: CtxView, m: Method, pl: Plan, o: OutView) -> bool {
    &&& root_ok(cx, o)
    &&& plan_ok(pl, o)
    &&& m == cx.vm.m(cx.method)
    &&& frame_ok(cx, m)
    &&& m.cfg_wf(pl.cfg)
}

proof fn lemma_fixed_grows(cx: CtxView, m: Method, pl: Plan, a: OutView, b: OutView)
    requires
        fixed_ok(cx, m, pl, a),
        grows(a, b),
    ensures
        fixed_ok(cx, m, pl, b),
{
    lemma_plan_grows(pl, a, b);
}

proof fn lemma_root_block_done(
    cx: CtxView,
    m: Method,
    pl: Plan,
    b: int,
    entry: Seq<VReg>,
    reach: Seq<bool>,
    out: OutView,
)
    requires
        out_ok(out),
        fixed_ok(cx, m, pl, out),
        0 <= b < pl.cfg.blocks@.len(),
        regs_ok(entry, out),
    ensures
        root_block_done(cx, m, pl, b, entry, reach, out) matches Some((o, exit, _)) ==> out_ok(o)
            && grows(out, o) && regs_ok(exit, o),
{
    broadcast use group_steps;

    let blk = pl.cfg.blocks@[b];
    let s = St { out, seg: SegView { stack: entry, code: Seq::empty(), deopt: Seq::empty() } };
    lemma_started(out, entry);
    lemma_prologue(cx, m, pl.lits, s);
    let start = root_start(cx, m, pl, b, entry, out);
    assert(root_pos_ok(start));
    lemma_fixed_grows(cx, m, pl, out, start.s.out);
    assert(m.boundary(blk.bci_start as int));
    lemma_root_walk(cx, m, pl, b, entry, blk.bci_start as int, start);
    match root_walk(cx, m, pl, b, entry, blk.bci_start as int, start) {
        None => {},
        Some((p, trapped)) => {
            lemma_fixed_grows(cx, m, pl, out, p.s.out);
            if trapped {
                lemma_filled(p.s, root_block(b, p, entry, p.s.seg));
            } else {
                lemma_root_terminator(pl, b, p);
                match root_terminator(pl, b, p) {
                    None => {},
                    Some(s1) => {
                        lemma_filled(s1, root_block(b, p, entry, s1.seg));
                        assert(regs_ok(exit_stack(blk.terminator, p), s1.out));
                    },
                }
            }
        },
    }
}

proof fn lemma_root_blocks(
    cx: CtxView,
    m: Method,
    pl: Plan,
    b: int,
    exits: Seq<Option<Seq<VReg>>>,
    reach: Seq<bool>,
    out: OutView,
)
    requires
        out_ok(out),
        fixed_ok(cx, m, pl, out),
        stacks_ok(exits, out),
        exits.len() == pl.cfg.blocks@.len(),
    ensures
        root_blocks(cx, m, pl, b, exits, reach, out) matches Some(o) ==> out_ok(o) && grows(out, o),
    decreases pl.cfg.blocks@.len() - b,
{
    broadcast use group_steps;

    if b < 0 || b >= pl.cfg.blocks@.len() {
    } else if !reach[b] {
        let d = dead_block(root_id(b), pl.cfg.blocks@[b].bci_start);
        lemma_out_facts(out);
        assert(op_ok(Ir::<Seq<VReg>>::RetSelf, out));
        assert(block_ok(d, out));
        let o1 = out.finish(d);
        assert(out_ok(o1));
        lemma_fixed_grows(cx, m, pl, out, o1);
        lemma_stacks_grow(exits, out, o1);
        lemma_root_blocks(cx, m, pl, b + 1, exits, reach, o1);
    } else {
        match root_entry(pl, b, exits) {
            None => {},
            Some(entry) => {
                assert(regs_ok(entry, out));
                lemma_root_block_done(cx, m, pl, b, entry, reach, out);
                match root_block_done(cx, m, pl, b, entry, reach, out) {
                    None => {},
                    Some((o1, exit, reach1)) => {
                        lemma_fixed_grows(cx, m, pl, out, o1);
                        lemma_stacks_grow(exits, out, o1);
                        assert(stacks_ok(exits.update(b, Some(exit)), o1));
                        lemma_root_blocks(
                            cx,
                            m,
                            pl,
                            b + 1,
                            exits.update(b, Some(exit)),
                            reach1,
                            o1,
                        );
                    },
                }
            },
        }
    }
}

proof fn lemma_intern_lits(vm: VmState, ctx: bool, o: OutView)
    requires
        out_ok(o),
    ensures
        ({
            let (p, l) = intern_lits(vm, ctx, o);
            &&& out_ok(p)
            &&& grows(o, p)
            &&& p.vregs == o.vregs
            &&& p.blocks == o.blocks
            &&& lit_ok(l.nil, p)
            &&& lit_ok(l.true_, p)
            &&& lit_ok(l.false_, p)
            &&& lit_ok(l.mark_slots, p)
            &&& lit_ok(l.mark_double, p)
            &&& lit_ok(l.double_klass, p)
            &&& lit_ok(l.float64x2_klass, p)
            &&& lit_ok(l.float32x4_klass, p)
            &&& lit_ok(l.int32x4_klass, p)
            &&& lit_ok(l.ctx_klass, p)
        }),
{
    broadcast use group_steps;

}

/// The output of a translation, before the passes over it, is sound.
pub(crate) proof fn lemma_translated(cx: CtxView, cfg: Cfg, pl: Plan, o0: OutView)
    requires
        cx.vm.wf(),
        cx.vm.has(cx.method),
        cx.vm.m(cx.method).cfg_wf(cfg),
        0 < cfg.blocks@.len() <= u32::MAX,
        cx == ctx_of(cx.vm, cx.rcvr_klass, cx.method, cx.osr),
        ({
            let m = cx.vm.m(cx.method);
            let sources = entry_sources(cfg, entry_depths(m, cfg));
            merge_regs(
                sources,
                entry_depths(m, cfg),
                cfg.blocks@.len(),
                empty_out(m, cfg.blocks@.len()),
            ) matches Some((o, entry_stacks)) && pl == (Plan {
                cfg,
                lits: pl.lits,
                sources,
                entry_stacks,
            }) && intern_lits(cx.vm, cx.method_ctx_vreg is Some, o) == (o0, pl.lits)
        }),
    ensures
        translated(cx, cx.vm.m(cx.method), pl, o0) matches Some(o) ==> out_ok(o) && cx_ok(cx, o)
            && plan_ok(pl, o) && grows(o0, o),
{
    let m = cx.vm.m(cx.method);
    let n = cfg.blocks@.len();
    let start = empty_out(m, n);
    assert(out_ok(start)) by {
        reveal(out_ok);
    }
    let sources = entry_sources(cfg, entry_depths(m, cfg));
    lemma_merge_regs(sources, entry_depths(m, cfg), n, start);
    let (o, es) = merge_regs(sources, entry_depths(m, cfg), n, start)->0;
    lemma_intern_lits(cx.vm, cx.method_ctx_vreg is Some, o);
    lemma_stacks_grow(es, o, o0);
    lemma_sources(cfg, entry_depths(m, cfg));
    assert(plan_ok(pl, o0));
    assert(cx_ok(cx, o0));
    assert(fixed_ok(cx, m, pl, o0));
    let exits = Seq::new(n, |i: int| None::<Seq<VReg>>);
    let reach = Seq::new(n, |i: int| i == 0);
    lemma_root_blocks(cx, m, pl, 0, exits, reach, o0);
    match translated(cx, m, pl, o0) {
        Some(p) => {
            lemma_fixed_grows(cx, m, pl, o0, p);
        },
        None => {},
    }
}

} // verus!

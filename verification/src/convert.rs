//! Conversion of a method's bytecode into IR.

use std::collections::HashMap;
use vstd::prelude::*;
use crate::copyprop::{copy_propagate, propagated};
use crate::depths::{
    compute_entry_depths, depths_agree, emit_merges, entry_depths, entry_sources,
    entry_stack_sources, feed, stack_view, stack_views, EntryStackSource,
};
use crate::graft::{dead_block, merge_regs};
use crate::instr::instr_step;
use crate::ir::{
    blocks_view, copy_regs, BlockId, BlockView, DeoptRaw, DeoptView, Ir, IrBlock, IrMethod,
    MethodView, PoolEntry, PoolLit, VReg, VRegInfo,
};
use crate::reduce::{reduce_float_boxes, reduced};
use crate::root::{PendingCmp, Step, StepEnd};
use crate::scopes::SafepointKind;
use crate::translator::{
    pool_oop, slot_view, slots_view, st, Ctx, CtxView, OutView, PoolBuilder, Seg, SegView, St, Translator,
};
use crate::world::{Cfg, CfgBlock, Instr, KlassOop, Method, MethodOop, Terminator, VmState};

verus! {

broadcast use vstd::std_specs::hash::group_hash_axioms;

/// From `bci` on, the body creates a closure.
pub open spec fn creates_closure(m: Method, bci: int) -> bool
    decreases m.code@.len() - bci,
{
    if bci < 0 || bci >= m.code@.len() || !(bci < m.next_at(bci) <= m.code@.len()) {
        false
    } else {
        m.instr_at(bci) is PushClosure || creates_closure(m, m.next_at(bci))
    }
}

/// The method allocates its context: some closure that captures it escapes.
pub open spec fn materializes(m: Method) -> bool {
    m.has_ctx && !m.is_block && creates_closure(m, 0) && !m.escape.all_elidable
}

pub open spec fn oop_reg() -> VRegInfo {
    VRegInfo { is_oop: true, is_fp: false }
}

/// Register layout: the receiver, the slots, the captured temporaries, then the closure and the
/// context of a block body, then the method's own context.
pub open spec fn slot_regs(m: Method) -> Seq<VReg> {
    Seq::new(m.nslots() as nat, |i: int| VReg((1 + i) as u32))
}

pub open spec fn n_ctx_regs(m: Method) -> nat {
    if materializes(m) {
        0
    } else {
        m.nctx as nat
    }
}

pub open spec fn ctx_regs(m: Method) -> Seq<VReg> {
    Seq::new(n_ctx_regs(m), |i: int| VReg((1 + m.nslots() + i) as u32))
}

pub open spec fn closure_reg(m: Method) -> Option<VReg> {
    if m.is_block {
        Some(VReg((1 + m.nslots() + n_ctx_regs(m)) as u32))
    } else {
        None
    }
}

pub open spec fn block_ctx_reg(m: Method) -> Option<VReg> {
    if m.is_block && m.captures_ctx {
        Some(VReg((2 + m.nslots() + n_ctx_regs(m)) as u32))
    } else {
        None
    }
}

pub open spec fn method_ctx_reg(m: Method) -> Option<VReg> {
    if materializes(m) {
        Some(VReg((1 + m.nslots()) as u32))
    } else {
        None
    }
}

pub open spec fn n_fixed_regs(m: Method) -> nat {
    (1 + m.nslots() + n_ctx_regs(m) + (if closure_reg(m) is Some {
        1int
    } else {
        0
    }) + (if block_ctx_reg(m) is Some {
        1int
    } else {
        0
    }) + (if method_ctx_reg(m) is Some {
        1int
    } else {
        0
    })) as nat
}

/// The fixed facts of the translation of `method`, compiled for receivers of class `rcvr_klass`.
pub open spec fn ctx_of(
    vm: VmState,
    rcvr_klass: KlassOop,
    method: MethodOop,
    osr: bool,
) -> CtxView {
    let m = vm.m(method);
    CtxView {
        vm,
        method,
        rcvr_klass,
        osr,
        self_vreg: VReg(0),
        temp_vregs: slot_regs(m),
        ctx_vregs: ctx_regs(m),
        block_closure_vreg: closure_reg(m),
        block_ctx_vreg: block_ctx_reg(m),
        method_ctx_vreg: method_ctx_reg(m),
        has_closures: creates_closure(m, 0),
    }
}

/// The tables before anything is translated: the fixed registers and one unfinished block per
/// bytecode block.
pub open spec fn empty_out(m: Method, nblocks: nat) -> OutView {
    OutView {
        vregs: Seq::new(n_fixed_regs(m), |i: int| oop_reg()),
        pool: seq![],
        blocks: Seq::new(nblocks, |i: int| None),
        call_sites: seq![],
        site_feedback: seq![],
        inline_deps: seq![],
        const_class: Map::empty(),
        temp_sites: Seq::new(m.nslots() as nat, |i: int| None),
        pending_jump_target: None,
        spliced_nlr: 0,
        spliced_multibb: 0,
        budget_bytes_used: 0,
        splice_declined_budget: 0,
        self_devirt: false,
        osr_cold_sends: 0,
    }
}

/// The literals that every method carries.
#[derive(Clone, Copy)]
pub struct Lits {
    pub nil: PoolLit,
    pub true_: PoolLit,
    pub false_: PoolLit,
    pub mark_slots: PoolLit,
    pub mark_double: PoolLit,
    pub double_klass: PoolLit,
    pub float64x2_klass: PoolLit,
    pub float32x4_klass: PoolLit,
    pub int32x4_klass: PoolLit,
    /// The context class, when the context is allocated.
    pub ctx_klass: PoolLit,
}

pub open spec fn pool_word(value: u64) -> PoolEntry {
    PoolEntry { value, kind: None }
}

/// Interns the literals that every method carries.
pub open spec fn intern_lits(vm: VmState, ctx: bool, o0: OutView) -> (OutView, Lits) {
    let u = vm.universe;
    let o1 = o0.intern(pool_oop(u.nil_obj));
    let o2 = o1.intern(pool_oop(u.true_obj));
    let o3 = o2.intern(pool_oop(u.false_obj));
    let o4 = o3.intern(pool_word(u.mark_slots));
    let o5 = o4.intern(pool_word(u.mark_double));
    let o6 = o5.intern(pool_oop(u.double_klass.0));
    let o7 = o6.intern(pool_oop(u.float64x2_klass.0));
    let o8 = o7.intern(pool_oop(u.float32x4_klass.0));
    let o9 = o8.intern(pool_oop(u.int32x4_klass.0));
    let lits = Lits {
        nil: o0.lit(pool_oop(u.nil_obj)),
        true_: o1.lit(pool_oop(u.true_obj)),
        false_: o2.lit(pool_oop(u.false_obj)),
        mark_slots: o3.lit(pool_word(u.mark_slots)),
        mark_double: o4.lit(pool_word(u.mark_double)),
        double_klass: o5.lit(pool_oop(u.double_klass.0)),
        float64x2_klass: o6.lit(pool_oop(u.float64x2_klass.0)),
        float32x4_klass: o7.lit(pool_oop(u.float32x4_klass.0)),
        int32x4_klass: o8.lit(pool_oop(u.int32x4_klass.0)),
        ctx_klass: if ctx {
            o9.lit(pool_oop(u.context_klass.0))
        } else {
            PoolLit(0)
        },
    };
    (
        if ctx {
            o9.intern(pool_oop(u.context_klass.0))
        } else {
            o9
        },
        lits,
    )
}

pub open spec fn param_ops(regs: Seq<VReg>, n: nat) -> Seq<Ir<Seq<VReg>>> {
    Seq::new(n, |i: int| Ir::Param { dst: regs[i], index: (i + 1) as u8 })
}

pub open spec fn nil_ops(regs: Seq<VReg>, nil: PoolLit) -> Seq<Ir<Seq<VReg>>> {
    Seq::new(regs.len(), |i: int| Ir::ConstPool { dst: regs[i], lit: nil })
}

pub open spec fn emit_all(s: St, ops: Seq<Ir<Seq<VReg>>>) -> St {
    St { seg: SegView { code: s.seg.code + ops, ..s.seg }, ..s }
}

/// The entry of a block body: the closure arrives as the receiver; the receiver proper and the
/// context are loaded from it.
pub open spec fn block_prologue(cx: CtxView, m: Method, lits: Lits, s: St) -> St {
    let closure = closure_reg(m)->0;
    let s1 = emit_all(
        s.emit(Ir::Param { dst: closure, index: 0 }),
        param_ops(cx.temp_vregs, m.argc as nat),
    ).emit(Ir::LoadField { dst: cx.self_vreg, obj: closure, byte_off: 40 });
    let s2 = match cx.block_ctx_vreg {
        Some(c) => s1.emit(Ir::LoadField { dst: c, obj: closure, byte_off: 48 }),
        None => s1,
    };
    emit_all(s2, nil_ops(cx.temp_vregs.skip(m.argc as int), lits.nil))
}

/// The entry of a method: parameters, temporaries set to `nil`, and the context, allocated or as
/// registers set to `nil`.
pub open spec fn method_prologue(cx: CtxView, m: Method, lits: Lits, s: St) -> St {
    let s1 = emit_all(
        emit_all(
            s.emit(Ir::Param { dst: cx.self_vreg, index: 0 }),
            param_ops(cx.temp_vregs, m.argc as nat),
        ),
        nil_ops(cx.temp_vregs.skip(m.argc as int), lits.nil),
    );
    match cx.method_ctx_vreg {
        Some(ctx) => {
            let s2 = s1.site(
                DeoptView {
                    stack: seq![],
                    bci: 0,
                    kind: SafepointKind::Alloc,
                    reexecute: true,
                    stack_closures: seq![],
                    inline: None,
                },
            ).emit(
                Ir::Alloc { dst: ctx, klass: lits.ctx_klass, size_words: (4 + m.nctx) as u32 },
            );
            s2.fresh(false).emit(Ir::ConstSmi { dst: s2.reg(), value: m.nctx as i64 }).emit(
                Ir::StoreField { obj: ctx, byte_off: 24, val: s2.reg(), barrier: false },
            )
        },
        None => emit_all(s1, nil_ops(cx.ctx_vregs, lits.nil)),
    }
}

pub open spec fn prologue(cx: CtxView, m: Method, lits: Lits, s: St) -> St {
    if m.is_block {
        block_prologue(cx, m, lits, s)
    } else {
        method_prologue(cx, m, lits, s)
    }
}

/// What stays fixed while the blocks are translated.
pub ghost struct Plan {
    pub cfg: Cfg,
    pub lits: Lits,
    pub sources: Seq<EntryStackSource>,
    pub entry_stacks: Seq<Option<Seq<VReg>>>,
}

pub open spec fn root_id(b: int) -> BlockId {
    BlockId(b as u32)
}

/// The walk over one bytecode block: the state, the shadow of the stack, the block being filled and
/// where it starts, the comparison that waits for the branch, and where the last instruction
/// stands.
pub ghost struct RootPos {
    pub s: St,
    pub sites: Seq<Option<usize>>,
    pub cur: BlockId,
    pub cur_bci: usize,
    pub pending: Option<PendingCmp<Seq<VReg>>>,
    pub last: usize,
}

pub open spec fn root_block(b: int, p: RootPos, entry: Seq<VReg>, seg: SegView) -> BlockView {
    BlockView {
        id: p.cur,
        bci: p.cur_bci,
        code: seg.code,
        entry_stack: if p.cur == root_id(b) {
            entry
        } else {
            seq![]
        },
        deopt_sites: seg.deopt,
    }
}

/// Only the block's final branch follows the instruction that ends at `next`.
pub open spec fn fusable(m: Method, blk: CfgBlock, next: int) -> bool {
    blk.terminator is Branch && next < blk.bci_end && m.next_at(next) == blk.bci_end
}

/// Where the block being filled jumps when a split ends it: into a grafted callee if there is one,
/// else to the continuation.
pub open spec fn split_target(o: OutView, cont: BlockId) -> BlockId {
    match o.pending_jump_target {
        Some(t) => t,
        None => cont,
    }
}

/// Takes up the end of an instruction. The flag tells that the walk is over.
pub open spec fn after_instr(
    b: int,
    entry: Seq<VReg>,
    next: usize,
    bci: usize,
    p: RootPos,
    x: Step,
) -> (RootPos, bool) {
    let q = RootPos { s: x.s, sites: x.sites, last: bci, ..p };
    match x.end {
        StepEnd::Next => (q, false),
        StepEnd::Trapped => (q, true),
        StepEnd::Compare(c) => (RootPos { pending: Some(c), ..q }, false),
        StepEnd::Split(cont) => {
            let seg = x.s.seg.emit(Ir::Jump { target: split_target(x.s.out, cont) });
            let out = OutView { pending_jump_target: None, ..x.s.out }.finish(
                root_block(b, p, entry, seg),
            );
            (
                RootPos {
                    s: St {
                        out,
                        seg: SegView {
                            stack: seg.stack,
                            code: Seq::empty(),
                            deopt: Seq::empty(),
                        },
                    },
                    cur: cont,
                    cur_bci: next,
                    ..q
                },
                false,
            )
        },
    }
}

/// Bytecode block `b` from `bci` on; the flag tells that a trap ended it.
pub open spec fn root_walk(
    cx: CtxView,
    m: Method,
    pl: Plan,
    b: int,
    entry: Seq<VReg>,
    bci: int,
    p: RootPos,
) -> Option<(RootPos, bool)>
    decreases m.code@.len() - bci,
{
    let blk = pl.cfg.blocks@[b];
    if bci >= blk.bci_end {
        Some((p, false))
    } else if bci < 0 || bci >= m.code@.len() || !(bci < m.next_at(bci) <= m.code@.len()) {
        None
    } else {
        let next = m.next_at(bci);
        match instr_step(
            cx,
            m.instr_at(bci),
            fusable(m, blk, next),
            bci as usize,
            p.s,
            p.sites,
        ) {
            None => None,
            Some(x) => {
                let (q, over) = after_instr(b, entry, next as usize, bci as usize, p, x);
                if over {
                    Some((q, true))
                } else {
                    root_walk(cx, m, pl, b, entry, next, q)
                }
            },
        }
    }
}

pub open spec fn root_jump(s: Option<SegView>, o: OutView, target: int) -> Option<St> {
    match s {
        Some(g) => Some((St { out: o, seg: g }).emit(Ir::Jump { target: root_id(target) })),
        None => None,
    }
}

/// The branch at the end of a block: fused with the comparison that waits for it, or on the boolean
/// on top of the stack.
pub open spec fn root_branch(
    pl: Plan,
    if_true: int,
    if_false: int,
    p: RootPos,
) -> Option<St> {
    let s = p.s;
    let exit = if p.pending is Some {
        s.seg.stack
    } else {
        s.seg.stack.drop_last()
    };
    if (p.pending is None && s.depth() == 0) || (!(p.pending matches Some(PendingCmp::Float { .. }))
        && !s.out.can_block()) {
        None
    } else {
        match feed(pl.sources, pl.entry_stacks, if_true, exit, s.seg) {
            None => None,
            Some(g1) => match feed(pl.sources, pl.entry_stacks, if_false, exit, g1) {
                None => None,
                Some(g) => {
                    let s1 = St { seg: g, ..s };
                    let yes = root_id(if_true);
                    let no = root_id(if_false);
                    Some(
                        match p.pending {
                            Some(PendingCmp::Smi { op, a, b, bci, stack }) => s1.with_out(
                                s.out.trap(bci, stack, seq![], None),
                            ).emit(
                                Ir::SmiCmpBr {
                                    op,
                                    a,
                                    b,
                                    if_true: yes,
                                    if_false: no,
                                    fail: s.out.block_id(),
                                },
                            ),
                            Some(PendingCmp::Float { op, a, b }) => s1.emit(
                                Ir::FCmpBr { op, a, b, if_true: yes, if_false: no },
                            ),
                            None => s1.with_out(
                                s.out.trap(p.last, s.seg.stack, seq![], None),
                            ).emit(
                                Ir::BoolBr {
                                    val: s.top(0),
                                    if_true: yes,
                                    if_false: no,
                                    not_bool: s.out.block_id(),
                                },
                            ),
                        },
                    )
                },
            },
        }
    }
}

/// The end of bytecode block `b`. The stack of the result is what successors inherit.
pub open spec fn root_terminator(pl: Plan, b: int, p: RootPos) -> Option<St> {
    let s = p.s;
    match pl.cfg.blocks@[b].terminator {
        Terminator::Return => Some(s),
        Terminator::Fallthrough(t) => root_jump(
            feed(pl.sources, pl.entry_stacks, t as int, s.seg.stack, s.seg),
            s.out,
            t as int,
        ),
        Terminator::Jump { target, is_backward } => {
            let g = if is_backward {
                s.seg.site(
                    DeoptView {
                        stack: s.seg.stack,
                        bci: pl.cfg.blocks@[target as int].bci_start,
                        kind: SafepointKind::LoopPoll,
                        reexecute: true,
                        stack_closures: seq![],
                        inline: None,
                    },
                ).emit(Ir::Poll)
            } else {
                s.seg
            };
            root_jump(
                feed(pl.sources, pl.entry_stacks, target as int, s.seg.stack, g),
                s.out,
                target as int,
            )
        },
        Terminator::Branch { if_true, if_false } => root_branch(
            pl,
            if_true as int,
            if_false as int,
            p,
        ),
    }
}

/// What the successors of a block inherit: its stack without the boolean that a branch consumed.
pub open spec fn exit_stack(t: Terminator, p: RootPos) -> Seq<VReg> {
    if t is Branch && p.pending is None {
        p.s.seg.stack.drop_last()
    } else {
        p.s.seg.stack
    }
}

pub open spec fn mark_reached(t: Terminator, reach: Seq<bool>) -> Seq<bool> {
    match t {
        Terminator::Return => reach,
        Terminator::Fallthrough(x) => reach.update(x as int, true),
        Terminator::Jump { target, .. } => reach.update(target as int, true),
        Terminator::Branch { if_true, if_false } => reach.update(if_true as int, true).update(
            if_false as int,
            true,
        ),
    }
}

pub open spec fn root_entry(pl: Plan, b: int, exits: Seq<Option<Seq<VReg>>>) -> Option<Seq<VReg>> {
    match pl.sources[b] {
        EntryStackSource::Inherit(p) => exits[p as int],
        _ => pl.entry_stacks[b],
    }
}

/// The state in which the walk over bytecode block `b` starts.
pub open spec fn root_start(
    cx: CtxView,
    m: Method,
    pl: Plan,
    b: int,
    entry: Seq<VReg>,
    out: OutView,
) -> RootPos {
    let s = St { out, seg: SegView { stack: entry, code: Seq::empty(), deopt: Seq::empty() } };
    RootPos {
        s: if b == 0 {
            prologue(cx, m, pl.lits, s)
        } else {
            s
        },
        sites: Seq::new(entry.len(), |i: int| None),
        cur: root_id(b),
        cur_bci: pl.cfg.blocks@[b].bci_start,
        pending: None,
        last: pl.cfg.blocks@[b].bci_start,
    }
}

/// Bytecode block `b`, which control reaches: the tables, what successors inherit, and what is now
/// known to be reached.
pub open spec fn root_block_done(
    cx: CtxView,
    m: Method,
    pl: Plan,
    b: int,
    entry: Seq<VReg>,
    reach: Seq<bool>,
    out: OutView,
) -> Option<(OutView, Seq<VReg>, Seq<bool>)> {
    let blk = pl.cfg.blocks@[b];
    match root_walk(
        cx,
        m,
        pl,
        b,
        entry,
        blk.bci_start as int,
        root_start(cx, m, pl, b, entry, out),
    ) {
        None => None,
        Some((p, trapped)) => if trapped {
            Some(
                (
                    p.s.out.finish(root_block(b, p, entry, p.s.seg)),
                    p.s.seg.stack,
                    reach,
                ),
            )
        } else {
            match root_terminator(pl, b, p) {
                None => None,
                Some(s1) => Some(
                    (
                        s1.out.finish(root_block(b, p, entry, s1.seg)),
                        exit_stack(blk.terminator, p),
                        mark_reached(blk.terminator, reach),
                    ),
                ),
            }
        },
    }
}

/// The bytecode blocks from `b` on.
pub open spec fn root_blocks(
    cx: CtxView,
    m: Method,
    pl: Plan,
    b: int,
    exits: Seq<Option<Seq<VReg>>>,
    reach: Seq<bool>,
    out: OutView,
) -> Option<OutView>
    decreases pl.cfg.blocks@.len() - b,
{
    if b < 0 || b >= pl.cfg.blocks@.len() {
        Some(out)
    } else if !reach[b] {
        root_blocks(
            cx,
            m,
            pl,
            b + 1,
            exits,
            reach,
            out.finish(dead_block(root_id(b), pl.cfg.blocks@[b].bci_start)),
        )
    } else {
        match root_entry(pl, b, exits) {
            None => None,
            Some(entry) => match root_block_done(cx, m, pl, b, entry, reach, out) {
                None => None,
                Some((o1, exit, reach1)) => root_blocks(
                    cx,
                    m,
                    pl,
                    b + 1,
                    exits.update(b, Some(exit)),
                    reach1,
                    o1,
                ),
            },
        }
    }
}

/// Every block is finished.
pub open spec fn all_finished(bs: Seq<Option<BlockView>>) -> bool {
    forall|i: int| 0 <= i < bs.len() ==> #[trigger] bs[i] is Some
}

pub open spec fn unwrapped(bs: Seq<Option<BlockView>>) -> Seq<BlockView> {
    bs.map_values(|b: Option<BlockView>| b->0)
}

pub open spec fn has_site(bs: Seq<BlockView>) -> bool {
    exists|b: int| 0 <= b < bs.len() && (#[trigger] bs[b]).deopt_sites.len() > 0
}

/// The method as translated, before the passes.
pub open spec fn assembled(m: Method, osr: bool, lits: Lits, o: OutView) -> MethodView {
    let bs = unwrapped(o.blocks);
    let e = pool_oop(m.oop);
    MethodView {
        osr_cold_sends: o.osr_cold_sends,
        is_osr: osr,
        blocks: bs,
        vregs: o.vregs,
        pool: if has_site(bs) {
            o.intern(e).pool
        } else {
            o.pool
        },
        argc: m.argc,
        ntemps: m.ntemps,
        block_closure_vreg: closure_reg(m),
        ctx_vregs: ctx_regs(m),
        method_ctx_vreg: match method_ctx_reg(m) {
            Some(v) => Some((v, m.nctx as usize)),
            None => None,
        },
        spliced_nlr: o.spliced_nlr,
        spliced_multibb: o.spliced_multibb,
        splice_declined_budget: o.splice_declined_budget,
        safepoints: seq![],
        true_lit: lits.true_,
        false_lit: lits.false_,
        nil_lit: lits.nil,
        mark_slots_lit: lits.mark_slots,
        mark_double_lit: lits.mark_double,
        double_klass_lit: lits.double_klass,
        float64x2_klass_lit: lits.float64x2_klass,
        float32x4_klass_lit: lits.float32x4_klass,
        int32x4_klass_lit: lits.int32x4_klass,
        call_sites: o.call_sites,
        site_feedback: o.site_feedback,
        inline_deps: o.inline_deps,
        self_devirt: o.self_devirt,
        method_pool_ix: if has_site(bs) {
            Some(o.lit(e).0)
        } else {
            None
        },
    }
}

/// The tables after the whole translation.
pub open spec fn translated(cx: CtxView, m: Method, pl: Plan, out: OutView) -> Option<OutView> {
    let n = pl.cfg.blocks@.len();
    root_blocks(
        cx,
        m,
        pl,
        0,
        Seq::new(n, |i: int| None),
        Seq::new(n, |i: int| i == 0),
        out,
    )
}

/// The conversion with the fixed facts `cx`. `None` stands for bytecode that cannot be converted:
/// stack depths that disagree, operands that are missing, blocks left open.
pub open spec fn converted_with(cx: CtxView, cfg: Cfg, osr_bci: Option<u16>) -> Option<MethodView> {
    let m = cx.vm.m(cx.method);
    let n = cfg.blocks@.len();
    if n == 0 || n > u32::MAX || !depths_agree(m, cfg) {
        None
    } else {
        let sources = entry_sources(cfg, entry_depths(m, cfg));
        match merge_regs(sources, entry_depths(m, cfg), n, empty_out(m, n)) {
            None => None,
            Some((o, entry_stacks)) => {
                let (o1, lits) = intern_lits(cx.vm, cx.method_ctx_vreg is Some, o);
                match translated(cx, m, Plan { cfg, lits, sources, entry_stacks }, o1) {
                    None => None,
                    Some(o2) => if !all_finished(o2.blocks) {
                        None
                    } else {
                        let r = assembled(m, osr_bci is Some, lits, o2);
                        match propagated(r.blocks, r.vregs.len()) {
                            None => None,
                            Some(bs) => reduced(
                                cx.vm,
                                MethodView { blocks: bs, ..r },
                                osr_bci,
                            ),
                        }
                    },
                }
            },
        }
    }
}

/// The conversion of `method`, whose control flow is `cfg`.
pub open spec fn converted(
    vm: VmState,
    rcvr_klass: KlassOop,
    method: MethodOop,
    cfg: Cfg,
    osr_bci: Option<u16>,
) -> Option<MethodView> {
    converted_with(ctx_of(vm, rcvr_klass, method, osr_bci is Some), cfg, osr_bci)
}

/// Does the body create a closure?
fn has_closure(m: &Method) -> (r: bool)
    requires
        m.code_wf(),
    ensures
        r == creates_closure(*m, 0),
{
    let len: usize = m.code.len();
    let mut bci: usize = 0;
    while bci < len
        invariant
            m.code_wf(),
            m.boundary(bci as int),
            len == m.code@.len(),
            creates_closure(*m, 0) == creates_closure(*m, bci as int),
        decreases len - bci,
    {
        let (instr, next) = m.decode_at(bci);
        if matches!(instr, Instr::PushClosure { .. }) {
            return true;
        }
        bci = next;
    }
    false
}

/// `n` registers from number `from` on.
fn regs_from(from: u32, n: u32) -> (r: Vec<VReg>)
    requires
        from + n <= u32::MAX,
    ensures
        r@ == Seq::new(n as nat, |i: int| VReg((from + i) as u32)),
{
    let mut r: Vec<VReg> = Vec::new();
    for i in 0..n
        invariant
            from + n <= u32::MAX,
            r@.len() == i,
            forall|j: int| 0 <= j < i ==> #[trigger] r@[j] == VReg((from + j) as u32),
    {
        r.push(VReg(from + i));
    }
    assert(r@ =~= Seq::new(n as nat, |i: int| VReg((from + i) as u32)));
    r
}

/// The fixed facts of a translation.
fn make_ctx<'a>(vm: &'a VmState, rcvr_klass: KlassOop, method: MethodOop, osr: bool) -> (r: Ctx<'a>)
    requires
        vm.wf(),
        vm.has(method),
    ensures
        r@ == ctx_of(*vm, rcvr_klass, method, osr),
        r.wf(),
        r.vm == vm,
{
    let m = vm.method(method);
    let has_closures = has_closure(m);
    let materialize = m.has_ctx && !m.is_block && has_closures && !m.escape.all_elidable;
    let nslots: u32 = m.argc as u32 + m.ntemps as u32;
    let nctx: u32 = if materialize {
        0
    } else {
        m.nctx as u32
    };
    let temp_vregs = regs_from(1, nslots);
    let ctx_vregs = regs_from(1 + nslots, nctx);
    assert(temp_vregs@ =~= slot_regs(*m));
    assert(ctx_vregs@ =~= ctx_regs(*m));
    let cx = Ctx {
        vm,
        method,
        rcvr_klass,
        osr,
        self_vreg: VReg(0),
        temp_vregs,
        ctx_vregs,
        block_closure_vreg: if m.is_block {
            Some(VReg(1 + nslots + nctx))
        } else {
            None
        },
        block_ctx_vreg: if m.is_block && m.captures_ctx {
            Some(VReg(2 + nslots + nctx))
        } else {
            None
        },
        method_ctx_vreg: if materialize {
            Some(VReg(1 + nslots))
        } else {
            None
        },
        has_closures,
    };
    cx
}

/// The tables before anything is translated.
fn make_translator(cx: &Ctx, nblocks: usize) -> (r: Translator)
    requires
        cx.wf(),
        cx@ == ctx_of(*cx.vm, cx.rcvr_klass, cx.method, cx.osr),
    ensures
        r@ == empty_out(cx.vm.m(cx.method), nblocks as nat),
{
    let m = cx.vm.method(cx.method);
    let mut n: usize = 1 + m.argc as usize + m.ntemps as usize + cx.ctx_vregs.len();
    if cx.block_closure_vreg.is_some() {
        n = n + 1;
    }
    if cx.block_ctx_vreg.is_some() {
        n = n + 1;
    }
    if cx.method_ctx_vreg.is_some() {
        n = n + 1;
    }
    assert(n == n_fixed_regs(*m));
    let mut vregs: Vec<VRegInfo> = Vec::new();
    for i in 0..n
        invariant
            vregs@.len() == i,
            forall|j: int| 0 <= j < i ==> #[trigger] vregs@[j] == oop_reg(),
    {
        vregs.push(VRegInfo { is_oop: true, is_fp: false });
    }
    let mut blocks_by_id: Vec<Option<IrBlock>> = Vec::new();
    for i in 0..nblocks
        invariant
            blocks_by_id@.len() == i,
            forall|j: int| 0 <= j < i ==> #[trigger] blocks_by_id@[j] is None,
    {
        blocks_by_id.push(None);
    }
    let mut temp_sites: Vec<Option<usize>> = Vec::new();
    let nslots: usize = m.argc as usize + m.ntemps as usize;
    for i in 0..nslots
        invariant
            temp_sites@.len() == i,
            forall|j: int| 0 <= j < i ==> #[trigger] temp_sites@[j] is None,
    {
        temp_sites.push(None);
    }
    let t = Translator {
        vregs,
        pool: PoolBuilder::new(),
        blocks_by_id,
        call_sites: Vec::new(),
        site_feedback: Vec::new(),
        inline_deps: Vec::new(),
        const_class: HashMap::new(),
        temp_sites,
        pending_jump_target: None,
        spliced_nlr: 0,
        spliced_multibb: 0,
        budget_bytes_used: 0,
        splice_declined_budget: 0,
        self_devirt: false,
        osr_cold_sends: 0,
    };
    proof {
        let want = empty_out(*m, nblocks as nat);
        assert(t@.vregs =~= want.vregs);
        assert(t@.pool =~= want.pool);
        assert(t@.blocks =~= want.blocks);
        assert(t@.call_sites =~= want.call_sites);
        assert(t@.site_feedback =~= want.site_feedback);
        assert(t@.inline_deps =~= want.inline_deps);
        assert(t@.temp_sites =~= want.temp_sites);
        assert(t@.const_class =~= want.const_class);
    }
    t
}

impl Translator {
    /// Interns the literals that every method carries.
    fn intern_all_lits(&mut self, vm: &VmState, ctx: bool) -> (r: Lits)
        ensures
            (final(self)@, r) == intern_lits(*vm, ctx, old(self)@),
    {
        let u = &vm.universe;
        let nil = self.intern_oop(u.nil_obj);
        let true_ = self.intern_oop(u.true_obj);
        let false_ = self.intern_oop(u.false_obj);
        let mark_slots = self.intern(PoolEntry { value: u.mark_slots, kind: None });
        let mark_double = self.intern(PoolEntry { value: u.mark_double, kind: None });
        let double_klass = self.intern_oop(u.double_klass.0);
        let float64x2_klass = self.intern_oop(u.float64x2_klass.0);
        let float32x4_klass = self.intern_oop(u.float32x4_klass.0);
        let int32x4_klass = self.intern_oop(u.int32x4_klass.0);
        let ctx_klass = if ctx {
            self.intern_oop(u.context_klass.0)
        } else {
            PoolLit(0)
        };
        Lits {
            nil,
            true_,
            false_,
            mark_slots,
            mark_double,
            double_klass,
            float64x2_klass,
            float32x4_klass,
            int32x4_klass,
            ctx_klass,
        }
    }

    /// Emits the parameters of the first `n` slots.
    fn emit_params(&mut self, regs: &Vec<VReg>, n: u8, seg: &mut Seg)
        requires
            n <= regs@.len(),
        ensures
            st(*final(self), *final(seg)) == emit_all(
                st(*old(self), *old(seg)),
                param_ops(regs@, n as nat),
            ),
            *final(self) == *old(self),
    {
        let ghost all = param_ops(regs@, n as nat);
        let ghost g = seg@;
        assert(seg@.code =~= g.code + all.take(0));
        for i in 0..n
            invariant
                n <= regs@.len(),
                all == param_ops(regs@, n as nat),
                seg@ == (SegView { code: g.code + all.take(i as int), ..g }),
        {
            seg.emit(Ir::Param { dst: regs[i as usize], index: i + 1 });
            assert(seg@.code =~= g.code + all.take(i + 1));
        }
        assert(all.take(n as int) =~= all);
    }

    /// Sets registers to `nil`, from slot `from` on.
    fn emit_nils(&mut self, regs: &Vec<VReg>, from: usize, nil: PoolLit, seg: &mut Seg)
        requires
            from <= regs@.len(),
        ensures
            st(*final(self), *final(seg)) == emit_all(
                st(*old(self), *old(seg)),
                nil_ops(regs@.skip(from as int), nil),
            ),
            *final(self) == *old(self),
    {
        let ghost rest = regs@.skip(from as int);
        let ghost all = nil_ops(rest, nil);
        let ghost g = seg@;
        assert(seg@.code =~= g.code + all.take(0));
        let mut i: usize = from;
        while i < regs.len()
            invariant
                from <= i <= regs@.len(),
                rest == regs@.skip(from as int),
                all == nil_ops(rest, nil),
                seg@ == (SegView { code: g.code + all.take(i - from), ..g }),
            decreases regs@.len() - i,
        {
            assert(rest[i - from] == regs@[i as int]);
            seg.emit(Ir::ConstPool { dst: regs[i], lit: nil });
            assert(seg@.code =~= g.code + all.take(i + 1 - from));
            i = i + 1;
        }
        assert(all.take(rest.len() as int) =~= all);
    }

    /// Emits the entry sequence.
    fn emit_prologue(&mut self, cx: &Ctx, lits: &Lits, seg: &mut Seg)
        requires
            cx.wf(),
            cx@ == ctx_of(*cx.vm, cx.rcvr_klass, cx.method, cx.osr),
        ensures
            st(*final(self), *final(seg)) == prologue(
                cx@,
                cx.vm.m(cx.method),
                *lits,
                st(*old(self), *old(seg)),
            ),
            final(seg)@.stack == old(seg)@.stack,
    {
        let m = cx.vm.method(cx.method);
        assert(cx.ctx_vregs@.skip(0) =~= cx.ctx_vregs@);
        if m.is_block {
            let closure = cx.block_closure_vreg.unwrap();
            seg.emit(Ir::Param { dst: closure, index: 0 });
            self.emit_params(&cx.temp_vregs, m.argc, seg);
            seg.emit(Ir::LoadField { dst: cx.self_vreg, obj: closure, byte_off: 40 });
            if let Some(c) = cx.block_ctx_vreg {
                seg.emit(Ir::LoadField { dst: c, obj: closure, byte_off: 48 });
            }
            self.emit_nils(&cx.temp_vregs, m.argc as usize, lits.nil, seg);
        } else {
            seg.emit(Ir::Param { dst: cx.self_vreg, index: 0 });
            self.emit_params(&cx.temp_vregs, m.argc, seg);
            self.emit_nils(&cx.temp_vregs, m.argc as usize, lits.nil, seg);
            if let Some(ctx) = cx.method_ctx_vreg {
                let raw = DeoptRaw {
                    stack: Vec::new(),
                    bci: 0,
                    kind: SafepointKind::Alloc,
                    reexecute: true,
                    stack_closures: Vec::new(),
                    inline: None,
                };
                assert(raw@.stack =~= seq![]);
                assert(raw@.stack_closures =~= seq![]);
                seg.site(raw);
                seg.emit(
                    Ir::Alloc { dst: ctx, klass: lits.ctx_klass, size_words: 4 + m.nctx as u32 },
                );
                let size_v = self.fresh(false);
                seg.emit(Ir::ConstSmi { dst: size_v, value: m.nctx as i64 });
                seg.emit(
                    Ir::StoreField { obj: ctx, byte_off: 24, val: size_v, barrier: false },
                );
            } else {
                self.emit_nils(&cx.ctx_vregs, 0, lits.nil, seg);
            }
        }
    }
}

pub open spec fn pending_view(p: Option<PendingCmp>) -> Option<PendingCmp<Seq<VReg>>> {
    match p {
        Some(c) => Some(c@),
        None => None,
    }
}

/// What stays fixed while the blocks are translated.
struct RootPlan<'a> {
    cfg: &'a Cfg,
    lits: Lits,
    sources: Vec<EntryStackSource>,
    entry_stacks: Vec<Option<Vec<VReg>>>,
}

impl<'a> View for RootPlan<'a> {
    type V = Plan;

    closed spec fn view(&self) -> Plan {
        Plan {
            cfg: *self.cfg,
            lits: self.lits,
            sources: self.sources@,
            entry_stacks: stack_views(self.entry_stacks@),
        }
    }
}

impl<'a> RootPlan<'a> {
    spec fn wf(self, m: Method) -> bool {
        let n = self.cfg.blocks@.len();
        &&& m.cfg_wf(*self.cfg)
        &&& n > 0
        &&& n <= u32::MAX
        &&& self.sources@.len() == n
        &&& self.entry_stacks@.len() == n
        &&& forall|b: int|
            0 <= b < n ==> (#[trigger] self.sources@[b] matches EntryStackSource::Inherit(p) ==> p
                < n)
    }
}

/// The walk over one bytecode block.
struct RootState {
    seg: Seg,
    sites: Vec<Option<usize>>,
    cur: BlockId,
    cur_bci: usize,
    pending: Option<PendingCmp>,
    last: usize,
}

spec fn pos_of(t: Translator, r: RootState) -> RootPos {
    RootPos {
        s: st(t, r.seg),
        sites: r.sites@,
        cur: r.cur,
        cur_bci: r.cur_bci,
        pending: pending_view(r.pending),
        last: r.last,
    }
}

impl Translator {
    /// Files the block being filled.
    fn finish_root_segment(&mut self, b: usize, r: &mut RootState, entry: &Vec<VReg>)
        ensures
            final(self)@ == old(self)@.finish(
                root_block(b as int, pos_of(*old(self), *old(r)), entry@, old(r).seg@),
            ),
            final(r).seg@ == (SegView {
                stack: old(r).seg@.stack,
                code: Seq::empty(),
                deopt: Seq::empty(),
            }),
            final(r).sites == old(r).sites,
            final(r).cur == old(r).cur,
            final(r).cur_bci == old(r).cur_bci,
            final(r).pending == old(r).pending,
            final(r).last == old(r).last,
    {
        let mut code: Vec<Ir> = Vec::new();
        let mut deopt: Vec<(u32, DeoptRaw)> = Vec::new();
        core::mem::swap(&mut code, &mut r.seg.code);
        core::mem::swap(&mut deopt, &mut r.seg.deopt);
        assert(r.seg@.code =~= Seq::empty());
        assert(r.seg@.deopt =~= Seq::empty());
        let entry_stack = if r.cur == BlockId(b as u32) {
            copy_regs(entry)
        } else {
            Vec::new()
        };
        let block = IrBlock {
            id: r.cur,
            bci: r.cur_bci,
            code,
            entry_stack,
            deopt_sites: deopt,
        };
        proof {
            let want = root_block(b as int, pos_of(*old(self), *old(r)), entry@, old(r).seg@);
            assert(block@.entry_stack =~= want.entry_stack);
        }
        self.finish_block(block);
    }

    /// Takes up the end of an instruction; true when the walk is over.
    fn take_up(
        &mut self,
        b: usize,
        entry: &Vec<VReg>,
        next: usize,
        bci: usize,
        r: &mut RootState,
        end: StepEnd,
        Ghost(p): Ghost<RootPos>,
    ) -> (over: bool)
        requires
            p.cur == old(r).cur,
            p.cur_bci == old(r).cur_bci,
            p.pending == pending_view(old(r).pending),
        ensures
            after_instr(
                b as int,
                entry@,
                next,
                bci,
                p,
                Step { s: st(*old(self), old(r).seg), sites: old(r).sites@, end: end@ },
            ) == (pos_of(*final(self), *final(r)), over),
            final(r).sites@ == old(r).sites@,
            final(r).seg@.stack == old(r).seg@.stack,
    {
        r.last = bci;
        match end {
            StepEnd::Next => false,
            StepEnd::Trapped => true,
            StepEnd::Compare(c) => {
                r.pending = Some(c);
                false
            },
            StepEnd::Split(cont) => {
                let target = match self.pending_jump_target {
                    Some(t) => t,
                    None => cont,
                };
                self.pending_jump_target = None;
                r.seg.emit(Ir::Jump { target });
                self.finish_root_segment(b, r, entry);
                r.cur = cont;
                r.cur_bci = next;
                false
            },
        }
    }

    /// Translates the instructions of bytecode block `b`; true when a trap ended it.
    fn walk_root_block(
        &mut self,
        cx: &Ctx,
        pl: &RootPlan,
        b: usize,
        entry: &Vec<VReg>,
        r: &mut RootState,
    ) -> (trapped: bool)
        requires
            cx.wf(),
            pl.wf(cx.vm.m(cx.method)),
            b < pl.cfg.blocks@.len(),
            old(r).sites@.len() == old(r).seg@.stack.len(),
            root_walk(
                cx@,
                cx.vm.m(cx.method),
                pl@,
                b as int,
                entry@,
                pl.cfg.blocks@[b as int].bci_start as int,
                pos_of(*old(self), *old(r)),
            ) is Some,
        ensures
            root_walk(
                cx@,
                cx.vm.m(cx.method),
                pl@,
                b as int,
                entry@,
                pl.cfg.blocks@[b as int].bci_start as int,
                pos_of(*old(self), *old(r)),
            ) == Some((pos_of(*final(self), *final(r)), trapped)),
    {
        let m = cx.vm.method(cx.method);
        let blk = pl.cfg.blocks[b];
        let end: usize = blk.bci_end;
        let is_branch = matches!(blk.terminator, Terminator::Branch { .. });
        let mut bci: usize = blk.bci_start;
        let mut trapped = false;
        let ghost want = root_walk(
            cx@,
            *m,
            pl@,
            b as int,
            entry@,
            bci as int,
            pos_of(*self, *r),
        );
        while bci < end
            invariant_except_break
                !trapped,
                want == root_walk(
                    cx@,
                    *m,
                    pl@,
                    b as int,
                    entry@,
                    bci as int,
                    pos_of(*self, *r),
                ),
            invariant
                cx.wf(),
                *m == cx.vm.m(cx.method),
                m.wf(cx.vm.methods@.len() as int),
                pl.wf(*m),
                b < pl.cfg.blocks@.len(),
                blk == pl.cfg.blocks@[b as int],
                end == blk.bci_end,
                end <= m.code@.len(),
                is_branch == (blk.terminator is Branch),
                m.boundary(bci as int),
                r.sites@.len() == r.seg@.stack.len(),
                want is Some,
            ensures
                want == Some((pos_of(*self, *r), trapped)),
            decreases m.code@.len() - bci,
        {
            let (instr, next) = m.decode_at(bci);
            let mut fuse = false;
            if is_branch && next < end {
                let (_, after) = m.decode_at(next);
                fuse = after == end;
            }
            assert(fuse == fusable(*m, blk, next as int));
            let ghost p = pos_of(*self, *r);
            let step = self.translate_instr(cx, &instr, fuse, bci, &mut r.seg, &mut r.sites);
            let over = self.take_up(b, entry, next, bci, r, step, Ghost(p));
            if over {
                trapped = true;
                break;
            }
            bci = next;
        }
        trapped
    }

    /// Ends bytecode block `b` with a branch.
    fn emit_root_branch(
        &mut self,
        pl: &RootPlan,
        if_true: usize,
        if_false: usize,
        r: &mut RootState,
    )
        requires
            if_true < pl.sources@.len(),
            if_false < pl.sources@.len(),
            pl.entry_stacks@.len() == pl.sources@.len(),
            root_branch(
                pl@,
                if_true as int,
                if_false as int,
                pos_of(*old(self), *old(r)),
            ) is Some,
        ensures
            root_branch(pl@, if_true as int, if_false as int, pos_of(*old(self), *old(r))) == Some(
                st(*final(self), final(r).seg),
            ),
            final(r).cur == old(r).cur,
            final(r).cur_bci == old(r).cur_bci,
    {
        let mut exit = copy_regs(&r.seg.stack);
        if r.pending.is_none() {
            let _ = exit.pop();
            assert(exit@ =~= r.seg@.stack.drop_last());
        }
        let top = if r.seg.stack.len() > 0 {
            r.seg.stack[r.seg.stack.len() - 1]
        } else {
            VReg(0)
        };
        let reexec = copy_regs(&r.seg.stack);
        emit_merges(&pl.sources, &pl.entry_stacks, if_true, &exit, &mut r.seg);
        emit_merges(&pl.sources, &pl.entry_stacks, if_false, &exit, &mut r.seg);
        let yes = BlockId(if_true as u32);
        let no = BlockId(if_false as u32);
        let closures: Vec<(u16, u32)> = Vec::new();
        assert(closures@ =~= seq![]);
        let mut pending: Option<PendingCmp> = None;
        core::mem::swap(&mut pending, &mut r.pending);
        match pending {
            Some(PendingCmp::Smi { op, a, b, bci, stack }) => {
                let fail = self.fresh_trap_block(bci, stack, closures, None);
                r.seg.emit(Ir::SmiCmpBr { op, a, b, if_true: yes, if_false: no, fail });
            },
            Some(PendingCmp::Float { op, a, b }) => {
                r.seg.emit(Ir::FCmpBr { op, a, b, if_true: yes, if_false: no });
            },
            None => {
                let not_bool = self.fresh_trap_block(r.last, reexec, closures, None);
                r.seg.emit(Ir::BoolBr { val: top, if_true: yes, if_false: no, not_bool });
            },
        }
    }

    /// Ends bytecode block `b`.
    fn emit_root_terminator(&mut self, pl: &RootPlan, b: usize, r: &mut RootState, m: &Method)
        requires
            pl.wf(*m),
            b < pl.cfg.blocks@.len(),
            root_terminator(pl@, b as int, pos_of(*old(self), *old(r))) is Some,
        ensures
            root_terminator(pl@, b as int, pos_of(*old(self), *old(r))) == Some(
                st(*final(self), final(r).seg),
            ),
            final(r).cur == old(r).cur,
            final(r).cur_bci == old(r).cur_bci,
    {
        match pl.cfg.blocks[b].terminator {
            Terminator::Return => {},
            Terminator::Fallthrough(t) => {
                let exit = copy_regs(&r.seg.stack);
                emit_merges(&pl.sources, &pl.entry_stacks, t, &exit, &mut r.seg);
                r.seg.emit(Ir::Jump { target: BlockId(t as u32) });
            },
            Terminator::Jump { target, is_backward } => {
                let exit = copy_regs(&r.seg.stack);
                if is_backward {
                    let raw = DeoptRaw {
                        stack: copy_regs(&r.seg.stack),
                        bci: pl.cfg.blocks[target].bci_start,
                        kind: SafepointKind::LoopPoll,
                        reexecute: true,
                        stack_closures: Vec::new(),
                        inline: None,
                    };
                    assert(raw@.stack_closures =~= seq![]);
                    r.seg.site(raw);
                    r.seg.emit(Ir::Poll);
                }
                emit_merges(&pl.sources, &pl.entry_stacks, target, &exit, &mut r.seg);
                r.seg.emit(Ir::Jump { target: BlockId(target as u32) });
            },
            Terminator::Branch { if_true, if_false } => {
                self.emit_root_branch(pl, if_true, if_false, r);
            },
        }
    }

    /// Translates bytecode block `b`, which control reaches. Returns what successors inherit.
    fn translate_root_block(
        &mut self,
        cx: &Ctx,
        pl: &RootPlan,
        b: usize,
        entry: &Vec<VReg>,
        reach: &mut Vec<bool>,
    ) -> (exit: Vec<VReg>)
        requires
            cx.wf(),
            cx@ == ctx_of(*cx.vm, cx.rcvr_klass, cx.method, cx.osr),
            pl.wf(cx.vm.m(cx.method)),
            b < pl.cfg.blocks@.len(),
            old(reach)@.len() == pl.cfg.blocks@.len(),
            root_block_done(
                cx@,
                cx.vm.m(cx.method),
                pl@,
                b as int,
                entry@,
                old(reach)@,
                old(self)@,
            ) is Some,
        ensures
            root_block_done(
                cx@,
                cx.vm.m(cx.method),
                pl@,
                b as int,
                entry@,
                old(reach)@,
                old(self)@,
            ) == Some((final(self)@, exit@, final(reach)@)),
            final(reach)@.len() == old(reach)@.len(),
    {
        let m = cx.vm.method(cx.method);
        let blk = pl.cfg.blocks[b];
        let mut seg = Seg::new(copy_regs(entry));
        if b == 0 {
            self.emit_prologue(cx, &pl.lits, &mut seg);
        }
        let mut sites: Vec<Option<usize>> = Vec::new();
        for i in 0..entry.len()
            invariant
                sites@.len() == i,
                forall|j: int| 0 <= j < i ==> #[trigger] sites@[j] is None,
        {
            sites.push(None);
        }
        assert(sites@ =~= Seq::new(entry@.len(), |i: int| None));
        let mut r = RootState {
            seg,
            sites,
            cur: BlockId(b as u32),
            cur_bci: blk.bci_start,
            pending: None,
            last: blk.bci_start,
        };
        assert(pos_of(*self, r) == root_start(
            cx@,
            *m,
            pl@,
            b as int,
            entry@,
            old(self)@,
        ));
        let trapped = self.walk_root_block(cx, pl, b, entry, &mut r);
        let ghost p = pos_of(*self, r);
        let mut exit = copy_regs(&r.seg.stack);
        if !trapped {
            if matches!(blk.terminator, Terminator::Branch { .. }) && r.pending.is_none() {
                let _ = exit.pop();
                proof {
                    if p.s.seg.stack.len() > 0 {
                        assert(exit@ =~= p.s.seg.stack.drop_last());
                    }
                }
            }
            match blk.terminator {
                Terminator::Return => {},
                Terminator::Fallthrough(t) | Terminator::Jump { target: t, .. } => {
                    reach[t] = true;
                },
                Terminator::Branch { if_true, if_false } => {
                    reach[if_true] = true;
                    reach[if_false] = true;
                },
            }
            self.emit_root_terminator(pl, b, &mut r, m);
        }
        self.finish_root_segment(b, &mut r, entry);
        exit
    }
}

impl Translator {
    /// Translates all bytecode blocks.
    fn translate_root_blocks(&mut self, cx: &Ctx, pl: &RootPlan)
        requires
            cx.wf(),
            cx@ == ctx_of(*cx.vm, cx.rcvr_klass, cx.method, cx.osr),
            pl.wf(cx.vm.m(cx.method)),
            translated(cx@, cx.vm.m(cx.method), pl@, old(self)@) is Some,
        ensures
            translated(cx@, cx.vm.m(cx.method), pl@, old(self)@) == Some(final(self)@),
    {
        let n: usize = pl.cfg.blocks.len();
        let ghost m = cx.vm.m(cx.method);
        let mut exits: Vec<Option<Vec<VReg>>> = Vec::new();
        let mut reach: Vec<bool> = Vec::new();
        for i in 0..n
            invariant
                exits@.len() == i,
                reach@.len() == i,
                forall|j: int| 0 <= j < i ==> #[trigger] exits@[j] is None,
                forall|j: int| 0 <= j < i ==> #[trigger] reach@[j] == (j == 0),
        {
            exits.push(None);
            reach.push(i == 0);
        }
        assert(stack_views(exits@) =~= Seq::new(n as nat, |i: int| None));
        assert(reach@ =~= Seq::new(n as nat, |i: int| i == 0));
        let ghost want = translated(cx@, m, pl@, self@);
        for b in 0..n
            invariant
                cx.wf(),
                m == cx.vm.m(cx.method),
                cx@ == ctx_of(*cx.vm, cx.rcvr_klass, cx.method, cx.osr),
                pl.wf(m),
                n == pl.cfg.blocks@.len(),
                exits@.len() == n,
                reach@.len() == n,
                want is Some,
                want == root_blocks(
                    cx@,
                    m,
                    pl@,
                    b as int,
                    stack_views(exits@),
                    reach@,
                    self@,
                ),
        {
            if !reach[b] {
                self.finish_dead_block(BlockId(b as u32), pl.cfg.blocks[b].bci_start);
            } else {
                let ghost at = root_entry(pl@, b as int, stack_views(exits@));
                let entry = match pl.sources[b] {
                    EntryStackSource::Inherit(p) => {
                        assert(stack_views(exits@)[p as int] == stack_view(exits@[p as int]));
                        match &exits[p] {
                            Some(v) => copy_regs(v),
                            None => Vec::new(),
                        }
                    },
                    _ => {
                        assert(stack_views(pl.entry_stacks@)[b as int] == stack_view(
                            pl.entry_stacks@[b as int],
                        ));
                        match &pl.entry_stacks[b] {
                            Some(v) => copy_regs(v),
                            None => Vec::new(),
                        }
                    },
                };
                assert(at == Some(entry@));
                let exit = self.translate_root_block(cx, pl, b, &entry, &mut reach);
                let ghost exits0 = exits@;
                exits[b] = Some(exit);
                assert(stack_views(exits@) =~= stack_views(exits0).update(
                    b as int,
                    Some(exit@),
                ));
            }
        }
    }
}

fn any_site(blocks: &Vec<IrBlock>) -> (r: bool)
    ensures
        r == has_site(blocks_view(blocks@)),
{
    let ghost bs = blocks_view(blocks@);
    for k in 0..blocks.len()
        invariant
            bs == blocks_view(blocks@),
            forall|j: int| 0 <= j < k ==> (#[trigger] bs[j]).deopt_sites.len() == 0,
    {
        assert(bs[k as int] == blocks@[k as int]@);
        if blocks[k].deopt_sites.len() > 0 {
            assert(bs[k as int].deopt_sites.len() > 0);
            return true;
        }
    }
    false
}

/// Takes the finished blocks out of their slots.
fn unwrap_blocks(slots: Vec<Option<IrBlock>>) -> (r: Vec<IrBlock>)
    requires
        all_finished(slots_view(slots@)),
    ensures
        blocks_view(r@) == unwrapped(slots_view(slots@)),
{
    let ghost all = slots_view(slots@);
    let mut r: Vec<IrBlock> = Vec::new();
    for slot in it: slots.into_iter()
        invariant
            it.seq() == slots@,
            all == slots_view(slots@),
            all_finished(all),
            r@.len() == it.index(),
            forall|j: int| 0 <= j < r@.len() ==> (#[trigger] r@[j])@ == all[j]->0,
    {
        let ghost k = it.index();
        assert(slot == slots@[k]);
        assert(all[k] == slot_view(slot));
        assert(all[k] is Some);
        if let Some(b) = slot {
            r.push(b);
        }
    }
    assert(blocks_view(r@) =~= unwrapped(all));
    r
}

/// Puts the translated method together.
fn assemble(t: Translator, cx: &Ctx, lits: &Lits, osr: bool) -> (r: IrMethod)
    requires
        cx.wf(),
        cx@ == ctx_of(*cx.vm, cx.rcvr_klass, cx.method, cx.osr),
        all_finished(t@.blocks),
    ensures
        r@ == assembled(cx.vm.m(cx.method), osr, *lits, t@),
{
    let m = cx.vm.method(cx.method);
    let mut t = t;
    let ghost o = t@;
    let mut slots: Vec<Option<IrBlock>> = Vec::new();
    core::mem::swap(&mut slots, &mut t.blocks_by_id);
    let blocks = unwrap_blocks(slots);
    let method_pool_ix: Option<u32> = if any_site(&blocks) {
        Some(t.intern_oop(m.oop).0)
    } else {
        None
    };
    let r = IrMethod {
        osr_cold_sends: t.osr_cold_sends,
        is_osr: osr,
        blocks,
        vregs: t.vregs,
        pool: t.pool.entries,
        argc: m.argc,
        ntemps: m.ntemps,
        block_closure_vreg: cx.block_closure_vreg,
        ctx_vregs: copy_regs(&cx.ctx_vregs),
        method_ctx_vreg: match cx.method_ctx_vreg {
            Some(v) => Some((v, m.nctx as usize)),
            None => None,
        },
        spliced_nlr: t.spliced_nlr,
        spliced_multibb: t.spliced_multibb,
        splice_declined_budget: t.splice_declined_budget,
        safepoints: Vec::new(),
        true_lit: lits.true_,
        false_lit: lits.false_,
        nil_lit: lits.nil,
        mark_slots_lit: lits.mark_slots,
        mark_double_lit: lits.mark_double,
        double_klass_lit: lits.double_klass,
        float64x2_klass_lit: lits.float64x2_klass,
        float32x4_klass_lit: lits.float32x4_klass,
        int32x4_klass_lit: lits.int32x4_klass,
        call_sites: t.call_sites,
        site_feedback: t.site_feedback,
        inline_deps: t.inline_deps,
        self_devirt: t.self_devirt,
        method_pool_ix,
    };
    assert(r@.safepoints =~= seq![]);
    r
}

/// Converts the bytecode of `method`, whose control flow is `cfg`, into IR for receivers of class
/// `rcvr_klass`; `osr_bci` is where an on-stack-replacement compilation is entered.
pub fn convert(
    vm: &VmState,
    rcvr_klass: KlassOop,
    method: MethodOop,
    cfg: &Cfg,
    osr_bci: Option<u16>,
) -> (r: IrMethod)
    requires
        vm.wf(),
        vm.has(method),
        vm.m(method).cfg_wf(*cfg),
        converted(*vm, rcvr_klass, method, *cfg, osr_bci) is Some,
    ensures
        converted(*vm, rcvr_klass, method, *cfg, osr_bci) == Some(r@),
{
    let osr = osr_bci.is_some();
    let cx = make_ctx(vm, rcvr_klass, method, osr);
    let m = vm.method(method);
    let (depths, _) = compute_entry_depths(m, cfg);
    let sources = entry_stack_sources(cfg, &depths);
    let mut t = make_translator(&cx, cfg.blocks.len());
    let entry_stacks = t.mint_merge_regs(&sources, &depths);
    let lits = t.intern_all_lits(vm, cx.method_ctx_vreg.is_some());
    let pl = RootPlan { cfg, lits, sources, entry_stacks };
    t.translate_root_blocks(&cx, &pl);
    let mut irm = assemble(t, &cx, &lits, osr);
    copy_propagate(&mut irm);
    reduce_float_boxes(vm, &mut irm, osr_bci);
    irm
}

} // verus!

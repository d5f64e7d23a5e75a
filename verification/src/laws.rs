//! What holds of every converted method.

use vstd::prelude::*;
use crate::convert::{
    all_finished, assembled, converted, ctx_of, empty_out, has_site, intern_lits, translated,
    unwrapped, Plan,
};
use crate::apart_graft::lemma_merge_regs_blocks;
use crate::apart_root::{apart_translated, lemma_fails_apart};
use crate::copies::{fails_apart, law_removed_copies_are_unread, lemma_renamed_once};
use crate::copyprop::{all_writes, propagated, removable, resolved, single_writes};
use crate::depths::{depths_agree, entry_depths, entry_sources, EntryStackSource};
use crate::endings::{all_rets_last, rets_last, rets_ok};
use crate::graft::{fresh_regs, merge_regs};
use crate::intervals::{
    are_facts, are_intervals, exact_facts, fact_named, has_interval, is_interval, lemma_live_facts,
    line, line_fits, loop_fact, loops, safepoints, LiveInterval,
};
use crate::ir::{BlockView, DeoptView, Ir, IrView, MethodView, VReg};
use crate::kinds::{blocks_fit, code_fits, general, lemma_fits_below, op_fits};
use crate::loc::{frame_loc, law_survivors_are_found, survives};
use crate::order::{emission_order, op_targets, targets};
use crate::passes::{
    all_reads, all_refs, below, block_below, blocks_below, code_reads, lemma_occurrences_bound,
    occurrences, raw_refs, sites_refs, write_below,
};
use crate::regalloc::{
    allocated, is_allocation, law_allocation_is_sound, law_residents_are_exclusive,
    lemma_pins_keep, pins, same_place, same_range, slot_of, with_residents, RegallocResult,
};
use crate::renaming::{lemma_propagated_fit, shrunk};
use crate::sound::{block_ok, kinds_ok, lit_interned, out_intern, out_ok, pool_distinct};
use crate::sound_convert::lemma_translated;
use crate::sound_passes::{
    block_shape, blocks_shape, lemma_below_concat, lemma_code_below, lemma_propagated,
    lemma_propagates, lemma_reduced, shape_ok, site_ok, sizes, Sizes,
};
use crate::sound_returns::{lemma_translated_rets, returns_end};
use crate::tidy::{all_no_rebox, boxes_needed, law_reduction_is_thorough, ops_upto, sites_kept};
use crate::total::{law_sound_methods_reduce, lemma_fewer_reads, lemma_fit_apart, lemma_ops_upto};
use crate::translator::{pool_oop, OutView};
use crate::typed::law_reduction_keeps_kinds;
use crate::world::{Cfg, KlassOop, MethodOop, VmState};

verus! {

/// The method as translated, before the passes over it.
pub open spec fn unpassed(
    vm: VmState,
    rcvr_klass: KlassOop,
    method: MethodOop,
    cfg: Cfg,
    osr: bool,
) -> Option<MethodView> {
    let cx = ctx_of(vm, rcvr_klass, method, osr);
    let m = vm.m(method);
    let n = cfg.blocks@.len();
    let sources = entry_sources(cfg, entry_depths(m, cfg));
    if n == 0 || n > u32::MAX || !depths_agree(m, cfg) {
        None
    } else {
        match merge_regs(sources, entry_depths(m, cfg), n, empty_out(m, n)) {
            None => None,
            Some((o, entry_stacks)) => {
                let (o1, lits) = intern_lits(vm, cx.method_ctx_vreg is Some, o);
                match translated(cx, m, Plan { cfg, lits, sources, entry_stacks }, o1) {
                    None => None,
                    Some(o2) => if !all_finished(o2.blocks) {
                        None
                    } else {
                        Some(assembled(m, osr, lits, o2))
                    },
                }
            },
        }
    }
}

/// The tables and blocks are short enough for the numbers that operations carry.
pub open spec fn numbers_fit(m: MethodView) -> bool {
    &&& m.vregs.len() <= 0x1_0000_0000
    &&& m.blocks.len() <= u32::MAX
    &&& m.pool.len() <= 0x1_0000_0000
    &&& m.call_sites.len() <= 0x1_0000
    &&& forall|b: int| 0 <= b < m.blocks.len() ==> (#[trigger] m.blocks[b]).code.len() <= 0x1_0000_0000
}

/// Nothing dangles: blocks stand at their numbers; operations name registers, blocks, pool entries
/// and call sites that exist; every deoptimization site stands at an operation of its kind, and all
/// but those at calls run their bytecode again; no operation gives up; no register is an object and
/// an unboxed double at once; pool entries differ; and each call site has its feedback.
pub open spec fn method_sound(m: MethodView) -> bool {
    &&& blocks_shape(m.blocks, sizes(m))
    &&& blocks_below(m.blocks, m.vregs.len())
    &&& kinds_ok(m.vregs)
    &&& pool_distinct(m.pool)
    &&& m.site_feedback.len() == m.call_sites.len()
}

proof fn lemma_shape_of(b: BlockView, o: OutView, z: Sizes)
    requires
        block_ok(b, o),
        o.pool.len() <= z.pool <= 0x1_0000_0000,
        o.call_sites.len() <= z.calls <= 0x1_0000,
        o.blocks.len() <= z.blocks,
        b.code.len() <= 0x1_0000_0000,
    ensures
        block_shape(b, z),
{
    assert forall|i: int| 0 <= i < b.code.len() implies shape_ok(#[trigger] b.code[i], z) by {
        let op = b.code[i];
        assert(crate::sound::op_ok(op, o));
        assert forall|k: int| 0 <= k < op_targets(op).len() implies (
        #[trigger] op_targets(op)[k]).0 < z.blocks by {
            assert(crate::sound::target_ok(op_targets(op)[k], o));
        }
    }
    assert forall|k: int| 0 <= k < b.deopt_sites.len() implies site_ok(
        #[trigger] b.deopt_sites[k],
        b.code,
    ) by {
        assert(crate::sound::site_stands(b.deopt_sites[k], b.code));
        assert(crate::sound::raw_ok(b.deopt_sites[k].1, o));
    }
}

proof fn lemma_sites_below(d: Seq<(u32, DeoptView)>, o: OutView, n: nat)
    requires
        forall|k: int| 0 <= k < d.len() ==> crate::sound::raw_ok((#[trigger] d[k]).1, o),
        o.vregs.len() == n <= 0x1_0000_0000,
    ensures
        below(sites_refs(d), n),
    decreases d.len(),
{
    if d.len() > 0 {
        let e = d.drop_last();
        assert forall|k: int| 0 <= k < e.len() implies crate::sound::raw_ok(
            (#[trigger] e[k]).1,
            o,
        ) by {
            assert(crate::sound::raw_ok(d[k].1, o));
        }
        lemma_sites_below(e, o, n);
        let r = raw_refs(d.last().1);
        assert(crate::sound::raw_ok(d[d.len() - 1].1, o));
        assert forall|k: int| 0 <= k < r.len() implies (#[trigger] r[k]).0 < n by {
            assert(crate::kinds::reg_ok(r[k], o));
        }
        lemma_below_concat(sites_refs(e), r, n);
    }
}

proof fn lemma_typed_fits(op: IrView, o: OutView)
    requires
        crate::sound::op_typed(op, o),
        o.vregs.len() <= 0x1_0000_0000,
    ensures
        op_fits(op, o.vregs),
{
    let r = op.reads();
    if crate::sound::regs_ok(r, o) {
        assert forall|i: int| 0 <= i < r.len() implies general(#[trigger] r[i], o.vregs) by {
            assert(crate::kinds::reg_ok(r[i], o));
        }
    }
    if let Ir::Move { dst, src } = op {
        assert(r[0] == src);
        assert(general(r[0], o.vregs));
    }
}

proof fn lemma_below_of(b: BlockView, o: OutView, n: nat)
    requires
        block_ok(b, o),
        o.vregs.len() == n <= 0x1_0000_0000,
    ensures
        block_below(b, n),
{
    assert forall|i: int| 0 <= i < b.code.len() implies below(#[trigger] b.code[i].reads(), n)
        && write_below(b.code[i], n) by {
        assert(crate::sound::op_ok(b.code[i], o));
        lemma_typed_fits(b.code[i], o);
        lemma_fits_below(b.code[i], o.vregs);
    }
    lemma_code_below(b.code, n);
    assert forall|k: int| 0 <= k < b.deopt_sites.len() implies crate::sound::raw_ok(
        (#[trigger] b.deopt_sites[k]).1,
        o,
    ) by {}
    lemma_sites_below(b.deopt_sites, o, n);
    assert forall|k: int| 0 <= k < b.entry_stack.len() implies (#[trigger] b.entry_stack[k]).0
        < n by {
        assert(crate::kinds::reg_ok(b.entry_stack[k], o));
    }
    lemma_below_concat(code_reads(b.code), sites_refs(b.deopt_sites), n);
    lemma_below_concat(code_reads(b.code) + sites_refs(b.deopt_sites), b.entry_stack, n);
}

/// A method as translated is sound, its fail blocks are apart, and ordinary values and unboxed
/// doubles never share a register: boxes are made of doubles into ordinary registers, unboxing goes
/// the other way, and no other operation touches a double.
pub proof fn law_translation_is_sound(
    vm: VmState,
    rcvr_klass: KlassOop,
    method: MethodOop,
    cfg: Cfg,
    osr: bool,
)
    requires
        vm.wf(),
        vm.has(method),
        vm.m(method).cfg_wf(cfg),
        unpassed(vm, rcvr_klass, method, cfg, osr) matches Some(u) && numbers_fit(u),
    ensures
        ({
            let u = unpassed(vm, rcvr_klass, method, cfg, osr)->0;
            method_sound(u) && fails_apart(u.blocks) && blocks_fit(u.blocks, u.vregs)
        }),
{
    let cx = ctx_of(vm, rcvr_klass, method, osr);
    let m = vm.m(method);
    let n = cfg.blocks@.len();
    let sources = entry_sources(cfg, entry_depths(m, cfg));
    let (o, entry_stacks) = merge_regs(sources, entry_depths(m, cfg), n, empty_out(m, n))->0;
    let (o1, lits) = intern_lits(vm, cx.method_ctx_vreg is Some, o);
    let pl = Plan { cfg, lits, sources, entry_stacks };
    lemma_translated(cx, cfg, pl, o1);
    let o2 = translated(cx, m, pl, o1)->0;
    let u = unpassed(vm, rcvr_klass, method, cfg, osr)->0;
    let e = pool_oop(m.oop);
    let o3 = o2.intern(e);
    out_intern(o2, e);
    lit_interned(o2, e);
    reveal(out_ok);
    let bs = unwrapped(o2.blocks);
    assert(u.blocks == bs);
    assert forall|i: int| 0 <= i < bs.len() implies block_shape(#[trigger] bs[i], sizes(u))
        && bs[i].id.0 == i by {
        assert(o2.blocks[i] is Some);
        assert(bs[i] == o2.blocks[i]->0);
        assert(u.blocks[i].code.len() <= 0x1_0000_0000);
        lemma_shape_of(bs[i], o2, sizes(u));
    }
    assert forall|i: int| 0 <= i < bs.len() implies block_below(#[trigger] bs[i], u.vregs.len()) by {
        assert(o2.blocks[i] is Some);
        assert(bs[i] == o2.blocks[i]->0);
        lemma_below_of(bs[i], o2, u.vregs.len());
    }
    assert forall|i: int| 0 <= i < bs.len() implies code_fits((#[trigger] bs[i]).code, u.vregs) by {
        assert(o2.blocks[i] is Some);
        assert(bs[i] == o2.blocks[i]->0);
        assert(block_ok(bs[i], o2));
        assert forall|k: int| 0 <= k < bs[i].code.len() implies op_fits(
            #[trigger] bs[i].code[k],
            u.vregs,
        ) by {
            assert(crate::sound::op_ok(bs[i].code[k], o2));
            lemma_typed_fits(bs[i].code[k], o2);
        }
    }
    lemma_merge_regs_blocks(sources, entry_depths(m, cfg), n, empty_out(m, n));
    apart_translated(cx, m, pl, o1);
    lemma_fails_apart(o2.blocks);
}

/// A converted method is sound: nothing in it dangles.
pub proof fn law_converted_is_sound(
    vm: VmState,
    rcvr_klass: KlassOop,
    method: MethodOop,
    cfg: Cfg,
    osr_bci: Option<u16>,
)
    requires
        vm.wf(),
        vm.has(method),
        vm.m(method).cfg_wf(cfg),
        converted(vm, rcvr_klass, method, cfg, osr_bci) is Some,
        unpassed(vm, rcvr_klass, method, cfg, osr_bci is Some) matches Some(u) ==> numbers_fit(u),
    ensures
        method_sound(converted(vm, rcvr_klass, method, cfg, osr_bci)->0),
{
    let u = unpassed(vm, rcvr_klass, method, cfg, osr_bci is Some)->0;
    law_translation_is_sound(vm, rcvr_klass, method, cfg, osr_bci is Some);
    let z = sizes(u);
    lemma_propagated(u.blocks, u.vregs.len(), z);
    let bs = propagated(u.blocks, u.vregs.len())->0;
    let v = MethodView { blocks: bs, ..u };
    lemma_reduced(vm, v, osr_bci, z);
}

/// Copy propagation takes every translated method as long as its counters do, and what it removes
/// nothing refers to any more.
pub proof fn law_translated_methods_propagate(
    vm: VmState,
    rcvr_klass: KlassOop,
    method: MethodOop,
    cfg: Cfg,
    osr: bool,
)
    requires
        vm.wf(),
        vm.has(method),
        vm.m(method).cfg_wf(cfg),
        unpassed(vm, rcvr_klass, method, cfg, osr) matches Some(u) && numbers_fit(u)
            && all_refs(u.blocks).len() <= u32::MAX && all_writes(u.blocks).len() <= u32::MAX,
    ensures
        ({
            let u = unpassed(vm, rcvr_klass, method, cfg, osr)->0;
            let n = u.vregs.len();
            &&& propagated(u.blocks, n) is Some
            &&& forall|op: IrView|
                op is Move && #[trigger] removable(
                    single_writes(u.blocks, n),
                    all_refs(u.blocks),
                    resolved(u.blocks, n).hits,
                    op,
                ) ==> !all_refs(propagated(u.blocks, n)->0).contains(op->Move_dst)
        }),
{
    let u = unpassed(vm, rcvr_klass, method, cfg, osr)->0;
    let n = u.vregs.len();
    law_translation_is_sound(vm, rcvr_klass, method, cfg, osr);
    law_sound_methods_propagate(u);
    assert forall|op: IrView|
        op is Move && #[trigger] removable(
            single_writes(u.blocks, n),
            all_refs(u.blocks),
            resolved(u.blocks, n).hits,
            op,
        ) implies !all_refs(propagated(u.blocks, n)->0).contains(op->Move_dst) by {
        law_removed_copies_are_unread(u.blocks, n, op);
    }
}

/// The conversion takes every method that could be translated, as long as its numbers and counters
/// fit: the passes over it never get stuck.
pub proof fn law_translated_methods_convert(
    vm: VmState,
    rcvr_klass: KlassOop,
    method: MethodOop,
    cfg: Cfg,
    osr_bci: Option<u16>,
)
    requires
        vm.wf(),
        vm.has(method),
        vm.m(method).cfg_wf(cfg),
        unpassed(vm, rcvr_klass, method, cfg, osr_bci is Some) matches Some(u) && numbers_fit(u)
            && counters_fit(u),
    ensures
        converted(vm, rcvr_klass, method, cfg, osr_bci) is Some,
{
    let u = unpassed(vm, rcvr_klass, method, cfg, osr_bci is Some)->0;
    let n = u.vregs.len();
    law_translation_is_sound(vm, rcvr_klass, method, cfg, osr_bci is Some);
    law_sound_methods_propagate(u);
    let z = sizes(u);
    lemma_propagated(u.blocks, n, z);
    lemma_propagated_fit(u.blocks, u.vregs, z);
    let bs = propagated(u.blocks, n)->0;
    let v = MethodView { blocks: bs, ..u };
    assert forall|i: int| 0 <= i < bs.len() implies (#[trigger] bs[i]).code.len()
        <= u.blocks[i].code.len() && code_reads(bs[i].code).len() <= code_reads(
        u.blocks[i].code,
    ).len() by {
        assert(shrunk(u.blocks[i], bs[i], u.vregs));
    }
    lemma_ops_upto(u.blocks, bs, bs.len() as int, 0);
    lemma_fewer_reads(u.blocks, bs);
    lemma_reads_in_refs(u.blocks);
    lemma_fit_apart(bs, u.vregs);
    law_sound_methods_reduce(vm, v, osr_bci);
}

/// What the passes leave of a method's boxes: each is read by an operation, named by a
/// deoptimization site or filled by predecessors, and no block unboxes what it boxed before.
pub proof fn law_converted_boxes_are_needed(
    vm: VmState,
    rcvr_klass: KlassOop,
    method: MethodOop,
    cfg: Cfg,
    osr_bci: Option<u16>,
)
    requires
        vm.wf(),
        vm.has(method),
        vm.m(method).cfg_wf(cfg),
        converted(vm, rcvr_klass, method, cfg, osr_bci) is Some,
        unpassed(vm, rcvr_klass, method, cfg, osr_bci is Some) matches Some(u) ==> numbers_fit(u),
    ensures
        ({
            let r = converted(vm, rcvr_klass, method, cfg, osr_bci)->0;
            boxes_needed(r.blocks) && all_no_rebox(r.blocks)
        }),
{
    let u = unpassed(vm, rcvr_klass, method, cfg, osr_bci is Some)->0;
    law_translation_is_sound(vm, rcvr_klass, method, cfg, osr_bci is Some);
    let z = sizes(u);
    lemma_propagated(u.blocks, u.vregs.len(), z);
    lemma_propagated_fit(u.blocks, u.vregs, z);
    let bs = propagated(u.blocks, u.vregs.len())->0;
    lemma_fit_apart(bs, u.vregs);
    law_reduction_is_thorough(vm, MethodView { blocks: bs, ..u }, osr_bci, z);
}

/// Where returns end the blocks of the bytecode, they end the blocks of the translation: whatever is
/// spliced in, nothing follows a return.
pub proof fn law_returns_stand_last(
    vm: VmState,
    rcvr_klass: KlassOop,
    method: MethodOop,
    cfg: Cfg,
    osr: bool,
)
    requires
        vm.wf(),
        vm.has(method),
        vm.m(method).cfg_wf(cfg),
        returns_end(vm.m(method), cfg),
        unpassed(vm, rcvr_klass, method, cfg, osr) is Some,
    ensures
        all_rets_last((unpassed(vm, rcvr_klass, method, cfg, osr)->0).blocks),
{
    let cx = ctx_of(vm, rcvr_klass, method, osr);
    let m = vm.m(method);
    let n = cfg.blocks@.len();
    let sources = entry_sources(cfg, entry_depths(m, cfg));
    let (o, entry_stacks) = merge_regs(sources, entry_depths(m, cfg), n, empty_out(m, n))->0;
    let (o1, lits) = intern_lits(vm, cx.method_ctx_vreg is Some, o);
    let pl = Plan { cfg, lits, sources, entry_stacks };
    lemma_merge_regs_blocks(sources, entry_depths(m, cfg), n, empty_out(m, n));
    assert(rets_ok(o1.blocks)) by {
        reveal(rets_ok);
    }
    lemma_translated_rets(cx, m, pl, o1);
    let o2 = translated(cx, m, pl, o1)->0;
    let bs = unwrapped(o2.blocks);
    assert forall|i: int| 0 <= i < bs.len() implies rets_last((#[trigger] bs[i]).code) by {
        assert(o2.blocks[i] is Some);
        reveal(rets_ok);
    }
}

/// A converted method keeps ordinary values and unboxed doubles in registers of their own: boxes are
/// made of doubles into ordinary registers, unboxing goes the other way, copies stay within a kind,
/// and no other operation touches a double. Promotion through spliced bodies boxes what a block
/// returns at the end of the block, so there the returns of the bytecode stand last.
pub proof fn law_converted_keeps_kinds(
    vm: VmState,
    rcvr_klass: KlassOop,
    method: MethodOop,
    cfg: Cfg,
    osr_bci: Option<u16>,
)
    requires
        vm.wf(),
        vm.has(method),
        vm.m(method).cfg_wf(cfg),
        vm.splice_promote ==> returns_end(vm.m(method), cfg),
        converted(vm, rcvr_klass, method, cfg, osr_bci) is Some,
        unpassed(vm, rcvr_klass, method, cfg, osr_bci is Some) matches Some(u) ==> numbers_fit(u),
    ensures
        ({
            let r = converted(vm, rcvr_klass, method, cfg, osr_bci)->0;
            blocks_fit(r.blocks, r.vregs)
        }),
{
    let u = unpassed(vm, rcvr_klass, method, cfg, osr_bci is Some)->0;
    law_translation_is_sound(vm, rcvr_klass, method, cfg, osr_bci is Some);
    lemma_propagated_fit(u.blocks, u.vregs, sizes(u));
    let bs = propagated(u.blocks, u.vregs.len())->0;
    if vm.splice_promote {
        law_returns_stand_last(vm, rcvr_klass, method, cfg, osr_bci is Some);
        assert forall|i: int| 0 <= i < bs.len() implies rets_last((#[trigger] bs[i]).code) by {
            assert(shrunk(u.blocks[i], bs[i], u.vregs));
            assert(rets_last(u.blocks[i].code));
        }
    }
    law_reduction_keeps_kinds(vm, MethodView { blocks: bs, ..u }, osr_bci);
}

/// The counters of the passes do not overflow on the method.
pub open spec fn counters_fit(m: MethodView) -> bool {
    &&& m.vregs.len() + m.blocks.len() <= u32::MAX + 1
    &&& ops_upto(m.blocks, m.blocks.len() as int) + m.blocks.len() <= u32::MAX
    &&& all_refs(m.blocks).len() <= u32::MAX
    &&& all_writes(m.blocks).len() <= u32::MAX
}

proof fn lemma_reads_in_refs(bs: Seq<BlockView>)
    ensures
        all_reads(bs).len() <= all_refs(bs).len(),
    decreases bs.len(),
{
    if bs.len() > 0 {
        lemma_reads_in_refs(bs.drop_last());
    }
}

/// A converted method has its own pool entry exactly where some block has a deoptimization site to
/// name it.
pub proof fn law_sites_have_their_method(
    vm: VmState,
    rcvr_klass: KlassOop,
    method: MethodOop,
    cfg: Cfg,
    osr_bci: Option<u16>,
)
    requires
        vm.wf(),
        vm.has(method),
        vm.m(method).cfg_wf(cfg),
        converted(vm, rcvr_klass, method, cfg, osr_bci) is Some,
        unpassed(vm, rcvr_klass, method, cfg, osr_bci is Some) matches Some(u) ==> numbers_fit(u),
    ensures
        ({
            let r = converted(vm, rcvr_klass, method, cfg, osr_bci)->0;
            r.method_pool_ix is Some <==> has_site(r.blocks)
        }),
{
    let u = unpassed(vm, rcvr_klass, method, cfg, osr_bci is Some)->0;
    let n = u.vregs.len();
    law_translation_is_sound(vm, rcvr_klass, method, cfg, osr_bci is Some);
    let z = sizes(u);
    lemma_propagated(u.blocks, n, z);
    lemma_propagated_fit(u.blocks, u.vregs, z);
    let bs = propagated(u.blocks, n)->0;
    let v = MethodView { blocks: bs, ..u };
    lemma_reduced(vm, v, osr_bci, z);
    law_reduction_is_thorough(vm, v, osr_bci, z);
    let r = converted(vm, rcvr_klass, method, cfg, osr_bci)->0;
    assert forall|i: int| 0 <= i < u.blocks.len() implies (
    #[trigger] r.blocks[i]).deopt_sites.len() == u.blocks[i].deopt_sites.len() by {
        assert(bs[i].deopt_sites.len() == u.blocks[i].deopt_sites.len());
        assert(sites_kept(v.blocks[i], r.blocks[i]));
    }
    if has_site(u.blocks) {
        let b = choose|b: int|
            0 <= b < u.blocks.len() && (#[trigger] u.blocks[b]).deopt_sites.len() > 0;
        assert(r.blocks[b].deopt_sites.len() > 0);
    }
    if has_site(r.blocks) {
        let b = choose|b: int|
            0 <= b < r.blocks.len() && (#[trigger] r.blocks[b]).deopt_sites.len() > 0;
        assert(u.blocks[b].deopt_sites.len() > 0);
    }
}

proof fn lemma_targets_in(code: Seq<Ir<Seq<VReg>>>, n: int)
    requires
        forall|i: int, k: int|
            0 <= i < code.len() && 0 <= k < op_targets(code[i]).len() ==> (#[trigger] op_targets(
                code[i],
            )[k]).0 < n,
    ensures
        forall|k: int| 0 <= k < targets(code).len() ==> (#[trigger] targets(code)[k]).0 < n,
    decreases code.len(),
{
    if code.len() > 0 {
        let d = code.drop_last();
        assert forall|i: int, k: int|
            0 <= i < d.len() && 0 <= k < op_targets(d[i]).len() implies (#[trigger] op_targets(
            d[i],
        )[k]).0 < n by {
            assert(d[i] == code[i]);
            assert(op_targets(code[i])[k].0 < n);
        }
        lemma_targets_in(d, n);
        let a = targets(d);
        let b = op_targets(code.last());
        assert forall|k: int| 0 <= k < targets(code).len() implies (#[trigger] targets(code)[k]).0
            < n by {
            if k < a.len() {
                assert(targets(code)[k] == a[k]);
            } else {
                assert(targets(code)[k] == b[k - a.len()]);
                assert(op_targets(code[code.len() - 1])[k - a.len()].0 < n);
            }
        }
    }
}

/// A sound method whose positions have numbers can be laid out and allocated: every jump leads to a
/// block.
pub proof fn law_sound_methods_lay_out(m: MethodView)
    requires
        method_sound(m),
        m.blocks.len() <= u32::MAX,
        m.vregs.len() <= u32::MAX,
        ({
            let order = emission_order(m.blocks);
            line(m, order, order.len() as int).len() <= u32::MAX
        }),
    ensures
        line_fits(m),
{
    assert forall|b: int, k: int|
        0 <= b < m.blocks.len() && 0 <= k < targets(m.blocks[b].code).len() implies (
    #[trigger] targets(m.blocks[b].code)[k]).0 < m.blocks.len() by {
        let code = m.blocks[b].code;
        assert(block_shape(m.blocks[b], sizes(m)));
        assert forall|i: int, j: int|
            0 <= i < code.len() && 0 <= j < op_targets(code[i]).len() implies (
        #[trigger] op_targets(code[i])[j]).0 < m.blocks.len() by {
            assert(shape_ok(code[i], sizes(m)));
        }
        lemma_targets_in(code, m.blocks.len() as int);
    }
}

/// Whatever deoptimization needs at a position is in the frame of the allocated method, there and at
/// every safepoint on the way: its location is a slot, never lost.
pub proof fn law_deopt_values_are_found(
    m: MethodView,
    ivs: Seq<LiveInterval>,
    facts: Seq<(VReg, u32)>,
    p: int,
    v: VReg,
    at: u32,
)
    requires
        line_fits(m),
        ({
            let order = emission_order(m.blocks);
            let c = line(m, order, order.len() as int);
            let ls = loops(m, order);
            &&& are_intervals(m, c, ls, ivs)
            &&& are_facts(c, ls, facts)
            &&& 0 <= p < c.len()
            &&& c[p].live.contains(v)
            &&& v.0 < m.vregs.len()
            &&& at == p || safepoints(c.take(p)).contains(at)
        }),
        ivs.len() <= usize::MAX,
    ensures
        !(frame_loc(v, at, with_residents(allocated(pins(m, ivs)).ivs), facts, seq![]) is Nil),
{
    let order = emission_order(m.blocks);
    let c = line(m, order, order.len() as int);
    let ls = loops(m, order);
    lemma_live_facts(c, p, v);
    let exact = exact_facts(c);
    assert(exact.contains((v, at))) by {
        if at != p {
            let k = choose|k: int|
                0 <= k < safepoints(c.take(p)).len() && safepoints(c.take(p))[k] == at;
            assert(exact.contains((v, safepoints(c.take(p))[k])));
        }
    }
    let i = choose|i: int| 0 <= i < exact.len() && exact[i] == (v, at);
    assert(facts.take(exact.len() as int)[i] == (v, at));
    assert(facts[i] == (v, at));
    assert(fact_named(exact, v)) by {
        assert(exact[i].0 == v);
    }
    assert(VReg(v.0 as int as u32) == v);
    assert(has_interval(m, c, VReg(v.0 as int as u32)));
    let k = choose|k: int| 0 <= k < ivs.len() && (#[trigger] ivs[k]).vreg == v;
    assert(is_interval(m, c, ls, ivs[k]));
    lemma_pins_keep(m, ivs);
    let ps = pins(m, ivs);
    assert forall|a: int| 0 <= a < ps.len() implies (#[trigger] ps[a]).assignment is None
        && ps[a].resident_reg is None by {
        assert(is_interval(m, c, ls, ivs[a]));
    }
    assert forall|a: int, b: int| 0 <= a < b < ps.len() implies (#[trigger] ps[a]).vreg != (
    #[trigger] ps[b]).vreg by {
        assert(ivs[a].vreg.0 < ivs[b].vreg.0);
    }
    assert(ps[k].vreg == v && ps[k].crosses_safepoint);
    assert(survives(ps[k], at, facts));
    law_survivors_are_found(ps, facts, at, k);
}

/// Whatever deoptimization names lives in the frame: the register of each fact beyond the intervals,
/// loop facts included, has an interval and a slot. While slot numbers fit, the frame
/// has as many slots as the map of objects covers.
pub proof fn law_fact_registers_are_spilled(
    m: MethodView,
    ivs: Seq<LiveInterval>,
    r: RegallocResult,
    k: int,
)
    requires
        line_fits(m),
        ({
            let order = emission_order(m.blocks);
            let c = line(m, order, order.len() as int);
            let ls = loops(m, order);
            are_intervals(m, c, ls, ivs) && are_facts(c, ls, r.extra_oop_live@)
        }),
        is_allocation(m, ivs, r),
        ivs.len() <= usize::MAX,
        0 <= k < r.extra_oop_live@.len(),
        r.extra_oop_live@[k].0.0 < m.vregs.len(),
    ensures
        exists|i: int|
            0 <= i < r.intervals@.len() && (#[trigger] r.intervals@[i]).vreg == r.extra_oop_live@[k].0
                && slot_of(r.intervals@[i]) is Some,
        r.slot_is_oop@.len() <= u16::MAX ==> r.slot_is_oop@.len() == r.frame_slots,
{
    let order = emission_order(m.blocks);
    let c = line(m, order, order.len() as int);
    let ls = loops(m, order);
    let facts = r.extra_oop_live@;
    let v = facts[k].0;
    let exact = exact_facts(c);
    assert(fact_named(exact, v)) by {
        if k < exact.len() {
            assert(facts.take(exact.len() as int)[k] == facts[k]);
            assert(exact[k].0 == v);
        } else {
            assert(loop_fact(c, ls, facts[k].0, facts[k].1));
        }
    }
    assert(VReg(v.0 as int as u32) == v);
    assert(has_interval(m, c, VReg(v.0 as int as u32)));
    let i = choose|i: int| 0 <= i < ivs.len() && (#[trigger] ivs[i]).vreg == v;
    assert(is_interval(m, c, ls, ivs[i]));
    lemma_pins_keep(m, ivs);
    let ps = pins(m, ivs);
    assert forall|a: int| 0 <= a < ps.len() implies (#[trigger] ps[a]).assignment is None
        && ps[a].resident_reg is None by {
        assert(is_interval(m, c, ls, ivs[a]));
    }
    law_allocation_is_sound(ps);
    let f = allocated(ps);
    assert(same_range(f.ivs[i], ps[i]));
    assert forall|a: int| 0 <= a < f.ivs.len() implies (#[trigger] f.ivs[a]).resident_reg is None by {
        assert(same_range(f.ivs[a], ps[a]));
        assert(ps[a].resident_reg is None);
    }
    law_residents_are_exclusive(f.ivs);
    assert(same_place(r.intervals@[i], f.ivs[i]));
}

/// A block that several edges lead into has registers of its own, as many as its entry depth, and no
/// two such blocks share one. A block with one way in has none: it takes over what its predecessor
/// leaves.
pub proof fn law_merges_own_their_registers(
    sources: Seq<EntryStackSource>,
    depths: Seq<i32>,
    k: nat,
    o: OutView,
)
    requires
        merge_regs(sources, depths, k, o) matches Some((p, _)) && p.vregs.len() <= 0x1_0000_0000,
    ensures
        ({
            let (p, es) = merge_regs(sources, depths, k, o)->0;
            &&& es.len() == k
            &&& p.vregs.len() >= o.vregs.len()
            &&& forall|b: int|
                0 <= b < k ==> match sources[b] {
                    EntryStackSource::Empty => (#[trigger] es[b]) == Some(Seq::<VReg>::empty()),
                    EntryStackSource::Inherit(_) => es[b] is None,
                    EntryStackSource::Merge => es[b] is Some && (es[b]->0).len() == depths[b],
                }
            &&& forall|b: int, i: int|
                0 <= b < k && es[b] is Some && 0 <= i < (es[b]->0).len() ==> o.vregs.len() <= (
                #[trigger] (es[b]->0)[i]).0 < p.vregs.len()
            &&& forall|b: int, i: int, c: int, j: int|
                0 <= b < k && 0 <= c < k && es[b] is Some && es[c] is Some && 0 <= i < (
                es[b]->0).len() && 0 <= j < (es[c]->0).len() && (b != c || i != j) ==> (
                #[trigger] (es[b]->0)[i]) != (#[trigger] (es[c]->0)[j])
        }),
    decreases k,
{
    if k > 0 {
        match merge_regs(sources, depths, (k - 1) as nat, o) {
            Some((p0, es0)) => {
                let (p, es) = merge_regs(sources, depths, k, o)->0;
                if sources[k - 1] is Merge {
                    let n = depths[k - 1] as nat;
                    lemma_fresh_count(p0, n);
                    assert(p == fresh_regs(p0, n));
                }
                law_merges_own_their_registers(sources, depths, (k - 1) as nat, o);
                let last = k - 1;
                assert forall|b: int, i: int|
                    0 <= b < k && es[b] is Some && 0 <= i < (es[b]->0).len() implies o.vregs.len()
                    <= (#[trigger] (es[b]->0)[i]).0 < p.vregs.len() by {
                    if b < last {
                        assert(es[b] == es0[b]);
                        assert((es0[b]->0)[i].0 < p0.vregs.len());
                    }
                }
                assert forall|b: int, i: int, c: int, j: int|
                    0 <= b < k && 0 <= c < k && es[b] is Some && es[c] is Some && 0 <= i < (
                    es[b]->0).len() && 0 <= j < (es[c]->0).len() && (b != c || i != j) implies (
                #[trigger] (es[b]->0)[i]) != (#[trigger] (es[c]->0)[j]) by {
                    if b < last {
                        assert(es[b] == es0[b]);
                        assert((es0[b]->0)[i].0 < p0.vregs.len());
                    }
                    if c < last {
                        assert(es[c] == es0[c]);
                        assert((es0[c]->0)[j].0 < p0.vregs.len());
                    }
                }
            },
            None => {},
        }
    }
}

proof fn lemma_fresh_count(o: OutView, n: nat)
    ensures
        fresh_regs(o, n).vregs.len() == o.vregs.len() + n,
    decreases n,
{
    if n > 0 {
        lemma_fresh_count(o, (n - 1) as nat);
    }
}

/// Copy propagation takes every sound method whose fail blocks serve one operation each, as long as
/// its counters do: 32 bits for the references and for the writes.
pub proof fn law_sound_methods_propagate(m: MethodView)
    requires
        method_sound(m),
        fails_apart(m.blocks),
        m.blocks.len() <= u32::MAX,
        m.vregs.len() <= u32::MAX + 1,
        all_refs(m.blocks).len() <= u32::MAX,
        all_writes(m.blocks).len() <= u32::MAX,
    ensures
        propagated(m.blocks, m.vregs.len()) is Some,
{
    let bs = m.blocks;
    let n = m.vregs.len();
    assert forall|v: int| 0 <= v < n implies #[trigger] occurrences(all_refs(bs), VReg(v as u32))
        <= u32::MAX by {
        lemma_occurrences_bound(all_refs(bs), VReg(v as u32));
    }
    assert forall|v: int| 0 <= v < n implies #[trigger] occurrences(all_writes(bs), VReg(v as u32))
        <= u32::MAX by {
        lemma_occurrences_bound(all_writes(bs), VReg(v as u32));
    }
    assert forall|v: int| 0 <= v < n implies #[trigger] occurrences(
        resolved(bs, n).hits,
        VReg(v as u32),
    ) <= u32::MAX by {
        lemma_renamed_once(bs, n, VReg(v as u32));
        lemma_occurrences_bound(all_refs(bs), VReg(v as u32));
    }
    lemma_propagates(bs, n, sizes(m));
}

} // verus!

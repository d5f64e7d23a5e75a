//! Well-formed bytecode translates, with the straight-line bodies that are spliced into it.

use vstd::prelude::*;
use crate::convert::{
    after_instr, all_finished, ctx_of, empty_out, exit_stack, fusable, intern_lits, mark_reached,
    prologue, root_block_done, root_blocks, root_entry, root_id, root_start, root_terminator,
    root_walk, translated, Plan, RootPos,
};
use crate::depths::{
    block_exit, block_trace, delta, depth_trace, depths_agree, edges_to, entry_depth,
    entry_depths, entry_source, entry_sources, feed, is_path, lemma_entry_depth,
    lemma_extend_path, path_depth, preds, reaches, succs, EntryStackSource,
};
use crate::effect::law_instructions_move_the_stack;
use crate::graft::{dead_block, fresh_regs, merge_regs};
use crate::instr::instr_step;
use crate::ir::{BlockView, VReg};
use crate::laws::unpassed;
use crate::progress::{counted, filled, instr_ok, law_instructions_translate, needs, room};
use crate::translator::{CtxView, OutView, SegView, St};
use crate::world::{Cfg, CfgBlock, Instr, KlassOop, Method, MethodOop, Terminator, VmState};

verus! {

pub open spec fn branches(i: Instr) -> bool {
    i is BrTrueFwd || i is BrFalseFwd
}

/// From `bci` to the end of the block every instruction finds its operands, starting at depth `d`,
/// names what is there and takes in straight lines of less than `cap` instructions at most; a branch
/// stands last, exactly where the block branches.
pub open spec fn stands(cx: CtxView, m: Method, blk: CfgBlock, bci: int, d: int, cap: int) -> bool
    decreases m.code@.len() - bci,
{
    if bci >= blk.bci_end {
        true
    } else if bci < 0 || bci >= m.code@.len() || !(bci < m.next_at(bci) <= m.code@.len()) {
        false
    } else {
        let i = m.instr_at(bci);
        let next = m.next_at(bci);
        &&& instr_ok(cx, bci as usize, i, cap)
        &&& d >= needs(m, i)
        &&& branches(i) == (blk.terminator is Branch && next >= blk.bci_end)
        &&& stands(cx, m, blk, next, d + delta(m, i), cap)
    }
}

/// The counters have room for `k` more instructions, each of which moves none by more than `cap`.
pub open spec fn room_for(cx: CtxView, o: OutView, k: int, cap: int) -> bool {
    &&& o.blocks.len() + cap * k <= u32::MAX
    &&& o.splice_declined_budget + cap * k <= u32::MAX
    &&& cx.osr ==> o.osr_cold_sends + cap * k <= u16::MAX
}

/// An instruction takes its share.
proof fn lemma_room(cx: CtxView, o: OutView, p: OutView, k: int, left: int, cap: int)
    requires
        room_for(cx, o, k, cap),
        0 <= left < k,
        0 <= cap,
        p.blocks.len() <= o.blocks.len() + cap,
        counted(o, p, cap),
    ensures
        room(cx, o, cap),
        room_for(cx, p, left, cap),
        o.blocks.len() + cap <= u32::MAX,
{
    assert(cap * left + cap <= cap * k) by (nonlinear_arith)
        requires
            0 <= left < k,
            0 <= cap,
    ;
    assert(cap * left >= 0) by (nonlinear_arith)
        requires
            0 <= left,
            0 <= cap,
    ;
}

proof fn lemma_less_room(cx: CtxView, o: OutView, k: int, left: int, cap: int)
    requires
        room_for(cx, o, k, cap),
        0 <= left <= k,
        0 <= cap,
    ensures
        room_for(cx, o, left, cap),
{
    assert(cap * left <= cap * k) by (nonlinear_arith)
        requires
            0 <= left <= k,
            0 <= cap,
    ;
}

/// The depth at the end of the block.
spec fn out_depth(m: Method, bci: int, end: int, d: int) -> int
    decreases m.code@.len() - bci,
{
    if bci < 0 || bci >= end || bci >= m.code@.len() || !(bci < m.next_at(bci) <= m.code@.len()) {
        d
    } else {
        out_depth(m, m.next_at(bci), end, d + delta(m, m.instr_at(bci)))
    }
}

proof fn lemma_out_depth(m: Method, bci: int, end: int, d: int)
    ensures
        (seq![d] + depth_trace(m, bci, end, d)).last() == out_depth(m, bci, end, d),
    decreases m.code@.len() - bci,
{
    if bci < 0 || bci >= end || bci >= m.code@.len() || !(bci < m.next_at(bci) <= m.code@.len()) {
    } else {
        let d1 = d + delta(m, m.instr_at(bci));
        let next = m.next_at(bci);
        lemma_out_depth(m, next, end, d1);
        if next > end {
            assert(depth_trace(m, next, end, d1) =~= seq![]);
        }
        assert((seq![d] + depth_trace(m, bci, end, d)).last() == (seq![d1] + depth_trace(
            m,
            next,
            end,
            d1,
        )).last());
    }
}

/// Every block is finished but the one being filled and those of the method that are still to come.
spec fn open_at(bl: Seq<Option<BlockView>>, n: int, b: int, cur: int) -> bool {
    &&& n <= bl.len()
    &&& 0 <= cur < bl.len()
    &&& forall|i: int| 0 <= i < bl.len() ==> (#[trigger] bl[i]) is Some || i == cur || b < i < n
}

spec fn tables_ok(cx: CtxView, o: OutView) -> bool {
    &&& cx.temp_vregs.len() == cx.vm.m(cx.method).nslots()
    &&& o.temp_sites.len() == cx.vm.m(cx.method).nslots()
    &&& o.pending_jump_target is None
}

/// Where the walk stands: at depth `d`, or at a branch whose comparison has been taken off already.
spec fn at_depth(m: Method, blk: CfgBlock, bci: int, d: int, p: RootPos) -> bool {
    if p.pending is None {
        p.s.depth() == d
    } else {
        &&& p.s.depth() == d - 1
        &&& 0 <= bci < blk.bci_end
        &&& bci < m.code@.len()
        &&& branches(m.instr_at(bci))
    }
}

/// How a walk ends that was not cut short.
spec fn ends_at(blk: CfgBlock, d: int, p: RootPos) -> bool {
    if blk.terminator is Branch && p.pending is None {
        p.s.depth() == d + 1
    } else {
        &&& p.pending is Some ==> blk.terminator is Branch
        &&& p.s.depth() == d
    }
}

proof fn lemma_walk(
    cx: CtxView,
    m: Method,
    pl: Plan,
    b: int,
    entry: Seq<VReg>,
    bci: int,
    d: int,
    p: RootPos,
    k: int,
        cap: int,
)
    requires
        m == cx.vm.m(cx.method),
        m.code_wf(),
        m.boundary(bci),
        0 <= b < pl.cfg.blocks@.len(),
        pl.cfg.blocks@[b].bci_end <= m.code@.len(),
        stands(cx, m, pl.cfg.blocks@[b], bci, d, cap),
        pl.cfg.blocks@[b].terminator is Branch ==> bci < pl.cfg.blocks@[b].bci_end,
        at_depth(m, pl.cfg.blocks@[b], bci, d, p),
        p.sites.len() == p.s.depth(),
        tables_ok(cx, p.s.out),
        0 <= k,
        cap >= 5,
        room_for(cx, p.s.out, m.code@.len() - bci + k, cap),
        open_at(p.s.out.blocks, pl.cfg.blocks@.len() as int, b, p.cur.0 as int),
    ensures
        root_walk(cx, m, pl, b, entry, bci, p) matches Some((q, trapped)) && {
            &&& tables_ok(cx, q.s.out)
            &&& room_for(cx, q.s.out, k, cap)
            &&& open_at(q.s.out.blocks, pl.cfg.blocks@.len() as int, b, q.cur.0 as int)
            &&& !trapped ==> ends_at(
                pl.cfg.blocks@[b],
                out_depth(m, bci, pl.cfg.blocks@[b].bci_end as int, d),
                q,
            )
        },
    decreases m.code@.len() - bci,
{
    let blk = pl.cfg.blocks@[b];
    if bci >= blk.bci_end {
        assert(p.pending is None);
        lemma_less_room(cx, p.s.out, m.code@.len() - bci + k, k, cap);
    } else {
        let i = m.instr_at(bci);
        let next = m.next_at(bci);
        let fuse = fusable(m, blk, next);
        assert(m.code@[bci] is Some);
        lemma_room(
            cx,
            p.s.out,
            p.s.out,
            m.code@.len() - bci + k,
            m.code@.len() - next + k,
            cap,
        );
        law_instructions_translate(cx, i, fuse, bci as usize, p.s, p.sites, cap);
        let x = instr_step(cx, i, fuse, bci as usize, p.s, p.sites)->0;
        law_instructions_move_the_stack(cx, i, fuse, bci as usize, p.s, p.sites);
        let (q, over) = after_instr(b, entry, next as usize, bci as usize, p, x);
        let d1 = d + delta(m, i);
        assert(stands(cx, m, blk, next, d1, cap));
        assert(open_at(q.s.out.blocks, pl.cfg.blocks@.len() as int, b, q.cur.0 as int));
        assert(tables_ok(cx, q.s.out));
        lemma_room(
            cx,
            p.s.out,
            q.s.out,
            m.code@.len() - bci + k,
            m.code@.len() - next + k,
            cap,
        );
        lemma_less_room(cx, q.s.out, m.code@.len() - next + k, k, cap);
        assert(q.sites.len() == q.s.depth());
        if over {
        } else if branches(i) {
            assert(next >= blk.bci_end);
            assert(q.s.depth() == p.s.depth());
            assert(root_walk(cx, m, pl, b, entry, next, q) == Some((q, false)));
            assert(out_depth(m, bci, blk.bci_end as int, d) == out_depth(
                m,
                next,
                blk.bci_end as int,
                d1,
            ));
            assert(out_depth(m, next, blk.bci_end as int, d1) == d1);
        } else {
            assert(p.pending is None);
            if blk.terminator is Branch {
                assert(next < blk.bci_end);
            }
            if x.end is Compare {
                lemma_compare_fuses(cx, i, fuse, bci as usize, p.s, p.sites, cap);
                assert(next < blk.bci_end && m.next_at(next) == blk.bci_end);
                assert(branches(m.instr_at(next)));
            }
            lemma_walk(cx, m, pl, b, entry, next, d1, q, k, cap);
        }
    }
}

/// Only a comparison that its branch can take is left to it.
proof fn lemma_compare_fuses(
    cx: CtxView,
    i: Instr,
    fuse: bool,
    bci: usize,
    s: St,
    sites: Seq<Option<usize>>,
        cap: int,
)
    requires
        instr_ok(cx, bci, i, cap),
        instr_step(cx, i, fuse, bci, s, sites) matches Some(x) && x.end is Compare,
    ensures
        fuse,
{
    if let Instr::Send { ic, super_ } = i {
        let site = cx.vm.m(cx.method).ics@[ic as int];
        if super_ {
            assert(crate::root::super_send(cx, site, bci, s) matches Some((t, end)) ==> !(
            end is Compare));
        } else {
            lemma_generic_no_compare(cx, site, bci, s, sites);
        }
    }
}

proof fn lemma_generic_no_compare(
    cx: CtxView,
    ic: crate::world::InterpreterIc,
    bci: usize,
    s: St,
    sites: Seq<Option<usize>>,
)
    ensures
        crate::root::generic_send(cx, ic, bci, s, sites) matches Some((t, end)) ==> !(end is Compare),
{
}

proof fn lemma_feed(
    m: Method,
    cfg: Cfg,
    es: Seq<Option<Seq<VReg>>>,
    t: int,
    exit: Seq<VReg>,
    g: SegView,
)
    requires
        merged(m, cfg, es),
        0 <= t < cfg.blocks@.len(),
        exit.len() == entry_depths(m, cfg)[t],
    ensures
        feed(entry_sources(cfg, entry_depths(m, cfg)), es, t, exit, g) is Some,
{
    assert(entry_sources(cfg, entry_depths(m, cfg))[t] == entry_source(
        cfg,
        entry_depths(m, cfg),
        t,
    ));
}

/// The entry stacks that blocks with several predecessors have of their own.
spec fn merged(m: Method, cfg: Cfg, es: Seq<Option<Seq<VReg>>>) -> bool {
    &&& es.len() == cfg.blocks@.len()
    &&& forall|t: int|
        0 <= t < es.len() ==> merged_at(
            entry_source(cfg, entry_depths(m, cfg), t),
            entry_depths(m, cfg)[t] as int,
            #[trigger] es[t],
        )
}

spec fn merged_at(src: EntryStackSource, d: int, e: Option<Seq<VReg>>) -> bool {
    match src {
        EntryStackSource::Empty => e matches Some(r) && r.len() == 0,
        EntryStackSource::Inherit(_) => true,
        EntryStackSource::Merge => e matches Some(r) && r.len() == d,
    }
}

proof fn lemma_fresh_regs(o: OutView, n: nat)
    ensures
        ({
            let p = fresh_regs(o, n);
            &&& p.blocks == o.blocks
            &&& p.temp_sites == o.temp_sites
            &&& p.pending_jump_target == o.pending_jump_target
            &&& p.osr_cold_sends == o.osr_cold_sends
            &&& p.splice_declined_budget == o.splice_declined_budget
        }),
    decreases n,
{
    if n > 0 {
        lemma_fresh_regs(o, (n - 1) as nat);
    }
}

proof fn lemma_merge(m: Method, cfg: Cfg, k: nat, o: OutView)
    requires
        k <= cfg.blocks@.len(),
        forall|t: int| 0 <= t < cfg.blocks@.len() ==> #[trigger] entry_depths(m, cfg)[t] >= 0,
    ensures
        merge_regs(
            entry_sources(cfg, entry_depths(m, cfg)),
            entry_depths(m, cfg),
            k,
            o,
        ) matches Some((p, es)) && {
            &&& p.blocks == o.blocks
            &&& p.temp_sites == o.temp_sites
            &&& p.pending_jump_target == o.pending_jump_target
            &&& p.osr_cold_sends == o.osr_cold_sends
            &&& p.splice_declined_budget == o.splice_declined_budget
            &&& es.len() == k
            &&& forall|t: int|
                0 <= t < k ==> merged_at(
                    entry_source(cfg, entry_depths(m, cfg), t),
                    entry_depths(m, cfg)[t] as int,
                    #[trigger] es[t],
                )
        },
    decreases k,
{
    if k > 0 {
        lemma_merge(m, cfg, (k - 1) as nat, o);
        let ds = entry_depths(m, cfg);
        let (p, es) = merge_regs(entry_sources(cfg, ds), ds, (k - 1) as nat, o)->0;
        assert(ds[k - 1] >= 0);
        lemma_fresh_regs(p, ds[k - 1] as nat);
        assert(entry_sources(cfg, ds)[k - 1] == entry_source(cfg, ds, k - 1));
    }
}

proof fn lemma_prologue(cx: CtxView, m: Method, lits: crate::convert::Lits, s: St)
    ensures
        ({
            let t = prologue(cx, m, lits, s);
            &&& t.seg.stack == s.seg.stack
            &&& t.out.blocks == s.out.blocks
            &&& t.out.temp_sites == s.out.temp_sites
            &&& t.out.pending_jump_target == s.out.pending_jump_target
            &&& t.out.osr_cold_sends == s.out.osr_cold_sends
            &&& t.out.splice_declined_budget == s.out.splice_declined_budget
        }),
{
}

/// The depth at which each successor is entered is the depth at which the block is left.
proof fn lemma_succ_depth(m: Method, cfg: Cfg, b: int, t: int)
    requires
        depths_agree(m, cfg),
        m.cfg_wf(cfg),
        0 <= b < cfg.blocks@.len(),
        exists|p: Seq<int>| reaches(cfg, p, b),
        succs(cfg.blocks@[b].terminator).contains(t),
    ensures
        0 <= t < cfg.blocks@.len(),
        exists|p: Seq<int>| reaches(cfg, p, t),
        entry_depth(m, cfg, t) == block_exit(m, cfg.blocks@[b], entry_depth(m, cfg, b)),
        entry_depths(m, cfg)[t] == entry_depth(m, cfg, t),
{
    let p = choose|p: Seq<int>| reaches(cfg, p, b);
    assert(cfg.blocks@[b].terminator.wf(cfg.blocks@.len() as int));
    lemma_extend_path(m, cfg, p, t);
    lemma_entry_depth(m, cfg, p, b);
    assert(reaches(cfg, p.push(t), t));
    lemma_entry_depth(m, cfg, p.push(t), t);
    lemma_depth_fits(m, cfg, t);
}

proof fn lemma_depth_fits(m: Method, cfg: Cfg, t: int)
    requires
        depths_agree(m, cfg),
        0 <= t < cfg.blocks@.len(),
    ensures
        entry_depths(m, cfg)[t] == entry_depth(m, cfg, t),
{
    if exists|p: Seq<int>| reaches(cfg, p, t) {
        let p = choose|p: Seq<int>| reaches(cfg, p, t);
        lemma_entry_depth(m, cfg, p, t);
        assert(is_path(cfg, p));
        assert(block_trace(m, cfg.blocks@[p.last()], path_depth(m, cfg, p))[0] == path_depth(
            m,
            cfg,
            p,
        ));
    }
}

/// Bytecode that translates as it stands: wherever control can go, every instruction finds its
/// operands.
pub open spec fn method_stands(cx: CtxView, cfg: Cfg, cap: int) -> bool {
    let m = cx.vm.m(cx.method);
    forall|b: int|
        #![trigger cfg.blocks@[b]]
        0 <= b < cfg.blocks@.len() && (exists|p: Seq<int>| reaches(cfg, p, b)) ==> {
            &&& entry_depth(m, cfg, b) >= 0
            &&& cfg.blocks@[b].terminator is Branch ==> cfg.blocks@[b].bci_start
                < cfg.blocks@[b].bci_end
            &&& stands(
                cx,
                m,
                cfg.blocks@[b],
                cfg.blocks@[b].bci_start as int,
                entry_depth(m, cfg, b),
        cap,
            )
        }
}

/// What one block needs to be translated.
#[verifier::opaque]
spec fn ready(cx: CtxView, m: Method, pl: Plan, cap: int) -> bool {
    &&& m == cx.vm.m(cx.method)
    &&& m.code_wf()
    &&& m.cfg_wf(pl.cfg)
    &&& depths_agree(m, pl.cfg)
    &&& pl.sources == entry_sources(pl.cfg, entry_depths(m, pl.cfg))
    &&& merged(m, pl.cfg, pl.entry_stacks)
    &&& method_stands(cx, pl.cfg, cap)
}

/// Control can come to the block.
#[verifier::opaque]
spec fn has_path(cfg: Cfg, t: int) -> bool {
    exists|p: Seq<int>| reaches(cfg, p, t)
}

/// What is ready of one block.
proof fn lemma_ready(cx: CtxView, m: Method, pl: Plan, b: int, cap: int)
    requires
        ready(cx, m, pl, cap),
        0 <= b < pl.cfg.blocks@.len(),
        has_path(pl.cfg, b),
    ensures
        ({
            let blk = pl.cfg.blocks@[b];
            &&& m == cx.vm.m(cx.method)
            &&& m.code_wf()
            &&& m.boundary(blk.bci_start as int)
            &&& blk.bci_end <= m.code@.len()
            &&& blk.terminator.wf(pl.cfg.blocks@.len() as int)
            &&& blk.terminator is Branch ==> blk.bci_start < blk.bci_end
            &&& stands(cx, m, blk, blk.bci_start as int, entry_depth(m, pl.cfg, b), cap)
        }),
{
    reveal(ready);
    reveal(has_path);
}

proof fn lemma_next(cx: CtxView, m: Method, pl: Plan, b: int, t: int, cap: int)
    requires
        ready(cx, m, pl, cap),
        0 <= b < pl.cfg.blocks@.len(),
        has_path(pl.cfg, b),
        succs(pl.cfg.blocks@[b].terminator).contains(t),
    ensures
        0 <= t < pl.cfg.blocks@.len(),
        has_path(pl.cfg, t),
        entry_depth(m, pl.cfg, t) == block_exit(
            m,
            pl.cfg.blocks@[b],
            entry_depth(m, pl.cfg, b),
        ),
{
    reveal(ready);
    reveal(has_path);
    lemma_succ_depth(m, pl.cfg, b, t);
}

/// A successor takes the stack that the block leaves.
proof fn lemma_fed(cx: CtxView, m: Method, pl: Plan, b: int, t: int, exit: Seq<VReg>, g: SegView, cap: int)
    requires
        ready(cx, m, pl, cap),
        0 <= b < pl.cfg.blocks@.len(),
        has_path(pl.cfg, b),
        succs(pl.cfg.blocks@[b].terminator).contains(t),
        exit.len() == block_exit(m, pl.cfg.blocks@[b], entry_depth(m, pl.cfg, b)),
    ensures
        feed(pl.sources, pl.entry_stacks, t, exit, g) is Some,
{
    reveal(ready);
    reveal(has_path);
    lemma_succ_depth(m, pl.cfg, b, t);
    lemma_feed(m, pl.cfg, pl.entry_stacks, t, exit, g);
}

/// All blocks are finished but those of the method from `b` on.
spec fn closed_below(bl: Seq<Option<BlockView>>, n: int, b: int) -> bool {
    &&& n <= bl.len()
    &&& forall|i: int| 0 <= i < bl.len() ==> (#[trigger] bl[i]) is Some || b <= i < n
}

proof fn lemma_terminator(cx: CtxView, m: Method, pl: Plan, b: int, p: RootPos, k: int, cap: int)
    requires
        ready(cx, m, pl, cap),
        0 <= b < pl.cfg.blocks@.len(),
        has_path(pl.cfg, b),
        ends_at(
            pl.cfg.blocks@[b],
            block_exit(m, pl.cfg.blocks@[b], entry_depth(m, pl.cfg, b)),
            p,
        ),
        0 <= k,
        cap >= 5,
        room_for(cx, p.s.out, k + 1, cap),
        tables_ok(cx, p.s.out),
        pl.cfg.blocks@[b].terminator is Branch && p.pending is None ==> p.s.depth() > 0,
    ensures
        root_terminator(pl, b, p) matches Some(s1) && filled(p.s.out.blocks, s1.out.blocks, -1, cap)
            && tables_ok(cx, s1.out) && room_for(cx, s1.out, k, cap),
{
    let blk = pl.cfg.blocks@[b];
    let s = p.s;
    let exit = exit_stack(blk.terminator, p);
    let ss = succs(blk.terminator);
    lemma_room(cx, s.out, s.out, k + 1, k, cap);
    assert forall|o: OutView|
        o.blocks.len() <= s.out.blocks.len() + 1 && counted(s.out, o, 0) implies #[trigger] room_for(
        cx,
        o,
        k,
        cap,
    ) by {
        lemma_room(cx, s.out, o, k + 1, k, cap);
    }
    assert(exit.len() == block_exit(m, blk, entry_depth(m, pl.cfg, b)));
    match blk.terminator {
        Terminator::Return => {},
        Terminator::Fallthrough(t) => {
            assert(ss[0] == t as int);
            lemma_fed(cx, m, pl, b, t as int, exit, s.seg, cap);
        },
        Terminator::Jump { target, is_backward } => {
            assert(ss[0] == target as int);
            let g = if is_backward {
                s.seg.site(
                    crate::ir::DeoptView {
                        stack: s.seg.stack,
                        bci: pl.cfg.blocks@[target as int].bci_start,
                        kind: crate::scopes::SafepointKind::LoopPoll,
                        reexecute: true,
                        stack_closures: seq![],
                        inline: None,
                    },
                ).emit(crate::ir::Ir::Poll)
            } else {
                s.seg
            };
            lemma_fed(cx, m, pl, b, target as int, exit, g, cap);
        },
        Terminator::Branch { if_true, if_false } => {
            assert(ss[0] == if_true as int && ss[1] == if_false as int);
            lemma_fed(cx, m, pl, b, if_true as int, exit, s.seg, cap);
            let g = feed(pl.sources, pl.entry_stacks, if_true as int, exit, s.seg)->0;
            lemma_fed(cx, m, pl, b, if_false as int, exit, g, cap);
        },
    }
}

/// A finished block closes the one being filled.
proof fn lemma_close(
    bl: Seq<Option<BlockView>>,
    cl: Seq<Option<BlockView>>,
    n: int,
    b: int,
    cur: int,
    x: BlockView,
    cap: int,
)
    requires
        open_at(bl, n, b, cur),
        filled(bl, cl, -1, cap),
        0 <= b,
        cap >= 0,
    ensures
        closed_below(crate::translator::put_block(cl, cur, x), n, b + 1),
        crate::translator::put_block(cl, cur, x).len() == cl.len(),
{
    let r = crate::translator::put_block(cl, cur, x);
    assert forall|i: int| 0 <= i < r.len() implies (#[trigger] r[i]) is Some || b + 1 <= i < n by {
        if i != cur && i < bl.len() {
            assert(cl[i] == bl[i]);
            assert(bl[i] is Some || b < i < n);
        }
    }
}

spec fn reached_by(
    m: Method,
    cfg: Cfg,
    b: int,
    exit: Seq<VReg>,
    reach: Seq<bool>,
    reach1: Seq<bool>,
) -> bool {
    &&& reach1.len() == reach.len()
    &&& forall|t: int|
        0 <= t < reach.len() && #[trigger] reach1[t] ==> reach[t] || (succs(
            cfg.blocks@[b].terminator,
        ).contains(t) && exit.len() == entry_depth(m, cfg, t))
}

proof fn lemma_marked(
    cx: CtxView,
    m: Method,
    pl: Plan,
    b: int,
    exit: Seq<VReg>,
    reach: Seq<bool>,
        cap: int,
)
    requires
        ready(cx, m, pl, cap),
        0 <= b < pl.cfg.blocks@.len(),
        has_path(pl.cfg, b),
        reach.len() == pl.cfg.blocks@.len(),
        exit.len() == block_exit(m, pl.cfg.blocks@[b], entry_depth(m, pl.cfg, b)),
    ensures
        reached_by(
            m,
            pl.cfg,
            b,
            exit,
            reach,
            mark_reached(pl.cfg.blocks@[b].terminator, reach),
        ),
{
    let term = pl.cfg.blocks@[b].terminator;
    let ss = succs(term);
    let r = mark_reached(term, reach);
    lemma_ready(cx, m, pl, b, cap);
    assert forall|t: int| 0 <= t < reach.len() && #[trigger] r[t] implies reach[t] || (
    ss.contains(t) && exit.len() == entry_depth(m, pl.cfg, t)) by {
        if !reach[t] {
            match term {
                Terminator::Return => {},
                Terminator::Fallthrough(x) => {
                    assert(ss[0] == x as int);
                },
                Terminator::Jump { target, .. } => {
                    assert(ss[0] == target as int);
                },
                Terminator::Branch { if_true, if_false } => {
                    assert(ss[0] == if_true as int && ss[1] == if_false as int);
                },
            }
            assert(ss.contains(t));
            lemma_next(cx, m, pl, b, t, cap);
        }
    }
}

proof fn lemma_block(
    cx: CtxView,
    m: Method,
    pl: Plan,
    b: int,
    entry: Seq<VReg>,
    reach: Seq<bool>,
    out: OutView,
    k: int,
        cap: int,
)
    requires
        ready(cx, m, pl, cap),
        0 <= b < pl.cfg.blocks@.len() <= u32::MAX,
        has_path(pl.cfg, b),
        entry.len() == entry_depth(m, pl.cfg, b),
        reach.len() == pl.cfg.blocks@.len(),
        tables_ok(cx, out),
        0 <= k,
        cap >= 5,
        room_for(cx, out, m.code@.len() + 1 + k, cap),
        closed_below(out.blocks, pl.cfg.blocks@.len() as int, b),
    ensures
        root_block_done(cx, m, pl, b, entry, reach, out) matches Some((o1, exit, reach1)) && {
            &&& tables_ok(cx, o1)
            &&& room_for(cx, o1, k, cap)
            &&& closed_below(o1.blocks, pl.cfg.blocks@.len() as int, b + 1)
            &&& reached_by(m, pl.cfg, b, exit, reach, reach1)
        },
{
    let cfg = pl.cfg;
    let n = cfg.blocks@.len() as int;
    let blk = cfg.blocks@[b];
    let d = entry_depth(m, cfg, b);
    let s = St { out, seg: SegView { stack: entry, code: Seq::empty(), deopt: Seq::empty() } };
    lemma_ready(cx, m, pl, b, cap);
    lemma_prologue(cx, m, pl.lits, s);
    let start = root_start(cx, m, pl, b, entry, out);
    assert(open_at(start.s.out.blocks, n, b, b));
    lemma_less_room(
        cx,
        start.s.out,
        m.code@.len() + 1 + k,
        m.code@.len() - blk.bci_start + (k + 1),
        cap,
    );
    lemma_walk(cx, m, pl, b, entry, blk.bci_start as int, d, start, k + 1, cap);
    let (p, trapped) = root_walk(cx, m, pl, b, entry, blk.bci_start as int, start)->0;
    let bl = p.s.out.blocks;
    lemma_less_room(cx, p.s.out, k + 1, k, cap);
    if trapped {
        lemma_close(bl, bl, n, b, p.cur.0 as int, crate::convert::root_block(b, p, entry, p.s.seg), cap);
    } else {
        lemma_out_depth(m, blk.bci_start as int, blk.bci_end as int, d);
        lemma_exit_depth(cx, m, blk, blk.bci_start as int, d, cap);
        lemma_terminator(cx, m, pl, b, p, k, cap);
        let s1 = root_terminator(pl, b, p)->0;
        lemma_close(
            bl,
            s1.out.blocks,
            n,
            b,
            p.cur.0 as int,
            crate::convert::root_block(b, p, entry, s1.seg),
        cap,
        );
        lemma_marked(cx, m, pl, b, exit_stack(blk.terminator, p), reach, cap);
    }
}

/// A block that branches has its condition on the stack.
proof fn lemma_exit_depth(cx: CtxView, m: Method, blk: CfgBlock, bci: int, d: int, cap: int)
    requires
        stands(cx, m, blk, bci, d, cap),
        0 <= bci,
        blk.terminator is Branch ==> bci < blk.bci_end,
    ensures
        blk.terminator is Branch ==> out_depth(m, bci, blk.bci_end as int, d) >= 0,
    decreases m.code@.len() - bci,
{
    if blk.terminator is Branch {
        let i = m.instr_at(bci);
        let next = m.next_at(bci);
        let d1 = d + delta(m, i);
        if next < blk.bci_end {
            lemma_exit_depth(cx, m, blk, next, d1, cap);
        } else {
            assert(out_depth(m, next, blk.bci_end as int, d1) == d1);
        }
    }
}

proof fn lemma_preds(cfg: Cfg, q: int, b: int, n: nat)
    requires
        0 <= q < n <= cfg.blocks@.len(),
        succs(cfg.blocks@[q].terminator).contains(b),
    ensures
        exists|k: int| 0 <= k < preds(cfg, b, n).len() && (#[trigger] preds(cfg, b, n)[k]).0 == q,
    decreases n,
{
    let rest = preds(cfg, b, (n - 1) as nat);
    let e = edges_to(cfg, n - 1, b);
    if q == n - 1 {
        assert(e.len() > 0 && e[0].0 == q);
        assert(preds(cfg, b, n)[rest.len() as int] == e[0]);
    } else {
        lemma_preds(cfg, q, b, (n - 1) as nat);
        let k = choose|k: int| 0 <= k < rest.len() && (#[trigger] rest[k]).0 == q;
        assert(preds(cfg, b, n)[k] == rest[k]);
    }
}

/// Control comes to block `t` from block `q`, which leaves the stack that `t` expects.
spec fn comes_from(m: Method, cfg: Cfg, exits: Seq<Option<Seq<VReg>>>, q: int, t: int) -> bool {
    &&& succs(cfg.blocks@[q].terminator).contains(t)
    &&& exits[q] matches Some(e) && e.len() == entry_depth(m, cfg, t)
}

/// The blocks marked as reached can be reached, from blocks before `b`.
spec fn reached_ok(
    m: Method,
    cfg: Cfg,
    b: int,
    exits: Seq<Option<Seq<VReg>>>,
    reach: Seq<bool>,
) -> bool {
    &&& exits.len() == cfg.blocks@.len()
    &&& reach.len() == cfg.blocks@.len()
    &&& forall|t: int|
        0 <= t < reach.len() && #[trigger] reach[t] ==> has_path(cfg, t)
            && (t == 0 || exists|q: int| 0 <= q < b && #[trigger] comes_from(m, cfg, exits, q, t))
}

proof fn lemma_entry(
    cx: CtxView,
    m: Method,
    pl: Plan,
    b: int,
    exits: Seq<Option<Seq<VReg>>>,
    reach: Seq<bool>,
        cap: int,
)
    requires
        0 <= b < pl.cfg.blocks@.len() <= u32::MAX,
        ready(cx, m, pl, cap),
        reached_ok(m, pl.cfg, b, exits, reach),
        reach[b],
    ensures
        root_entry(pl, b, exits) matches Some(e) && e.len() == entry_depth(m, pl.cfg, b),
{
    reveal(ready);
    let cfg = pl.cfg;
    let ds = entry_depths(m, cfg);
    let n = cfg.blocks@.len();
    lemma_depth_fits(m, cfg, b);
    assert(pl.sources[b] == entry_source(cfg, ds, b));
    assert(merged_at(entry_source(cfg, ds, b), ds[b] as int, pl.entry_stacks[b]));
    if b == 0 {
        let p = seq![0int];
        assert(reaches(cfg, p, 0));
        lemma_entry_depth(m, cfg, p, 0);
        assert(ds[0] == 0);
    } else if pl.sources[b] is Inherit {
        let q = choose|q: int| 0 <= q < b && #[trigger] comes_from(m, cfg, exits, q, b);
        lemma_preds(cfg, q, b, n);
        let ps = preds(cfg, b, n);
        let k = choose|k: int| 0 <= k < ps.len() && (#[trigger] ps[k]).0 == q;
        assert(k == 0);
    }
}

proof fn lemma_blocks(
    cx: CtxView,
    m: Method,
    pl: Plan,
    b: int,
    exits: Seq<Option<Seq<VReg>>>,
    reach: Seq<bool>,
    out: OutView,
        cap: int,
)
    requires
        ready(cx, m, pl, cap),
        cap >= 5,
        0 <= b <= pl.cfg.blocks@.len() <= u32::MAX,
        reached_ok(m, pl.cfg, b, exits, reach),
        tables_ok(cx, out),
        room_for(cx, out, (pl.cfg.blocks@.len() - b) * (m.code@.len() + 1), cap),
        closed_below(out.blocks, pl.cfg.blocks@.len() as int, b),
    ensures
        root_blocks(cx, m, pl, b, exits, reach, out) matches Some(o) && all_finished(o.blocks),
    decreases pl.cfg.blocks@.len() - b,
{
    let cfg = pl.cfg;
    let n = cfg.blocks@.len() as int;
    let c = m.code@.len() + 1;
    if b < n {
        let k = (n - b - 1) * c;
        assert((n - b) * c == k + c && k >= 0) by (nonlinear_arith)
            requires
                k == (n - b - 1) * c,
                n - b - 1 >= 0,
                c >= 0,
        ;
        if !reach[b] {
            let o1 = out.finish(dead_block(root_id(b), cfg.blocks@[b].bci_start));
            lemma_less_room(cx, out, (n - b) * c, k, cap);
            assert(closed_below(o1.blocks, n, b + 1));
            assert(reached_ok(m, cfg, b + 1, exits, reach)) by {
                assert forall|t: int| 0 <= t < reach.len() && #[trigger] reach[t] implies has_path(
                    cfg,
                    t,
                ) && (t == 0 || exists|q: int|
                    0 <= q < b + 1 && #[trigger] comes_from(m, cfg, exits, q, t)) by {
                    if t != 0 {
                        let q = choose|q: int|
                            0 <= q < b && #[trigger] comes_from(m, cfg, exits, q, t);
                        assert(0 <= q < b + 1 && comes_from(m, cfg, exits, q, t));
                    }
                }
            }
            lemma_blocks(cx, m, pl, b + 1, exits, reach, o1, cap);
        } else {
            lemma_entry(cx, m, pl, b, exits, reach, cap);
            let entry = root_entry(pl, b, exits)->0;
            lemma_block(cx, m, pl, b, entry, reach, out, k, cap);
            let (o1, exit, reach1) = root_block_done(cx, m, pl, b, entry, reach, out)->0;
            let exits1 = exits.update(b, Some(exit));
            assert(reached_ok(m, cfg, b + 1, exits1, reach1)) by {
                assert forall|t: int| 0 <= t < reach1.len() && #[trigger] reach1[t] implies has_path(
                    cfg,
                    t,
                ) && (t == 0 || exists|q: int|
                    0 <= q < b + 1 && #[trigger] comes_from(m, cfg, exits1, q, t)) by {
                    if reach[t] {
                        if t != 0 {
                            let q = choose|q: int|
                                0 <= q < b && #[trigger] comes_from(m, cfg, exits, q, t);
                            assert(comes_from(m, cfg, exits1, q, t));
                        }
                    } else {
                        lemma_next(cx, m, pl, b, t, cap);
                        assert(comes_from(m, cfg, exits1, b, t));
                    }
                }
            }
            lemma_blocks(cx, m, pl, b + 1, exits1, reach1, o1, cap);
        }
    }
}

proof fn lemma_first(m: Method, cfg: Cfg, exits: Seq<Option<Seq<VReg>>>, reach: Seq<bool>)
    requires
        cfg.blocks@.len() > 0,
        exits.len() == cfg.blocks@.len(),
        reach == Seq::new(cfg.blocks@.len(), |i: int| i == 0),
    ensures
        reached_ok(m, cfg, 0, exits, reach),
{
    let p = seq![0int];
    assert(reaches(cfg, p, 0));
    reveal(has_path);
}

proof fn lemma_depths(cx: CtxView, cfg: Cfg, cap: int)
    requires
        depths_agree(cx.vm.m(cx.method), cfg),
        method_stands(cx, cfg, cap),
    ensures
        forall|t: int|
            0 <= t < cfg.blocks@.len() ==> #[trigger] entry_depths(cx.vm.m(cx.method), cfg)[t] >= 0,
{
    let m = cx.vm.m(cx.method);
    assert forall|t: int| 0 <= t < cfg.blocks@.len() implies #[trigger] entry_depths(m, cfg)[t]
        >= 0 by {
        lemma_depth_fits(m, cfg, t);
        if exists|p: Seq<int>| reaches(cfg, p, t) {
            let p = choose|p: Seq<int>| reaches(cfg, p, t);
            lemma_reached_depth(cx, cfg, t, p, cap);
        } else {
            assert(entry_depth(m, cfg, t) == 0);
        }
    }
}

proof fn lemma_reached_depth(cx: CtxView, cfg: Cfg, t: int, p: Seq<int>, cap: int)
    requires
        method_stands(cx, cfg, cap),
        0 <= t < cfg.blocks@.len(),
        reaches(cfg, p, t),
    ensures
        entry_depth(cx.vm.m(cx.method), cfg, t) >= 0,
{
    let blk = cfg.blocks@[t];
}

/// Literals touch none of the other tables.
proof fn lemma_interned(vm: VmState, ctx: bool, o: OutView)
    ensures
        ({
            let p = intern_lits(vm, ctx, o).0;
            &&& p.blocks == o.blocks
            &&& p.temp_sites == o.temp_sites
            &&& p.pending_jump_target == o.pending_jump_target
            &&& p.osr_cold_sends == o.osr_cold_sends
            &&& p.splice_declined_budget == o.splice_declined_budget
        }),
{
}

/// The tables that translation starts with.
proof fn lemma_prepared(cx: CtxView, cfg: Cfg, pl: Plan, o1: OutView, cap: int)
    requires
        cx.vm.wf(),
        cx.vm.has(cx.method),
        cx.vm.m(cx.method).cfg_wf(cfg),
        depths_agree(cx.vm.m(cx.method), cfg),
        method_stands(cx, cfg, cap),
        pl.cfg == cfg,
        ({
            let m = cx.vm.m(cx.method);
            let n = cfg.blocks@.len();
            let r = merge_regs(
                entry_sources(cfg, entry_depths(m, cfg)),
                entry_depths(m, cfg),
                n,
                empty_out(m, n),
            )->0;
            &&& pl.sources == entry_sources(cfg, entry_depths(m, cfg))
            &&& pl.entry_stacks == r.1
            &&& o1 == intern_lits(cx.vm, cx.method_ctx_vreg is Some, r.0).0
            &&& cx.temp_vregs == crate::convert::slot_regs(m)
        }),
    ensures
        ({
            let m = cx.vm.m(cx.method);
            let n = cfg.blocks@.len();
            &&& merge_regs(
                entry_sources(cfg, entry_depths(m, cfg)),
                entry_depths(m, cfg),
                n,
                empty_out(m, n),
            ) is Some
            &&& ready(cx, m, pl, cap)
            &&& tables_ok(cx, o1)
            &&& closed_below(o1.blocks, n as int, 0)
            &&& o1.blocks.len() == n
            &&& o1.osr_cold_sends == 0
            &&& o1.splice_declined_budget == 0
        }),
{
    let m = cx.vm.m(cx.method);
    let n = cfg.blocks@.len();
    lemma_depths(cx, cfg, cap);
    lemma_merge(m, cfg, n, empty_out(m, n));
    let (o, es) = merge_regs(
        entry_sources(cfg, entry_depths(m, cfg)),
        entry_depths(m, cfg),
        n,
        empty_out(m, n),
    )->0;
    lemma_interned(cx.vm, cx.method_ctx_vreg is Some, o);
    assert(ready(cx, m, pl, cap)) by {
        reveal(ready);
        assert(m.wf(cx.vm.methods@.len() as int));
    }
}

/// Well-formed bytecode translates: where the depths on all paths agree, every instruction finds its
/// operands on the stack and names what is there, what is spliced is a straight line of less than
/// `cap` instructions that returns, and the counters have room for what each instruction can add.
pub proof fn law_well_formed_methods_translate(
    vm: VmState,
    rcvr_klass: KlassOop,
    method: MethodOop,
    cfg: Cfg,
    osr: bool,
        cap: int,
)
    requires
        vm.wf(),
        vm.has(method),
        vm.m(method).cfg_wf(cfg),
        cfg.blocks@.len() > 0,
        depths_agree(vm.m(method), cfg),
        method_stands(ctx_of(vm, rcvr_klass, method, osr), cfg, cap),
        cap >= 5,
        cfg.blocks@.len() + cap * (cfg.blocks@.len() * (vm.m(method).code@.len() + 1)) <= u32::MAX,
        osr ==> cap * (cfg.blocks@.len() * (vm.m(method).code@.len() + 1)) <= u16::MAX,
    ensures
        unpassed(vm, rcvr_klass, method, cfg, osr) is Some,
{
    let cx = ctx_of(vm, rcvr_klass, method, osr);
    let m = vm.m(method);
    let n = cfg.blocks@.len();
    let sources = entry_sources(cfg, entry_depths(m, cfg));
    let (o, es) = merge_regs(sources, entry_depths(m, cfg), n, empty_out(m, n))->0;
    let (o1, lits) = intern_lits(vm, cx.method_ctx_vreg is Some, o);
    let pl = Plan { cfg, lits, sources, entry_stacks: es };
    lemma_prepared(cx, cfg, pl, o1, cap);
    let c = m.code@.len() + 1;
    assert(n * c >= 0) by (nonlinear_arith)
        requires
            c >= 0,
            n >= 0,
    ;
    assert(cap * (n * c) >= 0) by (nonlinear_arith)
        requires
            cap >= 0,
            n * c >= 0,
    ;
    assert((n - 0) * (m.code@.len() + 1) == n * c);
    let exits: Seq<Option<Seq<VReg>>> = Seq::new(n, |i: int| None);
    let reach: Seq<bool> = Seq::new(n, |i: int| i == 0);
    lemma_first(m, cfg, exits, reach);
    lemma_blocks(cx, m, pl, 0, exits, reach, o1, cap);
}

} // verus!

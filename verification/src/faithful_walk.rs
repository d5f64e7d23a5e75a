//! Running a block of a translated method is interpreting its bytecode.

use vstd::prelude::*;
use crate::convert::{
    after_instr, exit_stack, fusable, root_block, root_block_done, root_start, root_terminator,
    root_walk, Plan, RootPos,
};
use crate::depths::feed;
use crate::faithful::{holds, law_moves_mean_what_they_say, sees, writable};
use crate::faithful_bodies::{
    classes_held, comes_to, leaves_here, lemma_classes_kept, lemma_classes_moved, lemma_tail,
    makes,
};
use crate::faithful_branch::{
    end_clear, law_blocks_lead_where_the_bytecode_goes, leads_to, successor,
};
use crate::faithful_method::{law_plain_sends_answer, lemma_grow_root, plain_site, same_below};
use crate::faithful_root::law_returns_answer;
use crate::faithful_sends::{answered, runs_again, standing};
use crate::faithful_splice::lemma_simple_grows;
use crate::instr::{instr_step, value_instr};
use crate::ir::{BlockId, BlockView, Ir, IrView, VReg};
use crate::machine::{exec, extends, lemma_ran_more, ran, run, Env, Flow, Mach};
use crate::meaning::{above, association_value, does, honest, site_honest, Frame};
use crate::ops::count_cold;
use crate::root::{
    dispatch_send, generic_send, plain_send, profiled_send, root_send, self_target, static_splice,
    super_send, EndView, SpliceEnd, Step, StepEnd,
};
use crate::translator::{CtxView, OutView, SegView, St};
use crate::values::values;
use crate::world::{CfgBlock, Instr, InterpreterIc, KlassOop, Method, Terminator, VmState};

verus! {

broadcast use crate::machine::group_runs;

pub open spec fn branches(i: Instr) -> bool {
    i is BrTrueFwd || i is BrFalseFwd
}

pub open spec fn jumps(i: Instr) -> bool {
    branches(i) || i is JumpFwd || i is JumpBack
}

pub open spec fn returns_here(i: Instr) -> bool {
    i is ReturnTos || i is BlockReturnTos || i is ReturnSelf || i is NlrTos
}

/// The instructions that the law speaks of: no closures, no captured variables, no splices.
pub open spec fn instr_plain(cx: CtxView, i: Instr) -> bool {
    match i {
        Instr::PushCtxTemp { .. } => false,
        Instr::StoreCtxTempPop { .. } => false,
        Instr::PushClosure { .. } => false,
        Instr::Send { ic, super_ } => plain_site(
            cx,
            cx.vm.m(cx.method).ics@[ic as int],
            super_,
            true,
        ),
        _ => true,
    }
}

/// Jumps and returns stand last in their block, and a block that branches ends in its branch.
pub open spec fn block_shaped(mth: Method, blk: CfgBlock) -> bool {
    &&& blk.bci_end <= mth.code@.len()
    &&& blk.terminator is Branch ==> blk.bci_start < blk.bci_end
    &&& forall|b: int|
        #![trigger mth.code@[b]]
        blk.bci_start <= b < blk.bci_end && b < mth.code@.len() && mth.code@[b] is Some ==> {
            &&& jumps(mth.instr_at(b)) || returns_here(mth.instr_at(b)) ==> mth.next_at(b)
                >= blk.bci_end
            &&& mth.next_at(b) >= blk.bci_end ==> branches(mth.instr_at(b)) == (
            blk.terminator is Branch)
            &&& returns_here(mth.instr_at(b)) ==> blk.terminator is Return
            &&& mth.next_at(b) >= blk.bci_end && blk.terminator is Return ==> returns_here(
                mth.instr_at(b),
            )
        }
}

/// What the method is run with.
pub open spec fn method_plain(e: Env, cx: CtxView, mth: Method, wr: Set<VReg>) -> bool {
    &&& cx.vm.wf()
    &&& mth == cx.vm.m(cx.method)
    &&& honest(e.w, cx.vm)
    &&& e.u == cx.vm.universe
    &&& mth.code_wf()
    &&& !cx.has_closures
    &&& cx.self_vreg == VReg(0)
    &&& forall|b: int|
        0 <= b < mth.code@.len() && mth.code@[b] is Some ==> instr_plain(
            cx,
            #[trigger] mth.instr_at(b),
        ) && writable(mth.instr_at(b), cx.temp_vregs, wr)
    &&& forall|x: int|
        0 <= x < mth.ics@.len() ==> site_honest(e.w, cx.vm, #[trigger] mth.ics@[x])
    &&& forall|x: int, k: KlassOop, mem: int|
        0 <= x < mth.ics@.len() ==> #[trigger] makes(e.w, cx.vm, mth.ics@[x], k, mem)
    &&& forall|x: int, mem: int|
        0 <= x < mth.literals@.len() ==> ((#[trigger] mth.literals@[x]).global_klass matches Some(k)
            ==> #[trigger] (e.w.field)(
            mem,
            (e.w.word)(mth.literals@[x].raw),
            association_value(),
        ) == (e.w.word)(k.0))
}

proof fn lemma_plain_grows(
    cx: CtxView,
    ic: InterpreterIc,
    bci: usize,
    s: St,
    sites: Seq<Option<usize>>,
)
    requires
        plain_site(cx, ic, false, false),
    ensures
        dispatch_send(cx, ic, bci, s, sites) matches Some((t, end)) ==> same_below(s.out, t.out)
            && extends(s.seg.code, t.seg.code) && (end is Next || end is Trapped),
{
    let target = self_target(cx, ic, s, sites);
    assert(static_splice(cx, ic, target, cx.rcvr_klass, bci, s) == Some(
        (s, SpliceEnd::Declined),
    ));
    if let Some(s2) = count_cold(cx, ic, s) {
        assert(profiled_send(cx, ic, target is Some, bci, s2) == plain_send(ic, bci, s2));
    }
}

proof fn lemma_generic_grows(
    cx: CtxView,
    ic: InterpreterIc,
    bci: usize,
    s: St,
    sites: Seq<Option<usize>>,
)
    requires
        plain_site(cx, ic, false, false),
    ensures
        generic_send(cx, ic, bci, s, sites) matches Some((t, end)) ==> same_below(s.out, t.out)
            && extends(s.seg.code, t.seg.code) && (end is Next || end is Trapped),
{
    lemma_plain_grows(cx, ic, bci, s, sites);
    let s1 = s.with_out(
        crate::ops::alloc_out(
            cx.vm,
            s.out,
            ic,
            s.top(0),
            cx.self_vreg,
            crate::root::root_klass(cx),
        ),
    );
    lemma_plain_grows(cx, ic, bci, s1, sites);
}

/// What an instruction leaves of the tables.
pub open spec fn step_grown(s: St, t: St, end: EndView) -> bool {
    &&& same_below(s.out, t.out)
    &&& extends(s.seg.code, t.seg.code)
    &&& end matches StepEnd::Split(c) ==> s.out.blocks.len() <= c.0 < t.out.blocks.len()
        && t.out.blocks[c.0 as int] is None
    &&& !(end is Compare)
}

proof fn lemma_step_grows(
    cx: CtxView,
    i: Instr,
    fuse: bool,
    bci: usize,
    s: St,
    sites: Seq<Option<usize>>,
)
    requires
        !cx.has_closures,
        instr_plain(cx, i),
    ensures
        instr_step(cx, i, fuse, bci, s, sites) matches Some(x) ==> step_grown(s, x.s, x.end)
            && value_instr(cx, i, fuse, bci, s, sites) == Some((x.s, x.end)),
{
    let mth = cx.vm.m(cx.method);
    if let Instr::Send { ic, super_ } = i {
        let site = mth.ics@[ic as int];
        if super_ {
            assert(super_send(cx, site, bci, s) matches Some((t, end)) ==> step_grown(s, t, end));
        } else {
            lemma_grow_root(cx, site, fuse, bci, s);
            lemma_generic_grows(cx, site, bci, s, sites);
            crate::faithful_bodies::lemma_root_code(cx.vm, site, fuse, bci, s);
        }
    } else {
        lemma_simple_grows(cx.vm, mth, i, cx.self_vreg, cx.temp_vregs, true, s);
    }
}

/// One instruction of the method.
#[verifier::opaque]
pub open spec fn stepped(
    cx: CtxView,
    i: Instr,
    fuse: bool,
    bci: usize,
    s: St,
    sites: Seq<Option<usize>>,
) -> Option<Step> {
    instr_step(cx, i, fuse, bci, s, sites)
}

/// The tables once the block is done.
#[verifier::opaque]
pub open spec fn finished(
    cx: CtxView,
    mth: Method,
    pl: Plan,
    b: int,
    entry: Seq<VReg>,
    bci: int,
    p: RootPos,
) -> Option<OutView> {
    match root_walk(cx, mth, pl, b, entry, bci, p) {
        None => None,
        Some((q, trapped)) => if trapped {
            Some(q.s.out.finish(root_block(b, q, entry, q.s.seg)))
        } else {
            match root_terminator(pl, b, q) {
                None => None,
                Some(s1) => Some(s1.out.finish(root_block(b, q, entry, s1.seg))),
            }
        },
    }
}

/// The block being filled was finished with what it had and more; others stay.
pub open spec fn closes(p: RootPos, o: OutView) -> bool {
    let c = p.cur.0 as int;
    &&& p.s.out.pool.len() <= o.pool.len()
    &&& forall|k: int| 0 <= k < p.s.out.pool.len() ==> #[trigger] o.pool[k] == p.s.out.pool[k]
    &&& p.s.out.call_sites.len() <= o.call_sites.len()
    &&& forall|k: int|
        0 <= k < p.s.out.call_sites.len() ==> #[trigger] o.call_sites[k] == p.s.out.call_sites[k]
    &&& p.s.out.vregs.len() <= o.vregs.len()
    &&& p.s.out.blocks.len() <= o.blocks.len()
    &&& forall|k: int|
        0 <= k < p.s.out.blocks.len() && k != c ==> #[trigger] o.blocks[k] == p.s.out.blocks[k]
    &&& o.blocks[c] matches Some(fb) && extends(p.s.seg.code, fb.code)
}

proof fn lemma_feed_code(pl: Plan, t: int, exit: Seq<VReg>, g: SegView)
    ensures
        feed(pl.sources, pl.entry_stacks, t, exit, g) matches Some(h) ==> extends(g.code, h.code),
{
}

proof fn lemma_terminator_grows(pl: Plan, b: int, p: RootPos)
    ensures
        root_terminator(pl, b, p) matches Some(s1) ==> same_below(p.s.out, s1.out) && extends(
            p.s.seg.code,
            s1.seg.code,
        ),
{
    let s = p.s;
    match pl.cfg.blocks@[b].terminator {
        Terminator::Branch { if_true, if_false } => {
            let exit = if p.pending is Some {
                s.seg.stack
            } else {
                s.seg.stack.drop_last()
            };
            lemma_feed_code(pl, if_true as int, exit, s.seg);
            if let Some(g1) = feed(pl.sources, pl.entry_stacks, if_true as int, exit, s.seg) {
                lemma_feed_code(pl, if_false as int, exit, g1);
            }
        },
        _ => {},
    }
}

proof fn lemma_closes(
    cx: CtxView,
    mth: Method,
    pl: Plan,
    b: int,
    entry: Seq<VReg>,
    bci: int,
    p: RootPos,
)
    requires
        !cx.has_closures,
        mth == cx.vm.m(cx.method),
        mth.code_wf(),
        mth.boundary(bci) || bci >= pl.cfg.blocks@[b].bci_end,
        forall|k: int|
            0 <= k < mth.code@.len() && mth.code@[k] is Some ==> instr_plain(
                cx,
                #[trigger] mth.instr_at(k),
            ),
        p.cur.0 < p.s.out.blocks.len(),
        p.s.out.pending_jump_target is None,
    ensures
        finished(cx, mth, pl, b, entry, bci, p) matches Some(o) ==> closes(p, o),
    decreases mth.code@.len() - bci,
{
    reveal(finished);
    let blk = pl.cfg.blocks@[b];
    let fin = finished(cx, mth, pl, b, entry, bci, p);
    if bci >= blk.bci_end {
        lemma_terminator_grows(pl, b, p);
    } else if bci < 0 || bci >= mth.code@.len() || !(bci < mth.next_at(bci) <= mth.code@.len()) {
    } else {
        let next = mth.next_at(bci);
        let fuse = fusable(mth, blk, next);
        let i = mth.instr_at(bci);
        assert(mth.code@[bci] is Some);
        lemma_step_grows(cx, i, fuse, bci as usize, p.s, p.sites);
        match instr_step(cx, i, fuse, bci as usize, p.s, p.sites) {
            None => {},
            Some(x) => {
                let (q, over) = after_instr(b, entry, next as usize, bci as usize, p, x);
                if over {
                } else {
                    assert(fin == finished(cx, mth, pl, b, entry, next, q));
                    lemma_closes(cx, mth, pl, b, entry, next, q);
                    if let Some(o) = fin {
                        lemma_closes_back(b, entry, next as usize, bci as usize, p, x, q, o);
                    }
                }
            },
        }
    }
}

proof fn lemma_closes_back(
    b: int,
    entry: Seq<VReg>,
    next: usize,
    bci: usize,
    p: RootPos,
    x: Step,
    q: RootPos,
    o: OutView,
)
    requires
        step_grown(p.s, x.s, x.end),
        !(x.end is Trapped),
        after_instr(b, entry, next, bci, p, x) == (q, false),
        closes(q, o),
        p.cur.0 < p.s.out.blocks.len(),
    ensures
        closes(p, o),
{
    let c = p.cur.0 as int;
    assert forall|k: int| 0 <= k < p.s.out.pool.len() implies #[trigger] o.pool[k]
        == p.s.out.pool[k] by {
        assert(q.s.out.pool[k] == p.s.out.pool[k]);
    }
    assert forall|k: int| 0 <= k < p.s.out.call_sites.len() implies #[trigger] o.call_sites[k]
        == p.s.out.call_sites[k] by {
        assert(q.s.out.call_sites[k] == p.s.out.call_sites[k]);
    }
    assert forall|k: int| 0 <= k < p.s.out.blocks.len() && k != c implies #[trigger] o.blocks[k]
        == p.s.out.blocks[k] by {
        assert(x.s.out.blocks[k] == p.s.out.blocks[k]);
        assert(q.s.out.blocks[k] == x.s.out.blocks[k]);
    }
    if x.end is Split {
        assert(q.s.out.blocks[c] is Some);
        assert(o.blocks[c] == q.s.out.blocks[c]);
    }
}

/// Where control is after running block `id` from `pos` on and `n` blocks more.
pub open spec fn flows(
    e: Env,
    blocks: Seq<Option<BlockView>>,
    id: BlockId,
    pos: int,
    m: Mach,
    n: nat,
) -> Option<Flow>
    decreases n,
{
    let fl = ran(e, (blocks[id.0 as int]->0).code, pos, m);
    if n == 0 {
        Some(fl)
    } else {
        match fl {
            Flow::To(c, m1) => flows(e, blocks, c, 0, m1, (n - 1) as nat),
            _ => None,
        }
    }
}

/// Control is where interpreting is at instruction `b1` with activation `f1`: the method answers what
/// the instruction there returns; the interpreter runs that instruction on that activation; or
/// control is in the block that interpreting goes on with, which finds its operands.
pub open spec fn ends_right(
    e: Env,
    cx: CtxView,
    pl: Plan,
    b: int,
    b1: int,
    f1: Frame,
    exit: Seq<VReg>,
    blocks: Seq<Option<BlockView>>,
    fl: Flow,
) -> bool {
    let mth = cx.vm.m(cx.method);
    let blk = pl.cfg.blocks@[b];
    let i = mth.instr_at(b1);
    match fl {
        Flow::Answer(x, m1) => b1 < blk.bci_end && m1.mem == f1.mem && (((i is ReturnTos
            || i is BlockReturnTos) && x == f1.stack.last()) || (i is ReturnSelf && x == f1.me)),
        Flow::Home(c, x, m1) => b1 < blk.bci_end && m1.mem == f1.mem && i is NlrTos && x
            == f1.stack.last(),
        Flow::To(id, m1) => {
            ||| runs_again(
                blocks,
                0,
                id,
                b1 as usize,
                None,
                m1,
                cx.self_vreg,
                cx.temp_vregs,
                f1,
            )
            ||| (b1 >= blk.bci_end || jumps(i)) && (successor(
                e.w,
                cx.vm,
                blk.terminator,
                f1.stack.last(),
            ) matches Some(x) && leads_to(
                fl,
                BlockId(x as u32),
                pl.sources,
                pl.entry_stacks,
                x as int,
                exit,
                if blk.terminator is Branch {
                    f1.stack.drop_last()
                } else {
                    f1.stack
                },
                f1.mem,
            ))
        },
        Flow::Leave(m1) => m1.mem == f1.mem && i is Send,
        Flow::On(_) => false,
    }
}

/// Running the block goes right from here: it comes to where interpreting comes to.
#[verifier::opaque]
pub open spec fn runs_right(
    e: Env,
    cx: CtxView,
    pl: Plan,
    b: int,
    bci: int,
    f: Frame,
    exit: Seq<VReg>,
    blocks: Seq<Option<BlockView>>,
    id: BlockId,
    pos: int,
    m: Mach,
) -> bool {
    exists|n: nat, b1: int, f1: Frame|
        #![trigger flows(e, blocks, id, pos, m, n), comes_to(e.w, cx.vm, cx.vm.m(cx.method), bci, f, b1, f1)]
        comes_to(e.w, cx.vm, cx.vm.m(cx.method), bci, f, b1, f1) && (flows(e, blocks, id, pos, m, n) matches Some(
            fl,
        ) && ends_right(e, cx, pl, b, b1, f1, exit, blocks, fl))
}

/// Control stops here.
proof fn lemma_stops(
    e: Env,
    cx: CtxView,
    pl: Plan,
    b: int,
    bci: int,
    f: Frame,
    exit: Seq<VReg>,
    blocks: Seq<Option<BlockView>>,
    id: BlockId,
    pos: int,
    m: Mach,
)
    requires
        ends_right(
            e,
            cx,
            pl,
            b,
            bci,
            f,
            exit,
            blocks,
            ran(e, (blocks[id.0 as int]->0).code, pos, m),
        ),
    ensures
        runs_right(e, cx, pl, b, bci, f, exit, blocks, id, pos, m),
{
    reveal(runs_right);
    assert(flows(e, blocks, id, pos, m, 0) == Some(ran(e, (blocks[id.0 as int]->0).code, pos, m)));
    assert(comes_to(e.w, cx.vm, cx.vm.m(cx.method), bci, f, bci, f));
}

/// Control goes on: in the same block, or in the next.
proof fn lemma_goes_on(
    e: Env,
    cx: CtxView,
    pl: Plan,
    b: int,
    bci: int,
    f: Frame,
    g: Frame,
    exit: Seq<VReg>,
    blocks: Seq<Option<BlockView>>,
    id: BlockId,
    pos: int,
    m: Mach,
    id1: BlockId,
    pos1: int,
    m1: Mach,
)
    requires
        ({
            let mth = cx.vm.m(cx.method);
            &&& 0 <= bci < mth.code@.len()
            &&& bci < mth.next_at(bci) <= mth.code@.len()
            &&& does(e.w, cx.vm, mth, mth.instr_at(bci), f) == Some(g)
            &&& runs_right(
                e,
                cx,
                pl,
                b,
                mth.next_at(bci),
                g,
                exit,
                blocks,
                id1,
                pos1,
                m1,
            )
        }),
        ({
            let fl = ran(e, (blocks[id.0 as int]->0).code, pos, m);
            ||| id1 == id && fl == ran(e, (blocks[id.0 as int]->0).code, pos1, m1)
            ||| pos1 == 0 && fl == Flow::To(id1, m1)
        }),
    ensures
        runs_right(e, cx, pl, b, bci, f, exit, blocks, id, pos, m),
{
    reveal(runs_right);
    let mth = cx.vm.m(cx.method);
    let next = mth.next_at(bci);
    let (n, b1, f1) = choose|n: nat, b1: int, f1: Frame|
        #![trigger flows(e, blocks, id1, pos1, m1, n), comes_to(e.w, cx.vm, mth, next, g, b1, f1)]
        comes_to(e.w, cx.vm, mth, next, g, b1, f1) && (flows(e, blocks, id1, pos1, m1, n) matches Some(
            fl,
        ) && ends_right(e, cx, pl, b, b1, f1, exit, blocks, fl));
    assert(comes_to(e.w, cx.vm, mth, bci, f, b1, f1));
    let fl = ran(e, (blocks[id.0 as int]->0).code, pos, m);
    if id1 == id && fl == ran(e, (blocks[id.0 as int]->0).code, pos1, m1) {
        assert(flows(e, blocks, id, pos, m, n) == flows(e, blocks, id1, pos1, m1, n));
    } else {
        assert(flows(e, blocks, id, pos, m, n + 1) == flows(e, blocks, id1, pos1, m1, n));
    }
}

/// The blocks of the method hold what was finished.
pub open spec fn holds_blocks(blocks: Seq<Option<BlockView>>, o: OutView) -> bool {
    &&& o.blocks.len() <= blocks.len()
    &&& forall|k: int|
        0 <= k < o.blocks.len() && o.blocks[k] is Some ==> #[trigger] blocks[k] == o.blocks[k]
}

/// One instruction, as far as running goes.
proof fn lemma_instr(
    e: Env,
    cx: CtxView,
    bci: int,
    fuse: bool,
    s: St,
    sites: Seq<Option<usize>>,
    wr: Set<VReg>,
    f: Frame,
    m: Mach,
)
    requires
        method_plain(e, cx, cx.vm.m(cx.method), wr),
        0 <= bci < cx.vm.m(cx.method).code@.len(),
        cx.vm.m(cx.method).code@[bci] is Some,
        standing(s, cx.self_vreg, cx.temp_vregs, wr, f, e.w, m),
        classes_held(e.w, s.out, wr, m),
        (e.w.class)(f.mem, f.me) == cx.rcvr_klass || cx.vm.m(cx.method).is_block,
        ({
            let i = cx.vm.m(cx.method).instr_at(bci);
            value_instr(cx, i, fuse, bci as usize, s, sites) matches Some((t, end)) && sees(
                e,
                cx.vm,
                t.out,
            ) && t.out.blocks.len() < u32::MAX && !jumps(i) && !returns_here(i)
        }),
    ensures
        ({
            let mth = cx.vm.m(cx.method);
            let i = mth.instr_at(bci);
            let (t, end) = value_instr(cx, i, fuse, bci as usize, s, sites)->0;
            let from = s.seg.code.len() as int;
            &&& end is Trapped ==> leaves_here(
                e,
                s,
                t,
                bci as usize,
                None,
                cx.self_vreg,
                cx.temp_vregs,
                f,
                m,
            ) && i is Send
            &&& !(end is Trapped) ==> (does(e.w, cx.vm, mth, i, f) matches Some(g) && match ran(
                e,
                t.seg.code,
                from,
                m,
            ) {
                Flow::On(m1) => standing(
                    t,
                    cx.self_vreg,
                    cx.temp_vregs,
                    wr,
                    g,
                    e.w,
                    m1,
                ) && classes_held(e.w, t.out, wr, m1) && g.me == f.me,
                Flow::To(b, m1) => runs_again(
                    t.out.blocks,
                    s.out.blocks.len(),
                    b,
                    bci as usize,
                    None,
                    m1,
                    cx.self_vreg,
                    cx.temp_vregs,
                    f,
                ),
                _ => false,
            })
        }),
{
    let vm = cx.vm;
    let mth = vm.m(cx.method);
    let i = mth.instr_at(bci);
    let this = cx.self_vreg;
    let slots = cx.temp_vregs;
    let (t, end) = value_instr(cx, i, fuse, bci as usize, s, sites)->0;
    let from = s.seg.code.len() as int;
    assert(mth.instr_wf(i));
    assert(instr_plain(cx, mth.instr_at(bci)));
    assert(writable(mth.instr_at(bci), slots, wr));
    if let Instr::Send { ic, super_ } = i {
        let site = mth.ics@[ic as int];
        assert(site_honest(e.w, vm, mth.ics@[ic as int]));
        assert forall|k: KlassOop, mem: int| #[trigger] makes(e.w, vm, site, k, mem) by {
            assert(makes(e.w, vm, mth.ics@[ic as int], k, mem));
        }
        lemma_needs(cx, site, super_, fuse, bci as usize, s, sites);
        assert(values(m.regs, s.seg.stack).len() == s.depth());
        let g = if super_ {
            let n = f.stack.len() as int;
            let (x, mem) = (e.w.send_from)(
                above(vm, mth)->0,
                site.selector,
                f.stack.subrange(n - site.argc - 1, n),
                f.mem,
            );
            f.with_mem(mem).pop(site.argc + 1).push(x)
        } else {
            answered(e.w, site, f)
        };
        assert(!(end is Trapped) ==> does(e.w, vm, mth, i, f) == Some(g));
        assert(plain_site(cx, site, super_, fuse));
        law_plain_sends_answer(
            e,
            cx,
            site,
            super_,
            fuse,
            bci as usize,
            s,
            sites,
            slots,
            wr,
            f,
            g,
            m,
        );
        if let Flow::On(m1) = ran(e, t.seg.code, from, m) {
            lemma_tail(e, s, t, m, m1);
            if !(end is Trapped) {
                lemma_classes_kept(e, s, t, wr, m, m1);
            }
        }
    } else {
        law_moves_mean_what_they_say(e, vm, mth, i, this, slots, wr, true, s, f, m);
        lemma_classes_moved(e, vm, mth, i, this, slots, wr, s, f, m);
        let m1 = ran(e, t.seg.code, from, m)->On_0;
        lemma_simple_grows(vm, mth, i, this, slots, true, s);
        lemma_tail(e, s, t, m, m1);
    }
}

/// A send that translates has its operands, and one to the superclass has one.
proof fn lemma_needs(
    cx: CtxView,
    ic: InterpreterIc,
    is_super: bool,
    fuse: bool,
    bci: usize,
    s: St,
    sites: Seq<Option<usize>>,
)
    requires
        plain_site(cx, ic, is_super, true),
        root_send(cx, ic, is_super, fuse, bci, s, sites) is Some,
    ensures
        root_send(cx, ic, is_super, fuse, bci, s, sites) matches Some((t, end)) && (s.depth()
            >= ic.argc + 1 || end is Trapped),
        is_super ==> above(cx.vm, cx.vm.m(cx.method)) is Some,
{
}

/// The end of the block does not spoil what its successors and the interpreter look at.
#[verifier::opaque]
pub open spec fn end_safe(
    cx: CtxView,
    mth: Method,
    pl: Plan,
    b: int,
    entry: Seq<VReg>,
    bci: int,
    p: RootPos,
    exit: Seq<VReg>,
) -> bool {
    let term = pl.cfg.blocks@[b].terminator;
    root_walk(cx, mth, pl, b, entry, bci, p) matches Some((q, trapped)) ==> !trapped ==> {
        &&& exit == exit_stack(term, q)
        &&& end_clear(
            pl.sources,
            pl.entry_stacks,
            term,
            exit,
            seq![cx.self_vreg, q.s.top(0)] + cx.temp_vregs,
        )
    }
}

/// What was finished before the block was done is there when it is.
proof fn lemma_seen_before(e: Env, vm: VmState, a: OutView, o: OutView)
    requires
        sees(e, vm, o),
        a.pool.len() <= o.pool.len(),
        forall|k: int| 0 <= k < a.pool.len() ==> #[trigger] o.pool[k] == a.pool[k],
        a.call_sites.len() <= o.call_sites.len(),
        forall|k: int| 0 <= k < a.call_sites.len() ==> #[trigger] o.call_sites[k] == a.call_sites[k],
        a.vregs.len() <= o.vregs.len(),
    ensures
        sees(e, vm, a),
{
    assert forall|k: int| 0 <= k < a.pool.len() implies #[trigger] e.pool[k] == a.pool[k] by {
        assert(o.pool[k] == a.pool[k]);
    }
    assert forall|k: int| 0 <= k < a.call_sites.len() implies #[trigger] e.calls[k]
        == a.call_sites[k] by {
        assert(o.call_sites[k] == a.call_sites[k]);
    }
}

/// The end of the block.
proof fn lemma_end(
    e: Env,
    cx: CtxView,
    pl: Plan,
    b: int,
    entry: Seq<VReg>,
    bci: int,
    p: RootPos,
    wr: Set<VReg>,
    f: Frame,
    m: Mach,
    exit: Seq<VReg>,
    blocks: Seq<Option<BlockView>>,
    o: OutView,
)
    requires
        e.u == cx.vm.universe,
        p.pending is None,
        p.cur.0 < p.s.out.blocks.len(),
        standing(p.s, cx.self_vreg, cx.temp_vregs, wr, f, e.w, m),
        !(pl.cfg.blocks@[b].terminator is Return),
        root_terminator(pl, b, p) matches Some(t) && o == t.out.finish(
            root_block(b, p, entry, t.seg),
        ),
        exit == exit_stack(pl.cfg.blocks@[b].terminator, p),
        end_clear(
            pl.sources,
            pl.entry_stacks,
            pl.cfg.blocks@[b].terminator,
            exit,
            seq![cx.self_vreg, p.s.top(0)] + cx.temp_vregs,
        ),
        holds_blocks(blocks, o),
        pl.cfg.blocks@[b].terminator is Branch ==> 0 <= bci <= usize::MAX,
        if pl.cfg.blocks@[b].terminator is Branch {
            p.last == bci && jumps(cx.vm.m(cx.method).instr_at(bci))
        } else {
            bci >= pl.cfg.blocks@[b].bci_end || jumps(cx.vm.m(cx.method).instr_at(bci))
        },
    ensures
        runs_right(
            e,
            cx,
            pl,
            b,
            bci,
            f,
            exit,
            blocks,
            p.cur,
            p.s.seg.code.len() as int,
            m,
        ),
{
    let t = root_terminator(pl, b, p)->0;
    let term = pl.cfg.blocks@[b].terminator;
    let from = p.s.seg.code.len() as int;
    lemma_terminator_grows(pl, b, p);
    let c = p.cur.0 as int;
    assert(o.blocks[c] == Some(root_block(b, p, entry, t.seg)));
    assert(blocks[c] == o.blocks[c]);
    law_blocks_lead_where_the_bytecode_goes(
        e,
        cx.vm,
        pl,
        b,
        p,
        cx.self_vreg,
        cx.temp_vregs,
        wr,
        f,
        m,
    );
    let fl = ran(e, t.seg.code, from, m);
    if successor(e.w, cx.vm, term, f.stack.last()) is None {
        if let Flow::To(k, m1) = fl {
            assert(o.blocks[k.0 as int] == t.out.blocks[k.0 as int]);
            assert(blocks[k.0 as int] == o.blocks[k.0 as int]);
            assert(runs_again(
                blocks,
                0,
                k,
                bci as usize,
                None,
                m1,
                cx.self_vreg,
                cx.temp_vregs,
                f,
            ));
        }
    }
    lemma_stops(e, cx, pl, b, bci, f, exit, blocks, p.cur, from, m);
}

proof fn lemma_walk(
    e: Env,
    cx: CtxView,
    mth: Method,
    pl: Plan,
    b: int,
    entry: Seq<VReg>,
    bci: int,
    p: RootPos,
    wr: Set<VReg>,
    f: Frame,
    m: Mach,
    exit: Seq<VReg>,
    blocks: Seq<Option<BlockView>>,
)
    requires
        method_plain(e, cx, mth, wr),
        0 <= b < pl.cfg.blocks@.len(),
        block_shaped(mth, pl.cfg.blocks@[b]),
        mth.boundary(bci),
        pl.cfg.blocks@[b].bci_start <= bci,
        bci >= pl.cfg.blocks@[b].bci_end ==> !(pl.cfg.blocks@[b].terminator is Branch)
            && !(pl.cfg.blocks@[b].terminator is Return),
        p.pending is None,
        p.cur.0 < p.s.out.blocks.len(),
        p.s.out.pending_jump_target is None,
        finished(cx, mth, pl, b, entry, bci, p) matches Some(o) && sees(e, cx.vm, o)
            && o.blocks.len() < u32::MAX && holds_blocks(blocks, o),
        end_safe(cx, mth, pl, b, entry, bci, p, exit),
        standing(p.s, cx.self_vreg, cx.temp_vregs, wr, f, e.w, m),
        classes_held(e.w, p.s.out, wr, m),
        (forall|mem: int| #[trigger] (e.w.class)(mem, f.me) == cx.rcvr_klass) || mth.is_block,
    ensures
        runs_right(
            e,
            cx,
            pl,
            b,
            bci,
            f,
            exit,
            blocks,
            p.cur,
            p.s.seg.code.len() as int,
            m,
        ),
    decreases mth.code@.len() - bci,
{
    let blk = pl.cfg.blocks@[b];
    let o = finished(cx, mth, pl, b, entry, bci, p)->0;
    let from = p.s.seg.code.len() as int;
    if bci >= blk.bci_end {
        lemma_at_end(cx, mth, pl, b, entry, bci, p, o, exit);
        lemma_end(e, cx, pl, b, entry, bci, p, wr, f, m, exit, blocks, o);
    } else {
        let next = mth.next_at(bci);
        let fuse = fusable(mth, blk, next);
        let i = mth.instr_at(bci);
        assert(mth.code@[bci] is Some);
        lemma_first(cx, mth, pl, b, entry, bci, p, o, exit);
        let x = stepped(cx, i, fuse, bci as usize, p.s, p.sites)->0;
        let (q, over) = after_instr(b, entry, next as usize, bci as usize, p, x);
        if over {
            lemma_over_case(e, cx, mth, pl, b, entry, bci, p, wr, f, m, exit, blocks, o, x, q);
        } else {
            lemma_closes(cx, mth, pl, b, entry, next, q);
            lemma_seen_step(e, cx.vm, b, entry, next as usize, bci as usize, p, x, q, o);
            if returns_here(i) {
                lemma_return_case(
                    e,
                    cx,
                    mth,
                    pl,
                    b,
                    entry,
                    bci,
                    p,
                    wr,
                    f,
                    m,
                    exit,
                    blocks,
                    o,
                    x,
                    q,
                );
            } else if jumps(i) {
                lemma_jump_step(cx, i, fuse, bci as usize, p.s, p.sites);
                lemma_at_end(cx, mth, pl, b, entry, next, q, o, exit);
                lemma_end(e, cx, pl, b, entry, bci, q, wr, f, m, exit, blocks, o);
            } else {
                lemma_step_case(
                    e,
                    cx,
                    mth,
                    pl,
                    b,
                    entry,
                    bci,
                    p,
                    wr,
                    f,
                    m,
                    exit,
                    blocks,
                    o,
                    x,
                    q,
                );
                let g = does(e.w, cx.vm, mth, i, f)->0;
                if let Flow::On(m1) = ran(e, x.s.seg.code, from, m) {
                    lemma_walk(e, cx, mth, pl, b, entry, next, q, wr, g, m1, exit, blocks);
                    lemma_goes_on(
                        e,
                        cx,
                        pl,
                        b,
                        bci,
                        f,
                        g,
                        exit,
                        blocks,
                        p.cur,
                        from,
                        m,
                        q.cur,
                        q.s.seg.code.len() as int,
                        m1,
                    );
                }
            }
        }
    }
}

/// The walk is at the end of the block.
proof fn lemma_at_end(
    cx: CtxView,
    mth: Method,
    pl: Plan,
    b: int,
    entry: Seq<VReg>,
    bci: int,
    p: RootPos,
    o: OutView,
    exit: Seq<VReg>,
)
    requires
        bci >= pl.cfg.blocks@[b].bci_end,
        finished(cx, mth, pl, b, entry, bci, p) == Some(o),
        end_safe(cx, mth, pl, b, entry, bci, p, exit),
    ensures
        root_terminator(pl, b, p) matches Some(t) && o == t.out.finish(
            root_block(b, p, entry, t.seg),
        ),
        exit == exit_stack(pl.cfg.blocks@[b].terminator, p),
        end_clear(
            pl.sources,
            pl.entry_stacks,
            pl.cfg.blocks@[b].terminator,
            exit,
            seq![cx.self_vreg, p.s.top(0)] + cx.temp_vregs,
        ),
{
    reveal(finished);
    reveal(end_safe);
}

/// The walk takes one instruction.
proof fn lemma_first(
    cx: CtxView,
    mth: Method,
    pl: Plan,
    b: int,
    entry: Seq<VReg>,
    bci: int,
    p: RootPos,
    o: OutView,
    exit: Seq<VReg>,
)
    requires
        !cx.has_closures,
        mth == cx.vm.m(cx.method),
        0 <= bci < pl.cfg.blocks@[b].bci_end,
        bci < mth.code@.len(),
        bci < mth.next_at(bci) <= mth.code@.len(),
        instr_plain(cx, mth.instr_at(bci)),
        finished(cx, mth, pl, b, entry, bci, p) == Some(o),
        end_safe(cx, mth, pl, b, entry, bci, p, exit),
    ensures
        ({
            let next = mth.next_at(bci);
            let fuse = fusable(mth, pl.cfg.blocks@[b], next);
            stepped(cx, mth.instr_at(bci), fuse, bci as usize, p.s, p.sites) matches Some(x) && {
                let (q, over) = after_instr(b, entry, next as usize, bci as usize, p, x);
                &&& step_grown(p.s, x.s, x.end)
                &&& over ==> o == x.s.out.finish(root_block(b, q, entry, x.s.seg))
                &&& !over ==> finished(cx, mth, pl, b, entry, next, q) == Some(o) && end_safe(
                    cx,
                    mth,
                    pl,
                    b,
                    entry,
                    next,
                    q,
                    exit,
                )
            }
        }),
{
    reveal(finished);
    reveal(end_safe);
    reveal(stepped);
    let next = mth.next_at(bci);
    let fuse = fusable(mth, pl.cfg.blocks@[b], next);
    lemma_step_grows(cx, mth.instr_at(bci), fuse, bci as usize, p.s, p.sites);
}

proof fn lemma_jump_step(
    cx: CtxView,
    i: Instr,
    fuse: bool,
    bci: usize,
    s: St,
    sites: Seq<Option<usize>>,
)
    requires
        !cx.has_closures,
        jumps(i),
    ensures
        stepped(cx, i, fuse, bci, s, sites) matches Some(x) && x.s == s && x.end is Next,
{
    reveal(stepped);
}

proof fn lemma_seen_step(
    e: Env,
    vm: VmState,
    b: int,
    entry: Seq<VReg>,
    next: usize,
    bci: usize,
    p: RootPos,
    x: Step,
    q: RootPos,
    o: OutView,
)
    requires
        sees(e, vm, o),
        closes(q, o),
        after_instr(b, entry, next, bci, p, x) == (q, false),
        !(x.end is Trapped),
    ensures
        sees(e, vm, x.s.out),
{
    assert(q.s.out.pool == x.s.out.pool && q.s.out.call_sites == x.s.out.call_sites
        && q.s.out.vregs == x.s.out.vregs);
    lemma_seen_before(e, vm, x.s.out, o);
}

/// The block ends where the instruction trapped.
proof fn lemma_over_case(
    e: Env,
    cx: CtxView,
    mth: Method,
    pl: Plan,
    b: int,
    entry: Seq<VReg>,
    bci: int,
    p: RootPos,
    wr: Set<VReg>,
    f: Frame,
    m: Mach,
    exit: Seq<VReg>,
    blocks: Seq<Option<BlockView>>,
    o: OutView,
    x: Step,
    q: RootPos,
)
    requires
        method_plain(e, cx, mth, wr),
        0 <= bci < mth.code@.len(),
        mth.code@[bci] is Some,
        p.cur.0 < p.s.out.blocks.len(),
        ({
            let next = mth.next_at(bci);
            let fuse = fusable(mth, pl.cfg.blocks@[b], next);
            &&& stepped(cx, mth.instr_at(bci), fuse, bci as usize, p.s, p.sites) == Some(x)
            &&& after_instr(b, entry, next as usize, bci as usize, p, x) == (q, true)
        }),
        step_grown(p.s, x.s, x.end),
        holds_blocks(blocks, o),
        standing(p.s, cx.self_vreg, cx.temp_vregs, wr, f, e.w, m),
        o == x.s.out.finish(root_block(b, q, entry, x.s.seg)),
        sees(e, cx.vm, o),
        o.blocks.len() < u32::MAX,
        classes_held(e.w, p.s.out, wr, m),
        (e.w.class)(f.mem, f.me) == cx.rcvr_klass || mth.is_block,
    ensures
        runs_right(e, cx, pl, b, bci, f, exit, blocks, p.cur, p.s.seg.code.len() as int, m),
{
    let next = mth.next_at(bci);
    let fuse = fusable(mth, pl.cfg.blocks@[b], next);
    let i = mth.instr_at(bci);
    reveal(stepped);
    assert(instr_plain(cx, mth.instr_at(bci)));
    lemma_step_grows(cx, i, fuse, bci as usize, p.s, p.sites);
    let from = p.s.seg.code.len() as int;
    let c = p.cur.0 as int;
    lemma_seen_before(e, cx.vm, x.s.out, o);
    lemma_not_control(cx, i, fuse, bci as usize, p.s, p.sites);
    lemma_instr(e, cx, bci, fuse, p.s, p.sites, wr, f, m);
    assert(o.blocks[c] == Some(root_block(b, q, entry, x.s.seg)));
    assert(blocks[c] == o.blocks[c]);
    lemma_stops(e, cx, pl, b, bci, f, exit, blocks, p.cur, from, m);
}

/// The block returns.
proof fn lemma_return_case(
    e: Env,
    cx: CtxView,
    mth: Method,
    pl: Plan,
    b: int,
    entry: Seq<VReg>,
    bci: int,
    p: RootPos,
    wr: Set<VReg>,
    f: Frame,
    m: Mach,
    exit: Seq<VReg>,
    blocks: Seq<Option<BlockView>>,
    o: OutView,
    x: Step,
    q: RootPos,
)
    requires
        method_plain(e, cx, mth, wr),
        0 <= bci < mth.code@.len(),
        mth.code@[bci] is Some,
        p.cur.0 < p.s.out.blocks.len(),
        ({
            let next = mth.next_at(bci);
            let fuse = fusable(mth, pl.cfg.blocks@[b], next);
            &&& stepped(cx, mth.instr_at(bci), fuse, bci as usize, p.s, p.sites) == Some(x)
            &&& after_instr(b, entry, next as usize, bci as usize, p, x) == (q, false)
        }),
        step_grown(p.s, x.s, x.end),
        holds_blocks(blocks, o),
        standing(p.s, cx.self_vreg, cx.temp_vregs, wr, f, e.w, m),
        returns_here(mth.instr_at(bci)),
        bci < pl.cfg.blocks@[b].bci_end,
        closes(q, o),
    ensures
        runs_right(e, cx, pl, b, bci, f, exit, blocks, p.cur, p.s.seg.code.len() as int, m),
{
    let next = mth.next_at(bci);
    let fuse = fusable(mth, pl.cfg.blocks@[b], next);
    let i = mth.instr_at(bci);
    reveal(stepped);
    assert(instr_plain(cx, mth.instr_at(bci)));
    lemma_step_grows(cx, i, fuse, bci as usize, p.s, p.sites);
    let from = p.s.seg.code.len() as int;
    let c = p.cur.0 as int;
    assert(x.end is Next);
    assert(q.cur == p.cur && q.s == x.s);
    law_returns_answer(e, cx, i, fuse, bci as usize, p.s, p.sites, cx.temp_vregs, wr, f, m);
    assert(blocks[c] == o.blocks[c]);
    lemma_ran_more(e, x.s.seg.code, (blocks[c]->0).code, from, m);
    lemma_stops(e, cx, pl, b, bci, f, exit, blocks, p.cur, from, m);
}

/// An instruction that neither jumps nor returns: control stops there, or goes on with the next one.
proof fn lemma_step_case(
    e: Env,
    cx: CtxView,
    mth: Method,
    pl: Plan,
    b: int,
    entry: Seq<VReg>,
    bci: int,
    p: RootPos,
    wr: Set<VReg>,
    f: Frame,
    m: Mach,
    exit: Seq<VReg>,
    blocks: Seq<Option<BlockView>>,
    o: OutView,
    x: Step,
    q: RootPos,
)
    requires
        method_plain(e, cx, mth, wr),
        0 <= bci < mth.code@.len(),
        mth.code@[bci] is Some,
        !jumps(mth.instr_at(bci)),
        !returns_here(mth.instr_at(bci)),
        p.cur.0 < p.s.out.blocks.len(),
        p.s.out.pending_jump_target is None,
        ({
            let next = mth.next_at(bci);
            let fuse = fusable(mth, pl.cfg.blocks@[b], next);
            &&& stepped(cx, mth.instr_at(bci), fuse, bci as usize, p.s, p.sites) == Some(x)
            &&& after_instr(b, entry, next as usize, bci as usize, p, x) == (q, false)
        }),
        step_grown(p.s, x.s, x.end),
        closes(q, o),
        sees(e, cx.vm, x.s.out),
        o.blocks.len() < u32::MAX,
        holds_blocks(blocks, o),
        standing(p.s, cx.self_vreg, cx.temp_vregs, wr, f, e.w, m),
        classes_held(e.w, p.s.out, wr, m),
        (e.w.class)(f.mem, f.me) == cx.rcvr_klass || mth.is_block,
    ensures
        ({
            let from = p.s.seg.code.len() as int;
            let code = (blocks[p.cur.0 as int]->0).code;
            match ran(e, x.s.seg.code, from, m) {
                Flow::On(m1) => does(e.w, cx.vm, mth, mth.instr_at(bci), f) matches Some(g) && {
                    &&& standing(q.s, cx.self_vreg, cx.temp_vregs, wr, g, e.w, m1)
                    &&& classes_held(e.w, q.s.out, wr, m1)
                    &&& g.me == f.me
                    &&& (q.cur == p.cur && ran(e, code, from, m) == ran(
                        e,
                        code,
                        q.s.seg.code.len() as int,
                        m1,
                    )) || (q.s.seg.code.len() == 0 && ran(e, code, from, m) == Flow::To(q.cur, m1))
                },
                _ => runs_right(e, cx, pl, b, bci, f, exit, blocks, p.cur, from, m),
            }
        }),
{
    let next = mth.next_at(bci);
    let fuse = fusable(mth, pl.cfg.blocks@[b], next);
    let i = mth.instr_at(bci);
    reveal(stepped);
    assert(instr_plain(cx, mth.instr_at(bci)));
    lemma_step_grows(cx, i, fuse, bci as usize, p.s, p.sites);
    let from = p.s.seg.code.len() as int;
    let c = p.cur.0 as int;
    assert(x.s.out.blocks.len() < u32::MAX);
    lemma_instr(e, cx, bci, fuse, p.s, p.sites, wr, f, m);
    let r = ran(e, x.s.seg.code, from, m);
    if let StepEnd::Split(k) = x.end {
        let op: IrView = Ir::Jump { target: k };
        assert(q.s.out.blocks[c] matches Some(fb) && fb.code == x.s.seg.code.push(op));
        assert(o.blocks[c] == q.s.out.blocks[c]);
        assert(blocks[c] == o.blocks[c]);
        assert(ran(e, x.s.seg.code.push(op), from, m) == (match r {
            Flow::On(m1) => exec(e, op, m1),
            fl => fl,
        }));
    } else {
        assert(q.cur == p.cur && q.s == x.s);
        assert(blocks[c] == o.blocks[c]);
        lemma_ran_more(e, x.s.seg.code, (blocks[c]->0).code, from, m);
    }
    match r {
        Flow::On(m1) => {
            let g = does(e.w, cx.vm, mth, i, f)->0;
            assert(standing(q.s, cx.self_vreg, cx.temp_vregs, wr, g, e.w, m1));
        },
        Flow::To(k, m1) => {
            assert(k.0 != c);
            assert(q.s.out.blocks[k.0 as int] == x.s.out.blocks[k.0 as int]);
            assert(k != q.cur);
            lemma_trap_stays(p, x, q, o, k);
            assert(blocks[k.0 as int] == o.blocks[k.0 as int]);
            assert(runs_again(
                blocks,
                0,
                k,
                bci as usize,
                None,
                m1,
                cx.self_vreg,
                cx.temp_vregs,
                f,
            ));
            lemma_stops(e, cx, pl, b, bci, f, exit, blocks, p.cur, from, m);
        },
        _ => {},
    }
}

/// A trap block is not the block that is filled next.
proof fn lemma_trap_stays(p: RootPos, x: Step, q: RootPos, o: OutView, k: BlockId)
    requires
        closes(q, o),
        k.0 < q.s.out.blocks.len(),
        q.s.out.blocks[k.0 as int] is Some,
        k != q.cur,
    ensures
        o.blocks[k.0 as int] == q.s.out.blocks[k.0 as int],
{
}

/// Control flow is not what a trap replaces.
proof fn lemma_not_control(
    cx: CtxView,
    i: Instr,
    fuse: bool,
    bci: usize,
    s: St,
    sites: Seq<Option<usize>>,
)
    requires
        value_instr(cx, i, fuse, bci, s, sites) matches Some((t, end)) && end is Trapped,
    ensures
        !jumps(i),
        !returns_here(i),
{
}

/// Running a translated block is interpreting its bytecode, from its first instruction on: whatever
/// the machine holds for the activation, running the block and the blocks it goes on in comes to where
/// interpreting comes to. There the method answers what the bytecode returns, the interpreter
/// takes over at that instruction on that activation, or control is in the block
/// that interpreting goes on with and the operands are where that block looks for them. This is about methods
/// without closures, captured variables and splices, whose returns and jumps end their blocks, and
/// about blocks in which no comparison is left to the branch.
pub proof fn law_blocks_run_as_interpreted(
    e: Env,
    cx: CtxView,
    pl: Plan,
    b: int,
    entry: Seq<VReg>,
    reach: Seq<bool>,
    out: OutView,
    wr: Set<VReg>,
    f: Frame,
    m: Mach,
    blocks: Seq<Option<BlockView>>,
)
    requires
        method_plain(e, cx, cx.vm.m(cx.method), wr),
        0 <= b < pl.cfg.blocks@.len() <= out.blocks.len(),
        pl.cfg.blocks@.len() <= u32::MAX,
        block_shaped(cx.vm.m(cx.method), pl.cfg.blocks@[b]),
        cx.vm.m(cx.method).boundary(pl.cfg.blocks@[b].bci_start as int),
        pl.cfg.blocks@[b].bci_start < pl.cfg.blocks@[b].bci_end,
        out.pending_jump_target is None,
        root_block_done(cx, cx.vm.m(cx.method), pl, b, entry, reach, out) matches Some((o, exit, _))
            && sees(e, cx.vm, o) && o.blocks.len() < u32::MAX && holds_blocks(blocks, o) && end_safe(
            cx,
            cx.vm.m(cx.method),
            pl,
            b,
            entry,
            pl.cfg.blocks@[b].bci_start as int,
            root_start(cx, cx.vm.m(cx.method), pl, b, entry, out),
            exit,
        ),
        standing(
            root_start(cx, cx.vm.m(cx.method), pl, b, entry, out).s,
            cx.self_vreg,
            cx.temp_vregs,
            wr,
            f,
            e.w,
            m,
        ),
        classes_held(
            e.w,
            root_start(cx, cx.vm.m(cx.method), pl, b, entry, out).s.out,
            wr,
            m,
        ),
        (forall|mem: int| #[trigger] (e.w.class)(mem, f.me) == cx.rcvr_klass) || cx.vm.m(
            cx.method,
        ).is_block,
    ensures
        ({
            let mth = cx.vm.m(cx.method);
            let (o, exit, _) = root_block_done(cx, mth, pl, b, entry, reach, out)->0;
            let start = root_start(cx, mth, pl, b, entry, out);
            runs_right(
                e,
                cx,
                pl,
                b,
                pl.cfg.blocks@[b].bci_start as int,
                f,
                exit,
                blocks,
                BlockId(b as u32),
                start.s.seg.code.len() as int,
                m,
            )
        }),
{
    let mth = cx.vm.m(cx.method);
    let (o, exit, _r) = root_block_done(cx, mth, pl, b, entry, reach, out)->0;
    let start = root_start(cx, mth, pl, b, entry, out);
    let bci = pl.cfg.blocks@[b].bci_start as int;
    reveal(finished);
    assert(finished(cx, mth, pl, b, entry, bci, start) == Some(o));
    let s = St { out, seg: SegView { stack: entry, code: Seq::empty(), deopt: Seq::empty() } };
    assert(start.s.out.blocks == out.blocks && start.s.out.pending_jump_target
        == out.pending_jump_target);
    lemma_walk(e, cx, mth, pl, b, entry, bci, start, wr, f, m, exit, blocks);
}

} // verus!

//! Where blocks lead: the code at the end of a block goes where interpreting the bytecode goes.

use vstd::prelude::*;
use crate::classify::{double_kind, smi_kind, smi_target, SmiSendKind};
use crate::convert::{exit_stack, root_branch, root_id, root_terminator, Plan, RootPos};
use crate::depths::{feed, moves, EntryStackSource};
use crate::faithful::{holds, sees};
use crate::faithful_sends::{answered, runs_again, standing};
use crate::graft::{graft_terminator, ExtentView};
use crate::ir::{BlockId, DeoptView, Ir, IrView, VReg};
use crate::machine::{exec, extends, lemma_ran_more, ran, Env, Flow, Mach, World};
use crate::meaning::{honest, primitive_answer, site_honest, Frame};
use crate::root::{root_double, root_smi, StepEnd};
use crate::translator::{trap_block, SegView, St};
use crate::values::values;
use crate::world::{BlockIndex, InterpreterIc, Terminator, VmState};

verus! {

broadcast use crate::machine::group_runs;

/// Filling the registers `to` from `exit`, one after the other, spoils nothing that is read later: a
/// register to fill that is an operand itself is filled from itself.
pub open spec fn clear(to: Seq<VReg>, exit: Seq<VReg>) -> bool {
    &&& to.no_duplicates()
    &&& to.len() == exit.len()
    &&& forall|i: int, j: int|
        0 <= i < exit.len() && 0 <= j < to.len() && #[trigger] exit[i] == #[trigger] to[j] ==> i == j
}

/// The first `k` moves.
proof fn lemma_moves(e: Env, code: Seq<IrView>, to: Seq<VReg>, exit: Seq<VReg>, k: int, m: Mach)
    requires
        clear(to, exit),
        0 <= k <= to.len(),
    ensures
        ({
            let c = code + moves(to, exit).take(k);
            ran(e, c, code.len() as int, m) matches Flow::On(m1) && m1.mem == m.mem && (forall|i: int|
                0 <= i < k ==> (m1.regs)(#[trigger] to[i]) == (m.regs)(exit[i])) && (forall|v: VReg|
                !to.contains(v) ==> #[trigger] (m1.regs)(v) == (m.regs)(v)) && forall|i: int|
                0 <= i < exit.len() ==> (m1.regs)(#[trigger] exit[i]) == (m.regs)(exit[i])
        }),
    decreases k,
{
    let all = moves(to, exit);
    let c = code + all.take(k);
    if k == 0 {
        assert(c =~= code);
    } else {
        lemma_moves(e, code, to, exit, k - 1, m);
        let c0 = code + all.take(k - 1);
        let op: IrView = Ir::Move { dst: to[k - 1], src: exit[k - 1] };
        assert(c =~= c0.push(op));
        let from = code.len() as int;
        let m0 = ran(e, c0, from, m)->On_0;
        assert(ran(e, c0.push(op), from, m) == exec(e, op, m0));
        let m1 = exec(e, op, m0)->On_0;
        assert((m0.regs)(exit[k - 1]) == (m.regs)(exit[k - 1]));
        assert(to.contains(to[k - 1]));
        assert forall|i: int| 0 <= i < k implies (m1.regs)(#[trigger] to[i]) == (m.regs)(exit[i]) by {
            if i < k - 1 {
                assert(to[i] != to[k - 1]);
            }
        }
        assert forall|i: int| 0 <= i < exit.len() implies (m1.regs)(#[trigger] exit[i]) == (m.regs)(
            exit[i],
        ) by {
            if exit[i] == to[k - 1] {
                assert(i == k - 1);
            }
        }
    }
}

/// Feeding block `t` spoils nothing: not the operands, and not `also`.
pub open spec fn feedable(
    sources: Seq<EntryStackSource>,
    stacks: Seq<Option<Seq<VReg>>>,
    t: int,
    exit: Seq<VReg>,
    also: Seq<VReg>,
) -> bool {
    sources[t] is Merge ==> (stacks[t] matches Some(to) ==> clear(to, exit) && forall|i: int|
        0 <= i < also.len() ==> !to.contains(#[trigger] also[i]))
}

/// Where block `t` looks for the operands that it is entered with.
pub open spec fn entry_regs(
    sources: Seq<EntryStackSource>,
    stacks: Seq<Option<Seq<VReg>>>,
    t: int,
    exit: Seq<VReg>,
) -> Seq<VReg> {
    match (sources[t], stacks[t]) {
        (EntryStackSource::Merge, Some(to)) => to,
        _ => exit,
    }
}

/// Block `t` finds the operands, and whatever is not fed to stays.
spec fn fed(
    sources: Seq<EntryStackSource>,
    stacks: Seq<Option<Seq<VReg>>>,
    t: int,
    exit: Seq<VReg>,
    m: Mach,
    m1: Mach,
) -> bool {
    &&& m1.mem == m.mem
    &&& values(m1.regs, exit) == values(m.regs, exit)
    &&& values(m1.regs, entry_regs(sources, stacks, t, exit)) == values(m.regs, exit)
    &&& forall|v: VReg|
        !entry_regs(sources, stacks, t, exit).contains(v) ==> #[trigger] (m1.regs)(v) == (m.regs)(v)
}

proof fn lemma_feed(
    e: Env,
    sources: Seq<EntryStackSource>,
    stacks: Seq<Option<Seq<VReg>>>,
    t: int,
    exit: Seq<VReg>,
    also: Seq<VReg>,
    g: SegView,
    m: Mach,
)
    requires
        feed(sources, stacks, t, exit, g) is Some,
        feedable(sources, stacks, t, exit, also),
    ensures
        ({
            let g1 = feed(sources, stacks, t, exit, g)->0;
            &&& extends(g.code, g1.code)
            &&& g1.stack == g.stack
            &&& ran(e, g1.code, g.code.len() as int, m) matches Flow::On(m1) && fed(
                sources,
                stacks,
                t,
                exit,
                m,
                m1,
            )
        }),
{
    let g1 = feed(sources, stacks, t, exit, g)->0;
    let from = g.code.len() as int;
    if sources[t] is Merge {
        let to = stacks[t]->0;
        let n = to.len() as int;
        lemma_moves(e, g.code, to, exit, n, m);
        assert(moves(to, exit).take(n) =~= moves(to, exit));
        let m1 = ran(e, g1.code, from, m)->On_0;
        assert(values(m1.regs, to) =~= values(m.regs, exit));
        assert(values(m1.regs, exit) =~= values(m.regs, exit));
    } else {
        assert(ran(e, g1.code, from, m) == Flow::On(m));
    }
}

/// The block that interpreting the bytecode goes on with, given the condition.
pub open spec fn successor(w: World, vm: VmState, t: Terminator, condition: int) -> Option<BlockIndex> {
    match t {
        Terminator::Fallthrough(x) => Some(x),
        Terminator::Jump { target, .. } => Some(target),
        Terminator::Branch { if_true, if_false } => if condition == w.truth(vm.universe, true) {
            Some(if_true)
        } else if condition == w.truth(vm.universe, false) {
            Some(if_false)
        } else {
            None
        },
        Terminator::Return => None,
    }
}

/// Control goes on with block `x`, which finds the operands where it looks for them.
pub open spec fn leads_to(
    flow: Flow,
    id: BlockId,
    sources: Seq<EntryStackSource>,
    stacks: Seq<Option<Seq<VReg>>>,
    x: int,
    exit: Seq<VReg>,
    operands: Seq<int>,
    mem: int,
) -> bool {
    flow matches Flow::To(b, m1) && b == id && m1.mem == mem && values(
        m1.regs,
        entry_regs(sources, stacks, x, exit),
    ) == operands
}

/// Two targets of a branch do not get in each other's way.
pub open spec fn targets_apart(
    sources: Seq<EntryStackSource>,
    stacks: Seq<Option<Seq<VReg>>>,
    a: int,
    b: int,
    exit: Seq<VReg>,
) -> bool {
    a != b && sources[a] is Merge && sources[b] is Merge ==> (stacks[a] matches Some(x) ==> (
    stacks[b] matches Some(y) ==> forall|i: int, j: int|
        0 <= i < x.len() && 0 <= j < y.len() ==> #[trigger] x[i] != #[trigger] y[j]))
}

/// After both targets are fed, each finds the operands.
proof fn lemma_feed_two(
    e: Env,
    sources: Seq<EntryStackSource>,
    stacks: Seq<Option<Seq<VReg>>>,
    a: int,
    b: int,
    exit: Seq<VReg>,
    also: Seq<VReg>,
    g: SegView,
    m: Mach,
)
    requires
        feed(sources, stacks, a, exit, g) matches Some(g1) && feed(sources, stacks, b, exit, g1) is Some,
        feedable(sources, stacks, a, exit, also),
        feedable(sources, stacks, b, exit, also),
        targets_apart(sources, stacks, a, b, exit),
    ensures
        ({
            let g1 = feed(sources, stacks, a, exit, g)->0;
            let g2 = feed(sources, stacks, b, exit, g1)->0;
            &&& extends(g.code, g2.code)
            &&& g2.stack == g.stack
            &&& ran(e, g2.code, g.code.len() as int, m) matches Flow::On(m2) && {
                &&& m2.mem == m.mem
                &&& values(m2.regs, entry_regs(sources, stacks, a, exit)) == values(m.regs, exit)
                &&& values(m2.regs, entry_regs(sources, stacks, b, exit)) == values(m.regs, exit)
                &&& forall|i: int|
                    0 <= i < also.len() && !exit.contains(also[i]) ==> (m2.regs)(#[trigger] also[i])
                        == (m.regs)(also[i])
                &&& forall|v: VReg|
                    exit.contains(v) ==> #[trigger] (m2.regs)(v) == (m.regs)(v)
                &&& forall|v: VReg|
                    !entry_regs(sources, stacks, a, exit).contains(v) && !entry_regs(
                        sources,
                        stacks,
                        b,
                        exit,
                    ).contains(v) ==> #[trigger] (m2.regs)(v) == (m.regs)(v)
            }
        }),
{
    let g1 = feed(sources, stacks, a, exit, g)->0;
    let g2 = feed(sources, stacks, b, exit, g1)->0;
    let from = g.code.len() as int;
    lemma_feed(e, sources, stacks, a, exit, also, g, m);
    let m1 = ran(e, g1.code, from, m)->On_0;
    lemma_feed(e, sources, stacks, b, exit, also, g1, m1);
    lemma_ran_more(e, g1.code, g2.code, from, m);
    let m2 = ran(e, g2.code, from, m)->On_0;
    let ra = entry_regs(sources, stacks, a, exit);
    let rb = entry_regs(sources, stacks, b, exit);
    assert(values(m2.regs, ra) =~= values(m1.regs, ra)) by {
        assert forall|i: int| 0 <= i < ra.len() implies (m2.regs)(#[trigger] ra[i]) == (m1.regs)(
            ra[i],
        ) by {
            if a == b {
                assert(values(m2.regs, ra)[i] == values(m1.regs, ra)[i]);
            } else if rb.contains(ra[i]) {
                // Then one of the two lists is the operands themselves.
                if ra == exit {
                    assert(values(m2.regs, exit)[i] == values(m1.regs, exit)[i]);
                } else if rb == exit {
                    assert(rb == exit);
                    lemma_same_at(m1, m2, exit, ra[i]);
                } else {
                    let j = choose|j: int| 0 <= j < rb.len() && rb[j] == ra[i];
                    assert(ra[i] != rb[j]);
                }
            }
        }
    }
    assert forall|v: VReg| exit.contains(v) implies #[trigger] (m2.regs)(v) == (m.regs)(v) by {
        lemma_same_at(m, m1, exit, v);
        lemma_same_at(m1, m2, exit, v);
    }
    assert forall|i: int|
        0 <= i < also.len() && !exit.contains(also[i]) implies (m2.regs)(#[trigger] also[i]) == (
    m.regs)(also[i]) by {
        assert(!ra.contains(also[i]));
        assert(!rb.contains(also[i]));
    }
}

proof fn lemma_same_at(m: Mach, m1: Mach, s: Seq<VReg>, v: VReg)
    requires
        values(m1.regs, s) == values(m.regs, s),
        s.contains(v),
    ensures
        (m1.regs)(v) == (m.regs)(v),
{
    let i = choose|i: int| 0 <= i < s.len() && s[i] == v;
    assert(values(m1.regs, s)[i] == (m1.regs)(s[i]));
    assert(values(m.regs, s)[i] == (m.regs)(s[i]));
}

/// What the end of a block may rely on: filling the registers of its successors spoils nothing.
pub open spec fn end_clear(
    sources: Seq<EntryStackSource>,
    stacks: Seq<Option<Seq<VReg>>>,
    t: Terminator,
    exit: Seq<VReg>,
    also: Seq<VReg>,
) -> bool {
    match t {
        Terminator::Fallthrough(x) => feedable(sources, stacks, x as int, exit, also),
        Terminator::Jump { target, .. } => feedable(sources, stacks, target as int, exit, also),
        Terminator::Branch { if_true, if_false } => {
            &&& feedable(sources, stacks, if_true as int, exit, also)
            &&& feedable(sources, stacks, if_false as int, exit, also)
            &&& targets_apart(sources, stacks, if_true as int, if_false as int, exit)
        },
        Terminator::Return => true,
    }
}

/// The end of a block leads where interpreting the bytecode goes: to the block that the jump or the
/// fall through names, and at a branch to the one for `true` where the condition is true and to the
/// one for `false` where it is false. That block finds the operands in its registers. A
/// condition that is no boolean has the last instruction run again.
pub proof fn law_blocks_lead_where_the_bytecode_goes(
    e: Env,
    vm: VmState,
    pl: Plan,
    b: int,
    p: RootPos,
    this: VReg,
    slots: Seq<VReg>,
    wr: Set<VReg>,
    f: Frame,
    m: Mach,
)
    requires
        e.u == vm.universe,
        p.pending is None,
        standing(p.s, this, slots, wr, f, e.w, m),
        pl.cfg.blocks@[b].terminator is Branch ==> p.s.depth() > 0,
        !(pl.cfg.blocks@[b].terminator is Return),
        root_terminator(pl, b, p) is Some,
        end_clear(
            pl.sources,
            pl.entry_stacks,
            pl.cfg.blocks@[b].terminator,
            exit_stack(pl.cfg.blocks@[b].terminator, p),
            seq![this, p.s.top(0)] + slots,
        ),
    ensures
        ({
            let t = root_terminator(pl, b, p)->0;
            let term = pl.cfg.blocks@[b].terminator;
            let exit = exit_stack(term, p);
            let flow = ran(e, t.seg.code, p.s.seg.code.len() as int, m);
            let left = if term is Branch {
                f.stack.drop_last()
            } else {
                f.stack
            };
            &&& extends(p.s.seg.code, t.seg.code)
            &&& match successor(e.w, vm, term, f.stack.last()) {
                Some(x) => leads_to(
                    flow,
                    BlockId(x as u32),
                    pl.sources,
                    pl.entry_stacks,
                    x as int,
                    exit,
                    left,
                    f.mem,
                ),
                None => flow matches Flow::To(c, m1) && runs_again(
                    t.out.blocks,
                    p.s.out.blocks.len(),
                    c,
                    p.last,
                    None,
                    m1,
                    this,
                    slots,
                    f,
                ),
            }
        }),
{
    let s = p.s;
    let term = pl.cfg.blocks@[b].terminator;
    let exit = exit_stack(term, p);
    let t = root_terminator(pl, b, p)->0;
    let also = seq![this, s.top(0)] + slots;
    let from = s.seg.code.len() as int;
    match term {
        Terminator::Return => {},
        Terminator::Fallthrough(x) => {
            lemma_feed(e, pl.sources, pl.entry_stacks, x as int, exit, also, s.seg, m);
            let g = feed(pl.sources, pl.entry_stacks, x as int, exit, s.seg)->0;
            let op: IrView = Ir::Jump { target: root_id(x as int) };
            assert(t.seg.code == g.code.push(op));
            assert(ran(e, g.code.push(op), from, m) == exec(e, op, ran(e, g.code, from, m)->On_0));
        },
        Terminator::Jump { target, is_backward } => {
            let d = DeoptView {
                stack: s.seg.stack,
                bci: pl.cfg.blocks@[target as int].bci_start,
                kind: crate::scopes::SafepointKind::LoopPoll,
                reexecute: true,
                stack_closures: seq![],
                inline: None,
            };
            let g0 = if is_backward {
                s.seg.site(d).emit(Ir::Poll)
            } else {
                s.seg
            };
            let poll: IrView = Ir::Poll;
            if is_backward {
                assert(g0.code == s.seg.code.push(poll));
                assert(ran(e, s.seg.code.push(poll), from, m) == exec(e, poll, m));
            }
            assert(ran(e, g0.code, from, m) == Flow::On(m));
            assert(extends(s.seg.code, g0.code));
            lemma_feed(e, pl.sources, pl.entry_stacks, target as int, exit, also, g0, m);
            let g = feed(pl.sources, pl.entry_stacks, target as int, exit, g0)->0;
            lemma_ran_more(e, g0.code, g.code, from, m);
            let op: IrView = Ir::Jump { target: root_id(target as int) };
            assert(t.seg.code == g.code.push(op));
            assert(ran(e, g.code.push(op), from, m) == exec(e, op, ran(e, g.code, from, m)->On_0));
        },
        Terminator::Branch { if_true, if_false } => {
            lemma_feed_two(
                e,
                pl.sources,
                pl.entry_stacks,
                if_true as int,
                if_false as int,
                exit,
                also,
                s.seg,
                m,
            );
            let g1 = feed(pl.sources, pl.entry_stacks, if_true as int, exit, s.seg)->0;
            let g = feed(pl.sources, pl.entry_stacks, if_false as int, exit, g1)->0;
            let m2 = ran(e, g.code, from, m)->On_0;
            let op = t.seg.code.last();
            assert(t.seg.code == g.code.push(op));
            assert(ran(e, g.code.push(op), from, m) == exec(e, op, m2));
            let n = s.depth() as int;
            assert(also[1] == s.top(0));
            assert((m2.regs)(s.top(0)) == (m.regs)(s.top(0))) by {
                if !exit.contains(s.top(0)) {
                    assert((m2.regs)(also[1]) == (m.regs)(also[1]));
                }
            }
            assert(values(m.regs, s.seg.stack)[n - 1] == (m.regs)(s.top(0)));
            assert(values(m.regs, exit) =~= f.stack.drop_last());
            lemma_also(m, m2, s, this, slots, exit, also, f);
            let c = s.out.block_id();
            assert(t.out.blocks[c.0 as int] == Some(
                trap_block(c, p.last, s.seg.stack, seq![], None),
            ));
        },
    }
}

/// The activation is still there after the successors were fed.
proof fn lemma_also(
    m: Mach,
    m2: Mach,
    s: St,
    this: VReg,
    slots: Seq<VReg>,
    exit: Seq<VReg>,
    also: Seq<VReg>,
    f: Frame,
)
    requires
        also == seq![this, s.top(0)] + slots,
        s.depth() > 0,
        exit == s.seg.stack.drop_last(),
        holds(m, s.seg.stack, this, slots, f),
        m2.mem == m.mem,
        forall|i: int|
            0 <= i < also.len() && !exit.contains(also[i]) ==> (m2.regs)(#[trigger] also[i]) == (
            m.regs)(also[i]),
        forall|v: VReg| exit.contains(v) ==> #[trigger] (m2.regs)(v) == (m.regs)(v),
    ensures
        holds(m2, s.seg.stack, this, slots, f),
{
    assert(also[0] == this);
    assert((m2.regs)(this) == (m.regs)(this)) by {
        if !exit.contains(this) {
            assert((m2.regs)(also[0]) == (m.regs)(also[0]));
        }
    }
    assert(values(m2.regs, slots) =~= values(m.regs, slots)) by {
        assert forall|i: int| 0 <= i < slots.len() implies (m2.regs)(#[trigger] slots[i]) == (
        m.regs)(slots[i]) by {
            assert(also[2 + i] == slots[i]);
            if !exit.contains(slots[i]) {
                assert((m2.regs)(also[2 + i]) == (m.regs)(also[2 + i]));
            }
        }
    }
    assert(values(m2.regs, s.seg.stack) =~= values(m.regs, s.seg.stack)) by {
        assert forall|i: int| 0 <= i < s.depth() implies (m2.regs)(#[trigger] s.seg.stack[i]) == (
        m.regs)(s.seg.stack[i]) by {
            if i == s.depth() - 1 {
                if !exit.contains(also[1]) {
                    assert((m2.regs)(also[1]) == (m.regs)(also[1]));
                }
            } else {
                assert(exit[i] == s.seg.stack[i]);
                assert(exit.contains(s.seg.stack[i]));
            }
        }
    }
}

/// The answer of a compared pair of small integers is the boolean that the comparison tells.
proof fn lemma_compared(e: Env, vm: VmState, ic: InterpreterIc, op: crate::ir::CmpOp, f: Frame)
    requires
        honest(e.w, vm),
        site_honest(e.w, vm, ic),
        ic.argc == 1,
        smi_kind(vm, ic) == Some(SmiSendKind::Cmp(op)),
        f.stack.len() >= 2,
        (e.w.int_of)(f.stack[f.stack.len() - 2]) is Some,
        (e.w.int_of)(f.stack[f.stack.len() - 1]) is Some,
    ensures
        ({
            let n = f.stack.len() as int;
            let g = answered(e.w, ic, f);
            &&& g.stack.last() == e.w.truth(
                vm.universe,
                crate::machine::smi_compare(
                    op,
                    (e.w.int_of)(f.stack[n - 2])->0,
                    (e.w.int_of)(f.stack[n - 1])->0,
                ),
            )
            &&& g.mem == f.mem
            &&& g.stack.drop_last() == f.stack.subrange(0, n - 2)
        }),
{
    reveal(honest);
    let n = f.stack.len() as int;
    let tgt = smi_target(vm, ic)->0;
    let args = f.stack.subrange(n - 2, n);
    assert(args[0] == f.stack[n - 2] && args[1] == f.stack[n - 1]);
    assert((e.w.class)(f.mem, args[0]) == vm.universe.smi_klass);
    crate::faithful_sends::lemma_primitive(e.w, vm, ic, f, vm.universe.smi_klass, tgt);
    assert(answered(e.w, ic, f).stack.drop_last() =~= f.stack.subrange(0, n - 2));
}

/// A comparison that is left to its branch leads where sending it and branching on the answer leads.
/// Operands that are no small integers have the send run again.
pub proof fn law_fused_comparisons_branch_on_the_answer(
    e: Env,
    vm: VmState,
    ic: InterpreterIc,
    bci: usize,
    pl: Plan,
    if_true: BlockIndex,
    if_false: BlockIndex,
    s: St,
    p: RootPos,
    this: VReg,
    slots: Seq<VReg>,
    wr: Set<VReg>,
    f: Frame,
    m: Mach,
)
    requires
        honest(e.w, vm),
        e.u == vm.universe,
        site_honest(e.w, vm, ic),
        ic.argc == 1,
        standing(s, this, slots, wr, f, e.w, m),
        smi_kind(vm, ic) matches Some(k) && (root_smi(k, true, bci, s) matches Some(
            (s1, StepEnd::Compare(c)),
        ) && p.s == s1 && p.pending == Some(c)),
        root_branch(pl, if_true as int, if_false as int, p) is Some,
        end_clear(
            pl.sources,
            pl.entry_stacks,
            Terminator::Branch { if_true, if_false },
            p.s.seg.stack,
            seq![this, s.top(1), s.top(0)] + slots,
        ),
    ensures
        ({
            let t = root_branch(pl, if_true as int, if_false as int, p)->0;
            let n = f.stack.len() as int;
            let flow = ran(e, t.seg.code, s.seg.code.len() as int, m);
            let g = answered(e.w, ic, f);
            if (e.w.int_of)(f.stack[n - 2]) is Some && (e.w.int_of)(f.stack[n - 1]) is Some {
                successor(
                    e.w,
                    vm,
                    Terminator::Branch { if_true, if_false },
                    g.stack.last(),
                ) matches Some(x) && leads_to(
                    flow,
                    BlockId(x as u32),
                    pl.sources,
                    pl.entry_stacks,
                    x as int,
                    p.s.seg.stack,
                    g.stack.drop_last(),
                    g.mem,
                )
            } else {
                flow matches Flow::To(c, m1) && runs_again(
                    t.out.blocks,
                    s.out.blocks.len(),
                    c,
                    bci,
                    None,
                    m1,
                    this,
                    slots,
                    f,
                )
            }
        }),
{
    reveal(honest);
    let k = smi_kind(vm, ic)->0;
    let op = k->Cmp_0;
    let n = f.stack.len() as int;
    crate::faithful_sends::lemma_operands(m, s, f, 0);
    crate::faithful_sends::lemma_operands(m, s, f, 1);
    let t = root_branch(pl, if_true as int, if_false as int, p)->0;
    let exit = p.s.seg.stack;
    let also = seq![this, s.top(1), s.top(0)] + slots;
    let from = s.seg.code.len() as int;
    lemma_feed_two(
        e,
        pl.sources,
        pl.entry_stacks,
        if_true as int,
        if_false as int,
        exit,
        also,
        p.s.seg,
        m,
    );
    let g1 = feed(pl.sources, pl.entry_stacks, if_true as int, exit, p.s.seg)->0;
    let g2 = feed(pl.sources, pl.entry_stacks, if_false as int, exit, g1)->0;
    let m2 = ran(e, g2.code, from, m)->On_0;
    let last = t.seg.code.last();
    assert(t.seg.code == g2.code.push(last));
    assert(ran(e, g2.code.push(last), from, m) == exec(e, last, m2));
    assert(also[0] == this && also[1] == s.top(1) && also[2] == s.top(0));
    assert forall|i: int| 0 <= i < also.len() implies (m2.regs)(#[trigger] also[i]) == (m.regs)(
        also[i],
    ) by {
        if exit.contains(also[i]) {
            assert((m2.regs)(also[i]) == (m.regs)(also[i]));
        }
    }
    assert((m2.regs)(also[1]) == (m.regs)(s.top(1)));
    assert((m2.regs)(also[2]) == (m.regs)(s.top(0)));
    assert(values(m.regs, exit) =~= f.stack.subrange(0, n - 2));
    if (e.w.int_of)(f.stack[n - 2]) is Some && (e.w.int_of)(f.stack[n - 1]) is Some {
        lemma_compared(e, vm, ic, op, f);
    } else {
        let c = p.s.out.block_id();
        assert(t.out.blocks[c.0 as int] == Some(trap_block(c, bci, s.seg.stack, seq![], None)));
        assert((m2.regs)(also[0]) == (m.regs)(this));
        assert(values(m2.regs, slots) =~= values(m.regs, slots)) by {
            assert forall|i: int| 0 <= i < slots.len() implies (m2.regs)(#[trigger] slots[i]) == (
            m.regs)(slots[i]) by {
                assert(also[3 + i] == slots[i]);
            }
        }
        assert(values(m2.regs, s.seg.stack) =~= values(m.regs, s.seg.stack)) by {
            assert forall|i: int| 0 <= i < s.depth() implies (m2.regs)(#[trigger] s.seg.stack[i])
                == (m.regs)(s.seg.stack[i]) by {
                if i < n - 2 {
                    assert(exit[i] == s.seg.stack[i]);
                    assert(exit.contains(s.seg.stack[i]));
                } else if i == n - 2 {
                    assert(also[1] == s.seg.stack[i]);
                } else {
                    assert(also[2] == s.seg.stack[i]);
                }
            }
        }
    }
}

/// The same for doubles: the operands are unboxed in front, and the branch tests them.
pub proof fn law_fused_double_tests_branch_on_the_answer(
    e: Env,
    vm: VmState,
    ic: InterpreterIc,
    bci: usize,
    pl: Plan,
    if_true: BlockIndex,
    if_false: BlockIndex,
    s: St,
    p: RootPos,
    this: VReg,
    slots: Seq<VReg>,
    wr: Set<VReg>,
    f: Frame,
    m: Mach,
)
    requires
        honest(e.w, vm),
        ic.argc == 1,
        standing(s, this, slots, wr, f, e.w, m),
        sees(e, vm, p.s.out),
        double_kind(vm, ic) matches Some(k) && (root_double(k, true, bci, s) matches Some(
            (s1, StepEnd::Compare(c)),
        ) && p.s == s1 && p.pending == Some(c)),
        root_branch(pl, if_true as int, if_false as int, p) is Some,
        end_clear(
            pl.sources,
            pl.entry_stacks,
            Terminator::Branch { if_true, if_false },
            p.s.seg.stack,
            seq![s.reg(), s.fresh_fp().reg()],
        ),
    ensures
        ({
            let t = root_branch(pl, if_true as int, if_false as int, p)->0;
            let flow = ran(e, t.seg.code, s.seg.code.len() as int, m);
            let g = answered(e.w, ic, f);
            ||| successor(
                e.w,
                vm,
                Terminator::Branch { if_true, if_false },
                g.stack.last(),
            ) matches Some(x) && leads_to(
                flow,
                BlockId(x as u32),
                pl.sources,
                pl.entry_stacks,
                x as int,
                p.s.seg.stack,
                g.stack.drop_last(),
                g.mem,
            )
            ||| flow matches Flow::To(c, m1) && runs_again(
                t.out.blocks,
                s.out.blocks.len(),
                c,
                bci,
                None,
                m1,
                this,
                slots,
                f,
            ) && !((e.w.class)(f.mem, f.stack[f.stack.len() - 2]) == vm.universe.double_klass && (
            e.w.class)(f.mem, f.stack[f.stack.len() - 1]) == vm.universe.double_klass)
        }),
{
    reveal(honest);
    let w = e.w;
    let k = double_kind(vm, ic)->0;
    let op = k->Cmp_0;
    let n = f.stack.len() as int;
    let s1 = p.s;
    crate::faithful_sends::lemma_double_operands(e, vm, ic, bci, None, this, slots, wr, s, f, m);
    let t = root_branch(pl, if_true as int, if_false as int, p)->0;
    let exit = s1.seg.stack;
    let also = seq![s.reg(), s.fresh_fp().reg()];
    let from = s.seg.code.len() as int;
    let g1 = feed(pl.sources, pl.entry_stacks, if_true as int, exit, s1.seg)->0;
    let g2 = feed(pl.sources, pl.entry_stacks, if_false as int, exit, g1)->0;
    let last = t.seg.code.last();
    assert(t.seg.code == g2.code.push(last));
    lemma_feed_two(
        e,
        pl.sources,
        pl.entry_stacks,
        if_true as int,
        if_false as int,
        exit,
        also,
        s1.seg,
        m,
    );
    assert(extends(s1.seg.code, t.seg.code));
    lemma_ran_more(e, s1.seg.code, t.seg.code, from, m);
    assert(t.out.blocks == s1.out.blocks);
    if let Flow::On(m1) = ran(e, s1.seg.code, from, m) {
        let at = s1.seg.code.len() as int;
        lemma_feed_two(
            e,
            pl.sources,
            pl.entry_stacks,
            if_true as int,
            if_false as int,
            exit,
            also,
            s1.seg,
            m1,
        );
        let m2 = ran(e, g2.code, at, m1)->On_0;
        assert(ran(e, g2.code.push(last), at, m1) == exec(e, last, m2));
        assert(also[0] == s.reg() && also[1] == s.fresh_fp().reg());
        assert forall|i: int| 0 <= i < also.len() implies (m2.regs)(#[trigger] also[i]) == (
        m1.regs)(also[i]) by {
            if exit.contains(also[i]) {
                assert((m2.regs)(also[i]) == (m1.regs)(also[i]));
            }
        }
        assert((m2.regs)(also[0]) == (m1.regs)(s.reg()));
        assert((m2.regs)(also[1]) == (m1.regs)(s.fresh_fp().reg()));
        let tgt = vm.lookup(vm.universe.double_klass, ic.selector)->0;
        let pr = vm.m(tgt).primitive;
        let args = f.stack.subrange(n - 2, n);
        assert(args[0] == f.stack[n - 2] && args[1] == f.stack[n - 1]);
        assert((w.method)(vm.universe.double_klass, ic.selector) == Some(tgt));
        assert(primitive_answer(w, vm.universe, pr, args, f.mem) is Some);
        crate::faithful_sends::lemma_primitive(w, vm, ic, f, vm.universe.double_klass, tgt);
        let g = answered(w, ic, f);
        assert(g.stack.drop_last() =~= f.stack.subrange(0, n - 2));
        let none: Set<VReg> = Set::empty();
        assert(values(m1.regs, exit) =~= f.stack.subrange(0, n - 2)) by {
            assert forall|i: int| 0 <= i < exit.len() implies (m1.regs)(#[trigger] exit[i])
                == f.stack[i] by {
                assert(exit[i] == s.seg.stack[i]);
                assert(s.seg.stack[i].0 < s.out.vregs.len());
                assert(!none.contains(exit[i]));
                assert(values(m.regs, s.seg.stack)[i] == (m.regs)(s.seg.stack[i]));
            }
        }
    }
}

/// The end of a spliced block leads where interpreting the callee goes, in the blocks that stand for
/// its blocks.
pub proof fn law_spliced_blocks_lead_where_the_bytecode_goes(
    e: Env,
    vm: VmState,
    x: ExtentView,
    b: int,
    last: usize,
    s: St,
    reach: Seq<bool>,
    wr: Set<VReg>,
    f: Frame,
    m: Mach,
)
    requires
        e.u == vm.universe,
        standing(s, x.this, x.slots, wr, f, e.w, m),
        x.m.cfg.blocks@[b].terminator is Branch ==> s.depth() > 0,
        graft_terminator(x, b, last, s, reach) is Some,
        end_clear(
            x.sources,
            x.entry_stacks,
            x.m.cfg.blocks@[b].terminator,
            if x.m.cfg.blocks@[b].terminator is Branch {
                s.seg.stack.drop_last()
            } else {
                s.seg.stack
            },
            seq![x.this, s.top(0)] + x.slots,
        ),
    ensures
        ({
            let (t, reach1) = graft_terminator(x, b, last, s, reach)->0;
            let term = x.m.cfg.blocks@[b].terminator;
            let flow = ran(e, t.seg.code, s.seg.code.len() as int, m);
            let exit = if term is Branch {
                s.seg.stack.drop_last()
            } else {
                s.seg.stack
            };
            let left = if term is Branch {
                f.stack.drop_last()
            } else {
                f.stack
            };
            &&& extends(s.seg.code, t.seg.code)
            &&& match successor(e.w, vm, term, f.stack.last()) {
                Some(y) => leads_to(
                    flow,
                    x.ids[y as int],
                    x.sources,
                    x.entry_stacks,
                    y as int,
                    exit,
                    left,
                    f.mem,
                ),
                None => flow matches Flow::To(c, m1) && runs_again(
                    t.out.blocks,
                    s.out.blocks.len(),
                    c,
                    last,
                    Some(x.proto),
                    m1,
                    x.this,
                    x.slots,
                    f,
                ),
            }
        }),
{
    let term = x.m.cfg.blocks@[b].terminator;
    let (t, reach1) = graft_terminator(x, b, last, s, reach)->0;
    let also = seq![x.this, s.top(0)] + x.slots;
    let from = s.seg.code.len() as int;
    match term {
        Terminator::Return => {},
        Terminator::Fallthrough(y) => {
            lemma_feed(e, x.sources, x.entry_stacks, y as int, s.seg.stack, also, s.seg, m);
            let g = feed(x.sources, x.entry_stacks, y as int, s.seg.stack, s.seg)->0;
            let op: IrView = Ir::Jump { target: x.ids[y as int] };
            assert(t.seg.code == g.code.push(op));
            assert(ran(e, g.code.push(op), from, m) == exec(e, op, ran(e, g.code, from, m)->On_0));
        },
        Terminator::Jump { target, is_backward } => {
            let d = DeoptView {
                stack: s.seg.stack,
                bci: x.m.cfg.blocks@[target as int].bci_start,
                kind: crate::scopes::SafepointKind::LoopPoll,
                reexecute: true,
                stack_closures: seq![],
                inline: Some(x.proto),
            };
            let s0 = if is_backward {
                s.site(d).emit(Ir::Poll)
            } else {
                s
            };
            let g0 = s0.seg;
            let poll: IrView = Ir::Poll;
            if is_backward {
                assert(g0.code == s.seg.code.push(poll));
                assert(ran(e, s.seg.code.push(poll), from, m) == exec(e, poll, m));
            }
            assert(ran(e, g0.code, from, m) == Flow::On(m));
            assert(extends(s.seg.code, g0.code));
            lemma_feed(e, x.sources, x.entry_stacks, target as int, s.seg.stack, also, g0, m);
            let g = feed(x.sources, x.entry_stacks, target as int, s.seg.stack, g0)->0;
            lemma_ran_more(e, g0.code, g.code, from, m);
            let op: IrView = Ir::Jump { target: x.ids[target as int] };
            assert(t.seg.code == g.code.push(op));
            assert(ran(e, g.code.push(op), from, m) == exec(e, op, ran(e, g.code, from, m)->On_0));
        },
        Terminator::Branch { if_true, if_false } => {
            let exit = s.seg.stack.drop_last();
            let s1 = s.drop(1).with_out(
                s.out.trap(last, s.seg.stack, seq![], Some(x.proto)),
            );
            assert(s1.seg.stack == exit);
            assert(s1.seg.code == s.seg.code);
            lemma_feed_two(
                e,
                x.sources,
                x.entry_stacks,
                if_true as int,
                if_false as int,
                exit,
                also,
                s1.seg,
                m,
            );
            let g1 = feed(x.sources, x.entry_stacks, if_true as int, exit, s1.seg)->0;
            let g = feed(x.sources, x.entry_stacks, if_false as int, exit, g1)->0;
            let m2 = ran(e, g.code, from, m)->On_0;
            let op = t.seg.code.last();
            assert(t.seg.code == g.code.push(op));
            assert(ran(e, g.code.push(op), from, m) == exec(e, op, m2));
            let n = s.depth() as int;
            assert(also[1] == s.top(0));
            assert((m2.regs)(s.top(0)) == (m.regs)(s.top(0))) by {
                if !exit.contains(s.top(0)) {
                    assert((m2.regs)(also[1]) == (m.regs)(also[1]));
                }
            }
            assert(values(m.regs, s.seg.stack)[n - 1] == (m.regs)(s.top(0)));
            assert(values(m.regs, exit) =~= f.stack.drop_last());
            lemma_also(m, m2, s, x.this, x.slots, exit, also, f);
            let c = s.out.block_id();
            assert(t.out.blocks[c.0 as int] == Some(
                trap_block(c, last, s.seg.stack, seq![], Some(x.proto)),
            ));
        },
    }
}

} // verus!

//! What every step of a translation keeps: nothing in the output dangles. Operations name registers,
//! blocks, pool entries and call sites that exist, and deoptimization sites stand at operations.
//!
//! Register, pool and block numbers are 32 bits wide and call-site numbers 16, so each of the facts
//! is about outputs whose tables are no longer than that.

use vstd::prelude::*;
use crate::classify::{DoubleSendKind, SmiSendKind};
use crate::ir::{
    BlockId, BlockView, CallSiteInfo, DeoptView, InlineView, Ir, IrView, PoolEntry, PoolLit, VReg,
    VRegInfo,
};
use crate::ops::{
    alloc_op, alloc_out, array_op, body_send, count_cold, ctx_push, ctx_store, double_op,
    double_operands, not_op, ref_op, remember_class, send_op, simple, smi_op, trap_op,
};
use crate::kinds::{fp_ok, kinds_kept, reg_ok};
use crate::order::op_targets;
use crate::scopes::SafepointKind;
use crate::passes::{inline_refs, raw_refs};
use crate::translator::{pool_find, pool_oop, trap_block, CtxView, OutView, SegView, St};
use crate::world::{FeedbackView, Instr, InterpreterIc, KlassOop, Method, SymbolOop, VmState};

verus! {

broadcast use crate::kinds::group_kinds;

pub open spec fn regs_ok(s: Seq<VReg>, o: OutView) -> bool {
    forall|i: int| 0 <= i < s.len() ==> reg_ok(#[trigger] s[i], o)
}

pub open spec fn lit_ok(l: PoolLit, o: OutView) -> bool {
    o.pool.len() <= 0x1_0000_0000 ==> l.0 < o.pool.len()
}

pub open spec fn target_ok(b: BlockId, o: OutView) -> bool {
    b.0 < o.blocks.len()
}

/// The pool entry that an operation loads or compares with.
pub open spec fn op_lit(op: IrView) -> Option<PoolLit> {
    match op {
        Ir::ConstPool { lit, .. } => Some(lit),
        Ir::ArrayAt { klass, .. } => Some(klass),
        Ir::ArrayAtPut { klass, .. } => Some(klass),
        Ir::GuardKlass { expect, .. } => Some(expect),
        Ir::Alloc { klass, .. } => Some(klass),
        _ => None,
    }
}

/// The operands and the result of an operation exist and are of the kind that it works on.
pub open spec fn op_typed(op: IrView, o: OutView) -> bool {
    match op {
        Ir::FUnbox { dst, src, .. } => fp_ok(dst, o) && reg_ok(src, o),
        Ir::FBox { dst, src } => reg_ok(dst, o) && fp_ok(src, o),
        Ir::FArith { dst, a, b, .. } => fp_ok(dst, o) && fp_ok(a, o) && fp_ok(b, o),
        Ir::FCmpBr { a, b, .. } => fp_ok(a, o) && fp_ok(b, o),
        Ir::FCmpVal { dst, a, b, .. } => reg_ok(dst, o) && fp_ok(a, o) && fp_ok(b, o),
        Ir::FConst { dst, .. } => fp_ok(dst, o),
        _ => regs_ok(op.reads(), o) && (op.write() matches Some(d) ==> reg_ok(d, o)),
    }
}

/// What an operation names exists. The translation never gives up half-way.
pub open spec fn op_ok(op: IrView, o: OutView) -> bool {
    &&& op_typed(op, o)
    &&& forall|i: int|
        0 <= i < op_targets(op).len() ==> target_ok(#[trigger] op_targets(op)[i], o)
    &&& op_lit(op) matches Some(l) ==> lit_ok(l, o)
    &&& op matches Ir::CallSend { site, .. } ==> (o.call_sites.len() <= 0x1_0000 ==> site
        < o.call_sites.len())
    &&& !(op is Bailout)
}

pub open spec fn ops_ok(code: Seq<IrView>, o: OutView) -> bool {
    forall|i: int| 0 <= i < code.len() ==> op_ok(#[trigger] code[i], o)
}

/// The registers of a deoptimization site exist. Calls are not run again, everything else is.
pub open spec fn raw_ok(r: DeoptView, o: OutView) -> bool {
    &&& regs_ok(raw_refs(r), o)
    &&& r.reexecute == !(r.kind is Call)
}

/// A site of this kind stands at this operation.
pub open spec fn stands(kind: SafepointKind, op: IrView) -> bool {
    match kind {
        SafepointKind::Call => op is CallSend,
        SafepointKind::LoopPoll => op is Poll,
        SafepointKind::Alloc => op is Alloc,
        SafepointKind::UncommonTrap => op is UncommonTrap,
    }
}

pub open spec fn site_stands(d: (u32, DeoptView), code: Seq<IrView>) -> bool {
    code.len() <= 0x1_0000_0000 ==> d.0 < code.len() && stands(d.1.kind, code[d.0 as int])
}

/// Sites stand at operations of their kind.
pub open spec fn sites_ok(d: Seq<(u32, DeoptView)>, code: Seq<IrView>, o: OutView) -> bool {
    forall|i: int|
        0 <= i < d.len() ==> site_stands(#[trigger] d[i], code) && raw_ok(d[i].1, o)
}

pub open spec fn block_ok(b: BlockView, o: OutView) -> bool {
    &&& ops_ok(b.code, o)
    &&& regs_ok(b.entry_stack, o)
    &&& sites_ok(b.deopt_sites, b.code, o)
}

pub open spec fn pool_distinct(pool: Seq<PoolEntry>) -> bool {
    forall|i: int, j: int| 0 <= i < j < pool.len() ==> #[trigger] pool[i] != #[trigger] pool[j]
}

/// An unboxed double is no object.
pub open spec fn kinds_ok(vregs: Seq<VRegInfo>) -> bool {
    forall|i: int| 0 <= i < vregs.len() ==> !((#[trigger] vregs[i]).is_oop && vregs[i].is_fp)
}

/// The tables: finished blocks stand at their number, and pool entries differ.
#[verifier::opaque]
pub open spec fn out_ok(o: OutView) -> bool {
    &&& forall|i: int|
        0 <= i < o.blocks.len() && (#[trigger] o.blocks[i]) is Some ==> (o.blocks[i]->0).id.0 == i
            && block_ok(o.blocks[i]->0, o)
    &&& o.call_sites.len() == o.site_feedback.len()
    &&& pool_distinct(o.pool)
    &&& kinds_ok(o.vregs)
    &&& reg_ok(VReg(0), o)
    &&& o.pending_jump_target matches Some(t) ==> target_ok(t, o)
}

pub open spec fn grows(a: OutView, b: OutView) -> bool {
    &&& a.vregs.len() <= b.vregs.len()
    &&& kinds_kept(a.vregs, b.vregs)
    &&& a.pool.len() <= b.pool.len()
    &&& a.blocks.len() <= b.blocks.len()
    &&& a.call_sites.len() <= b.call_sites.len()
}

/// A state between operations.
#[verifier::opaque]
pub open spec fn ok(s: St) -> bool {
    &&& out_ok(s.out)
    &&& regs_ok(s.seg.stack, s.out)
    &&& ops_ok(s.seg.code, s.out)
    &&& sites_ok(s.seg.deopt, s.seg.code, s.out)
}

/// A state in which the last site still waits for its operation.
#[verifier::opaque]
pub open spec fn open_ok(s: St) -> bool {
    &&& out_ok(s.out)
    &&& regs_ok(s.seg.stack, s.out)
    &&& ops_ok(s.seg.code, s.out)
    &&& s.seg.deopt.len() > 0
    &&& sites_ok(s.seg.deopt.drop_last(), s.seg.code, s.out)
    &&& s.seg.deopt.last().0 == s.seg.code.len() as u32
    &&& raw_ok(s.seg.deopt.last().1, s.out)
}

proof fn lemma_op_grows(op: IrView, a: OutView, b: OutView)
    requires
        op_ok(op, a),
        grows(a, b),
    ensures
        op_ok(op, b),
{
    assert forall|i: int| 0 <= i < op_targets(op).len() implies target_ok(
        #[trigger] op_targets(op)[i],
        b,
    ) by {
        assert(target_ok(op_targets(op)[i], a));
    }
}

proof fn lemma_ops_grow(code: Seq<IrView>, a: OutView, b: OutView)
    requires
        ops_ok(code, a),
        grows(a, b),
    ensures
        ops_ok(code, b),
{
    assert forall|i: int| 0 <= i < code.len() implies op_ok(#[trigger] code[i], b) by {
        lemma_op_grows(code[i], a, b);
    }
}

proof fn lemma_raw_grows(r: DeoptView, a: OutView, b: OutView)
    requires
        raw_ok(r, a),
        grows(a, b),
    ensures
        raw_ok(r, b),
{
    let refs = raw_refs(r);
    assert forall|k: int| 0 <= k < refs.len() implies reg_ok(#[trigger] refs[k], b) by {
        assert(reg_ok(refs[k], a));
    }
}

/// Sites stay where they are when operations are appended.
proof fn lemma_sites_grow(
    d: Seq<(u32, DeoptView)>,
    code: Seq<IrView>,
    more: Seq<IrView>,
    a: OutView,
    b: OutView,
)
    requires
        sites_ok(d, code, a),
        grows(a, b),
    ensures
        sites_ok(d, code + more, b),
{
    assert forall|i: int| 0 <= i < d.len() implies site_stands(#[trigger] d[i], code + more)
        && raw_ok(d[i].1, b) by {
        assert(site_stands(d[i], code));
        lemma_raw_grows(d[i].1, a, b);
    }
}

proof fn lemma_sites_same(d: Seq<(u32, DeoptView)>, code: Seq<IrView>, a: OutView, b: OutView)
    requires
        sites_ok(d, code, a),
        grows(a, b),
    ensures
        sites_ok(d, code, b),
{
    lemma_sites_grow(d, code, seq![], a, b);
    assert(code + seq![] =~= code);
}

proof fn lemma_block_grows(x: BlockView, a: OutView, b: OutView)
    requires
        block_ok(x, a),
        grows(a, b),
    ensures
        block_ok(x, b),
{
    lemma_ops_grow(x.code, a, b);
    lemma_sites_same(x.deopt_sites, x.code, a, b);
}

/// Larger tables with the same blocks.
proof fn lemma_out_grows(a: OutView, b: OutView)
    requires
        out_ok(a),
        grows(a, b),
        b.blocks == a.blocks,
        b.call_sites.len() == b.site_feedback.len(),
        pool_distinct(b.pool),
        kinds_ok(b.vregs),
        b.pending_jump_target matches Some(t) ==> target_ok(t, b),
    ensures
        out_ok(b),
{
    reveal(out_ok);
    assert forall|i: int|
        0 <= i < b.blocks.len() && (#[trigger] b.blocks[i]) is Some implies (b.blocks[i]->0).id.0
        == i && block_ok(b.blocks[i]->0, b) by {
        assert(a.blocks[i] is Some);
        lemma_block_grows(a.blocks[i]->0, a, b);
    }
}

/// Counters and notes do not matter.
pub(crate) proof fn lemma_out_same(a: OutView, b: OutView)
    requires
        out_ok(a),
        b.vregs == a.vregs,
        b.pool == a.pool,
        b.blocks == a.blocks,
        b.call_sites == a.call_sites,
        b.site_feedback == a.site_feedback,
        b.pending_jump_target != a.pending_jump_target ==> (b.pending_jump_target matches Some(t)
            ==> target_ok(t, b)),
    ensures
        out_ok(b),
        grows(a, b),
{
    lemma_out_facts(a);
    lemma_out_grows(a, b);
}

pub(crate) proof fn lemma_out_facts(o: OutView)
    requires
        out_ok(o),
    ensures
        o.call_sites.len() == o.site_feedback.len(),
        pool_distinct(o.pool),
        kinds_ok(o.vregs),
        reg_ok(VReg(0), o),
        o.pending_jump_target matches Some(t) ==> target_ok(t, o),
{
    reveal(out_ok);
}

pub(crate) broadcast proof fn out_fresh(o: OutView, is_oop: bool)
    requires
        out_ok(o),
    ensures
        #[trigger] out_ok(o.fresh(is_oop)),
{
    lemma_out_facts(o);
    lemma_out_grows(o, o.fresh(is_oop));
}

pub(crate) broadcast proof fn out_fresh_fp(o: OutView)
    requires
        out_ok(o),
    ensures
        #[trigger] out_ok(o.fresh_fp()),
{
    lemma_out_facts(o);
    lemma_out_grows(o, o.fresh_fp());
}

proof fn lemma_pool_find(pool: Seq<PoolEntry>, e: PoolEntry, from: int)
    requires
        0 <= from <= pool.len(),
    ensures
        from <= pool_find(pool, e, from) <= pool.len(),
        pool_find(pool, e, from) < pool.len() ==> pool[pool_find(pool, e, from)] == e,
        forall|i: int| from <= i < pool_find(pool, e, from) ==> #[trigger] pool[i] != e,
    decreases pool.len() - from,
{
    if from < pool.len() && pool[from] != e {
        lemma_pool_find(pool, e, from + 1);
    }
}

pub(crate) broadcast proof fn out_intern(o: OutView, e: PoolEntry)
    requires
        out_ok(o),
    ensures
        #[trigger] out_ok(o.intern(e)),
{
    lemma_out_facts(o);
    lemma_pool_find(o.pool, e, 0);
    lemma_out_grows(o, o.intern(e));
}

/// An interned entry is in the pool.
pub(crate) broadcast proof fn lit_interned(o: OutView, e: PoolEntry)
    ensures
        #![trigger o.lit(e)]
        lit_ok(o.lit(e), o.intern(e)),
        o.pool.len() <= o.intern(e).pool.len(),
{
    lemma_pool_find(o.pool, e, 0);
}

pub(crate) broadcast proof fn out_new_block(o: OutView)
    requires
        out_ok(o),
    ensures
        #[trigger] out_ok(o.new_block()),
{
    reveal(out_ok);
    let n = o.new_block();
    assert forall|i: int|
        0 <= i < n.blocks.len() && (#[trigger] n.blocks[i]) is Some implies (n.blocks[i]->0).id.0
        == i && block_ok(n.blocks[i]->0, n) by {
        assert(o.blocks[i] is Some);
        lemma_block_grows(o.blocks[i]->0, o, n);
    }
}

pub(crate) broadcast proof fn out_finish(o: OutView, b: BlockView)
    requires
        out_ok(o),
        block_ok(b, o),
        b.id.0 < o.blocks.len(),
    ensures
        #[trigger] out_ok(o.finish(b)),
{
    reveal(out_ok);
    let n = o.finish(b);
    assert forall|i: int|
        0 <= i < n.blocks.len() && (#[trigger] n.blocks[i]) is Some implies (n.blocks[i]->0).id.0
        == i && block_ok(n.blocks[i]->0, n) by {
        if i != b.id.0 {
            assert(o.blocks[i] is Some);
            lemma_block_grows(o.blocks[i]->0, o, n);
        } else {
            lemma_block_grows(b, o, n);
        }
    }
}

pub(crate) broadcast proof fn out_trap(
    o: OutView,
    bci: usize,
    stack: Seq<VReg>,
    closures: Seq<(u16, u32)>,
    inline: Option<InlineView>,
)
    requires
        out_ok(o),
        o.can_block(),
        regs_ok(stack, o),
        inline matches Some(i) ==> regs_ok(inline_refs(i), o),
    ensures
        #[trigger] out_ok(o.trap(bci, stack, closures, inline)),
{
    let n = o.new_block();
    let b = trap_block(o.block_id(), bci, stack, closures, inline);
    out_new_block(o);
    let raw = b.deopt_sites[0].1;
    assert(regs_ok(raw_refs(raw), n));
    assert(block_ok(b, n));
    out_finish(n, b);
}

pub(crate) broadcast proof fn out_dep(o: OutView, k: KlassOop, sel: SymbolOop)
    requires
        out_ok(o),
    ensures
        #[trigger] out_ok(o.dep(k, sel)),
{
    lemma_out_same(o, o.dep(k, sel));
}

pub(crate) broadcast proof fn out_commit(o: OutView, cost: u32)
    requires
        out_ok(o),
    ensures
        #[trigger] out_ok(o.commit(cost)),
{
    lemma_out_same(o, o.commit(cost));
}

pub(crate) broadcast proof fn out_call_site(o: OutView, info: CallSiteInfo, f: FeedbackView)
    requires
        out_ok(o),
    ensures
        #[trigger] out_ok(o.call_site(info, f)),
{
    lemma_out_facts(o);
    lemma_out_grows(o, o.call_site(info, f));
}

pub(crate) broadcast proof fn ok_emit(s: St, op: IrView)
    requires
        ok(s),
        op_ok(op, s.out),
    ensures
        #[trigger] ok(s.emit(op)),
{
    reveal(ok);
    lemma_sites_grow(s.seg.deopt, s.seg.code, seq![op], s.out, s.out);
    assert(s.seg.code + seq![op] =~= s.emit(op).seg.code);
}

/// The operation that a site was waiting for.
pub(crate) broadcast proof fn ok_emit_at(s: St, op: IrView)
    requires
        open_ok(s),
        op_ok(op, s.out),
        stands(s.seg.deopt.last().1.kind, op),
    ensures
        #[trigger] ok(s.emit(op)),
{
    reveal(ok);
    reveal(open_ok);
    let d = s.seg.deopt;
    let t = s.emit(op);
    lemma_sites_grow(d.drop_last(), s.seg.code, seq![op], s.out, s.out);
    assert(s.seg.code + seq![op] =~= t.seg.code);
    assert forall|i: int| 0 <= i < d.len() implies site_stands(#[trigger] d[i], t.seg.code)
        && raw_ok(d[i].1, t.out) by {
        if i < d.len() - 1 {
            assert(d.drop_last()[i] == d[i]);
        } else {
            assert(d[i] == d.last());
        }
    }
}

pub(crate) broadcast proof fn ok_push(s: St, v: VReg)
    requires
        ok(s),
        reg_ok(v, s.out),
    ensures
        #[trigger] ok(s.push(v)),
{
    reveal(ok);
}

pub(crate) broadcast proof fn ok_drop(s: St, n: int)
    requires
        ok(s),
        0 <= n <= s.depth(),
    ensures
        #[trigger] ok(s.drop(n)),
{
    reveal(ok);
}

pub(crate) broadcast proof fn ok_with_stack(s: St, stack: Seq<VReg>)
    requires
        ok(s),
        regs_ok(stack, s.out),
    ensures
        #[trigger] ok(s.with_stack(stack)),
{
    reveal(ok);
}

proof fn lemma_seg_grows(s: St, o: OutView)
    requires
        regs_ok(s.seg.stack, s.out),
        ops_ok(s.seg.code, s.out),
        grows(s.out, o),
    ensures
        regs_ok(s.seg.stack, o),
        ops_ok(s.seg.code, o),
        sites_ok(s.seg.deopt, s.seg.code, s.out) ==> sites_ok(s.seg.deopt, s.seg.code, o),
        sites_ok(s.seg.deopt.drop_last(), s.seg.code, s.out) ==> sites_ok(
            s.seg.deopt.drop_last(),
            s.seg.code,
            o,
        ),
        s.seg.deopt.len() > 0 && raw_ok(s.seg.deopt.last().1, s.out) ==> raw_ok(
            s.seg.deopt.last().1,
            o,
        ),
{
    lemma_ops_grow(s.seg.code, s.out, o);
    if sites_ok(s.seg.deopt, s.seg.code, s.out) {
        lemma_sites_same(s.seg.deopt, s.seg.code, s.out, o);
    }
    if sites_ok(s.seg.deopt.drop_last(), s.seg.code, s.out) {
        lemma_sites_same(s.seg.deopt.drop_last(), s.seg.code, s.out, o);
    }
    if s.seg.deopt.len() > 0 && raw_ok(s.seg.deopt.last().1, s.out) {
        lemma_raw_grows(s.seg.deopt.last().1, s.out, o);
    }
}

pub(crate) broadcast proof fn ok_with_out(s: St, o: OutView)
    requires
        ok(s),
        out_ok(o),
        grows(s.out, o),
    ensures
        #[trigger] ok(s.with_out(o)),
{
    reveal(ok);
    lemma_seg_grows(s, o);
}

pub(crate) broadcast proof fn ok_fresh(s: St, is_oop: bool)
    requires
        ok(s),
    ensures
        #[trigger] ok(s.fresh(is_oop)),
{
    reveal(ok);
    out_fresh(s.out, is_oop);
    lemma_seg_grows(s, s.out.fresh(is_oop));
}

pub(crate) broadcast proof fn open_fresh(s: St, is_oop: bool)
    requires
        open_ok(s),
    ensures
        #[trigger] open_ok(s.fresh(is_oop)),
{
    reveal(open_ok);
    out_fresh(s.out, is_oop);
    lemma_seg_grows(s, s.out.fresh(is_oop));
}

pub(crate) broadcast proof fn ok_fresh_fp(s: St)
    requires
        ok(s),
    ensures
        #[trigger] ok(s.fresh_fp()),
{
    reveal(ok);
    out_fresh_fp(s.out);
    lemma_seg_grows(s, s.out.fresh_fp());
}

pub(crate) broadcast proof fn ok_intern(s: St, e: PoolEntry)
    requires
        ok(s),
    ensures
        #[trigger] ok(s.intern(e)),
{
    reveal(ok);
    out_intern(s.out, e);
    lemma_seg_grows(s, s.out.intern(e));
}

pub(crate) broadcast proof fn open_intern(s: St, e: PoolEntry)
    requires
        open_ok(s),
    ensures
        #[trigger] open_ok(s.intern(e)),
{
    reveal(open_ok);
    out_intern(s.out, e);
    lemma_seg_grows(s, s.out.intern(e));
}

pub(crate) broadcast proof fn open_site(s: St, raw: DeoptView)
    requires
        ok(s),
        raw_ok(raw, s.out),
    ensures
        #[trigger] open_ok(s.site(raw)),
{
    reveal(ok);
    reveal(open_ok);
    assert(s.site(raw).seg.deopt.drop_last() =~= s.seg.deopt);
}

pub(crate) broadcast proof fn ok_out(s: St)
    requires
        #[trigger] ok(s),
    ensures
        out_ok(s.out),
        reg_ok(VReg(0), s.out),
        regs_ok(s.seg.stack, s.out),
{
    reveal(ok);
    lemma_out_facts(s.out);
}

pub(crate) broadcast proof fn ok_load_oop(s: St, raw: u64)
    requires
        ok(s),
    ensures
        #[trigger] ok(s.load_oop(raw)),
{
    let e = pool_oop(raw);
    let s1 = s.intern(e).fresh(true);
    ok_intern(s, e);
    ok_fresh(s.intern(e), true);
    lit_interned(s.out, e);
    let op = Ir::ConstPool::<Seq<VReg>> { dst: s.reg(), lit: s.lit(e) };
    assert(op_ok(op, s1.out));
    ok_emit(s1, op);
}

pub broadcast group group_steps {
    out_fresh,
    out_fresh_fp,
    out_intern,
    lit_interned,
    out_new_block,
    out_finish,
    out_trap,
    out_dep,
    out_commit,
    out_call_site,
    ok_emit,
    ok_emit_at,
    ok_push,
    ok_drop,
    ok_with_stack,
    ok_with_out,
    ok_fresh,
    open_fresh,
    ok_fresh_fp,
    ok_intern,
    open_intern,
    open_site,
    ok_out,
    ok_load_oop,
}

/// What a step promises.
pub open spec fn steps(s: St, t: Option<St>) -> bool {
    t matches Some(t) ==> ok(t) && grows(s.out, t.out)
}

pub(crate) proof fn lemma_simple(
    vm: VmState,
    m: Method,
    i: Instr,
    this: VReg,
    slots: Seq<VReg>,
    track: bool,
    s: St,
)
    requires
        ok(s),
        reg_ok(this, s.out),
        regs_ok(slots, s.out),
    ensures
        steps(s, simple(vm, m, i, this, slots, track, s)),
{
    broadcast use group_steps;

    match i {
        Instr::PushGlobal(x) => {
            let lit = m.literals@[x as int];
            let s1 = s.load_oop(lit.raw);
            let d = s1.reg();
            let s2 = s1.fresh(true).emit(
                Ir::LoadField {
                    dst: d,
                    obj: s.reg(),
                    byte_off: crate::world::ASSOC_VALUE_OFFSET,
                },
            );
            assert(ok(s2));
            let s3 = remember_class(s2, track, d, lit.global_klass);
            if lit.global_klass is Some && track {
                lemma_out_same(s2.out, s3.out);
            }
        },
        _ => {},
    }
}

pub(crate) proof fn lemma_ctx_push(cx: CtxView, ctx: Option<VReg>, idx: u16, s: St)
    requires
        ok(s),
        ctx matches Some(c) ==> reg_ok(c, s.out),
        regs_ok(cx.ctx_vregs, s.out),
    ensures
        steps(s, ctx_push(cx, ctx, idx, s)),
{
    broadcast use group_steps;

}

pub(crate) proof fn lemma_ctx_store(cx: CtxView, ctx: Option<VReg>, idx: u16, s: St)
    requires
        ok(s),
        ctx matches Some(c) ==> reg_ok(c, s.out),
        regs_ok(cx.ctx_vregs, s.out),
    ensures
        steps(s, ctx_store(cx, ctx, idx, s)),
{
    broadcast use group_steps;

}

/// The registers of the surrounding frames exist.
pub open spec fn inline_ok(i: Option<InlineView>, o: OutView) -> bool {
    i matches Some(i) ==> regs_ok(inline_refs(i), o)
}

pub(crate) proof fn lemma_array_op(vm: VmState, is_put: bool, bci: usize, inline: Option<InlineView>, s: St)
    requires
        ok(s),
        inline_ok(inline, s.out),
    ensures
        steps(s, array_op(vm, is_put, bci, inline, s)),
{
    broadcast use group_steps;

}

pub(crate) proof fn lemma_ref_op(neq: bool, s: St)
    requires
        ok(s),
    ensures
        steps(s, ref_op(neq, s)),
{
    broadcast use group_steps;

}

pub(crate) proof fn lemma_not_op(
    vm: VmState,
    sel: SymbolOop,
    bci: usize,
    inline: Option<InlineView>,
    s: St,
)
    requires
        ok(s),
        inline_ok(inline, s.out),
    ensures
        steps(s, not_op(vm, sel, bci, inline, s)),
{
    broadcast use group_steps;

}

pub(crate) proof fn lemma_smi_op(kind: SmiSendKind, bci: usize, inline: Option<InlineView>, s: St)
    requires
        ok(s),
        inline_ok(inline, s.out),
    ensures
        steps(s, smi_op(kind, bci, inline, s)),
{
    broadcast use group_steps;

}

pub(crate) proof fn lemma_double_operands(bci: usize, inline: Option<InlineView>, s: St)
    requires
        ok(s),
        inline_ok(inline, s.out),
    ensures
        steps(s, double_operands(bci, inline, s)),
        double_operands(bci, inline, s) matches Some(t) ==> fp_ok(s.reg(), t.out) && fp_ok(
            s.fresh_fp().reg(),
            t.out,
        ),
{
    broadcast use group_steps;

}

pub(crate) proof fn lemma_double_op(kind: DoubleSendKind, bci: usize, inline: Option<InlineView>, s: St)
    requires
        ok(s),
        inline_ok(inline, s.out),
    ensures
        steps(s, double_op(kind, bci, inline, s)),
{
    broadcast use group_steps;

    lemma_double_operands(bci, inline, s);
}

pub(crate) proof fn lemma_alloc_op(
    k: KlassOop,
    size_words: u32,
    bci: usize,
    inline: Option<InlineView>,
    s: St,
)
    requires
        ok(s),
        inline_ok(inline, s.out),
    ensures
        steps(s, alloc_op(k, size_words, bci, inline, s)),
{
    broadcast use group_steps;

}

pub(crate) proof fn lemma_send_op(
    ic: InterpreterIc,
    static_klass: Option<KlassOop>,
    bci: usize,
    closures: Seq<(u16, u32)>,
    inline: Option<InlineView>,
    s: St,
)
    requires
        ok(s),
        inline_ok(inline, s.out),
    ensures
        steps(s, send_op(ic, static_klass, bci, closures, inline, s)),
{
    broadcast use group_steps;

}

pub(crate) proof fn lemma_trap_op(
    bci: usize,
    closures: Seq<(u16, u32)>,
    inline: Option<InlineView>,
    s: St,
)
    requires
        ok(s),
        inline_ok(inline, s.out),
    ensures
        ok(trap_op(bci, closures, inline, s)),
{
    broadcast use group_steps;

}

pub(crate) proof fn lemma_count_cold(cx: CtxView, ic: InterpreterIc, s: St)
    requires
        ok(s),
    ensures
        steps(s, count_cold(cx, ic, s)),
{
    broadcast use group_steps;

    if cx.osr && ic.feedback is Untaken && s.out.osr_cold_sends != u16::MAX {
        lemma_out_same(
            s.out,
            OutView { osr_cold_sends: (s.out.osr_cold_sends + 1) as u16, ..s.out },
        );
    }
}

pub(crate) proof fn lemma_body_send(
    cx: CtxView,
    ic: InterpreterIc,
    this: VReg,
    this_klass: Option<KlassOop>,
    bci: usize,
    closures: Seq<(u16, u32)>,
    proto: InlineView,
    s: St,
)
    requires
        ok(s),
        inline_ok(Some(proto), s.out),
    ensures
        body_send(cx, ic, this, this_klass, bci, closures, proto, s) matches Some(r) ==> steps(
            s,
            Some(r.0),
        ),
{
    broadcast use group_steps;

    lemma_count_cold(cx, ic, s);
    if count_cold(cx, ic, s) is Some {
        let s1 = count_cold(cx, ic, s)->0;
        lemma_trap_op(bci, closures, Some(proto), s1);
        lemma_send_op(ic, None, bci, closures, Some(proto), s1);
    }
}

pub(crate) proof fn lemma_alloc_out(
    vm: VmState,
    s: St,
    ic: InterpreterIc,
    receiver: VReg,
    this: VReg,
    this_klass: Option<KlassOop>,
)
    requires
        ok(s),
    ensures
        steps(s, Some(s.with_out(alloc_out(vm, s.out, ic, receiver, this, this_klass)))),
{
    broadcast use group_steps;

}

/// Appending operations that name what exists.
pub(crate) proof fn lemma_append_ops(s: St, ops: Seq<IrView>)
    requires
        ok(s),
        ops_ok(ops, s.out),
    ensures
        ok(St { seg: SegView { code: s.seg.code + ops, ..s.seg }, ..s }),
{
    reveal(ok);
    let t = St { seg: SegView { code: s.seg.code + ops, ..s.seg }, ..s };
    assert forall|i: int| 0 <= i < t.seg.code.len() implies op_ok(
        #[trigger] t.seg.code[i],
        t.out,
    ) by {
        if i >= s.seg.code.len() {
            assert(t.seg.code[i] == ops[i - s.seg.code.len()]);
        }
    }
    lemma_sites_grow(s.seg.deopt, s.seg.code, ops, s.out, s.out);
}

/// A filled block is sound where the state is.
pub(crate) proof fn lemma_filled(s: St, b: BlockView)
    requires
        ok(s),
        b.code == s.seg.code,
        b.deopt_sites == s.seg.deopt,
        regs_ok(b.entry_stack, s.out),
    ensures
        block_ok(b, s.out),
{
    reveal(ok);
}

/// A block starts out sound.
pub(crate) proof fn lemma_started(o: OutView, stack: Seq<VReg>)
    requires
        out_ok(o),
        regs_ok(stack, o),
    ensures
        ok(St { out: o, seg: SegView { stack, code: Seq::empty(), deopt: Seq::empty() } }),
{
    reveal(ok);
}

} // verus!

//! What every step of a translation keeps: each fail block serves one operation, and its sites stand
//! at its start. A fail block is finished before the operation that leaves to it is emitted, and
//! nobody else knows its number.

use vstd::prelude::*;
use crate::classify::{
    array_kind, double_kind, not_speculatable, ref_eq, smi_kind, DoubleSendKind, SmiSendKind,
};
use crate::copies::sites_first;
use crate::copyprop::fail_edge;
use crate::ir::{BlockId, BlockView, InlineView, IrView, PoolLit, VReg};
use crate::ops::{
    alloc_op, alloc_out, alloc_site, arg_is_pooled, array_op, body_send, count_cold, ctx_push,
    ctx_store, double_op, double_operands, not_op, ref_op, send_op, simple, smi_op,
};
use crate::splice::{
    alloc_or_send, block_body, block_send, block_walk, body_klass, body_slots, enter_body, guard_op,
    inline_leaf, inline_nonleaf, leaf_walk, method_proto, nil_temps, nlr_op, nonleaf_send,
    nonleaf_walk, SiteView,
};
use crate::translator::{pool_oop, put_block, CtxView, St};
use crate::world::{Instr, InterpreterIc, KlassOop, Method, SymbolOop, VmState};

verus! {

pub type Blocks = Seq<Option<BlockView>>;

/// Some operation fails to `e`.
pub open spec fn code_uses(code: Seq<IrView>, e: BlockId) -> bool {
    exists|p: int| 0 <= p < code.len() && fail_edge(#[trigger] code[p]) == Some(e)
}

/// No two operations fail to the same block.
pub open spec fn code_apart(code: Seq<IrView>) -> bool {
    forall|p: int, q: int|
        0 <= p < q < code.len() && fail_edge(#[trigger] code[p]) is Some ==> fail_edge(code[p])
            != fail_edge(#[trigger] code[q])
}

/// The block is finished, with its sites at its start.
pub open spec fn ready(bl: Blocks, e: BlockId) -> bool {
    e.0 < bl.len() && bl[e.0 as int] is Some && sites_first(bl[e.0 as int]->0)
}

/// Some operation of a finished block fails to `e`.
pub open spec fn blocks_use(bl: Blocks, e: BlockId) -> bool {
    exists|i: int|
        0 <= i < bl.len() && (#[trigger] bl[i]) is Some && code_uses((bl[i]->0).code, e)
}

/// Finished blocks and the code of an unfinished one: every fail block is ready and serves one
/// operation.
#[verifier::opaque]
pub open spec fn apart(bl: Blocks, code: Seq<IrView>) -> bool {
    &&& code_apart(code)
    &&& forall|i: int| 0 <= i < bl.len() && (#[trigger] bl[i]) is Some ==> code_apart((bl[i]->0).code)
    &&& forall|e: BlockId| #[trigger] code_uses(code, e) ==> ready(bl, e) && !blocks_use(bl, e)
    &&& forall|e: BlockId| #[trigger] blocks_use(bl, e) ==> ready(bl, e)
    &&& forall|i: int, j: int, e: BlockId|
        0 <= i < j < bl.len() && bl[i] is Some && bl[j] is Some ==> !(#[trigger] code_uses(
            (bl[i]->0).code,
            e,
        ) && #[trigger] code_uses((bl[j]->0).code, e))
}

/// Nothing fails to `e` yet.
#[verifier::opaque]
pub open spec fn unused(bl: Blocks, code: Seq<IrView>, e: BlockId) -> bool {
    !code_uses(code, e) && !blocks_use(bl, e)
}

/// Later blocks and code: finished blocks stay as they are, unfinished ones unfinished, and new
/// operations fail to new blocks.
#[verifier::opaque]
pub open spec fn extends(bl: Blocks, code: Seq<IrView>, bl2: Blocks, code2: Seq<IrView>) -> bool {
    &&& bl.len() <= bl2.len()
    &&& forall|i: int| 0 <= i < bl.len() ==> #[trigger] bl2[i] == bl[i]
    &&& forall|e: BlockId| #[trigger]
        code_uses(code2, e) ==> code_uses(code, e) || e.0 >= bl.len()
    &&& forall|e: BlockId| #[trigger]
        blocks_use(bl2, e) ==> blocks_use(bl, e) || e.0 >= bl.len()
}

proof fn lemma_uses_push(code: Seq<IrView>, op: IrView, e: BlockId)
    ensures
        code_uses(code.push(op), e) <==> code_uses(code, e) || fail_edge(op) == Some(e),
{
    let c = code.push(op);
    if code_uses(code, e) {
        let p = choose|p: int| 0 <= p < code.len() && fail_edge(#[trigger] code[p]) == Some(e);
        assert(c[p] == code[p]);
    }
    if fail_edge(op) == Some(e) {
        assert(c[code.len() as int] == op);
    }
    if code_uses(c, e) {
        let p = choose|p: int| 0 <= p < c.len() && fail_edge(#[trigger] c[p]) == Some(e);
        if p < code.len() {
            assert(c[p] == code[p]);
        }
    }
}

/// An operation that cannot fail, or fails to a block that is ready and unused.
pub(crate) broadcast proof fn apart_push(bl: Blocks, code: Seq<IrView>, op: IrView)
    requires
        apart(bl, code),
        fail_edge(op) matches Some(e) ==> ready(bl, e) && unused(bl, code, e),
    ensures
        #[trigger] apart(bl, code.push(op)),
{
    reveal(apart);
    reveal(unused);
    let c = code.push(op);
    assert forall|e: BlockId| #[trigger] code_uses(c, e) implies ready(bl, e) && !blocks_use(
        bl,
        e,
    ) by {
        lemma_uses_push(code, op, e);
    }
    assert forall|p: int, q: int|
        0 <= p < q < c.len() && fail_edge(#[trigger] c[p]) is Some implies fail_edge(c[p])
        != fail_edge(#[trigger] c[q]) by {
        assert(c[p] == code[p]);
        if q < code.len() {
            assert(c[q] == code[q]);
        } else if fail_edge(c[p]) == fail_edge(op) {
            assert(code_uses(code, fail_edge(op)->0));
        }
    }
}

/// A new block without fail edges, finished or not.
spec fn grown(bl: Blocks, bl2: Blocks) -> bool {
    &&& bl2.len() == bl.len() + 1
    &&& forall|i: int| 0 <= i < bl.len() ==> #[trigger] bl2[i] == bl[i]
    &&& bl2[bl.len() as int] matches Some(b) ==> forall|p: int|
        0 <= p < b.code.len() ==> fail_edge(#[trigger] b.code[p]) is None
}

proof fn lemma_grown_uses(bl: Blocks, bl2: Blocks, e: BlockId)
    requires
        grown(bl, bl2),
    ensures
        blocks_use(bl2, e) <==> blocks_use(bl, e),
{
    if blocks_use(bl, e) {
        let i = choose|i: int|
            0 <= i < bl.len() && (#[trigger] bl[i]) is Some && code_uses((bl[i]->0).code, e);
        assert(bl2[i] == bl[i]);
    }
    if blocks_use(bl2, e) {
        let i = choose|i: int|
            0 <= i < bl2.len() && (#[trigger] bl2[i]) is Some && code_uses((bl2[i]->0).code, e);
        if i < bl.len() {
            assert(bl2[i] == bl[i]);
        }
    }
}

proof fn lemma_grown(bl: Blocks, code: Seq<IrView>, bl2: Blocks)
    requires
        apart(bl, code),
        grown(bl, bl2),
    ensures
        apart(bl2, code),
{
    reveal(apart);
    assert forall|e: BlockId| #[trigger] code_uses(code, e) implies ready(bl2, e) && !blocks_use(
        bl2,
        e,
    ) by {
        lemma_grown_uses(bl, bl2, e);
        assert(ready(bl, e));
    }
    assert forall|e: BlockId| #[trigger] blocks_use(bl2, e) implies ready(bl2, e) by {
        lemma_grown_uses(bl, bl2, e);
        assert(ready(bl, e));
    }
    assert forall|i: int| 0 <= i < bl2.len() && (#[trigger] bl2[i]) is Some implies code_apart(
        (bl2[i]->0).code,
    ) by {
        if i < bl.len() {
            assert(bl2[i] == bl[i]);
        }
    }
    assert forall|i: int, j: int, e: BlockId|
        0 <= i < j < bl2.len() && bl2[i] is Some && bl2[j] is Some implies !(#[trigger] code_uses(
        (bl2[i]->0).code,
        e,
    ) && #[trigger] code_uses((bl2[j]->0).code, e)) by {
        assert(bl2[i] == bl[i]);
        if j < bl.len() {
            assert(bl2[j] == bl[j]);
            assert(bl[i] is Some && bl[j] is Some);
        }
    }
}

/// Nothing in the block fails.
pub open spec fn no_edges(b: BlockView) -> bool {
    forall|p: int| 0 <= p < b.code.len() ==> fail_edge(#[trigger] b.code[p]) is None
}

proof fn lemma_trap_grown(bl: Blocks, i: int, b: BlockView)
    requires
        i == bl.len(),
        no_edges(b),
    ensures
        grown(bl, put_block(bl.push(None), i, b)),
{
}

pub(crate) broadcast proof fn apart_new_block(bl: Blocks, code: Seq<IrView>)
    requires
        apart(bl, code),
    ensures
        #[trigger] apart(bl.push(None), code),
{
    lemma_grown(bl, code, bl.push(None));
}

pub(crate) broadcast proof fn apart_trap(bl: Blocks, code: Seq<IrView>, i: int, b: BlockView)
    requires
        apart(bl, code),
        i == bl.len(),
        no_edges(b),
    ensures
        #[trigger] apart(put_block(bl.push(None), i, b), code),
{
    lemma_trap_grown(bl, i, b);
    lemma_grown(bl, code, put_block(bl.push(None), i, b));
}

pub(crate) broadcast proof fn unused_new(bl: Blocks, code: Seq<IrView>, e: BlockId)
    requires
        apart(bl, code),
        e.0 >= bl.len(),
    ensures
        #[trigger] unused(bl, code, e),
{
    reveal(apart);
    reveal(unused);
}

pub(crate) broadcast proof fn unused_push(bl: Blocks, code: Seq<IrView>, op: IrView, e: BlockId)
    requires
        unused(bl, code, e),
        fail_edge(op) != Some(e),
    ensures
        #[trigger] unused(bl, code.push(op), e),
{
    reveal(unused);
    lemma_uses_push(code, op, e);
}

pub(crate) broadcast proof fn unused_new_block(bl: Blocks, code: Seq<IrView>, e: BlockId)
    requires
        unused(bl, code, e),
    ensures
        #[trigger] unused(bl.push(None), code, e),
{
    reveal(unused);
    lemma_grown_uses(bl, bl.push(None), e);
}

pub(crate) broadcast proof fn unused_trap(
    bl: Blocks,
    code: Seq<IrView>,
    i: int,
    b: BlockView,
    e: BlockId,
)
    requires
        unused(bl, code, e),
        i == bl.len(),
        no_edges(b),
    ensures
        #[trigger] unused(put_block(bl.push(None), i, b), code, e),
{
    reveal(unused);
    lemma_trap_grown(bl, i, b);
    lemma_grown_uses(bl, put_block(bl.push(None), i, b), e);
}

pub(crate) broadcast proof fn extends_same(bl: Blocks, code: Seq<IrView>)
    ensures
        #[trigger] extends(bl, code, bl, code),
{
    reveal(extends);
}

pub(crate) broadcast proof fn extends_push(
    bl: Blocks,
    code: Seq<IrView>,
    bl2: Blocks,
    code2: Seq<IrView>,
    op: IrView,
)
    requires
        extends(bl, code, bl2, code2),
        fail_edge(op) matches Some(e) ==> e.0 >= bl.len(),
    ensures
        #[trigger] extends(bl, code, bl2, code2.push(op)),
{
    reveal(extends);
    assert forall|e: BlockId| #[trigger] code_uses(code2.push(op), e) implies code_uses(code, e)
        || e.0 >= bl.len() by {
        lemma_uses_push(code2, op, e);
    }
}

proof fn lemma_extends_grown(
    bl: Blocks,
    code: Seq<IrView>,
    bl2: Blocks,
    code2: Seq<IrView>,
    bl3: Blocks,
)
    requires
        extends(bl, code, bl2, code2),
        grown(bl2, bl3),
    ensures
        extends(bl, code, bl3, code2),
{
    reveal(extends);
    assert forall|i: int| 0 <= i < bl.len() implies #[trigger] bl3[i] == bl[i] by {
        assert(bl2[i] == bl[i]);
    }
    assert forall|e: BlockId| #[trigger] blocks_use(bl3, e) implies blocks_use(bl, e) || e.0
        >= bl.len() by {
        lemma_grown_uses(bl2, bl3, e);
    }
}

pub(crate) broadcast proof fn extends_new_block(
    bl: Blocks,
    code: Seq<IrView>,
    bl2: Blocks,
    code2: Seq<IrView>,
)
    requires
        extends(bl, code, bl2, code2),
    ensures
        #[trigger] extends(bl, code, bl2.push(None), code2),
{
    lemma_extends_grown(bl, code, bl2, code2, bl2.push(None));
}

pub(crate) broadcast proof fn extends_trap(
    bl: Blocks,
    code: Seq<IrView>,
    bl2: Blocks,
    code2: Seq<IrView>,
    i: int,
    b: BlockView,
)
    requires
        extends(bl, code, bl2, code2),
        i == bl2.len(),
        no_edges(b),
    ensures
        #[trigger] extends(bl, code, put_block(bl2.push(None), i, b), code2),
{
    lemma_trap_grown(bl2, i, b);
    lemma_extends_grown(bl, code, bl2, code2, put_block(bl2.push(None), i, b));
}

pub broadcast group group_apart {
    apart_push,
    apart_new_block,
    apart_trap,
    unused_new,
    unused_push,
    unused_new_block,
    unused_trap,
    extends_same,
    extends_push,
    extends_new_block,
    extends_trap,
}

pub(crate) proof fn lemma_extends_trans(a: St, b: St, c: St)
    requires
        ext(a, b),
        ext(b, c),
    ensures
        ext(a, c),
{
    reveal(extends);
    assert forall|i: int| 0 <= i < a.out.blocks.len() implies #[trigger] c.out.blocks[i]
        == a.out.blocks[i] by {
        assert(b.out.blocks[i] == a.out.blocks[i]);
    }
}

/// A state in which every fail block serves one operation.
pub open spec fn ap(s: St) -> bool {
    apart(s.out.blocks, s.seg.code)
}

pub open spec fn ext(s: St, t: St) -> bool {
    &&& extends(s.out.blocks, s.seg.code, t.out.blocks, t.seg.code)
    &&& s.out.blocks.len() <= t.out.blocks.len()
}

/// What a step promises.
pub open spec fn goes(s: St, t: Option<St>) -> bool {
    t matches Some(t) ==> ap(t) && ext(s, t)
}

pub(crate) proof fn apart_simple(
    vm: VmState,
    m: Method,
    i: Instr,
    this: VReg,
    slots: Seq<VReg>,
    track: bool,
    s: St,
)
    requires
        ap(s),
    ensures
        goes(s, simple(vm, m, i, this, slots, track, s)),
{
    broadcast use group_apart;

}

pub(crate) proof fn apart_ctx_push(cx: CtxView, ctx: Option<VReg>, idx: u16, s: St)
    requires
        ap(s),
    ensures
        goes(s, ctx_push(cx, ctx, idx, s)),
{
    broadcast use group_apart;

}

pub(crate) proof fn apart_ctx_store(cx: CtxView, ctx: Option<VReg>, idx: u16, s: St)
    requires
        ap(s),
    ensures
        goes(s, ctx_store(cx, ctx, idx, s)),
{
    broadcast use group_apart;

}

pub(crate) proof fn apart_array_op(
    vm: VmState,
    is_put: bool,
    bci: usize,
    inline: Option<InlineView>,
    s: St,
)
    requires
        ap(s),
    ensures
        goes(s, array_op(vm, is_put, bci, inline, s)),
{
    broadcast use group_apart;

}

pub(crate) proof fn apart_ref_op(neq: bool, s: St)
    requires
        ap(s),
    ensures
        goes(s, ref_op(neq, s)),
{
    broadcast use group_apart;

}

pub(crate) proof fn apart_not_op(
    vm: VmState,
    sel: SymbolOop,
    bci: usize,
    inline: Option<InlineView>,
    s: St,
)
    requires
        ap(s),
    ensures
        goes(s, not_op(vm, sel, bci, inline, s)),
{
    broadcast use group_apart;

}

pub(crate) proof fn apart_smi_op(
    kind: SmiSendKind,
    bci: usize,
    inline: Option<InlineView>,
    s: St,
)
    requires
        ap(s),
    ensures
        goes(s, smi_op(kind, bci, inline, s)),
{
    broadcast use group_apart;

}

pub(crate) proof fn apart_double_operands(bci: usize, inline: Option<InlineView>, s: St)
    requires
        ap(s),
    ensures
        goes(s, double_operands(bci, inline, s)),
{
    broadcast use group_apart;

}

pub(crate) proof fn apart_double_op(
    kind: DoubleSendKind,
    bci: usize,
    inline: Option<InlineView>,
    s: St,
)
    requires
        ap(s),
    ensures
        goes(s, double_op(kind, bci, inline, s)),
{
    broadcast use group_apart;

    apart_double_operands(bci, inline, s);
}

pub(crate) proof fn apart_alloc_op(
    k: KlassOop,
    size_words: u32,
    bci: usize,
    inline: Option<InlineView>,
    s: St,
)
    requires
        ap(s),
    ensures
        goes(s, alloc_op(k, size_words, bci, inline, s)),
{
    broadcast use group_apart;

}

pub(crate) proof fn apart_send_op(
    ic: InterpreterIc,
    static_klass: Option<KlassOop>,
    bci: usize,
    closures: Seq<(u16, u32)>,
    inline: Option<InlineView>,
    s: St,
)
    requires
        ap(s),
    ensures
        goes(s, send_op(ic, static_klass, bci, closures, inline, s)),
{
    broadcast use group_apart;

}

pub(crate) proof fn apart_body_send(
    cx: CtxView,
    ic: InterpreterIc,
    this: VReg,
    this_klass: Option<KlassOop>,
    bci: usize,
    closures: Seq<(u16, u32)>,
    proto: InlineView,
    s: St,
)
    requires
        ap(s),
    ensures
        body_send(cx, ic, this, this_klass, bci, closures, proto, s) matches Some(r) ==> goes(
            s,
            Some(r.0),
        ),
{
    broadcast use group_apart;

    if count_cold(cx, ic, s) is Some {
        let s1 = count_cold(cx, ic, s)->0;
        assert(s1.out.blocks == s.out.blocks && s1.seg == s.seg);
        apart_send_op(ic, None, bci, closures, Some(proto), s1);
    }
}

/// Asking for an allocation leaves the blocks alone.
pub(crate) proof fn lemma_alloc_out_blocks(
    vm: VmState,
    s: St,
    ic: InterpreterIc,
    receiver: VReg,
    this: VReg,
    this_klass: Option<KlassOop>,
)
    ensures
        alloc_out(vm, s.out, ic, receiver, this, this_klass).blocks == s.out.blocks,
{
}

proof fn apart_guard_op(x: SiteView, closures: Seq<(u16, u32)>, s: St)
    requires
        ap(s),
    ensures
        goes(s, guard_op(x, closures, s)),
{
    broadcast use group_apart;

}

pub(crate) proof fn apart_nil_temps(lit: PoolLit, n: nat, s: St)
    requires
        ap(s),
    ensures
        goes(s, Some(nil_temps(lit, n, s))),
        nil_temps(lit, n, s).out.blocks == s.out.blocks,
    decreases n,
{
    broadcast use group_apart;

    if n > 0 {
        apart_nil_temps(lit, (n - 1) as nat, s);
    }
}

pub(crate) proof fn apart_enter_body(vm: VmState, x: SiteView, closures: Seq<(u16, u32)>, s: St)
    requires
        ap(s),
    ensures
        goes(s, enter_body(vm, x, closures, s)),
{
    apart_guard_op(x, closures, s);
    if guard_op(x, closures, s) is Some {
        let s1 = guard_op(x, closures, s)->0;
        let nil = pool_oop(vm.universe.nil_obj);
        let n = vm.m(x.callee).ntemps as nat;
        apart_nil_temps(s1.lit(nil), n, s1.intern(nil));
        lemma_extends_trans(s, s1, nil_temps(s1.lit(nil), n, s1.intern(nil)));
    }
}

proof fn apart_leaf_walk(vm: VmState, m: Method, this: VReg, slots: Seq<VReg>, bci: int, s: St)
    requires
        ap(s),
    ensures
        leaf_walk(vm, m, this, slots, bci, s) matches Some((t, _)) ==> goes(s, Some(t)),
    decreases m.code@.len() - bci,
{
    broadcast use group_apart;

    if bci < 0 || bci >= m.code@.len() || !(bci < m.next_at(bci) <= m.code@.len()) {
    } else {
        let i = m.instr_at(bci);
        if !(i is ReturnTos) && !(i is ReturnSelf) {
            apart_simple(vm, m, i, this, slots, false, s);
            match simple(vm, m, i, this, slots, false, s) {
                Some(s1) => {
                    apart_leaf_walk(vm, m, this, slots, m.next_at(bci), s1);
                    match leaf_walk(vm, m, this, slots, m.next_at(bci), s1) {
                        Some((t, _)) => lemma_extends_trans(s, s1, t),
                        None => {},
                    }
                },
                None => {},
            }
        }
    }
}

pub(crate) proof fn apart_inline_leaf(cx: CtxView, x: SiteView, s: St)
    requires
        ap(s),
    ensures
        inline_leaf(cx, x, s) matches Some((t, _)) ==> goes(s, Some(t)),
{
    broadcast use group_apart;

    let m = cx.vm.m(x.callee);
    apart_enter_body(cx.vm, x, seq![], s);
    match enter_body(cx.vm, x, seq![], s) {
        Some(s1) => {
            let slots = body_slots(cx.vm, x, s);
            apart_leaf_walk(cx.vm, m, x.receiver, slots, 0, s1);
            match leaf_walk(cx.vm, m, x.receiver, slots, 0, s1) {
                Some((t, _)) => lemma_extends_trans(s, s1, t),
                None => {},
            }
        },
        None => {},
    }
}

proof fn apart_alloc_or_send(
    cx: CtxView,
    ic: InterpreterIc,
    this: VReg,
    klass: Option<KlassOop>,
    bci: usize,
    proto: InlineView,
    s: St,
)
    requires
        ap(s),
    ensures
        alloc_or_send(cx, ic, this, klass, bci, proto, s) matches Some(r) ==> goes(s, Some(r.0)),
{
    apart_body_send(cx, ic, this, klass, bci, seq![], proto, s);
    if ic.argc == 0 && s.depth() > 0 {
        lemma_alloc_out_blocks(cx.vm, s, ic, s.top(0), this, klass);
        let s1 = s.with_out(alloc_out(cx.vm, s.out, ic, s.top(0), this, klass));
        apart_body_send(cx, ic, this, klass, bci, seq![], proto, s1);
        match alloc_site(cx.vm, s.out, ic, s.top(0), this, klass) {
            Some((k, n)) => apart_alloc_op(k, n, bci, Some(proto), s1),
            None => {},
        }
    }
}

proof fn apart_nonleaf_send(
    cx: CtxView,
    m: Method,
    ic: InterpreterIc,
    this: VReg,
    klass: Option<KlassOop>,
    bci: usize,
    proto: InlineView,
    s: St,
)
    requires
        ap(s),
    ensures
        nonleaf_send(cx, m, ic, this, klass, bci, proto, s) matches Some(r) ==> goes(s, Some(r.0)),
{
    let vm = cx.vm;
    if ref_eq(vm, ic) is Some {
        apart_ref_op(ref_eq(vm, ic)->0, s);
    } else if not_speculatable(vm, ic) {
        apart_not_op(vm, ic.selector, bci, Some(proto), s);
    } else if array_kind(vm, ic) is Some {
        apart_array_op(vm, array_kind(vm, ic)->0, bci, Some(proto), s);
    } else if smi_kind(vm, ic) is Some && !arg_is_pooled(s) {
        apart_smi_op(smi_kind(vm, ic)->0, bci, Some(proto), s);
    } else if double_kind(vm, ic) is Some {
        apart_double_op(double_kind(vm, ic)->0, bci, Some(proto), s);
    } else {
        apart_alloc_or_send(cx, ic, this, klass, bci, proto, s);
    }
}

proof fn apart_nonleaf_walk(
    cx: CtxView,
    m: Method,
    this: VReg,
    klass: Option<KlassOop>,
    slots: Seq<VReg>,
    proto: InlineView,
    bci: int,
    s: St,
)
    requires
        ap(s),
    ensures
        nonleaf_walk(cx, m, this, klass, slots, proto, bci, s) matches Some((t, _)) ==> goes(
            s,
            Some(t),
        ),
    decreases m.code@.len() - bci,
{
    broadcast use group_apart;

    if bci < 0 || bci >= m.code@.len() || !(bci < m.next_at(bci) <= m.code@.len()) {
    } else {
        let next = m.next_at(bci);
        match m.instr_at(bci) {
            Instr::ReturnTos => {},
            Instr::ReturnSelf => {},
            Instr::Send { ic, .. } => {
                let site = m.ics@[ic as int];
                apart_nonleaf_send(cx, m, site, this, klass, bci as usize, proto, s);
                match nonleaf_send(cx, m, site, this, klass, bci as usize, proto, s) {
                    Some((s1, trapped)) => if !trapped {
                        apart_nonleaf_walk(cx, m, this, klass, slots, proto, next, s1);
                        match nonleaf_walk(cx, m, this, klass, slots, proto, next, s1) {
                            Some((t, _)) => lemma_extends_trans(s, s1, t),
                            None => {},
                        }
                    },
                    None => {},
                }
            },
            i => {
                apart_simple(cx.vm, m, i, this, slots, true, s);
                match simple(cx.vm, m, i, this, slots, true, s) {
                    Some(s1) => {
                        apart_nonleaf_walk(cx, m, this, klass, slots, proto, next, s1);
                        match nonleaf_walk(cx, m, this, klass, slots, proto, next, s1) {
                            Some((t, _)) => lemma_extends_trans(s, s1, t),
                            None => {},
                        }
                    },
                    None => {},
                }
            },
        }
    }
}

pub(crate) proof fn apart_inline_nonleaf(cx: CtxView, x: SiteView, s: St)
    requires
        ap(s),
    ensures
        inline_nonleaf(cx, x, s) matches Some((t, _)) ==> goes(s, Some(t)),
{
    broadcast use group_apart;

    let m = cx.vm.m(x.callee);
    let s0 = s.intern(pool_oop(m.oop));
    apart_enter_body(cx.vm, x, seq![], s0);
    match enter_body(cx.vm, x, seq![], s0) {
        Some(s1) => {
            let klass = body_klass(cx, x);
            let slots = body_slots(cx.vm, x, s);
            let proto = method_proto(cx.vm, x, s);
            apart_nonleaf_walk(cx, m, x.receiver, klass, slots, proto, 0, s1);
            match nonleaf_walk(cx, m, x.receiver, klass, slots, proto, 0, s1) {
                Some((t, _)) => lemma_extends_trans(s, s1, t),
                None => {},
            }
        },
        None => {},
    }
}

proof fn apart_block_send(
    cx: CtxView,
    ic: InterpreterIc,
    this: VReg,
    klass: Option<KlassOop>,
    bci: usize,
    proto: InlineView,
    s: St,
)
    requires
        ap(s),
    ensures
        block_send(cx, ic, this, klass, bci, proto, s) matches Some(r) ==> goes(s, Some(r.0)),
{
    let vm = cx.vm;
    if array_kind(vm, ic) is Some {
        apart_array_op(vm, array_kind(vm, ic)->0, bci, Some(proto), s);
    } else if smi_kind(vm, ic) is Some && !arg_is_pooled(s) {
        apart_smi_op(smi_kind(vm, ic)->0, bci, Some(proto), s);
    } else if double_kind(vm, ic) is Some {
        apart_double_op(double_kind(vm, ic)->0, bci, Some(proto), s);
    } else {
        apart_body_send(cx, ic, this, klass, bci, seq![], proto, s);
    }
}

pub(crate) proof fn apart_nlr_op(s: St)
    requires
        ap(s),
    ensures
        goes(s, nlr_op(s)),
{
    broadcast use group_apart;

}

proof fn apart_block_walk(
    cx: CtxView,
    m: Method,
    this: VReg,
    klass: Option<KlassOop>,
    slots: Seq<VReg>,
    proto: InlineView,
    bci: int,
    s: St,
)
    requires
        ap(s),
    ensures
        block_walk(cx, m, this, klass, slots, proto, bci, s) matches Some((t, _)) ==> goes(
            s,
            Some(t),
        ),
    decreases m.code@.len() - bci, 0int,
{
    broadcast use group_apart;

    if bci < 0 || bci >= m.code@.len() || !(bci < m.next_at(bci) <= m.code@.len()) {
    } else {
        let next = m.next_at(bci);
        match m.instr_at(bci) {
            Instr::ReturnTos => {},
            Instr::BlockReturnTos => {},
            Instr::ReturnSelf => {},
            Instr::NlrTos => apart_nlr_op(s),
            Instr::Send { ic, .. } => {
                let site = m.ics@[ic as int];
                apart_block_send(cx, site, this, klass, bci as usize, proto, s);
                match block_send(cx, site, this, klass, bci as usize, proto, s) {
                    Some((s1, trapped)) => if !trapped {
                        apart_block_rest(cx, m, this, klass, slots, proto, bci, s, s1);
                    },
                    None => {},
                }
            },
            Instr::PushCtxTemp { idx, .. } => {
                apart_ctx_push(cx, cx.method_ctx_vreg, idx, s);
                match ctx_push(cx, cx.method_ctx_vreg, idx, s) {
                    Some(s1) => apart_block_rest(cx, m, this, klass, slots, proto, bci, s, s1),
                    None => {},
                }
            },
            Instr::StoreCtxTempPop { idx, .. } => {
                apart_ctx_store(cx, cx.method_ctx_vreg, idx, s);
                match ctx_store(cx, cx.method_ctx_vreg, idx, s) {
                    Some(s1) => apart_block_rest(cx, m, this, klass, slots, proto, bci, s, s1),
                    None => {},
                }
            },
            i => {
                apart_simple(cx.vm, m, i, this, slots, false, s);
                match simple(cx.vm, m, i, this, slots, false, s) {
                    Some(s1) => apart_block_rest(cx, m, this, klass, slots, proto, bci, s, s1),
                    None => {},
                }
            },
        }
    }
}

/// The rest of a walk, after a step from `s` to `s1`.
proof fn apart_block_rest(
    cx: CtxView,
    m: Method,
    this: VReg,
    klass: Option<KlassOop>,
    slots: Seq<VReg>,
    proto: InlineView,
    bci: int,
    s: St,
    s1: St,
)
    requires
        ap(s1),
        ext(s, s1),
        0 <= bci < m.next_at(bci) <= m.code@.len(),
    ensures
        block_walk(cx, m, this, klass, slots, proto, m.next_at(bci), s1) matches Some((t, _))
            ==> goes(s, Some(t)),
    decreases m.code@.len() - m.next_at(bci), 1int,
{
    let next = m.next_at(bci);
    apart_block_walk(cx, m, this, klass, slots, proto, next, s1);
    match block_walk(cx, m, this, klass, slots, proto, next, s1) {
        Some((t, _)) => lemma_extends_trans(s, s1, t),
        None => {},
    }
}

pub(crate) proof fn apart_block_body(
    cx: CtxView,
    m: Method,
    this: VReg,
    slots: Seq<VReg>,
    proto: InlineView,
    s: St,
)
    requires
        ap(s),
    ensures
        block_body(cx, m, this, slots, proto, s) matches Some((t, _)) ==> goes(s, Some(t)),
{
    let klass = if this == cx.self_vreg {
        Some(cx.rcvr_klass)
    } else {
        None
    };
    let s0 = s.with_out(s.out.commit(m.inline_cost)).with_stack(seq![]);
    apart_block_walk(cx, m, this, klass, slots, proto, 0, s0);
}

} // verus!

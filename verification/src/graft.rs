//! Splicing a body with control flow of its own: every block of the callee becomes a fresh block of
//! the method under translation, and every return leads to a continuation block.

use vstd::prelude::*;
use crate::classify::{
    array_kind, array_op_kind, bool_not_speculatable, classify_double_send, classify_smi_send,
    double_kind, not_speculatable, ref_eq, ref_eq_kind, smi_kind,
};
use crate::depths::{
    compute_entry_depths, depths_agree, emit_merges, entry_depths, entry_sources,
    entry_stack_sources, feed, stack_view, stack_views, EntryStackSource,
};
use crate::ir::{
    copy_regs, BlockId, BlockView, DeoptRaw, DeoptView, InlineSite, InlineView, Ir, IrBlock, VReg,
};
use crate::ops::{
    alloc_op, alloc_out, alloc_site, arg_is_pooled, array_op, body_send, ctx_push, ctx_store,
    double_op, not_op, ref_op, simple, smi_op,
};
use crate::scopes::SafepointKind;
use crate::splice::{
    block_body, body_klass, body_slots, enter_body, next_regs, nil_temps, nlr_op, plain, Site,
    SiteView,
};
use crate::translator::{pool_oop, st, Ctx, CtxView, OutView, Seg, SegView, St, Translator};
use crate::world::{Instr, InterpreterIc, KlassOop, Method, MethodOop, Terminator, VmState};

verus! {

/// An elided closure that rides into the callee as an argument.
#[derive(Clone, Copy)]
pub struct BlockArg {
    pub arg_ix: usize,
    pub block: MethodOop,
    pub pool_ix: u32,
}

/// What is being grafted.
pub enum GraftMode {
    /// A method: the splice relies on a lookup.
    Method,
    /// A literal block, inside the extent `parent` if any.
    Block { parent: Option<Box<InlineSite>> },
}

pub ghost struct GraftView {
    pub is_block: bool,
    pub parent: Option<Box<InlineView>>,
}

impl View for GraftMode {
    type V = GraftView;

    open spec fn view(&self) -> GraftView {
        match *self {
            GraftMode::Method => GraftView { is_block: false, parent: None },
            GraftMode::Block { parent } => GraftView {
                is_block: true,
                parent: match parent {
                    Some(p) => Some(Box::new(p.model())),
                    None => None,
                },
            },
        }
    }
}

/// What stays fixed while one body is grafted.
pub ghost struct ExtentView {
    pub m: Method,
    pub this: VReg,
    pub klass: Option<KlassOop>,
    pub slots: Seq<VReg>,
    pub proto: InlineView,
    pub is_block: bool,
    pub blockarg: Option<BlockArg>,
    pub dep_klass: KlassOop,
    pub send_bci: usize,
    /// Where returns leave the value, and where they lead.
    pub result: VReg,
    pub cont: BlockId,
    /// The fresh block of each callee block.
    pub ids: Seq<BlockId>,
    pub sources: Seq<EntryStackSource>,
    pub entry_stacks: Seq<Option<Seq<VReg>>>,
}

pub struct Extent<'a> {
    pub m: &'a Method,
    pub this: VReg,
    pub klass: Option<KlassOop>,
    pub slots: Vec<VReg>,
    pub proto: InlineSite,
    pub is_block: bool,
    pub blockarg: Option<BlockArg>,
    pub dep_klass: KlassOop,
    pub send_bci: usize,
    pub result: VReg,
    pub cont: BlockId,
    pub ids: Vec<BlockId>,
    pub sources: Vec<EntryStackSource>,
    pub entry_stacks: Vec<Option<Vec<VReg>>>,
}

impl<'a> View for Extent<'a> {
    type V = ExtentView;

    open spec fn view(&self) -> ExtentView {
        ExtentView {
            m: *self.m,
            this: self.this,
            klass: self.klass,
            slots: self.slots@,
            proto: self.proto.model(),
            is_block: self.is_block,
            blockarg: self.blockarg,
            dep_klass: self.dep_klass,
            send_bci: self.send_bci,
            result: self.result,
            cont: self.cont,
            ids: self.ids@,
            sources: self.sources@,
            entry_stacks: stack_views(self.entry_stacks@),
        }
    }
}

impl<'a> Extent<'a> {
    pub open spec fn wf(self, vm: VmState) -> bool {
        let n = self.m.cfg.blocks@.len();
        &&& self.m.wf(vm.methods@.len() as int)
        &&& self.ids@.len() == n
        &&& self.sources@.len() == n
        &&& self.entry_stacks@.len() == n
        &&& match self.blockarg {
            Some(a) => vm.has(a.block),
            None => true,
        }
        &&& forall|b: int|
            0 <= b < n ==> (#[trigger] self.sources@[b] matches EntryStackSource::Inherit(p) ==> p
                < n)
    }
}

pub open spec fn rank(blockarg: Option<BlockArg>) -> nat {
    if blockarg is Some {
        1
    } else {
        0
    }
}

/// `ph`, cut or padded to length `n`.
pub open spec fn resized(ph: Seq<bool>, n: nat) -> Seq<bool> {
    Seq::new(
        n,
        |i: int|
            if i < ph.len() {
                ph[i]
            } else {
                false
            },
    )
}

/// The stack entries that stand for the elided closure, as deoptimization overrides.
pub open spec fn phantom_closures(ph: Seq<bool>, ix: u32) -> Seq<(u16, u32)>
    decreases ph.len(),
{
    if ph.len() == 0 {
        seq![]
    } else {
        let rest = phantom_closures(ph.drop_last(), ix);
        if ph.last() {
            rest.push(((ph.len() - 1) as u16, ix))
        } else {
            rest
        }
    }
}

/// How the walk over one callee block ended.
pub enum WalkEnd {
    /// At the block's terminator.
    Fell,
    /// In an operation that leaves compiled code.
    Trapped,
    Returned,
}

/// Where the walk over one callee block stands: the state, which stack entries stand for the elided
/// closure, and the block being filled.
pub ghost struct Pos {
    pub s: St,
    pub ph: Seq<bool>,
    pub cur: BlockId,
}

/// The first block of a callee block takes its entry stack; later segments have none.
pub open spec fn seg_entry(x: ExtentView, b: int, cur: BlockId, entry: Seq<VReg>) -> Seq<VReg> {
    if cur == x.ids[b] {
        entry
    } else {
        seq![]
    }
}

pub open spec fn seg_block(
    x: ExtentView,
    b: int,
    cur: BlockId,
    entry: Seq<VReg>,
    seg: SegView,
) -> BlockView {
    BlockView {
        id: cur,
        bci: x.send_bci,
        code: seg.code,
        entry_stack: seg_entry(x, b, cur, entry),
        deopt_sites: seg.deopt,
    }
}

/// Leaves the callee with the value in `v`.
pub open spec fn return_op(x: ExtentView, v: VReg, s: St) -> St {
    s.emit(Ir::Move { dst: x.result, src: v }).emit(Ir::Jump { target: x.cont })
}

/// No operand of the last `n` stands for the elided closure.
pub open spec fn no_phantom(ph: Seq<bool>, n: int) -> bool {
    forall|i: int| 0 <= i < ph.len() && i >= ph.len() - n ==> !#[trigger] ph[i]
}

/// A fused operation that replaced the operands by one value.
pub open spec fn fused(s: Option<St>, ph: Seq<bool>) -> Option<(St, Seq<bool>, bool)> {
    match s {
        Some(x) => if x.depth() > 0 {
            Some((x, resized(ph, (x.depth() - 1) as nat).push(false), false))
        } else {
            None
        },
        None => None,
    }
}

/// A send that nothing in this file takes specially: plain, with the elided closures below its
/// operands recorded.
pub open spec fn graft_plain_send(
    cx: CtxView,
    x: ExtentView,
    ic: InterpreterIc,
    bci: usize,
    ph: Seq<bool>,
    s: St,
) -> Option<(St, Seq<bool>, bool)> {
    if s.depth() < ic.argc + 1 {
        None
    } else {
        let below = resized(ph, (s.depth() - ic.argc - 1) as nat);
        let closures = match x.blockarg {
            Some(a) => phantom_closures(below, a.pool_ix),
            None => seq![],
        };
        match body_send(cx, ic, x.this, x.klass, bci, closures, x.proto, s) {
            Some((s1, trapped)) => Some((s1, below, trapped)),
            None => None,
        }
    }
}

/// A send in a grafted body whose receiver is an ordinary value; `ph` is as long as the stack.
pub open spec fn graft_send(
    cx: CtxView,
    x: ExtentView,
    ic: InterpreterIc,
    bci: usize,
    ph: Seq<bool>,
    s: St,
) -> Option<(St, Seq<bool>, bool)> {
    let vm = cx.vm;
    if array_kind(vm, ic) is Some {
        fused(array_op(vm, array_kind(vm, ic)->0, bci, Some(x.proto), s), ph)
    } else if ref_eq(vm, ic) is Some && no_phantom(ph, 2) {
        fused(ref_op(ref_eq(vm, ic)->0, s), ph)
    } else if not_speculatable(vm, ic) && no_phantom(ph, 1) {
        fused(not_op(vm, ic.selector, bci, Some(x.proto), s), ph)
    } else if smi_kind(vm, ic) is Some && !arg_is_pooled(s) {
        fused(smi_op(smi_kind(vm, ic)->0, bci, Some(x.proto), s), ph)
    } else if double_kind(vm, ic) is Some {
        fused(double_op(double_kind(vm, ic)->0, bci, Some(x.proto), s), ph)
    } else if ic.argc == 0 && no_phantom(ph, ph.len() as int) && s.depth() > 0 {
        let s1 = s.with_out(alloc_out(vm, s.out, ic, s.top(0), x.this, x.klass));
        match alloc_site(vm, s.out, ic, s.top(0), x.this, x.klass) {
            Some((k, n)) => fused(alloc_op(k, n, bci, Some(x.proto), s1), ph),
            None => graft_plain_send(cx, x, ic, bci, ph, s1),
        }
    } else {
        graft_plain_send(cx, x, ic, bci, ph, s)
    }
}

/// The extent of a straight-line block body spliced into a grafted callee.
pub open spec fn inner_block_proto(
    cx: CtxView,
    x: ExtentView,
    a: BlockArg,
    slots: Seq<VReg>,
    bci: usize,
    below: Seq<VReg>,
) -> InlineView {
    InlineView {
        method_pool_ix: a.pool_ix,
        receiver: cx.self_vreg,
        slots,
        sender_bci: bci as u16,
        caller_pending_stack: below,
        is_block: true,
        parent: Some(Box::new(x.proto)),
        slot_closures: seq![],
    }
}

/// A send to the elided closure, whose body is one straight line: the body goes here.
#[verifier::opaque]
pub open spec fn inner_block(
    cx: CtxView,
    x: ExtentView,
    a: BlockArg,
    args: Seq<VReg>,
    bci: usize,
    s: St,
) -> Option<(St, Option<VReg>)> {
    let m = cx.vm.m(a.block);
    let nil = pool_oop(cx.vm.universe.nil_obj);
    let slots = args + next_regs(s.out, m.ntemps as nat);
    block_body(
        cx,
        m,
        cx.self_vreg,
        slots,
        inner_block_proto(cx, x, a, slots, bci, s.seg.stack),
        nil_temps(s.lit(nil), m.ntemps as nat, s.intern(nil)),
    )
}

/// The splice of a literal block at a send of a grafted callee.
pub open spec fn block_site(
    cx: CtxView,
    dep_klass: KlassOop,
    a: BlockArg,
    ic: InterpreterIc,
    args: Seq<VReg>,
    bci: usize,
) -> SiteView {
    Site {
        callee: a.block,
        guard: None,
        dep_klass,
        selector: ic.selector,
        receiver: cx.self_vreg,
        args,
        bci,
    }
}

/// The registers that each merging block owns, in block order: those of blocks `0..k`.
pub open spec fn merge_regs(
    sources: Seq<EntryStackSource>,
    depths: Seq<i32>,
    k: nat,
    out: OutView,
) -> Option<(OutView, Seq<Option<Seq<VReg>>>)>
    decreases k,
{
    if k == 0 {
        Some((out, seq![]))
    } else {
        match merge_regs(sources, depths, (k - 1) as nat, out) {
            None => None,
            Some((o, es)) => match sources[k - 1] {
                EntryStackSource::Empty => Some((o, es.push(Some(seq![])))),
                EntryStackSource::Inherit(_) => Some((o, es.push(None))),
                EntryStackSource::Merge => if depths[k - 1] < 0 {
                    None
                } else {
                    Some(
                        (
                            fresh_regs(o, depths[k - 1] as nat),
                            es.push(Some(next_regs(o, depths[k - 1] as nat))),
                        ),
                    )
                },
            },
        }
    }
}

/// `n` fresh object registers.
pub open spec fn fresh_regs(out: OutView, n: nat) -> OutView
    decreases n,
{
    if n == 0 {
        out
    } else {
        fresh_regs(out, (n - 1) as nat).fresh(true)
    }
}

/// `n` fresh block ids.
pub open spec fn fresh_blocks(out: OutView, n: nat) -> OutView
    decreases n,
{
    if n == 0 {
        out
    } else {
        fresh_blocks(out, (n - 1) as nat).new_block()
    }
}

pub open spec fn next_blocks(out: OutView, n: nat) -> Seq<BlockId> {
    Seq::new(n, |i: int| BlockId((out.blocks.len() + i) as u32))
}

proof fn lemma_fresh_regs(out: OutView, n: nat)
    ensures
        fresh_regs(out, n).vregs.len() == out.vregs.len() + n,
    decreases n,
{
    if n > 0 {
        lemma_fresh_regs(out, (n - 1) as nat);
    }
}

proof fn lemma_fresh_blocks(out: OutView, n: nat)
    ensures
        fresh_blocks(out, n).blocks.len() == out.blocks.len() + n,
    decreases n,
{
    if n > 0 {
        lemma_fresh_blocks(out, (n - 1) as nat);
    }
}

proof fn lemma_fresh_blocks_regs(out: OutView, n: nat)
    ensures
        fresh_blocks(out, n).vregs == out.vregs,
    decreases n,
{
    if n > 0 {
        lemma_fresh_blocks_regs(out, (n - 1) as nat);
    }
}

proof fn lemma_merge_regs_len(
    sources: Seq<EntryStackSource>,
    depths: Seq<i32>,
    k: nat,
    n: nat,
    out: OutView,
)
    requires
        k <= n,
        merge_regs(sources, depths, n, out) is Some,
    ensures
        merge_regs(sources, depths, k, out) is Some,
        (merge_regs(sources, depths, k, out)->0).1.len() == k,
    decreases n, k,
{
    if k < n {
        lemma_merge_regs_len(sources, depths, k, (n - 1) as nat, out);
    } else if k > 0 {
        lemma_merge_regs_len(sources, depths, (k - 1) as nat, (n - 1) as nat, out);
    }
}

impl Translator {
    /// Mints the registers that each merging block owns.
    pub(crate) fn mint_merge_regs(&mut self, sources: &Vec<EntryStackSource>, depths: &Vec<i32>) -> (r: Vec<
        Option<Vec<VReg>>,
    >)
        requires
            sources@.len() == depths@.len(),
            merge_regs(sources@, depths@, sources@.len(), old(self)@) is Some,
        ensures
            merge_regs(sources@, depths@, sources@.len(), old(self)@) == Some(
                (final(self)@, stack_views(r@)),
            ),
            r@.len() == sources@.len(),
    {
        let mut r: Vec<Option<Vec<VReg>>> = Vec::new();
        assert(stack_views(r@) =~= seq![]);
        for b in 0..sources.len()
            invariant
                sources@.len() == depths@.len(),
                merge_regs(sources@, depths@, sources@.len(), old(self)@) is Some,
                merge_regs(sources@, depths@, b as nat, old(self)@) == Some(
                    (self@, stack_views(r@)),
                ),
                r@.len() == b,
        {
            proof {
                lemma_merge_regs_len(
                    sources@,
                    depths@,
                    (b + 1) as nat,
                    sources@.len(),
                    old(self)@,
                );
            }
            let ghost r0 = r@;
            let ghost o = self@;
            match sources[b] {
                EntryStackSource::Empty => {
                    r.push(Some(Vec::new()));
                    assert(stack_views(r@) =~= stack_views(r0).push(Some(seq![])));
                },
                EntryStackSource::Inherit(_) => {
                    r.push(None);
                    assert(stack_views(r@) =~= stack_views(r0).push(None));
                },
                EntryStackSource::Merge => {
                    let n: i32 = depths[b];
                    let mut regs: Vec<VReg> = Vec::new();
                    assert(regs@ =~= next_regs(o, 0));
                    for k in 0..n
                        invariant
                            self@ == fresh_regs(o, k as nat),
                            regs@ == next_regs(o, k as nat),
                    {
                        proof {
                            lemma_fresh_regs(o, k as nat);
                        }
                        let v = self.fresh(true);
                        regs.push(v);
                        assert(regs@ =~= next_regs(o, (k + 1) as nat));
                    }
                    r.push(Some(regs));
                    assert(stack_views(r@) =~= stack_views(r0).push(Some(next_regs(o, n as nat))));
                },
            }
        }
        r
    }

    /// Mints `n` block ids.
    pub(crate) fn mint_blocks(&mut self, n: usize) -> (r: Vec<BlockId>)
        requires
            old(self)@.blocks.len() + n <= u32::MAX,
        ensures
            final(self)@ == fresh_blocks(old(self)@, n as nat),
            r@ == next_blocks(old(self)@, n as nat),
    {
        let mut r: Vec<BlockId> = Vec::new();
        assert(r@ =~= next_blocks(old(self)@, 0));
        for k in 0..n
            invariant
                old(self)@.blocks.len() + n <= u32::MAX,
                self@ == fresh_blocks(old(self)@, k as nat),
                r@ == next_blocks(old(self)@, k as nat),
        {
            proof {
                lemma_fresh_blocks(old(self)@, k as nat);
            }
            let id = self.fresh_block_id();
            r.push(id);
            assert(r@ =~= next_blocks(old(self)@, (k + 1) as nat));
        }
        r
    }
}

/// A private copy of the phantom flags, cut or padded to length `n`.
fn resize_flags(ph: &Vec<bool>, n: usize) -> (r: Vec<bool>)
    ensures
        r@ == resized(ph@, n as nat),
{
    let mut r: Vec<bool> = Vec::new();
    for i in 0..n
        invariant
            r@.len() == i,
            forall|j: int| 0 <= j < i ==> #[trigger] r@[j] == resized(ph@, n as nat)[j],
    {
        r.push(
            if i < ph.len() {
                ph[i]
            } else {
                false
            },
        );
    }
    assert(r@ =~= resized(ph@, n as nat));
    r
}

fn has_no_phantom(ph: &Vec<bool>, n: usize) -> (r: bool)
    ensures
        r == no_phantom(ph@, n as int),
{
    let len: usize = ph.len();
    let from: usize = if n < len {
        len - n
    } else {
        0
    };
    let mut i: usize = from;
    while i < len
        invariant
            len == ph@.len(),
            from <= i <= len,
            from == (if n < len {
                len - n
            } else {
                0
            }),
            forall|j: int| from <= j < i ==> !#[trigger] ph@[j],
        decreases len - i,
    {
        if ph[i] {
            return false;
        }
        i = i + 1;
    }
    true
}

fn collect_phantoms(ph: &Vec<bool>, ix: u32) -> (r: Vec<(u16, u32)>)
    ensures
        r@ == phantom_closures(ph@, ix),
{
    let mut r: Vec<(u16, u32)> = Vec::new();
    assert(ph@.take(0) =~= seq![]);
    for i in 0..ph.len()
        invariant
            r@ == phantom_closures(ph@.take(i as int), ix),
    {
        assert(ph@.take(i + 1).drop_last() =~= ph@.take(i as int));
        assert(ph@.take(i + 1).last() == ph@[i as int]);
        if ph[i] {
            r.push((i as u16, ix));
        }
    }
    assert(ph@.take(ph@.len() as int) =~= ph@);
    r
}

impl Translator {
    /// Translates a send of a grafted body whose receiver is an ordinary value. Returns the phantom
    /// flags after it, and whether it became a trap.
    fn translate_graft_send(
        &mut self,
        cx: &Ctx,
        x: &Extent,
        ic: &InterpreterIc,
        bci: usize,
        ph: &Vec<bool>,
        seg: &mut Seg,
    ) -> (r: (Vec<bool>, bool))
        requires
            cx.wf(),
            x.wf(*cx.vm),
            ic.wf(cx.vm.methods@.len() as int),
            ph@.len() == old(seg)@.stack.len(),
            graft_send(cx@, x@, *ic, bci, ph@, st(*old(self), *old(seg))) is Some,
        ensures
            graft_send(cx@, x@, *ic, bci, ph@, st(*old(self), *old(seg))) == Some(
                (st(*final(self), *final(seg)), r.0@, r.1),
            ),
    {
        let vm = cx.vm;
        let mut done = false;
        let pooled = seg.smi_fuse_arg_is_pooled();
        assert(pooled == arg_is_pooled(st(*self, *seg)));
        let clear2 = has_no_phantom(ph, 2);
        let clear1 = has_no_phantom(ph, 1);
        let smi = classify_smi_send(vm, ic);
        if let Some(is_put) = array_op_kind(vm, ic) {
            self.emit_array_op(vm, is_put, bci, Some(x.proto.copy()), seg);
            done = true;
        } else if ref_eq_kind(vm, ic).is_some() && clear2 {
            let neq: bool = ref_eq_kind(vm, ic).unwrap();
            self.emit_ref_op(neq, seg);
            done = true;
        } else if bool_not_speculatable(vm, ic) && clear1 {
            self.emit_not_op(vm, ic.selector, bci, Some(x.proto.copy()), seg);
            done = true;
        } else if smi.is_some() && !pooled {
            self.emit_smi_op(smi.unwrap(), bci, Some(x.proto.copy()), seg);
            done = true;
        } else if let Some(kind) = classify_double_send(vm, ic) {
            self.emit_double_op(kind, bci, Some(x.proto.copy()), seg);
            done = true;
        } else if ic.argc == 0 && has_no_phantom(ph, ph.len()) && seg.stack.len() > 0 {
            let recv = seg.stack[seg.stack.len() - 1];
            if let Some((k, n)) = self.alloc_site_klass(vm, ic, recv, x.this, x.klass) {
                self.emit_alloc_op(k, n, bci, Some(x.proto.copy()), seg);
                done = true;
            }
        }
        if done {
            let mut out = resize_flags(ph, seg.stack.len() - 1);
            out.push(false);
            return (out, false);
        }
        let below = resize_flags(ph, seg.stack.len() - ic.argc as usize - 1);
        let closures = match x.blockarg {
            Some(a) => collect_phantoms(&below, a.pool_ix),
            None => Vec::new(),
        };
        let trapped = self.emit_body_send(
            cx,
            ic,
            x.this,
            x.klass,
            bci,
            closures,
            &x.proto,
            seg,
        );
        (below, trapped)
    }
}

/// The extent of a grafted body that is entered in state `s`; `s0` is the state with the callee's
/// own pool entry in place, `s1` the state in which its temporaries are set.
pub open spec fn graft_extent(
    cx: CtxView,
    x: SiteView,
    blockarg: Option<BlockArg>,
    mode: GraftView,
    s: St,
    out: OutView,
    entry_stacks: Seq<Option<Seq<VReg>>>,
) -> ExtentView {
    let m = cx.vm.m(x.callee);
    let n = m.cfg.blocks@.len();
    let slots = body_slots(cx.vm, x, s);
    ExtentView {
        m,
        this: x.receiver,
        klass: body_klass(cx, x),
        slots,
        proto: InlineView {
            method_pool_ix: s.lit(pool_oop(m.oop)).0,
            receiver: x.receiver,
            slots,
            sender_bci: x.bci as u16,
            caller_pending_stack: s.seg.stack,
            is_block: mode.is_block,
            parent: mode.parent,
            slot_closures: slot_overrides(blockarg),
        },
        is_block: mode.is_block,
        blockarg,
        dep_klass: x.dep_klass,
        send_bci: x.bci,
        result: out.reg(),
        cont: BlockId((out.blocks.len() + n) as u32),
        ids: next_blocks(out, n),
        sources: entry_sources(m.cfg, entry_depths(m, m.cfg)),
        entry_stacks,
    }
}

/// The callee's slots that hold the elided closure.
pub open spec fn slot_overrides(blockarg: Option<BlockArg>) -> Seq<(u16, u32)> {
    match blockarg {
        Some(a) => seq![(a.arg_ix as u16, a.pool_ix)],
        None => seq![],
    }
}

/// The stack position of operand `arg_ix` of a send with `below` entries under its receiver.
pub open spec fn operand_position(below: nat, arg_ix: usize) -> u16 {
    ((below + 1 + arg_ix) % 0x10000) as u16
}

/// The elided closure among the operands of the guarded send itself.
pub open spec fn guard_closures(blockarg: Option<BlockArg>, below: nat) -> Seq<(u16, u32)> {
    match blockarg {
        Some(a) => seq![(operand_position(below, a.arg_ix), a.pool_ix)],
        None => seq![],
    }
}

/// The blocks and registers of a graft: one block per callee block, the continuation, the result
/// register and the registers of merging blocks.
pub open spec fn scaffold(m: Method, out: OutView) -> Option<(OutView, Seq<Option<Seq<VReg>>>)> {
    let n = m.cfg.blocks@.len();
    if out.blocks.len() + n + 1 > u32::MAX || !depths_agree(m, m.cfg) {
        None
    } else {
        merge_regs(
            entry_sources(m.cfg, entry_depths(m, m.cfg)),
            entry_depths(m, m.cfg),
            n,
            fresh_blocks(out, n + 1).fresh(true),
        )
    }
}

/// The state in which the walk over the callee's blocks starts, and the extent it works in. `None`
/// inside: the callee is of another shape.
pub open spec fn graft_start(
    cx: CtxView,
    x: SiteView,
    blockarg: Option<BlockArg>,
    mode: GraftView,
    s: St,
) -> Option<(St, Option<ExtentView>)> {
    let m = cx.vm.m(x.callee);
    if mode.is_block && s.out.spliced_multibb == u32::MAX {
        None
    } else {
        let sa = if mode.is_block {
            s.with_out(
                OutView { spliced_multibb: (s.out.spliced_multibb + 1) as u32, ..s.out },
            )
        } else {
            s
        };
        if (!mode.is_block && !m.eligible_cfg) || m.cfg.blocks@.len() == 0 || m.argc
            != x.args.len() {
            Some((sa, None))
        } else {
            match enter_body(
                cx.vm,
                x,
                guard_closures(blockarg, s.depth()),
                sa.intern(pool_oop(m.oop)),
            ) {
                None => None,
                Some(s1) => match scaffold(m, s1.out) {
                    None => None,
                    Some((o1, es)) => Some(
                        (
                            s1.with_stack(s.seg.stack).with_out(o1),
                            Some(graft_extent(cx, x, blockarg, mode, s, s1.out, es)),
                        ),
                    ),
                },
            }
        }
    }
}

/// The stack on which callee block `b` starts.
pub open spec fn block_entry(
    x: ExtentView,
    b: int,
    exits: Seq<Option<Seq<VReg>>>,
) -> Option<Seq<VReg>> {
    match x.sources[b] {
        EntryStackSource::Inherit(p) => exits[p as int],
        _ => x.entry_stacks[b],
    }
}

/// The start of the walk over callee block `b`.
pub open spec fn start_pos(x: ExtentView, b: int, s: St) -> Pos {
    Pos { s, ph: Seq::new(s.depth(), |i: int| false), cur: x.ids[b] }
}

/// The block that stands for a callee block that control never reaches.
pub open spec fn dead_block(id: BlockId, bci: usize) -> BlockView {
    BlockView { id, bci, code: seq![Ir::RetSelf], entry_stack: seq![], deopt_sites: seq![] }
}

/// The end of callee block `b`, reached in state `s`: what is emitted, and which blocks are now
/// known to be reached.
pub open spec fn graft_terminator(
    x: ExtentView,
    b: int,
    last: usize,
    s: St,
    reach: Seq<bool>,
) -> Option<(St, Seq<bool>)> {
    match x.m.cfg.blocks@[b].terminator {
        Terminator::Return => None,
        Terminator::Fallthrough(t) => match feed(
            x.sources,
            x.entry_stacks,
            t as int,
            s.seg.stack,
            s.seg,
        ) {
            Some(g) => Some(
                (
                    (St { seg: g, ..s }).emit(Ir::Jump { target: x.ids[t as int] }),
                    reach.update(t as int, true),
                ),
            ),
            None => None,
        },
        Terminator::Jump { target, is_backward } => {
            let s1 = if is_backward {
                s.site(
                    DeoptView {
                        stack: s.seg.stack,
                        bci: x.m.cfg.blocks@[target as int].bci_start,
                        kind: SafepointKind::LoopPoll,
                        reexecute: true,
                        stack_closures: seq![],
                        inline: Some(x.proto),
                    },
                ).emit(Ir::Poll)
            } else {
                s
            };
            match feed(x.sources, x.entry_stacks, target as int, s1.seg.stack, s1.seg) {
                Some(g) => Some(
                    (
                        (St { seg: g, ..s1 }).emit(Ir::Jump { target: x.ids[target as int] }),
                        reach.update(target as int, true),
                    ),
                ),
                None => None,
            }
        },
        Terminator::Branch { if_true, if_false } => if s.depth() == 0 || !s.out.can_block() {
            None
        } else {
            let s1 = s.drop(1).with_out(s.out.trap(last, s.seg.stack, seq![], Some(x.proto)));
            match feed(x.sources, x.entry_stacks, if_true as int, s1.seg.stack, s1.seg) {
                None => None,
                Some(g1) => match feed(
                    x.sources,
                    x.entry_stacks,
                    if_false as int,
                    s1.seg.stack,
                    g1,
                ) {
                    None => None,
                    Some(g2) => Some(
                        (
                            (St { seg: g2, ..s1 }).emit(
                                Ir::BoolBr {
                                    val: s.top(0),
                                    if_true: x.ids[if_true as int],
                                    if_false: x.ids[if_false as int],
                                    not_bool: s.out.block_id(),
                                },
                            ),
                            reach.update(if_true as int, true).update(if_false as int, true),
                        ),
                    ),
                },
            }
        },
    }
}

/// The instructions of a grafted body, sends aside.
pub open spec fn graft_instr(cx: CtxView, x: ExtentView, i: Instr, s: St) -> Option<(St, bool)> {
    match i {
        Instr::ReturnTos => if s.depth() > 0 {
            Some((return_op(x, s.top(0), s.drop(1)), true))
        } else {
            None
        },
        Instr::ReturnSelf => Some((return_op(x, x.this, s), true)),
        Instr::BlockReturnTos => if x.is_block && s.depth() > 0 {
            Some((return_op(x, s.top(0), s.drop(1)), true))
        } else {
            None
        },
        Instr::NlrTos => if x.is_block {
            match nlr_op(s) {
                Some(s1) => Some((s1, true)),
                None => None,
            }
        } else {
            None
        },
        Instr::PushCtxTemp { idx, .. } => if x.is_block {
            plain(ctx_push(cx, cx.method_ctx_vreg, idx, s))
        } else {
            None
        },
        Instr::StoreCtxTempPop { idx, .. } => if x.is_block {
            plain(ctx_store(cx, cx.method_ctx_vreg, idx, s))
        } else {
            None
        },
        Instr::JumpFwd(_) => Some((s, false)),
        Instr::JumpBack(_) => Some((s, false)),
        Instr::BrTrueFwd(_) => Some((s, false)),
        Instr::BrFalseFwd(_) => Some((s, false)),
        _ => plain(simple(cx.vm, x.m, i, x.this, x.slots, true, s)),
    }
}

/// Does this instruction push the elided closure?
pub open spec fn pushes_phantom(x: ExtentView, i: Instr) -> bool {
    match (i, x.blockarg) {
        (Instr::PushTemp(t), Some(a)) => t as usize == a.arg_ix,
        _ => false,
    }
}

/// A send to the elided closure: the body of the closure goes here.
pub open spec fn graft_block_send(
    cx: CtxView,
    x: ExtentView,
    b: int,
    entry: Seq<VReg>,
    a: BlockArg,
    ic: InterpreterIc,
    bci: usize,
    p: Pos,
) -> Option<(Pos, WalkEnd)>
    decreases rank(x.blockarg), 0nat, 0int,
{
    let depth = p.s.depth();
    let args = p.s.seg.stack.subrange(depth - ic.argc, depth as int);
    let s = p.s.drop(ic.argc + 1);
    let ph = resized(p.ph, s.depth());
    if x.blockarg is None {
        None
    } else if cx.vm.m(a.block).cfg.blocks@.len() > 1 {
        match graft_cfg(
            cx,
            block_site(cx, x.dep_klass, a, ic, args, bci),
            None,
            GraftView { is_block: true, parent: Some(Box::new(x.proto)) },
            s,
        ) {
            Some((s1, Some((res, enter, cont)))) => {
                let done = s1.seg.emit(Ir::Jump { target: enter });
                Some(
                    (
                        Pos {
                            s: St {
                                out: s1.out.finish(seg_block(x, b, p.cur, entry, done)),
                                seg: SegView {
                                    stack: s1.seg.stack.push(res),
                                    code: Seq::empty(),
                                    deopt: Seq::empty(),
                                },
                            },
                            ph: ph.push(false),
                            cur: cont,
                        },
                        WalkEnd::Fell,
                    ),
                )
            },
            _ => None,
        }
    } else {
        match inner_block(cx, x, a, args, bci, s) {
            Some((s1, Some(res))) => Some(
                (Pos { s: s1.push(res), ph: ph.push(false), cur: p.cur }, WalkEnd::Fell),
            ),
            Some((s1, None)) => Some((Pos { s: s1, ph, cur: p.cur }, WalkEnd::Trapped)),
            None => None,
        }
    }
}

/// One instruction of callee block `b`; `Fell` when the walk goes on.
pub open spec fn graft_step(
    cx: CtxView,
    x: ExtentView,
    b: int,
    entry: Seq<VReg>,
    bci: usize,
    i: Instr,
    p: Pos,
) -> Option<(Pos, WalkEnd)>
    decreases rank(x.blockarg), 1nat, 0int,
{
    match i {
        Instr::Send { ic, .. } => {
            let ic = x.m.ics@[ic as int];
            let depth = p.s.depth();
            let ph = resized(p.ph, depth);
            if depth < ic.argc + 1 {
                None
            } else if ph[depth - 1 - ic.argc] {
                match x.blockarg {
                    None => None,
                    Some(a) => graft_block_send(cx, x, b, entry, a, ic, bci, Pos { ph, ..p }),
                }
            } else {
                match graft_send(cx, x, ic, bci, ph, p.s) {
                    None => None,
                    Some((s1, ph1, trapped)) => Some(
                        (
                            Pos { s: s1, ph: ph1, cur: p.cur },
                            if trapped {
                                WalkEnd::Trapped
                            } else {
                                WalkEnd::Fell
                            },
                        ),
                    ),
                }
            }
        },
        _ => if pushes_phantom(x, i) {
            Some(
                (
                    Pos {
                        s: p.s.push(x.this),
                        ph: resized(p.ph, p.s.depth()).push(true),
                        cur: p.cur,
                    },
                    WalkEnd::Fell,
                ),
            )
        } else {
            match graft_instr(cx, x, i, p.s) {
                None => None,
                Some((s1, returned)) => Some(
                    (
                        Pos { s: s1, ph: p.ph, cur: p.cur },
                        if returned {
                            WalkEnd::Returned
                        } else {
                            WalkEnd::Fell
                        },
                    ),
                ),
            }
        },
    }
}

/// Callee block `b` from `bci` on. Ends with the position, how the walk ended, and the position of
/// the last instruction.
pub open spec fn graft_walk(
    cx: CtxView,
    x: ExtentView,
    b: int,
    entry: Seq<VReg>,
    bci: int,
    last: int,
    p: Pos,
) -> Option<(Pos, WalkEnd, int)>
    decreases rank(x.blockarg), 2nat, x.m.code@.len() - bci,
{
    let m = x.m;
    if bci >= m.cfg.blocks@[b].bci_end {
        Some((p, WalkEnd::Fell, last))
    } else if bci < 0 || bci >= m.code@.len() || !(bci < m.next_at(bci) <= m.code@.len()) {
        None
    } else {
        match graft_step(cx, x, b, entry, bci as usize, m.instr_at(bci), p) {
            None => None,
            Some((p1, end)) => if end is Fell {
                graft_walk(cx, x, b, entry, m.next_at(bci), bci, p1)
            } else {
                Some((p1, end, bci))
            },
        }
    }
}

/// The callee blocks from `b` on: each is walked if control reaches it, on the stack its source
/// gives it.
pub open spec fn graft_blocks(
    cx: CtxView,
    x: ExtentView,
    b: int,
    exits: Seq<Option<Seq<VReg>>>,
    reach: Seq<bool>,
    out: OutView,
) -> Option<OutView>
    decreases rank(x.blockarg), 3nat, x.m.cfg.blocks@.len() - b,
{
    if b < 0 || b >= x.m.cfg.blocks@.len() {
        Some(out)
    } else if !reach[b] {
        graft_blocks(cx, x, b + 1, exits, reach, out.finish(dead_block(x.ids[b], x.send_bci)))
    } else {
        match block_entry(x, b, exits) {
            None => None,
            Some(entry) => {
                let start = x.m.cfg.blocks@[b].bci_start as int;
                let s = St {
                    out,
                    seg: SegView { stack: entry, code: Seq::empty(), deopt: Seq::empty() },
                };
                match graft_walk(cx, x, b, entry, start, start, start_pos(x, b, s)) {
                    None => None,
                    Some((p1, end, last)) => {
                        let closed = match end {
                            WalkEnd::Fell => graft_terminator(x, b, last as usize, p1.s, reach),
                            _ => Some((p1.s, reach)),
                        };
                        match closed {
                            None => None,
                            Some((s1, reach1)) => graft_blocks(
                                cx,
                                x,
                                b + 1,
                                exits.update(b, Some(s1.seg.stack)),
                                reach1,
                                s1.out.finish(seg_block(x, b, p1.cur, entry, s1.seg)),
                            ),
                        }
                    },
                }
            },
        }
    }
}

/// All callee blocks; control enters at the first.
pub open spec fn graft_all(cx: CtxView, x: ExtentView, out: OutView) -> Option<OutView>
    decreases rank(x.blockarg), 4nat, 0int,
{
    let n = x.m.cfg.blocks@.len();
    graft_blocks(cx, x, 0, Seq::new(n, |i: int| None), Seq::new(n, |i: int| i == 0), out)
}

/// Splices a body with control flow, seen from the method under translation: the same as
/// [`graft_cfg`].
#[verifier::opaque]
pub open spec fn inline_cfg(
    cx: CtxView,
    x: SiteView,
    blockarg: Option<BlockArg>,
    mode: GraftView,
    s: St,
) -> Option<(St, Option<(VReg, BlockId, BlockId)>)> {
    graft_cfg(cx, x, blockarg, mode, s)
}

/// Grafts a whole body. The value is the register of the result, the block to enter and the block
/// to continue in; `None` when the callee is of another shape.
pub open spec fn graft_cfg(
    cx: CtxView,
    x: SiteView,
    blockarg: Option<BlockArg>,
    mode: GraftView,
    s: St,
) -> Option<(St, Option<(VReg, BlockId, BlockId)>)>
    decreases rank(blockarg), 5nat, 0int,
{
    match graft_start(cx, x, blockarg, mode, s) {
        None => None,
        Some((s1, None)) => Some((s1, None)),
        Some((s1, Some(e))) => {
            if e.blockarg != blockarg {
                None
            } else {
                match graft_all(cx, e, s1.out) {
                    None => None,
                    Some(o) => {
                        let o1 = o.commit(e.m.inline_cost);
                        let o2 = if mode.is_block {
                            o1
                        } else {
                            o1.dep(x.dep_klass, x.selector)
                        };
                        Some((s1.with_out(o2), Some((e.result, e.ids[0], e.cont))))
                    },
                }
            }
        },
    }
}

impl Translator {
    /// Leaves the callee with the value in `v`.
    fn emit_return(&mut self, x: &Extent, v: VReg, seg: &mut Seg)
        ensures
            st(*final(self), *final(seg)) == return_op(x@, v, st(*old(self), *old(seg))),
    {
        seg.emit(Ir::Move { dst: x.result, src: v });
        seg.emit(Ir::Jump { target: x.cont });
    }

    /// Translates an instruction of a grafted body, sends aside; true when it returned.
    fn translate_graft_instr(&mut self, cx: &Ctx, x: &Extent, i: &Instr, seg: &mut Seg) -> (r: bool)
        requires
            cx.wf(),
            x.m.instr_wf(*i),
            graft_instr(cx@, x@, *i, st(*old(self), *old(seg))) is Some,
        ensures
            graft_instr(cx@, x@, *i, st(*old(self), *old(seg))) == Some(
                (st(*final(self), *final(seg)), r),
            ),
    {
        match *i {
            Instr::ReturnTos | Instr::BlockReturnTos => {
                let v = seg.pop();
                self.emit_return(x, v, seg);
                true
            },
            Instr::ReturnSelf => {
                self.emit_return(x, x.this, seg);
                true
            },
            Instr::NlrTos => {
                self.emit_nlr(seg);
                true
            },
            Instr::PushCtxTemp { idx, .. } => {
                self.push_ctx_temp(cx, cx.method_ctx_vreg, idx, seg);
                false
            },
            Instr::StoreCtxTempPop { idx, .. } => {
                self.store_ctx_temp(cx, cx.method_ctx_vreg, idx, seg);
                false
            },
            Instr::JumpFwd(_) | Instr::JumpBack(_) | Instr::BrTrueFwd(_) | Instr::BrFalseFwd(
                _,
            ) => { false },
            _ => {
                self.translate_simple(cx.vm, x.m, i, x.this, &x.slots, true, seg);
                false
            },
        }
    }

    /// Splices a straight-line literal block at a send of a grafted body.
    fn splice_inner_block(
        &mut self,
        cx: &Ctx,
        x: &Extent,
        a: BlockArg,
        args: Vec<VReg>,
        bci: usize,
        seg: &mut Seg,
    ) -> (r: Option<VReg>)
        requires
            cx.wf(),
            cx.vm.has(a.block),
            inner_block(cx@, x@, a, args@, bci, st(*old(self), *old(seg))) is Some,
        ensures
            inner_block(cx@, x@, a, args@, bci, st(*old(self), *old(seg))) == Some(
                (st(*final(self), *final(seg)), r),
            ),
    {
        proof {
            reveal(inner_block);
        }
        let m = cx.vm.method(a.block);
        let ghost s = st(*self, *seg);
        let pending = copy_regs(&seg.stack);
        let lit = self.intern_oop(cx.vm.universe.nil_obj);
        let mut slots = copy_regs(&args);
        self.emit_nil_temps(lit, m.ntemps, &mut slots, seg);
        assert(next_regs(s.intern(pool_oop(cx.vm.universe.nil_obj)).out, m.ntemps as nat)
            =~= next_regs(s.out, m.ntemps as nat));
        let proto = InlineSite {
            method_pool_ix: a.pool_ix,
            receiver: cx.self_vreg,
            slots: copy_regs(&slots),
            sender_bci: bci as u16,
            caller_pending_stack: pending,
            is_block: true,
            parent: Some(Box::new(x.proto.copy())),
            slot_closures: Vec::new(),
        };
        assert(proto.model().slot_closures =~= seq![]);
        assert(proto.model() == inner_block_proto(cx@, x@, a, slots@, bci, s.seg.stack));
        self.translate_spliced_block_body(cx, m, cx.self_vreg, &slots, &proto, seg)
    }

    /// Files the block being filled under `cur` and starts an empty one on the same stack.
    fn finish_segment(
        &mut self,
        x: &Extent,
        b: usize,
        cur: BlockId,
        entry: &Vec<VReg>,
        seg: &mut Seg,
    )
        requires
            b < x.ids@.len(),
        ensures
            final(self)@ == old(self)@.finish(seg_block(x@, b as int, cur, entry@, old(seg)@)),
            final(seg)@ == (SegView {
                stack: old(seg)@.stack,
                code: Seq::empty(),
                deopt: Seq::empty(),
            }),
    {
        let mut code: Vec<Ir> = Vec::new();
        let mut deopt: Vec<(u32, DeoptRaw)> = Vec::new();
        core::mem::swap(&mut code, &mut seg.code);
        core::mem::swap(&mut deopt, &mut seg.deopt);
        assert(seg@.code =~= Seq::empty());
        assert(seg@.deopt =~= Seq::empty());
        let entry_stack = if cur == x.ids[b] {
            copy_regs(entry)
        } else {
            Vec::new()
        };
        let block = IrBlock { id: cur, bci: x.send_bci, code, entry_stack, deopt_sites: deopt };
        proof {
            let want = seg_block(x@, b as int, cur, entry@, old(seg)@);
            assert(block@.entry_stack =~= want.entry_stack);
        }
        self.finish_block(block);
    }

    /// Translates a send to the elided closure.
    fn translate_graft_block_send(
        &mut self,
        cx: &Ctx,
        x: &Extent,
        b: usize,
        entry: &Vec<VReg>,
        a: BlockArg,
        ic: &InterpreterIc,
        bci: usize,
        ph: &mut Vec<bool>,
        cur: &mut BlockId,
        seg: &mut Seg,
    ) -> (r: WalkEnd)
        requires
            cx.wf(),
            x.wf(*cx.vm),
            b < x.ids@.len(),
            cx.vm.has(a.block),
            old(seg)@.stack.len() >= ic.argc + 1,
            graft_block_send(
                cx@,
                x@,
                b as int,
                entry@,
                a,
                *ic,
                bci,
                Pos { s: st(*old(self), *old(seg)), ph: old(ph)@, cur: *old(cur) },
            ) is Some,
        ensures
            graft_block_send(
                cx@,
                x@,
                b as int,
                entry@,
                a,
                *ic,
                bci,
                Pos { s: st(*old(self), *old(seg)), ph: old(ph)@, cur: *old(cur) },
            ) == Some(
                (Pos { s: st(*final(self), *final(seg)), ph: final(ph)@, cur: *final(cur) }, r),
            ),
        decreases rank(x.blockarg), 0nat,
    {
        let args = seg.pop_n(ic.argc as usize);
        let _ = seg.pop();
        *ph = resize_flags(ph, seg.stack.len());
        assert(seg@.stack =~= old(seg)@.stack.subrange(
            0,
            old(seg)@.stack.len() - (ic.argc + 1),
        ));
        if cx.vm.method(a.block).cfg.blocks.len() > 1 {
            let site = Site {
                callee: a.block,
                guard: None,
                dep_klass: x.dep_klass,
                selector: ic.selector,
                receiver: cx.self_vreg,
                args,
                bci,
            };
            let mode = GraftMode::Block { parent: Some(Box::new(x.proto.copy())) };
            let (res, enter, cont) = self.graft_callee(cx, &site, None, mode, seg).unwrap();
            seg.emit(Ir::Jump { target: enter });
            self.finish_segment(x, b, *cur, entry, seg);
            *cur = cont;
            seg.push(res);
            ph.push(false);
            WalkEnd::Fell
        } else {
            match self.splice_inner_block(cx, x, a, args, bci, seg) {
                Some(res) => {
                    seg.push(res);
                    ph.push(false);
                    WalkEnd::Fell
                },
                None => WalkEnd::Trapped,
            }
        }
    }

    /// Translates one instruction of callee block `b`.
    fn translate_graft_step(
        &mut self,
        cx: &Ctx,
        x: &Extent,
        b: usize,
        entry: &Vec<VReg>,
        bci: usize,
        i: &Instr,
        ph: &mut Vec<bool>,
        cur: &mut BlockId,
        seg: &mut Seg,
    ) -> (r: WalkEnd)
        requires
            cx.wf(),
            x.wf(*cx.vm),
            b < x.ids@.len(),
            x.m.instr_wf(*i),
            graft_step(
                cx@,
                x@,
                b as int,
                entry@,
                bci,
                *i,
                Pos { s: st(*old(self), *old(seg)), ph: old(ph)@, cur: *old(cur) },
            ) is Some,
        ensures
            graft_step(
                cx@,
                x@,
                b as int,
                entry@,
                bci,
                *i,
                Pos { s: st(*old(self), *old(seg)), ph: old(ph)@, cur: *old(cur) },
            ) == Some(
                (Pos { s: st(*final(self), *final(seg)), ph: final(ph)@, cur: *final(cur) }, r),
            ),
        decreases rank(x.blockarg), 1nat,
    {
        if let Instr::Send { ic, .. } = *i {
            let ic = &x.m.ics[ic as usize];
            let depth: usize = seg.stack.len();
            *ph = resize_flags(ph, depth);
            if ph[depth - 1 - ic.argc as usize] {
                match x.blockarg {
                    Some(a) => self.translate_graft_block_send(
                        cx,
                        x,
                        b,
                        entry,
                        a,
                        ic,
                        bci,
                        ph,
                        cur,
                        seg,
                    ),
                    None => WalkEnd::Fell,
                }
            } else {
                let (ph1, trapped) = self.translate_graft_send(cx, x, ic, bci, ph, seg);
                *ph = ph1;
                if trapped {
                    WalkEnd::Trapped
                } else {
                    WalkEnd::Fell
                }
            }
        } else {
            let phantom = match (*i, x.blockarg) {
                (Instr::PushTemp(t), Some(a)) => t as usize == a.arg_ix,
                _ => false,
            };
            if phantom {
                *ph = resize_flags(ph, seg.stack.len());
                ph.push(true);
                seg.push(x.this);
                WalkEnd::Fell
            } else {
                let returned = self.translate_graft_instr(cx, x, i, seg);
                if returned {
                    WalkEnd::Returned
                } else {
                    WalkEnd::Fell
                }
            }
        }
    }

    /// Translates callee block `b` up to its terminator. Returns the block being filled at its end,
    /// how it ended and where its last instruction stands.
    fn translate_graft_block(
        &mut self,
        cx: &Ctx,
        x: &Extent,
        b: usize,
        entry: &Vec<VReg>,
        seg: &mut Seg,
    ) -> (r: (BlockId, WalkEnd, usize))
        requires
            cx.wf(),
            x.wf(*cx.vm),
            b < x.m.cfg.blocks@.len(),
            graft_walk(
                cx@,
                x@,
                b as int,
                entry@,
                x.m.cfg.blocks@[b as int].bci_start as int,
                x.m.cfg.blocks@[b as int].bci_start as int,
                start_pos(x@, b as int, st(*old(self), *old(seg))),
            ) is Some,
        ensures
            ({
                let w = graft_walk(
                    cx@,
                    x@,
                    b as int,
                    entry@,
                    x.m.cfg.blocks@[b as int].bci_start as int,
                    x.m.cfg.blocks@[b as int].bci_start as int,
                    start_pos(x@, b as int, st(*old(self), *old(seg))),
                )->0;
                &&& w.0.s == st(*final(self), *final(seg))
                &&& w.0.cur == r.0
                &&& w.1 == r.1
                &&& w.2 == r.2
            }),
        decreases rank(x.blockarg), 2nat,
    {
        let m = x.m;
        let end: usize = m.cfg.blocks[b].bci_end;
        let mut bci: usize = m.cfg.blocks[b].bci_start;
        let mut last: usize = bci;
        let mut cur: BlockId = x.ids[b];
        let mut ph: Vec<bool> = resize_flags(&Vec::new(), seg.stack.len());
        assert(ph@ =~= Seq::new(old(seg)@.stack.len(), |i: int| false));
        let ghost want = graft_walk(
            cx@,
            x@,
            b as int,
            entry@,
            bci as int,
            last as int,
            Pos { s: st(*self, *seg), ph: ph@, cur },
        );
        let mut how = WalkEnd::Fell;
        while bci < end
            invariant_except_break
                how is Fell,
                want == graft_walk(
                    cx@,
                    x@,
                    b as int,
                    entry@,
                    bci as int,
                    last as int,
                    Pos { s: st(*self, *seg), ph: ph@, cur },
                ),
            invariant
                cx.wf(),
                x.wf(*cx.vm),
                m == x.m,
                b < m.cfg.blocks@.len(),
                end == m.cfg.blocks@[b as int].bci_end,
                end <= m.code@.len(),
                m.boundary(bci as int),
                want is Some,
            ensures
                (want->0).0.s == st(*self, *seg),
                (want->0).0.cur == cur,
                (want->0).1 == how,
                (want->0).2 == last,
            decreases m.code@.len() - bci,
        {
            let (instr, next) = m.decode_at(bci);
            last = bci;
            how = self.translate_graft_step(
                cx,
                x,
                b,
                entry,
                bci,
                &instr,
                &mut ph,
                &mut cur,
                seg,
            );
            if !matches!(how, WalkEnd::Fell) {
                break;
            }
            bci = next;
        }
        (cur, how, last)
    }

    /// Ends callee block `b`.
    fn emit_graft_terminator(
        &mut self,
        x: &Extent,
        b: usize,
        last: usize,
        reach: &mut Vec<bool>,
        seg: &mut Seg,
    )
        requires
            b < x.m.cfg.blocks@.len(),
            x.m.cfg_wf(x.m.cfg),
            x.ids@.len() == x.m.cfg.blocks@.len(),
            x.sources@.len() == x.ids@.len(),
            x.entry_stacks@.len() == x.ids@.len(),
            old(reach)@.len() == x.ids@.len(),
            graft_terminator(x@, b as int, last, st(*old(self), *old(seg)), old(reach)@) is Some,
        ensures
            graft_terminator(x@, b as int, last, st(*old(self), *old(seg)), old(reach)@) == Some(
                (st(*final(self), *final(seg)), final(reach)@),
            ),
    {
        match x.m.cfg.blocks[b].terminator {
            Terminator::Return => {},
            Terminator::Fallthrough(t) => {
                reach[t] = true;
                let exit = copy_regs(&seg.stack);
                emit_merges(&x.sources, &x.entry_stacks, t, &exit, seg);
                seg.emit(Ir::Jump { target: x.ids[t] });
            },
            Terminator::Jump { target, is_backward } => {
                reach[target] = true;
                let exit = copy_regs(&seg.stack);
                if is_backward {
                    seg.site(
                        DeoptRaw {
                            stack: copy_regs(&seg.stack),
                            bci: x.m.cfg.blocks[target].bci_start,
                            kind: SafepointKind::LoopPoll,
                            reexecute: true,
                            stack_closures: Vec::new(),
                            inline: Some(x.proto.copy()),
                        },
                    );
                    seg.emit(Ir::Poll);
                }
                emit_merges(&x.sources, &x.entry_stacks, target, &exit, seg);
                seg.emit(Ir::Jump { target: x.ids[target] });
            },
            Terminator::Branch { if_true, if_false } => {
                reach[if_true] = true;
                reach[if_false] = true;
                let not_bool = self.fresh_trap_block(
                    last,
                    copy_regs(&seg.stack),
                    Vec::new(),
                    Some(x.proto.copy()),
                );
                let val = seg.pop();
                let exit = copy_regs(&seg.stack);
                emit_merges(&x.sources, &x.entry_stacks, if_true, &exit, seg);
                emit_merges(&x.sources, &x.entry_stacks, if_false, &exit, seg);
                seg.emit(
                    Ir::BoolBr {
                        val,
                        if_true: x.ids[if_true],
                        if_false: x.ids[if_false],
                        not_bool,
                    },
                );
            },
        }
    }

    /// Files the placeholder of a callee block that control never reaches.
    pub(crate) fn finish_dead_block(&mut self, id: BlockId, bci: usize)
        ensures
            final(self)@ == old(self)@.finish(dead_block(id, bci)),
    {
        let mut code: Vec<Ir> = Vec::new();
        code.push(Ir::RetSelf);
        let block = IrBlock {
            id,
            bci,
            code,
            entry_stack: Vec::new(),
            deopt_sites: Vec::new(),
        };
        proof {
            let want = dead_block(id, bci);
            assert(block@.code =~= want.code);
            assert(block@.entry_stack =~= want.entry_stack);
            assert(block@.deopt_sites =~= want.deopt_sites);
        }
        self.finish_block(block);
    }

    /// Translates all callee blocks.
    fn translate_graft_blocks(&mut self, cx: &Ctx, x: &Extent)
        requires
            cx.wf(),
            x.wf(*cx.vm),
            graft_all(cx@, x@, old(self)@) is Some,
        ensures
            graft_all(cx@, x@, old(self)@) == Some(final(self)@),
        decreases rank(x.blockarg), 3nat,
    {
        let n: usize = x.m.cfg.blocks.len();
        let mut exits: Vec<Option<Vec<VReg>>> = Vec::new();
        let mut reach: Vec<bool> = Vec::new();
        for i in 0..n
            invariant
                exits@.len() == i,
                reach@.len() == i,
                forall|j: int| 0 <= j < i ==> #[trigger] exits@[j] is None,
                forall|j: int| 0 <= j < i ==> #[trigger] reach@[j] == (j == 0),
        {
            exits.push(None);
            reach.push(i == 0);
        }
        assert(stack_views(exits@) =~= Seq::new(n as nat, |i: int| None));
        assert(reach@ =~= Seq::new(n as nat, |i: int| i == 0));
        let ghost want = graft_all(cx@, x@, old(self)@);
        for b in 0..n
            invariant
                cx.wf(),
                x.wf(*cx.vm),
                n == x.m.cfg.blocks@.len(),
                exits@.len() == n,
                reach@.len() == n,
                want is Some,
                want == graft_blocks(cx@, x@, b as int, stack_views(exits@), reach@, self@),
        {
            if !reach[b] {
                self.finish_dead_block(x.ids[b], x.send_bci);
            } else {
                let ghost at = block_entry(x@, b as int, stack_views(exits@));
                let entry = match x.sources[b] {
                    EntryStackSource::Inherit(p) => {
                        assert(stack_views(exits@)[p as int] == stack_view(exits@[p as int]));
                        match &exits[p] {
                            Some(v) => copy_regs(v),
                            None => Vec::new(),
                        }
                    },
                    _ => {
                        assert(stack_views(x.entry_stacks@)[b as int] == stack_view(
                            x.entry_stacks@[b as int],
                        ));
                        match &x.entry_stacks[b] {
                            Some(v) => copy_regs(v),
                            None => Vec::new(),
                        }
                    },
                };
                assert(at == Some(entry@));
                let mut seg = Seg::new(copy_regs(&entry));
                let (cur, how, last) = self.translate_graft_block(cx, x, b, &entry, &mut seg);
                if let WalkEnd::Fell = how {
                    self.emit_graft_terminator(x, b, last, &mut reach, &mut seg);
                }
                let ghost exits0 = exits@;
                let exit = copy_regs(&seg.stack);
                self.finish_segment(x, b, cur, &entry, &mut seg);
                exits[b] = Some(exit);
                assert(stack_views(exits@) =~= stack_views(exits0).update(
                    b as int,
                    Some(exit@),
                ));
            }
        }
    }

    /// Mints the blocks and registers of a graft: the block ids with the continuation last, the
    /// result register, the entry sources and the merge registers.
    fn mint_scaffold(&mut self, m: &Method) -> (r: (
        Vec<BlockId>,
        VReg,
        Vec<EntryStackSource>,
        Vec<Option<Vec<VReg>>>,
    ))
        requires
            m.code_wf(),
            m.cfg_wf(m.cfg),
            m.cfg.blocks@.len() > 0,
            scaffold(*m, old(self)@) is Some,
        ensures
            scaffold(*m, old(self)@) == Some((final(self)@, stack_views(r.3@))),
            r.0@ == next_blocks(old(self)@, m.cfg.blocks@.len() + 1),
            r.1 == old(self)@.reg(),
            r.2@ == entry_sources(m.cfg, entry_depths(*m, m.cfg)),
            r.3@.len() == m.cfg.blocks@.len(),
            forall|b: int|
                0 <= b < r.2@.len() ==> (#[trigger] r.2@[b] matches EntryStackSource::Inherit(p)
                    ==> p < m.cfg.blocks@.len()),
    {
        let ids = self.mint_blocks(m.cfg.blocks.len() + 1);
        proof {
            lemma_fresh_blocks_regs(old(self)@, (m.cfg.blocks@.len() + 1) as nat);
        }
        let result = self.fresh(true);
        let (depths, _) = compute_entry_depths(m, &m.cfg);
        let sources = entry_stack_sources(&m.cfg, &depths);
        let entry_stacks = self.mint_merge_regs(&sources, &depths);
        (ids, result, sources, entry_stacks)
    }

    /// Grafts a whole body.
    fn graft_callee(
        &mut self,
        cx: &Ctx,
        x: &Site<Vec<VReg>>,
        blockarg: Option<BlockArg>,
        mode: GraftMode,
        seg: &mut Seg,
    ) -> (r: Option<(VReg, BlockId, BlockId)>)
        requires
            cx.wf(),
            cx.vm.has(x.callee),
            match blockarg {
                Some(a) => cx.vm.has(a.block),
                None => true,
            },
            graft_cfg(cx@, x@, blockarg, mode@, st(*old(self), *old(seg))) is Some,
        ensures
            graft_cfg(cx@, x@, blockarg, mode@, st(*old(self), *old(seg))) == Some(
                (st(*final(self), *final(seg)), r),
            ),
        decreases rank(blockarg), 4nat,
    {
        let m = cx.vm.method(x.callee);
        let ghost s = st(*self, *seg);
        let ghost want = graft_start(cx@, x@, blockarg, mode@, s);
        let (is_block, parent) = match mode {
            GraftMode::Method => (false, None),
            GraftMode::Block { parent } => (true, parent),
        };
        if is_block {
            self.spliced_multibb = self.spliced_multibb + 1;
        }
        if (!is_block && !m.eligible_cfg) || m.cfg.blocks.len() == 0 || m.argc as usize
            != x.args.len() {
            return None;
        }
        let pool_ix: u32 = self.intern_oop(m.oop).0;
        let pending = copy_regs(&seg.stack);
        let (closures, slot_closures) = closure_overrides(blockarg, seg.stack.len());
        let (slots, mut below) = self.enter_spliced_body(cx.vm, x, closures, seg);
        assert(slots@ =~= body_slots(*cx.vm, x@, s));
        core::mem::swap(&mut below, &mut seg.stack);
        let ghost out = self@;
        let (mut ids, result, sources, entry_stacks) = self.mint_scaffold(m);
        let cont = ids.pop().unwrap();
        let klass: Option<KlassOop> = match x.guard {
            Some((k, _)) => Some(k),
            None => if x.receiver == cx.self_vreg {
                Some(cx.rcvr_klass)
            } else {
                None
            },
        };
        let proto = InlineSite {
            method_pool_ix: pool_ix,
            receiver: x.receiver,
            slots: copy_regs(&slots),
            sender_bci: x.bci as u16,
            caller_pending_stack: pending,
            is_block,
            parent,
            slot_closures,
        };
        let e = Extent {
            m,
            this: x.receiver,
            klass,
            slots,
            proto,
            is_block,
            blockarg,
            dep_klass: x.dep_klass,
            send_bci: x.bci,
            result,
            cont,
            ids,
            sources,
            entry_stacks,
        };
        proof {
            let v = graft_extent(cx@, x@, blockarg, mode@, s, out, stack_views(entry_stacks@));
            assert(e@.ids =~= v.ids);
            assert(e@.proto == v.proto);
            assert(e@ == v);
            assert(want == Some((st(*self, *seg), Some(v))));
        }
        self.translate_graft_blocks(cx, &e);
        self.budget_commit(m.inline_cost);
        if !is_block {
            self.record_inline_dep(x.dep_klass, x.selector);
        }
        Some((e.result, e.ids[0], e.cont))
    }
}

impl Translator {
    /// Splices a body with control flow. The result is the register of the value, the block to
    /// enter and the block to continue in; `None` when the callee is of another shape.
    pub(crate) fn try_inline_cfg(
        &mut self,
        cx: &Ctx,
        x: &Site<Vec<VReg>>,
        blockarg: Option<BlockArg>,
        mode: GraftMode,
        seg: &mut Seg,
    ) -> (r: Option<(VReg, BlockId, BlockId)>)
        requires
            cx.wf(),
            cx.vm.has(x.callee),
            match blockarg {
                Some(a) => cx.vm.has(a.block),
                None => true,
            },
            inline_cfg(cx@, x@, blockarg, mode@, st(*old(self), *old(seg))) is Some,
        ensures
            inline_cfg(cx@, x@, blockarg, mode@, st(*old(self), *old(seg))) == Some(
                (st(*final(self), *final(seg)), r),
            ),
    {
        proof {
            reveal(inline_cfg);
        }
        self.graft_callee(cx, x, blockarg, mode, seg)
    }
}

/// The deoptimization overrides for the elided closure: on the guarded send's own stack, and in the
/// callee's slots.
fn closure_overrides(blockarg: Option<BlockArg>, below: usize) -> (r: (
    Vec<(u16, u32)>,
    Vec<(u16, u32)>,
))
    ensures
        r.0@ == guard_closures(blockarg, below as nat),
        r.1@ == slot_overrides(blockarg),
{
    let mut on_stack: Vec<(u16, u32)> = Vec::new();
    let mut in_slots: Vec<(u16, u32)> = Vec::new();
    if let Some(a) = blockarg {
        let low: usize = below % 0x10000;
        let arg: usize = a.arg_ix % 0x10000;
        let pos: u16 = ((low + 1 + arg) % 0x10000) as u16;
        on_stack.push((pos, a.pool_ix));
        in_slots.push((a.arg_ix as u16, a.pool_ix));
    }
    assert(on_stack@ =~= guard_closures(blockarg, below as nat));
    assert(in_slots@ =~= slot_overrides(blockarg));
    (on_stack, in_slots)
}

} // verus!

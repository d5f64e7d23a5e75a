//! The state of one translation: the tables that grow over the whole method ([`Translator`]), the
//! block being filled ([`Seg`]) and the facts that stay fixed ([`Ctx`]).
//!
//! Contracts speak of [`St`], the pair of both views. Each operation on the state is a function
//! from `St` to `St`; `None` stands for input that cannot be translated (an operand missing from
//! the simulated stack, a counter at its limit).

use std::collections::HashMap;
use vstd::prelude::*;
use crate::classify::smi_prim;
use crate::ir::{
    code_view, feedback_views, inline_model, sites_view, BlockId, BlockView, CallSiteInfo,
    DeoptRaw, DeoptView, InlineSite, InlineView, Ir, IrBlock, IrView, PoolEntry, PoolLit,
    RelocKind, VReg, VRegInfo,
};
use crate::scopes::SafepointKind;
use crate::world::{FeedbackView, KlassOop, MethodOop, SiteFeedback, SymbolOop, VmState};

verus! {

broadcast use vstd::std_specs::hash::group_hash_axioms;

/// The facts that hold throughout one translation.
pub struct Ctx<'a> {
    pub vm: &'a VmState,
    /// The method (or block body) being compiled.
    pub method: MethodOop,
    /// The class of every receiver that reaches the compiled code.
    pub rcvr_klass: KlassOop,
    /// Compiled for entry in the middle of a loop.
    pub osr: bool,
    pub self_vreg: VReg,
    pub temp_vregs: Vec<VReg>,
    /// The captured temporaries of an elided context.
    pub ctx_vregs: Vec<VReg>,
    pub block_closure_vreg: Option<VReg>,
    pub block_ctx_vreg: Option<VReg>,
    pub method_ctx_vreg: Option<VReg>,
    /// The method creates closures.
    pub has_closures: bool,
}

/// The fixed facts, as contracts see them.
pub ghost struct CtxView {
    pub vm: VmState,
    pub method: MethodOop,
    pub rcvr_klass: KlassOop,
    pub osr: bool,
    pub self_vreg: VReg,
    pub temp_vregs: Seq<VReg>,
    pub ctx_vregs: Seq<VReg>,
    pub block_closure_vreg: Option<VReg>,
    pub block_ctx_vreg: Option<VReg>,
    pub method_ctx_vreg: Option<VReg>,
    pub has_closures: bool,
}

impl<'a> View for Ctx<'a> {
    type V = CtxView;

    open spec fn view(&self) -> CtxView {
        CtxView {
            vm: *self.vm,
            method: self.method,
            rcvr_klass: self.rcvr_klass,
            osr: self.osr,
            self_vreg: self.self_vreg,
            temp_vregs: self.temp_vregs@,
            ctx_vregs: self.ctx_vregs@,
            block_closure_vreg: self.block_closure_vreg,
            block_ctx_vreg: self.block_ctx_vreg,
            method_ctx_vreg: self.method_ctx_vreg,
            has_closures: self.has_closures,
        }
    }
}

impl CtxView {
    /// The statically resolved target of a send to the receiver, for a known receiver class. Block
    /// bodies have none (their receiver may be of any class), nor do fusable small-integer
    /// primitives, which do better through the profile.
    pub open spec fn devirt(self, k: KlassOop, sel: SymbolOop) -> Option<MethodOop> {
        if self.vm.m(self.method).is_block {
            None
        } else {
            match self.vm.lookup(k, sel) {
                Some(t) => if k == self.vm.universe.smi_klass && smi_prim(
                    self.vm.m(t).primitive,
                ) is Some {
                    None
                } else {
                    Some(t)
                },
                None => None,
            }
        }
    }

    /// May a send that was never taken become a trap? Only when the whole body was profiled.
    pub open spec fn cold_traps(self) -> bool {
        !self.osr
    }

    /// A trap in a spliced body warms the callee's profile, not this method's, so it would never
    /// heal; off unless asked for.
    pub open spec fn inlined_cold_traps(self) -> bool {
        self.vm.cold_splice_traps && self.cold_traps()
    }
}

impl<'a> Ctx<'a> {
    pub open spec fn wf(self) -> bool {
        &&& self.vm.wf()
        &&& self.vm.has(self.method)
        &&& self.temp_vregs@.len() == self.vm.m(self.method).nslots()
    }

    /// The statically resolved target of a send to the receiver.
    pub(crate) fn devirt_self_target(&self, k: KlassOop, sel: SymbolOop) -> (r: Option<MethodOop>)
        requires
            self.wf(),
        ensures
            r == self@.devirt(k, sel),
            r is Some ==> self.vm.has(r->0),
    {
        if self.vm.method(self.method).is_block {
            return None;
        }
        match self.vm.resolve_method(k, sel) {
            Some(t) => {
                let p: i64 = self.vm.method(t).primitive;
                let fusable = (1 <= p && p <= 3) || (6 <= p && p <= 8) || (10 <= p && p <= 15);
                if k == self.vm.universe.smi_klass && fusable {
                    None
                } else {
                    Some(t)
                }
            },
            None => None,
        }
    }

    pub(crate) fn cold_send_traps(&self) -> (r: bool)
        ensures
            r == self@.cold_traps(),
    {
        !self.osr
    }

    pub(crate) fn inlined_cold_send_traps(&self) -> (r: bool)
        ensures
            r == self@.inlined_cold_traps(),
    {
        if self.vm.cold_splice_traps {
            return self.cold_send_traps();
        }
        false
    }
}

/// The tables, as contracts see them.
pub ghost struct OutView {
    pub vregs: Seq<VRegInfo>,
    pub pool: Seq<PoolEntry>,
    /// By block id; `None` while a block is not finished.
    pub blocks: Seq<Option<BlockView>>,
    pub call_sites: Seq<CallSiteInfo>,
    pub site_feedback: Seq<FeedbackView>,
    pub inline_deps: Seq<(KlassOop, SymbolOop)>,
    /// Registers known to hold a certain class.
    pub const_class: Map<u32, KlassOop>,
    /// The closure, by creation site, that each temporary holds while it is elided.
    pub temp_sites: Seq<Option<usize>>,
    pub pending_jump_target: Option<BlockId>,
    pub spliced_nlr: u32,
    pub spliced_multibb: u32,
    pub budget_bytes_used: u32,
    pub splice_declined_budget: u32,
    pub self_devirt: bool,
    pub osr_cold_sends: u16,
}

/// The index of the first entry equal to `e` from `from` on, or the length.
pub open spec fn pool_find(pool: Seq<PoolEntry>, e: PoolEntry, from: int) -> int
    decreases pool.len() - from,
{
    if from < 0 || from >= pool.len() {
        pool.len() as int
    } else if pool[from] == e {
        from
    } else {
        pool_find(pool, e, from + 1)
    }
}

pub open spec fn pool_oop(value: u64) -> PoolEntry {
    PoolEntry { value, kind: Some(RelocKind::Oop) }
}

/// A block that only leaves compiled code, to run the bytecode at `bci` again.
pub open spec fn trap_block(
    id: BlockId,
    bci: usize,
    stack: Seq<VReg>,
    closures: Seq<(u16, u32)>,
    inline: Option<InlineView>,
) -> BlockView {
    BlockView {
        id,
        bci,
        code: seq![Ir::UncommonTrap { bci }],
        entry_stack: seq![],
        deopt_sites: seq![
            (
                0u32,
                DeoptView {
                    stack,
                    bci,
                    kind: SafepointKind::UncommonTrap,
                    reexecute: true,
                    stack_closures: closures,
                    inline,
                },
            ),
        ],
    }
}

pub open spec fn sat_add(a: u32, b: u32) -> u32 {
    if a + b > u32::MAX {
        u32::MAX
    } else {
        (a + b) as u32
    }
}

/// `blocks`, extended so that `idx` exists, with `b` at `idx`.
pub open spec fn put_block(blocks: Seq<Option<BlockView>>, idx: int, b: BlockView) -> Seq<
    Option<BlockView>,
> {
    Seq::new(
        if idx < blocks.len() {
            blocks.len()
        } else {
            (idx + 1) as nat
        },
        |i: int|
            if i == idx {
                Some(b)
            } else if i < blocks.len() {
                blocks[i]
            } else {
                None
            },
    )
}

impl OutView {
    /// The register that the next `fresh` hands out.
    pub open spec fn reg(self) -> VReg {
        VReg(self.vregs.len() as u32)
    }

    pub open spec fn fresh(self, is_oop: bool) -> OutView {
        OutView { vregs: self.vregs.push(VRegInfo { is_oop, is_fp: false }), ..self }
    }

    pub open spec fn fresh_fp(self) -> OutView {
        OutView { vregs: self.vregs.push(VRegInfo { is_oop: false, is_fp: true }), ..self }
    }

    pub open spec fn lit(self, e: PoolEntry) -> PoolLit {
        PoolLit(pool_find(self.pool, e, 0) as u32)
    }

    /// Equal entries share one pool slot.
    pub open spec fn intern(self, e: PoolEntry) -> OutView {
        if pool_find(self.pool, e, 0) < self.pool.len() {
            self
        } else {
            OutView { pool: self.pool.push(e), ..self }
        }
    }

    pub open spec fn can_block(self) -> bool {
        self.blocks.len() < u32::MAX
    }

    pub open spec fn block_id(self) -> BlockId {
        BlockId(self.blocks.len() as u32)
    }

    pub open spec fn new_block(self) -> OutView {
        OutView { blocks: self.blocks.push(None), ..self }
    }

    pub open spec fn finish(self, b: BlockView) -> OutView {
        OutView { blocks: put_block(self.blocks, b.id.0 as int, b), ..self }
    }

    /// Mints a block and finishes it as a trap.
    pub open spec fn trap(
        self,
        bci: usize,
        stack: Seq<VReg>,
        closures: Seq<(u16, u32)>,
        inline: Option<InlineView>,
    ) -> OutView {
        self.new_block().finish(trap_block(self.block_id(), bci, stack, closures, inline))
    }

    pub open spec fn dep(self, k: KlassOop, sel: SymbolOop) -> OutView {
        if self.inline_deps.contains((k, sel)) {
            self
        } else {
            OutView { inline_deps: self.inline_deps.push((k, sel)), ..self }
        }
    }

    pub open spec fn commit(self, cost: u32) -> OutView {
        OutView { budget_bytes_used: sat_add(self.budget_bytes_used, cost), ..self }
    }

    pub open spec fn over_budget(self, vm: VmState, m: MethodOop) -> bool {
        sat_add(self.budget_bytes_used, vm.m(m).inline_cost) > vm.budget.total_bytes
    }

    pub open spec fn call_site(self, info: CallSiteInfo, feedback: FeedbackView) -> OutView {
        OutView {
            call_sites: self.call_sites.push(info),
            site_feedback: self.site_feedback.push(feedback),
            ..self
        }
    }
}

/// The block being filled, as contracts see it.
pub ghost struct SegView {
    pub stack: Seq<VReg>,
    pub code: Seq<IrView>,
    pub deopt: Seq<(u32, DeoptView)>,
}

impl SegView {
    pub open spec fn emit(self, op: IrView) -> SegView {
        SegView { code: self.code.push(op), ..self }
    }

    pub open spec fn push(self, v: VReg) -> SegView {
        SegView { stack: self.stack.push(v), ..self }
    }

    /// Records a deoptimization site at the operation that is emitted next.
    pub open spec fn site(self, raw: DeoptView) -> SegView {
        SegView { deopt: self.deopt.push((self.code.len() as u32, raw)), ..self }
    }

    pub open spec fn with_stack(self, stack: Seq<VReg>) -> SegView {
        SegView { stack, ..self }
    }
}

/// The whole state of a translation.
pub ghost struct St {
    pub out: OutView,
    pub seg: SegView,
}

impl St {
    pub open spec fn reg(self) -> VReg {
        self.out.reg()
    }

    pub open spec fn fresh(self, is_oop: bool) -> St {
        St { out: self.out.fresh(is_oop), ..self }
    }

    pub open spec fn fresh_fp(self) -> St {
        St { out: self.out.fresh_fp(), ..self }
    }

    pub open spec fn emit(self, op: IrView) -> St {
        St { seg: self.seg.emit(op), ..self }
    }

    pub open spec fn push(self, v: VReg) -> St {
        St { seg: self.seg.push(v), ..self }
    }

    pub open spec fn site(self, raw: DeoptView) -> St {
        St { seg: self.seg.site(raw), ..self }
    }

    pub open spec fn depth(self) -> nat {
        self.seg.stack.len()
    }

    /// The operand `n` below the top.
    pub open spec fn top(self, n: int) -> VReg {
        self.seg.stack[self.seg.stack.len() - 1 - n]
    }

    pub open spec fn drop(self, n: int) -> St {
        St {
            seg: self.seg.with_stack(self.seg.stack.subrange(0, self.seg.stack.len() - n)),
            ..self
        }
    }

    pub open spec fn with_stack(self, stack: Seq<VReg>) -> St {
        St { seg: self.seg.with_stack(stack), ..self }
    }

    pub open spec fn with_out(self, out: OutView) -> St {
        St { out, ..self }
    }

    pub open spec fn lit(self, e: PoolEntry) -> PoolLit {
        self.out.lit(e)
    }

    pub open spec fn intern(self, e: PoolEntry) -> St {
        St { out: self.out.intern(e), ..self }
    }

    /// Loads the object word `raw` into a fresh register; the register is `self.reg()`.
    pub open spec fn load_oop(self, raw: u64) -> St {
        self.intern(pool_oop(raw)).fresh(true).emit(
            Ir::ConstPool { dst: self.reg(), lit: self.lit(pool_oop(raw)) },
        )
    }
}

/// The tables.
pub struct Translator {
    pub vregs: Vec<VRegInfo>,
    pub pool: PoolBuilder,
    pub blocks_by_id: Vec<Option<IrBlock>>,
    pub call_sites: Vec<CallSiteInfo>,
    pub site_feedback: Vec<SiteFeedback>,
    pub inline_deps: Vec<(KlassOop, SymbolOop)>,
    pub const_class: HashMap<u32, KlassOop>,
    pub temp_sites: Vec<Option<usize>>,
    pub pending_jump_target: Option<BlockId>,
    pub spliced_nlr: u32,
    pub spliced_multibb: u32,
    pub budget_bytes_used: u32,
    pub splice_declined_budget: u32,
    pub self_devirt: bool,
    pub osr_cold_sends: u16,
}

pub open spec fn slot_view(b: Option<IrBlock>) -> Option<BlockView> {
    match b {
        Some(x) => Some(x@),
        None => None,
    }
}

pub open spec fn slots_view(blocks: Seq<Option<IrBlock>>) -> Seq<Option<BlockView>> {
    blocks.map_values(|b: Option<IrBlock>| slot_view(b))
}

impl View for Translator {
    type V = OutView;

    open spec fn view(&self) -> OutView {
        OutView {
            vregs: self.vregs@,
            pool: self.pool.entries@,
            blocks: slots_view(self.blocks_by_id@),
            call_sites: self.call_sites@,
            site_feedback: feedback_views(self.site_feedback@),
            inline_deps: self.inline_deps@,
            const_class: self.const_class@,
            temp_sites: self.temp_sites@,
            pending_jump_target: self.pending_jump_target,
            spliced_nlr: self.spliced_nlr,
            spliced_multibb: self.spliced_multibb,
            budget_bytes_used: self.budget_bytes_used,
            splice_declined_budget: self.splice_declined_budget,
            self_devirt: self.self_devirt,
            osr_cold_sends: self.osr_cold_sends,
        }
    }
}

/// The block being filled.
pub struct Seg {
    /// The simulated operand stack.
    pub stack: Vec<VReg>,
    pub code: Vec<Ir>,
    pub deopt: Vec<(u32, DeoptRaw)>,
}

impl View for Seg {
    type V = SegView;

    open spec fn view(&self) -> SegView {
        SegView {
            stack: self.stack@,
            code: code_view(self.code@),
            deopt: sites_view(self.deopt@),
        }
    }
}

pub open spec fn st(t: Translator, s: Seg) -> St {
    St { out: t@, seg: s@ }
}

/// The literal pool under construction.
pub struct PoolBuilder {
    pub entries: Vec<PoolEntry>,
}

impl PoolBuilder {
    pub(crate) fn new() -> (r: PoolBuilder)
        ensures
            r.entries@ == Seq::<PoolEntry>::empty(),
    {
        PoolBuilder { entries: Vec::new() }
    }

    /// The pool slot of `(value, kind)`, a new one if there is none yet.
    pub(crate) fn intern(&mut self, value: u64, kind: Option<RelocKind>) -> (r: PoolLit)
        ensures
            r == PoolLit(
                pool_find(old(self).entries@, PoolEntry { value, kind }, 0) as u32,
            ),
            final(self).entries@ == (if pool_find(
                old(self).entries@,
                PoolEntry { value, kind },
                0,
            ) < old(self).entries@.len() {
                old(self).entries@
            } else {
                old(self).entries@.push(PoolEntry { value, kind })
            }),
    {
        let ghost e = PoolEntry { value, kind };
        let n: usize = self.entries.len();
        let mut k: usize = 0;
        while k < n
            invariant
                self.entries@ == old(self).entries@,
                n == self.entries@.len(),
                k <= n,
                e == (PoolEntry { value, kind }),
                pool_find(self.entries@, e, 0) == pool_find(self.entries@, e, k as int),
            decreases n - k,
        {
            if self.entries[k].value == value && self.entries[k].kind == kind {
                assert(self.entries@[k as int] == e);
                return PoolLit(k as u32);
            }
            assert(self.entries@[k as int] != e);
            k = k + 1;
        }
        self.entries.push(PoolEntry { value, kind });
        PoolLit(n as u32)
    }
}

impl Seg {
    pub(crate) fn new(stack: Vec<VReg>) -> (r: Seg)
        ensures
            r@ == (SegView { stack: stack@, code: Seq::empty(), deopt: Seq::empty() }),
    {
        let r = Seg { stack, code: Vec::new(), deopt: Vec::new() };
        assert(r@.code =~= Seq::empty());
        assert(r@.deopt =~= Seq::empty());
        r
    }

    pub(crate) fn emit(&mut self, op: Ir)
        ensures
            final(self)@ == old(self)@.emit(op@),
    {
        self.code.push(op);
        assert(self@.code =~= old(self)@.code.push(op@));
    }

    pub(crate) fn push(&mut self, v: VReg)
        ensures
            final(self)@ == old(self)@.push(v),
    {
        self.stack.push(v);
    }

    pub(crate) fn pop(&mut self) -> (r: VReg)
        requires
            old(self)@.stack.len() > 0,
        ensures
            r == old(self)@.stack[old(self)@.stack.len() - 1],
            final(self)@ == old(self)@.with_stack(
                old(self)@.stack.subrange(0, old(self)@.stack.len() - 1),
            ),
    {
        self.stack.pop().unwrap()
    }

    pub(crate) fn site(&mut self, raw: DeoptRaw)
        ensures
            final(self)@ == old(self)@.site(raw@),
    {
        let ci: u32 = self.code.len() as u32;
        self.deopt.push((ci, raw));
        assert(self@.deopt =~= old(self)@.deopt.push((self@.code.len() as u32, raw@)));
    }
}

impl Translator {
    /// A fresh register.
    pub(crate) fn fresh(&mut self, is_oop: bool) -> (r: VReg)
        ensures
            r == old(self)@.reg(),
            final(self)@ == old(self)@.fresh(is_oop),
    {
        let id: u32 = self.vregs.len() as u32;
        self.vregs.push(VRegInfo { is_oop, is_fp: false });
        VReg(id)
    }

    /// A fresh register for an unboxed double.
    pub(crate) fn fresh_fp(&mut self) -> (r: VReg)
        ensures
            r == old(self)@.reg(),
            final(self)@ == old(self)@.fresh_fp(),
    {
        let id: u32 = self.vregs.len() as u32;
        self.vregs.push(VRegInfo { is_oop: false, is_fp: true });
        VReg(id)
    }

    pub(crate) fn intern(&mut self, e: PoolEntry) -> (r: PoolLit)
        ensures
            r == old(self)@.lit(e),
            final(self)@ == old(self)@.intern(e),
    {
        self.pool.intern(e.value, e.kind)
    }

    pub(crate) fn intern_oop(&mut self, value: u64) -> (r: PoolLit)
        ensures
            r == old(self)@.lit(pool_oop(value)),
            final(self)@ == old(self)@.intern(pool_oop(value)),
    {
        self.pool.intern(value, Some(RelocKind::Oop))
    }

    /// A fresh block id.
    pub(crate) fn fresh_block_id(&mut self) -> (r: BlockId)
        requires
            old(self)@.can_block(),
        ensures
            r == old(self)@.block_id(),
            final(self)@ == old(self)@.new_block(),
    {
        let id: u32 = self.blocks_by_id.len() as u32;
        self.blocks_by_id.push(None);
        assert(self@.blocks =~= old(self)@.blocks.push(None));
        BlockId(id)
    }

    /// Files a finished block under its own id.
    pub(crate) fn finish_block(&mut self, block: IrBlock)
        ensures
            final(self)@ == old(self)@.finish(block@),
    {
        let idx: usize = block.id.0 as usize;
        while self.blocks_by_id.len() <= idx
            invariant
                self.blocks_by_id@.len() >= old(self).blocks_by_id@.len(),
                self.blocks_by_id@.len() <= idx + 1 || self.blocks_by_id@.len() == old(
                    self,
                ).blocks_by_id@.len(),
                forall|i: int|
                    0 <= i < self.blocks_by_id@.len() ==> #[trigger] self.blocks_by_id@[i] == (if i
                        < old(self).blocks_by_id@.len() {
                        old(self).blocks_by_id@[i]
                    } else {
                        None
                    }),
                (Translator { blocks_by_id: self.blocks_by_id, ..*old(self) }) == *self,
            decreases idx + 1 - self.blocks_by_id@.len(),
        {
            self.blocks_by_id.push(None);
        }
        self.blocks_by_id[idx] = Some(block);
        assert(self@.blocks =~= put_block(old(self)@.blocks, idx as int, block@));
    }

    /// A fresh block that only traps: the interpreter runs the bytecode at `bci` again with
    /// `stack` as its operand stack.
    pub(crate) fn fresh_trap_block(
        &mut self,
        bci: usize,
        stack: Vec<VReg>,
        closures: Vec<(u16, u32)>,
        inline: Option<InlineSite>,
    ) -> (r: BlockId)
        requires
            old(self)@.can_block(),
        ensures
            r == old(self)@.block_id(),
            final(self)@ == old(self)@.trap(bci, stack@, closures@, inline_model(inline)),
    {
        let id = self.fresh_block_id();
        let mut code: Vec<Ir> = Vec::new();
        code.push(Ir::UncommonTrap { bci });
        let raw = DeoptRaw {
            stack,
            bci,
            kind: SafepointKind::UncommonTrap,
            reexecute: true,
            stack_closures: closures,
            inline,
        };
        let mut sites: Vec<(u32, DeoptRaw)> = Vec::new();
        sites.push((0, raw));
        let b = IrBlock { id, bci, code, entry_stack: Vec::new(), deopt_sites: sites };
        proof {
            let want = trap_block(id, bci, stack@, closures@, inline_model(inline));
            assert(b@.code =~= want.code);
            assert(b@.entry_stack =~= want.entry_stack);
            assert(b@.deopt_sites =~= want.deopt_sites);
        }
        self.finish_block(b);
        id
    }

    /// Notes that spliced code relies on what `sel` resolves to in class `k`.
    pub(crate) fn record_inline_dep(&mut self, k: KlassOop, sel: SymbolOop)
        ensures
            final(self)@ == old(self)@.dep(k, sel),
    {
        let n: usize = self.inline_deps.len();
        let mut i: usize = 0;
        while i < n
            invariant
                *self == *old(self),
                n == self.inline_deps@.len(),
                i <= n,
                forall|j: int| 0 <= j < i ==> self.inline_deps@[j] != (k, sel),
            decreases n - i,
        {
            if self.inline_deps[i].0 == k && self.inline_deps[i].1 == sel {
                assert(self.inline_deps@[i as int] == (k, sel));
                return ;
            }
            i = i + 1;
        }
        self.inline_deps.push((k, sel));
    }

    /// Counts a spliced body towards the budget.
    pub(crate) fn budget_commit(&mut self, cost: u32)
        ensures
            final(self)@ == old(self)@.commit(cost),
    {
        self.budget_bytes_used = self.budget_bytes_used.saturating_add(cost);
    }

    /// Would splicing `m` exceed the budget?
    pub(crate) fn budget_would_exceed(&self, vm: &VmState, m: MethodOop) -> (r: bool)
        requires
            vm.wf(),
            vm.has(m),
        ensures
            r == self@.over_budget(*vm, m),
    {
        self.budget_bytes_used.saturating_add(vm.method(m).inline_cost) > vm.budget.total_bytes
    }

    /// Registers a call site with its profile; its index is the old number of sites.
    pub(crate) fn add_call_site(&mut self, info: CallSiteInfo, feedback: SiteFeedback) -> (r: u16)
        ensures
            r == old(self)@.call_sites.len() as u16,
            final(self)@ == old(self)@.call_site(info, feedback@),
    {
        let site: u16 = self.call_sites.len() as u16;
        self.call_sites.push(info);
        self.site_feedback.push(feedback);
        assert(self@.site_feedback =~= old(self)@.site_feedback.push(feedback@));
        site
    }

    /// Loads an object word into a fresh register.
    pub(crate) fn push_well_known(&mut self, raw: u64, seg: &mut Seg) -> (r: VReg)
        ensures
            r == old(self)@.reg(),
            st(*final(self), *final(seg)) == st(*old(self), *old(seg)).load_oop(raw),
    {
        let lit = self.intern_oop(raw);
        let dst = self.fresh(true);
        seg.emit(Ir::ConstPool { dst, lit });
        dst
    }
}

} // verus!

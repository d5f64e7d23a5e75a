//! One instruction of the method itself, closures included.
//!
//! A closure that is only invoked inside the method is elided: the simulated stack holds a filler
//! for it, a shadow stack and the temporaries' shadow name the position that created it, and its
//! body is spliced where it is invoked. Other closures are allocated.

use vstd::prelude::*;
use crate::classify::{is_single_return_block, single_return_block};
use crate::graft::{inline_cfg, BlockArg, GraftMode, GraftView};
use crate::ir::{copy_regs, DeoptRaw, DeoptView, GuardShape, InlineSite, InlineView, Ir, VReg};
use crate::ops::{ctx_push, ctx_store, simple};
use crate::root::{root_send, spliced, EndView, SpliceEnd, Step, StepEnd};
use crate::scopes::SafepointKind;
use crate::splice::{block_body, next_regs, nil_temps, Site};
use crate::translator::{pool_oop, st, Ctx, CtxView, OutView, Seg, SegView, St, Translator};
use crate::world::{BlockArgSend, Instr, InterpreterIc, KlassOop, Method, MethodOop, SiteFeedback};

verus! {

/// The block body of the closure created at `site`.
pub open spec fn created_block(cx: CtxView, site: usize) -> Option<MethodOop> {
    let m = cx.vm.m(cx.method);
    if site < m.code@.len() && m.code@[site as int] is Some {
        match m.instr_at(site as int) {
            Instr::PushClosure { lit, .. } => m.literals@[lit as int].method,
            _ => None,
        }
    } else {
        None
    }
}

/// The shadow of a stack whose last `n` entries were replaced by one ordinary value.
pub open spec fn replaced(sites: Seq<Option<usize>>, n: int) -> Seq<Option<usize>> {
    sites.subrange(0, sites.len() - n).push(None)
}

/// The shadow, cut or padded to length `n`.
pub open spec fn fit(sites: Seq<Option<usize>>, n: nat) -> Seq<Option<usize>> {
    Seq::new(
        n,
        |i: int|
            if i < sites.len() {
                sites[i]
            } else {
                None
            },
    )
}

/// The extent of a straight-line block spliced into the method itself.
pub open spec fn value_proto(
    cx: CtxView,
    pool_ix: u32,
    slots: Seq<VReg>,
    bci: usize,
    below: Seq<VReg>,
) -> InlineView {
    InlineView {
        method_pool_ix: pool_ix,
        receiver: cx.self_vreg,
        slots,
        sender_bci: bci as u16,
        caller_pending_stack: below,
        is_block: true,
        parent: None,
        slot_closures: seq![],
    }
}

/// The body of a straight-line block with operands `args`.
pub open spec fn value_body(cx: CtxView, blk: MethodOop, args: Seq<VReg>, bci: usize, s: St) -> Option<
    (St, Option<VReg>),
> {
    let m = cx.vm.m(blk);
    let nil = pool_oop(cx.vm.universe.nil_obj);
    let e = pool_oop(m.oop);
    let slots = args + next_regs(s.out, m.ntemps as nat);
    let s1 = nil_temps(s.lit(nil), m.ntemps as nat, s.intern(nil));
    block_body(
        cx,
        m,
        cx.self_vreg,
        slots,
        value_proto(cx, s1.lit(e).0, slots, bci, s.seg.stack),
        s1.intern(e),
    )
}

/// The send that invokes the closure created at `site`: its body goes here.
pub open spec fn value_splice(
    cx: CtxView,
    site: usize,
    ic: InterpreterIc,
    bci: usize,
    s: St,
    sites: Seq<Option<usize>>,
) -> Option<Step> {
    let n = ic.argc + 1;
    match created_block(cx, site) {
        None => None,
        Some(blk) => if s.depth() < n {
            None
        } else {
            let args = s.seg.stack.subrange(s.depth() - ic.argc, s.depth() as int);
            let below = s.drop(n);
            if !single_return_block(cx.vm.m(blk)) {
                match inline_cfg(
                    cx,
                    Site {
                        callee: blk,
                        guard: None,
                        dep_klass: cx.rcvr_klass,
                        selector: ic.selector,
                        receiver: cx.self_vreg,
                        args,
                        bci,
                    },
                    None,
                    GraftView { is_block: true, parent: None },
                    below,
                ) {
                    Some((s1, Some((v, enter, cont)))) => Some(
                        Step {
                            s: spliced(s1, SpliceEnd::Graft(v, enter, cont)).0,
                            sites: replaced(sites, n),
                            end: StepEnd::Split(cont),
                        },
                    ),
                    _ => None,
                }
            } else if cx.vm.m(blk).argc != ic.argc {
                None
            } else {
                match value_body(cx, blk, args, bci, below) {
                    Some((s1, Some(v))) => Some(
                        Step { s: s1.push(v), sites: replaced(sites, n), end: StepEnd::Next },
                    ),
                    Some((s1, None)) => Some(
                        Step {
                            s: s1,
                            sites: sites.subrange(0, sites.len() - n),
                            end: StepEnd::Trapped,
                        },
                    ),
                    None => None,
                }
            }
        },
    }
}

/// The callee of a send that passes an elided closure: the class to guard on (unless the receiver
/// is the method's own), the class relied on, and the method.
pub open spec fn blockarg_callee(cx: CtxView, ic: InterpreterIc, devirt: bool) -> Option<
    (Option<(KlassOop, GuardShape)>, KlassOop, MethodOop),
> {
    if devirt {
        match cx.vm.lookup(cx.rcvr_klass, ic.selector) {
            Some(callee) => Some((None, cx.rcvr_klass, callee)),
            None => None,
        }
    } else {
        match ic.feedback@ {
            SiteFeedback::Mono { klass, method } => Some(
                (
                    Some(
                        (
                            klass,
                            if klass == cx.vm.universe.smi_klass {
                                GuardShape::SmiTest
                            } else {
                                GuardShape::KlassTest
                            },
                        ),
                    ),
                    klass,
                    method,
                ),
            ),
            _ => None,
        }
    }
}

/// A send that passes an elided closure along: the callee is grafted with the closure inside.
pub open spec fn blockarg_splice(
    cx: CtxView,
    t: BlockArgSend,
    ic: InterpreterIc,
    bci: usize,
    s: St,
    sites: Seq<Option<usize>>,
) -> Option<Step> {
    let n = ic.argc + 1;
    match (created_block(cx, t.site), blockarg_callee(cx, ic, t.devirt)) {
        (Some(blk), Some((guard, dep_klass, callee))) => if s.depth() < n {
            None
        } else {
            let e = pool_oop(cx.vm.m(blk).oop);
            let below = s.drop(n);
            match inline_cfg(
                cx,
                Site {
                    callee,
                    guard,
                    dep_klass,
                    selector: ic.selector,
                    receiver: s.top(ic.argc as int),
                    args: s.seg.stack.subrange(s.depth() - ic.argc, s.depth() as int),
                    bci,
                },
                Some(BlockArg { arg_ix: t.arg_ix, block: blk, pool_ix: s.lit(e).0 }),
                GraftView { is_block: false, parent: None },
                below.intern(e),
            ) {
                Some((s1, Some((v, enter, cont)))) => Some(
                    Step {
                        s: spliced(s1, SpliceEnd::Graft(v, enter, cont)).0,
                        sites: replaced(sites, n),
                        end: StepEnd::Split(cont),
                    },
                ),
                _ => None,
            }
        },
        _ => None,
    }
}

/// How the handling of elided closures ends.
pub ghost enum SiteStep {
    /// The instruction is done.
    Handled(Step),
    /// The instruction is about ordinary values and goes on from this state.
    Through(St),
    /// The instruction cannot be translated.
    Stuck,
}

pub open spec fn top_site(sites: Seq<Option<usize>>) -> Option<usize> {
    if sites.len() > 0 {
        sites.last()
    } else {
        None
    }
}

pub open spec fn set_temp_site(s: St, t: u16, site: Option<usize>) -> St {
    s.with_out(OutView { temp_sites: s.out.temp_sites.update(t as int, site), ..s.out })
}

pub open spec fn handled(s: St, sites: Seq<Option<usize>>) -> SiteStep {
    SiteStep::Handled(Step { s, sites, end: StepEnd::Next })
}

pub open spec fn handled_if(step: Option<Step>) -> SiteStep {
    match step {
        Some(x) => SiteStep::Handled(x),
        None => SiteStep::Stuck,
    }
}

/// Creates, moves, drops and invokes elided closures. Nothing is emitted for the moves: the filler
/// on the stack is never read.
pub open spec fn site_step(
    cx: CtxView,
    i: Instr,
    bci: usize,
    s: St,
    sites: Seq<Option<usize>>,
) -> SiteStep {
    let m = cx.vm.m(cx.method);
    let esc = m.escape;
    match i {
        Instr::PushClosure { ncopied, .. } => if esc.escapes(bci) {
            SiteStep::Through(s)
        } else if s.depth() < ncopied {
            SiteStep::Stuck
        } else {
            handled(
                s.drop(ncopied as int).push(cx.self_vreg),
                sites.subrange(0, sites.len() - ncopied).push(Some(bci)),
            )
        },
        Instr::PushTemp(t) => if t >= s.out.temp_sites.len() {
            SiteStep::Stuck
        } else if s.out.temp_sites[t as int] is Some {
            handled(s.push(cx.self_vreg), sites.push(s.out.temp_sites[t as int]))
        } else {
            SiteStep::Through(s)
        },
        Instr::StoreTempPop(t) => if t >= s.out.temp_sites.len() {
            SiteStep::Stuck
        } else if top_site(sites) is Some {
            handled(set_temp_site(s.drop(1), t, top_site(sites)), sites.drop_last())
        } else {
            SiteStep::Through(set_temp_site(s, t, None))
        },
        Instr::StoreTemp(t) => if t >= s.out.temp_sites.len() {
            SiteStep::Stuck
        } else if top_site(sites) is Some {
            handled(set_temp_site(s, t, top_site(sites)), sites)
        } else {
            SiteStep::Through(set_temp_site(s, t, None))
        },
        Instr::Dup => if top_site(sites) is Some {
            handled(s.push(cx.self_vreg), sites.push(top_site(sites)))
        } else {
            SiteStep::Through(s)
        },
        Instr::Pop => if top_site(sites) is Some {
            handled(s.drop(1), sites.drop_last())
        } else {
            SiteStep::Through(s)
        },
        Instr::Send { ic, .. } => {
            let ic = m.ics@[ic as int];
            match esc.blockarg_target(bci) {
                Some(t) => handled_if(blockarg_splice(cx, t, ic, bci, s, sites)),
                None => match esc.value_target(bci) {
                    Some(site) => handled_if(value_splice(cx, site, ic, bci, s, sites)),
                    None => SiteStep::Through(s),
                },
            }
        },
        _ => SiteStep::Through(s),
    }
}

pub open spec fn init_store(obj: VReg, byte_off: int, val: VReg) -> Ir<Seq<VReg>> {
    Ir::StoreField { obj, byte_off: byte_off as i32, val, barrier: false }
}

/// The stores of captured values into a fresh closure, from slot `base` of its copied values on.
pub open spec fn capture_stores(obj: VReg, base: int, vals: Seq<VReg>) -> Seq<Ir<Seq<VReg>>> {
    Seq::new(vals.len(), |i: int| init_store(obj, 40 + 8 * (base + i), vals[i]))
}

/// Allocates a closure over the last `ncopied` operands: the block at byte 16, a dead home at 24,
/// the number of copied values at 32, then the receiver, the context if the block uses it, and the
/// operands. A deoptimization at the allocation runs the bytecode again.
pub open spec fn alloc_closure(cx: CtxView, lit: u16, ncopied: u8, bci: usize, s: St) -> Option<St> {
    let u = cx.vm.universe;
    match cx.vm.m(cx.method).literals@[lit as int].method {
        None => None,
        Some(blk) => {
            let b = cx.vm.m(blk);
            if s.depth() < ncopied || (b.captures_ctx && cx.method_ctx_vreg is None) {
                None
            } else {
                let base = s.depth() - ncopied;
                let first: int = if b.captures_ctx {
                    2
                } else {
                    1
                };
                let total = first + ncopied;
                let e = pool_oop(u.closure_klass.0);
                let d = s.reg();
                let s1 = s.site(
                    DeoptView {
                        stack: s.seg.stack,
                        bci,
                        kind: SafepointKind::Alloc,
                        reexecute: true,
                        stack_closures: seq![],
                        inline: None,
                    },
                ).intern(e).fresh(true).emit(
                    Ir::Alloc { dst: d, klass: s.lit(e), size_words: (5 + total) as u32 },
                );
                let s2 = s1.load_oop(b.oop).emit(init_store(d, 16, s1.reg()));
                let s3 = s2.fresh(false).emit(
                    Ir::ConstSmi { dst: s2.reg(), value: u.home_dead_sentinel },
                ).emit(init_store(d, 24, s2.reg()));
                let s4 = s3.fresh(false).emit(
                    Ir::ConstSmi { dst: s3.reg(), value: total as i64 },
                ).emit(init_store(d, 32, s3.reg()));
                let s5 = s4.emit(init_store(d, 40, cx.self_vreg));
                let s6 = if b.captures_ctx {
                    s5.emit(init_store(d, 48, cx.method_ctx_vreg->0))
                } else {
                    s5
                };
                Some(
                    St {
                        seg: SegView {
                            stack: s.seg.stack.subrange(0, base).push(d),
                            code: s6.seg.code + capture_stores(
                                d,
                                first,
                                s.seg.stack.subrange(base, s.depth() as int),
                            ),
                            deopt: s6.seg.deopt,
                        },
                        ..s6
                    },
                )
            }
        },
    }
}

pub open spec fn home_ctx(cx: CtxView) -> Option<VReg> {
    if cx.block_ctx_vreg is Some {
        cx.block_ctx_vreg
    } else {
        cx.method_ctx_vreg
    }
}

pub open spec fn pop_emit(s: St, op: Ir<Seq<VReg>>) -> Option<(St, EndView)> {
    if s.depth() > 0 {
        Some((s.drop(1).emit(op), StepEnd::Next))
    } else {
        None
    }
}

/// An instruction on ordinary values.
pub open spec fn value_instr(
    cx: CtxView,
    i: Instr,
    fusable: bool,
    bci: usize,
    s: St,
    sites: Seq<Option<usize>>,
) -> Option<(St, EndView)> {
    let m = cx.vm.m(cx.method);
    match i {
        Instr::Send { ic, super_ } => root_send(
            cx,
            m.ics@[ic as int],
            super_,
            fusable,
            bci,
            s,
            sites,
        ),
        // Control flow is the block's end, not the instruction's.
        Instr::JumpFwd(_) => Some((s, StepEnd::Next)),
        Instr::JumpBack(_) => Some((s, StepEnd::Next)),
        Instr::BrTrueFwd(_) => Some((s, StepEnd::Next)),
        Instr::BrFalseFwd(_) => Some((s, StepEnd::Next)),
        Instr::ReturnTos => pop_emit(s, Ir::Ret { val: s.top(0) }),
        Instr::BlockReturnTos => pop_emit(s, Ir::Ret { val: s.top(0) }),
        Instr::ReturnSelf => Some((s.emit(Ir::RetSelf), StepEnd::Next)),
        Instr::NlrTos => match cx.block_closure_vreg {
            Some(closure) => pop_emit(s, Ir::NlrReturn { closure, value: s.top(0) }),
            None => None,
        },
        Instr::PushCtxTemp { idx, .. } => crate::root::next_end(
            ctx_push(cx, home_ctx(cx), idx, s),
        ),
        Instr::StoreCtxTempPop { idx, .. } => crate::root::next_end(
            ctx_store(cx, home_ctx(cx), idx, s),
        ),
        Instr::PushClosure { lit, ncopied } => crate::root::next_end(
            alloc_closure(cx, lit, ncopied, bci, s),
        ),
        _ => crate::root::next_end(simple(cx.vm, m, i, cx.self_vreg, cx.temp_vregs, true, s)),
    }
}

/// One instruction of the method.
pub open spec fn instr_step(
    cx: CtxView,
    i: Instr,
    fusable: bool,
    bci: usize,
    s: St,
    sites: Seq<Option<usize>>,
) -> Option<Step> {
    let first = if cx.has_closures {
        site_step(cx, i, bci, s, sites)
    } else {
        SiteStep::Through(s)
    };
    match first {
        SiteStep::Handled(x) => Some(Step { sites: fit(x.sites, x.s.depth()), ..x }),
        SiteStep::Stuck => None,
        SiteStep::Through(s1) => match value_instr(cx, i, fusable, bci, s1, sites) {
            Some((s2, end)) => Some(Step { s: s2, sites: fit(sites, s2.depth()), end }),
            None => None,
        },
    }
}

fn fit_sites(sites: &mut Vec<Option<usize>>, n: usize)
    ensures
        final(sites)@ == fit(old(sites)@, n as nat),
{
    sites.truncate(n);
    assert(forall|i: int|
        0 <= i < sites@.len() ==> #[trigger] sites@[i] == fit(old(sites)@, n as nat)[i]);
    while sites.len() < n
        invariant
            sites@.len() <= n,
            sites@.len() < n ==> sites@.len() >= old(sites)@.len(),
            forall|i: int|
                0 <= i < sites@.len() ==> #[trigger] sites@[i] == fit(old(sites)@, n as nat)[i],
        decreases n - sites@.len(),
    {
        sites.push(None);
    }
    assert(sites@ =~= fit(old(sites)@, n as nat));
}

fn find_blockarg_callee(cx: &Ctx, ic: &InterpreterIc, devirt: bool) -> (r: (
    Option<(KlassOop, GuardShape)>,
    KlassOop,
    MethodOop,
))
    requires
        cx.wf(),
        ic.wf(cx.vm.methods@.len() as int),
        blockarg_callee(cx@, *ic, devirt) is Some,
    ensures
        blockarg_callee(cx@, *ic, devirt) == Some(r),
        cx.vm.has(r.2),
{
    if devirt {
        return (None, cx.rcvr_klass, cx.vm.resolve_method(cx.rcvr_klass, ic.selector).unwrap());
    }
    match &ic.feedback {
        SiteFeedback::Mono { klass, method } => {
            let shape = if *klass == cx.vm.universe.smi_klass {
                GuardShape::SmiTest
            } else {
                GuardShape::KlassTest
            };
            (Some((*klass, shape)), *klass, *method)
        },
        _ => (None, cx.rcvr_klass, cx.method),
    }
}

impl Translator {
    fn find_created_block(&self, cx: &Ctx, site: usize) -> (r: MethodOop)
        requires
            cx.wf(),
            created_block(cx@, site) is Some,
        ensures
            created_block(cx@, site) == Some(r),
            cx.vm.has(r),
    {
        let m = cx.vm.method(cx.method);
        assert(m.boundary(site as int));
        let (i, _) = m.decode_at(site);
        match i {
            Instr::PushClosure { lit, .. } => {
                assert(m.literals@[lit as int].method == created_block(cx@, site));
                m.literals[lit as usize].method.unwrap()
            },
            _ => cx.method,
        }
    }

    /// Splices the body of a straight-line block.
    fn splice_value_body(
        &mut self,
        cx: &Ctx,
        blk: MethodOop,
        args: Vec<VReg>,
        bci: usize,
        seg: &mut Seg,
    ) -> (r: Option<VReg>)
        requires
            cx.wf(),
            cx.vm.has(blk),
            value_body(cx@, blk, args@, bci, st(*old(self), *old(seg))) is Some,
        ensures
            value_body(cx@, blk, args@, bci, st(*old(self), *old(seg))) == Some(
                (st(*final(self), *final(seg)), r),
            ),
    {
        let m = cx.vm.method(blk);
        let ghost s = st(*self, *seg);
        let pending = copy_regs(&seg.stack);
        let lit = self.intern_oop(cx.vm.universe.nil_obj);
        let mut slots = args;
        self.emit_nil_temps(lit, m.ntemps, &mut slots, seg);
        assert(next_regs(s.intern(pool_oop(cx.vm.universe.nil_obj)).out, m.ntemps as nat)
            =~= next_regs(s.out, m.ntemps as nat));
        let pool_ix: u32 = self.intern_oop(m.oop).0;
        let proto = InlineSite {
            method_pool_ix: pool_ix,
            receiver: cx.self_vreg,
            slots: copy_regs(&slots),
            sender_bci: bci as u16,
            caller_pending_stack: pending,
            is_block: true,
            parent: None,
            slot_closures: Vec::new(),
        };
        assert(proto.model().slot_closures =~= seq![]);
        assert(proto.model() == value_proto(cx@, pool_ix, slots@, bci, s.seg.stack));
        self.translate_spliced_block_body(cx, m, cx.self_vreg, &slots, &proto, seg)
    }

    /// Splices the closure that a send invokes.
    fn splice_block(
        &mut self,
        cx: &Ctx,
        site: usize,
        ic: &InterpreterIc,
        bci: usize,
        seg: &mut Seg,
        sites: &mut Vec<Option<usize>>,
    ) -> (r: StepEnd)
        requires
            cx.wf(),
            old(sites)@.len() == old(seg)@.stack.len(),
            value_splice(
                cx@,
                site,
                *ic,
                bci,
                st(*old(self), *old(seg)),
                old(sites)@,
            ) is Some,
        ensures
            value_splice(cx@, site, *ic, bci, st(*old(self), *old(seg)), old(sites)@) == Some(
                Step { s: st(*final(self), *final(seg)), sites: final(sites)@, end: r@ },
            ),
    {
        let ghost s = st(*self, *seg);
        let blk = self.find_created_block(cx, site);
        let args = seg.pop_n(ic.argc as usize);
        let _ = seg.pop();
        assert(seg@.stack =~= s.drop(ic.argc + 1).seg.stack);
        let keep: usize = sites.len() - ic.argc as usize - 1;
        sites.truncate(keep);
        if !is_single_return_block(cx.vm.method(blk)) {
            let x = Site {
                callee: blk,
                guard: None,
                dep_klass: cx.rcvr_klass,
                selector: ic.selector,
                receiver: cx.self_vreg,
                args,
                bci,
            };
            let (v, enter, cont) = self.try_inline_cfg(
                cx,
                &x,
                None,
                GraftMode::Block { parent: None },
                seg,
            ).unwrap();
            seg.push(v);
            sites.push(None);
            self.pending_jump_target = Some(enter);
            StepEnd::Split(cont)
        } else {
            match self.splice_value_body(cx, blk, args, bci, seg) {
                Some(v) => {
                    seg.push(v);
                    sites.push(None);
                    StepEnd::Next
                },
                None => StepEnd::Trapped,
            }
        }
    }

    /// Grafts the callee of a send that passes an elided closure along.
    fn splice_blockarg_send(
        &mut self,
        cx: &Ctx,
        t: BlockArgSend,
        ic: &InterpreterIc,
        bci: usize,
        seg: &mut Seg,
        sites: &mut Vec<Option<usize>>,
    ) -> (r: StepEnd)
        requires
            cx.wf(),
            ic.wf(cx.vm.methods@.len() as int),
            old(sites)@.len() == old(seg)@.stack.len(),
            blockarg_splice(cx@, t, *ic, bci, st(*old(self), *old(seg)), old(sites)@) is Some,
        ensures
            blockarg_splice(cx@, t, *ic, bci, st(*old(self), *old(seg)), old(sites)@) == Some(
                Step { s: st(*final(self), *final(seg)), sites: final(sites)@, end: r@ },
            ),
    {
        let ghost s = st(*self, *seg);
        let blk = self.find_created_block(cx, t.site);
        let pool_ix: u32 = self.intern_oop(cx.vm.method(blk).oop).0;
        let (guard, dep_klass, callee) = find_blockarg_callee(cx, ic, t.devirt);
        let args = seg.pop_n(ic.argc as usize);
        let receiver = seg.pop();
        assert(seg@.stack =~= s.drop(ic.argc + 1).seg.stack);
        let keep: usize = sites.len() - ic.argc as usize - 1;
        sites.truncate(keep);
        let x = Site { callee, guard, dep_klass, selector: ic.selector, receiver, args, bci };
        let (v, enter, cont) = self.try_inline_cfg(
            cx,
            &x,
            Some(BlockArg { arg_ix: t.arg_ix, block: blk, pool_ix }),
            GraftMode::Method,
            seg,
        ).unwrap();
        seg.push(v);
        sites.push(None);
        self.pending_jump_target = Some(enter);
        StepEnd::Split(cont)
    }

    /// Handles elided closures; `None` when the instruction is about ordinary values.
    fn translate_site_instr(
        &mut self,
        cx: &Ctx,
        i: &Instr,
        bci: usize,
        seg: &mut Seg,
        sites: &mut Vec<Option<usize>>,
    ) -> (r: Option<StepEnd>)
        requires
            cx.wf(),
            cx.vm.m(cx.method).instr_wf(*i),
            old(sites)@.len() == old(seg)@.stack.len(),
            !(site_step(cx@, *i, bci, st(*old(self), *old(seg)), old(sites)@) is Stuck),
        ensures
            site_step(cx@, *i, bci, st(*old(self), *old(seg)), old(sites)@) == (match r {
                Some(end) => SiteStep::Handled(
                    Step { s: st(*final(self), *final(seg)), sites: final(sites)@, end: end@ },
                ),
                None => SiteStep::Through(st(*final(self), *final(seg))),
            }),
            r is None ==> final(sites)@ == old(sites)@ && final(seg)@.stack == old(seg)@.stack,
    {
        let m = cx.vm.method(cx.method);
        let top: Option<usize> = if sites.len() > 0 {
            sites[sites.len() - 1]
        } else {
            None
        };
        match *i {
            Instr::PushClosure { ncopied, .. } => {
                if m.escape.is_escaping_site(bci) {
                    return None;
                }
                let _ = seg.pop_n(ncopied as usize);
                seg.push(cx.self_vreg);
                let keep: usize = sites.len() - ncopied as usize;
                sites.truncate(keep);
                sites.push(Some(bci));
                Some(StepEnd::Next)
            },
            Instr::PushTemp(t) => {
                let site: Option<usize> = self.temp_sites[t as usize];
                if site.is_none() {
                    return None;
                }
                seg.push(cx.self_vreg);
                sites.push(site);
                Some(StepEnd::Next)
            },
            Instr::StoreTempPop(t) => {
                if top.is_some() {
                    let _ = seg.pop();
                    let _ = sites.pop();
                    assert(sites@ =~= old(sites)@.drop_last());
                    self.temp_sites[t as usize] = top;
                    return Some(StepEnd::Next);
                }
                self.temp_sites[t as usize] = None;
                None
            },
            Instr::StoreTemp(t) => {
                self.temp_sites[t as usize] = top;
                if top.is_some() {
                    return Some(StepEnd::Next);
                }
                None
            },
            Instr::Dup => {
                if top.is_none() {
                    return None;
                }
                seg.push(cx.self_vreg);
                sites.push(top);
                Some(StepEnd::Next)
            },
            Instr::Pop => {
                if top.is_none() {
                    return None;
                }
                let _ = seg.pop();
                let _ = sites.pop();
                assert(sites@ =~= old(sites)@.drop_last());
                Some(StepEnd::Next)
            },
            Instr::Send { ic, .. } => {
                let ic = &m.ics[ic as usize];
                if let Some(t) = m.escape.blockarg_send_target(bci) {
                    return Some(self.splice_blockarg_send(cx, t, ic, bci, seg, sites));
                }
                if let Some(site) = m.escape.value_send_target(bci) {
                    return Some(self.splice_block(cx, site, ic, bci, seg, sites));
                }
                None
            },
            _ => None,
        }
    }

    /// Emits the allocation of a closure.
    fn emit_closure(&mut self, cx: &Ctx, lit: u16, ncopied: u8, bci: usize, seg: &mut Seg)
        requires
            cx.wf(),
            lit < cx.vm.m(cx.method).literals@.len(),
            alloc_closure(cx@, lit, ncopied, bci, st(*old(self), *old(seg))) is Some,
        ensures
            alloc_closure(cx@, lit, ncopied, bci, st(*old(self), *old(seg))) == Some(
                st(*final(self), *final(seg)),
            ),
    {
        let ghost s = st(*self, *seg);
        let m = cx.vm.method(cx.method);
        let blk = m.literals[lit as usize].method.unwrap();
        let b = cx.vm.method(blk);
        let first: u32 = if b.captures_ctx {
            2
        } else {
            1
        };
        let total: u32 = first + ncopied as u32;
        let deopt_stack = copy_regs(&seg.stack);
        let vals = seg.pop_n(ncopied as usize);
        seg.site(
            DeoptRaw {
                stack: deopt_stack,
                bci,
                kind: SafepointKind::Alloc,
                reexecute: true,
                stack_closures: Vec::new(),
                inline: None,
            },
        );
        let klass = self.intern_oop(cx.vm.universe.closure_klass.0);
        let dst = self.fresh(true);
        seg.emit(Ir::Alloc { dst, klass, size_words: 5 + total });
        let blk_v = self.push_well_known(b.oop, seg);
        seg.emit(Ir::StoreField { obj: dst, byte_off: 16, val: blk_v, barrier: false });
        let home_v = self.fresh(false);
        seg.emit(Ir::ConstSmi { dst: home_v, value: cx.vm.universe.home_dead_sentinel });
        seg.emit(Ir::StoreField { obj: dst, byte_off: 24, val: home_v, barrier: false });
        let size_v = self.fresh(false);
        seg.emit(Ir::ConstSmi { dst: size_v, value: total as i64 });
        seg.emit(Ir::StoreField { obj: dst, byte_off: 32, val: size_v, barrier: false });
        seg.emit(Ir::StoreField { obj: dst, byte_off: 40, val: cx.self_vreg, barrier: false });
        if b.captures_ctx {
            let ctx = cx.method_ctx_vreg.unwrap();
            seg.emit(Ir::StoreField { obj: dst, byte_off: 48, val: ctx, barrier: false });
        }
        let ghost before = seg@;
        let ghost stores = capture_stores(dst, first as int, vals@);
        assert(seg@.code =~= before.code + stores.take(0));
        for k in 0..vals.len()
            invariant
                vals@.len() == ncopied,
                first == 1 || first == 2,
                stores == capture_stores(dst, first as int, vals@),
                seg@ == (SegView { code: before.code + stores.take(k as int), ..before }),
        {
            let off: i32 = 40 + 8 * (first as i32 + k as i32);
            seg.emit(Ir::StoreField { obj: dst, byte_off: off, val: vals[k], barrier: false });
            assert(seg@.code =~= before.code + stores.take(k + 1));
        }
        assert(stores.take(vals@.len() as int) =~= stores);
        seg.push(dst);
    }

    /// Translates an instruction on ordinary values.
    fn translate_value_instr(
        &mut self,
        cx: &Ctx,
        i: &Instr,
        fusable: bool,
        bci: usize,
        seg: &mut Seg,
        sites: &Vec<Option<usize>>,
    ) -> (r: StepEnd)
        requires
            cx.wf(),
            cx.vm.m(cx.method).instr_wf(*i),
            sites@.len() == old(seg)@.stack.len(),
            value_instr(cx@, *i, fusable, bci, st(*old(self), *old(seg)), sites@) is Some,
        ensures
            value_instr(cx@, *i, fusable, bci, st(*old(self), *old(seg)), sites@) == Some(
                (st(*final(self), *final(seg)), r@),
            ),
    {
        let m = cx.vm.method(cx.method);
        let ctx: Option<VReg> = if cx.block_ctx_vreg.is_some() {
            cx.block_ctx_vreg
        } else {
            cx.method_ctx_vreg
        };
        match *i {
            Instr::Send { ic, super_ } => {
                return self.translate_root_send(
                    cx,
                    &m.ics[ic as usize],
                    super_,
                    fusable,
                    bci,
                    seg,
                    sites,
                );
            },
            Instr::JumpFwd(_) | Instr::JumpBack(_) | Instr::BrTrueFwd(_) | Instr::BrFalseFwd(
                _,
            ) => {},
            Instr::ReturnTos | Instr::BlockReturnTos => {
                let val = seg.pop();
                seg.emit(Ir::Ret { val });
            },
            Instr::ReturnSelf => seg.emit(Ir::RetSelf),
            Instr::NlrTos => {
                let value = seg.pop();
                seg.emit(Ir::NlrReturn { closure: cx.block_closure_vreg.unwrap(), value });
            },
            Instr::PushCtxTemp { idx, .. } => self.push_ctx_temp(cx, ctx, idx, seg),
            Instr::StoreCtxTempPop { idx, .. } => self.store_ctx_temp(cx, ctx, idx, seg),
            Instr::PushClosure { lit, ncopied } => self.emit_closure(cx, lit, ncopied, bci, seg),
            _ => self.translate_simple(
                cx.vm,
                m,
                i,
                cx.self_vreg,
                &cx.temp_vregs,
                true,
                seg,
            ),
        }
        StepEnd::Next
    }

    /// Translates one instruction of the method. Branches and jumps emit nothing here: they end
    /// their block. With `fusable`, a comparison is left to the branch that follows it.
    pub(crate) fn translate_instr(
        &mut self,
        cx: &Ctx,
        i: &Instr,
        fusable: bool,
        bci: usize,
        seg: &mut Seg,
        sites: &mut Vec<Option<usize>>,
    ) -> (r: StepEnd)
        requires
            cx.wf(),
            cx.vm.m(cx.method).instr_wf(*i),
            old(sites)@.len() == old(seg)@.stack.len(),
            instr_step(cx@, *i, fusable, bci, st(*old(self), *old(seg)), old(sites)@) is Some,
        ensures
            instr_step(cx@, *i, fusable, bci, st(*old(self), *old(seg)), old(sites)@) == Some(
                Step { s: st(*final(self), *final(seg)), sites: final(sites)@, end: r@ },
            ),
    {
        if cx.has_closures {
            if let Some(end) = self.translate_site_instr(cx, i, bci, seg, sites) {
                fit_sites(sites, seg.stack.len());
                return end;
            }
        }
        let end = self.translate_value_instr(cx, i, fusable, bci, seg, sites);
        fit_sites(sites, seg.stack.len());
        end
    }
}

} // verus!

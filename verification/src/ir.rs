//! The machine-shaped intermediate representation: operations, basic blocks, deoptimization sites
//! and the method that holds them.
//!
//! Operations that carry a list of operands are generic in the list (`Vec` in compiled code, `Seq`
//! in contracts), so that one declaration serves both the code and its mathematical model.

use vstd::prelude::*;
use crate::scopes::SafepointKind;
use crate::world::{FeedbackView, KlassOop, SiteFeedback, SymbolOop};

verus! {

/// A virtual register.
#[derive(Clone, Copy, PartialEq, Eq, Hash, Debug, Structural)]
pub struct VReg(pub u32);

#[derive(Clone, Copy, PartialEq, Eq, Debug, Structural)]
pub struct BlockId(pub u32);

/// Index into an [`IrMethod`]'s own literal pool.
#[derive(Clone, Copy, PartialEq, Eq, Debug, Structural)]
pub struct PoolLit(pub u32);

/// The runtime stub an `Ir::CallRuntime` calls.
#[derive(Clone, Copy, PartialEq, Eq, Debug, Structural)]
pub struct StubId(pub u32);

impl StubId {
    /// The stub that handles a branch on a value that is not a boolean.
    pub fn must_be_boolean() -> (r: StubId)
        ensures
            r == StubId(0),
    {
        StubId(0)
    }
}

/// A position that needs an oop map.
#[derive(Clone, Copy, PartialEq, Eq, Debug, Structural)]
pub struct SafepointId(pub u32);

/// What a virtual register holds: an object pointer, an unboxed double, or neither.
#[derive(Clone, Copy, PartialEq, Eq, Debug, Structural)]
pub struct VRegInfo {
    pub is_oop: bool,
    pub is_fp: bool,
}

#[derive(Clone, Copy, PartialEq, Eq, Debug, Structural)]
pub enum SmiOp {
    Add,
    Sub,
    Mul,
    And,
    Or,
    Xor,
}

#[derive(Clone, Copy, PartialEq, Eq, Debug, Structural)]
pub enum FArithOp {
    Add,
    Sub,
    Mul,
    Div,
}

/// The vector class an `Ir::VecArith` works on.
#[derive(Clone, Copy, PartialEq, Eq, Debug, Structural)]
pub enum VecKind {
    F64x2,
    F32x4,
    I32x4,
}

impl VecKind {
    /// True for the integer lane types, which use integer vector opcodes.
    pub fn is_int(self) -> (r: bool)
        ensures
            r == (self is I32x4),
    {
        matches!(self, VecKind::I32x4)
    }
}

#[derive(Clone, Copy, PartialEq, Eq, Debug, Structural)]
pub enum CmpOp {
    Lt,
    Le,
    Gt,
    Ge,
    Eq,
    Ne,
}

#[derive(Clone, Copy, PartialEq, Eq, Debug, Structural)]
pub enum BailoutReason {
    SmiOpFailed,
}

/// The test an `Ir::GuardKlass` lowers to.
#[derive(Clone, Copy, PartialEq, Eq, Debug, Structural)]
pub enum GuardShape {
    SmiTest,
    KlassTest,
}

/// How a pool word must be kept current.
#[derive(Clone, Copy, PartialEq, Eq, Debug, Structural)]
pub enum RelocKind {
    Oop,
}

/// One literal pool entry; entries differ when either the word or the relocation differs.
#[derive(Clone, Copy, PartialEq, Eq, Debug)]
pub struct PoolEntry {
    pub value: u64,
    pub kind: Option<RelocKind>,
}

/// One operation. `L` is the type of an operand list.
#[derive(Debug)]
#[allow(inconsistent_fields)]
pub enum Ir<L = Vec<VReg>> {
    ConstSmi { dst: VReg, value: i64 },
    ConstPool { dst: VReg, lit: PoolLit },
    Move { dst: VReg, src: VReg },
    /// `index` 0 is the receiver, 1.. are the arguments. Entry block only.
    Param { dst: VReg, index: u8 },
    LoadKlass { dst: VReg, obj: VReg },
    LoadField { dst: VReg, obj: VReg, byte_off: i32 },
    StoreField { obj: VReg, byte_off: i32, val: VReg, barrier: bool },
    /// Tag check, operation and overflow check in one; leaves to `fail`.
    SmiArith { op: SmiOp, dst: VReg, a: VReg, b: VReg, fail: BlockId },
    /// Array element read behind klass, index and bounds checks.
    ArrayAt { dst: VReg, arr: VReg, idx: VReg, klass: PoolLit, fail: BlockId },
    /// Array element write; produces the stored value.
    ArrayAtPut { dst: VReg, arr: VReg, idx: VReg, val: VReg, klass: PoolLit, fail: BlockId },
    /// Small-integer comparison fused with the branch that consumes it.
    SmiCmpBr {
        op: CmpOp,
        a: VReg,
        b: VReg,
        if_true: BlockId,
        if_false: BlockId,
        fail: BlockId,
    },
    /// Small-integer comparison that materializes `true` or `false`.
    SmiCmpVal { op: CmpOp, dst: VReg, a: VReg, b: VReg, fail: BlockId },
    /// Identity comparison (`neq`: the other way round). Needs no guard.
    RefCmpVal { dst: VReg, a: VReg, b: VReg, neq: bool },
    /// Boolean negation, guarded: anything but `true` and `false` leaves to `fail`.
    BoolNot { dst: VReg, src: VReg, fail: BlockId },
    /// Double unboxing, guarded by klass.
    FUnbox { dst: VReg, src: VReg, fail: BlockId },
    /// Allocates a Double.
    FBox { dst: VReg, src: VReg },
    FArith { op: FArithOp, dst: VReg, a: VReg, b: VReg },
    FCmpBr { op: CmpOp, a: VReg, b: VReg, if_true: BlockId, if_false: BlockId },
    FCmpVal { op: CmpOp, dst: VReg, a: VReg, b: VReg },
    /// An unboxed double constant, as its raw bits.
    FConst { dst: VReg, bits: u64 },
    /// Elementwise vector arithmetic: guards, unboxes, computes and boxes.
    VecArith { kind: VecKind, op: FArithOp, dst: VReg, a: VReg, b: VReg, fail: BlockId },
    Jump { target: BlockId },
    BoolBr { val: VReg, if_true: BlockId, if_false: BlockId, not_bool: BlockId },
    /// Receiver-klass guard in front of a spliced body; falls through on a match.
    GuardKlass { obj: VReg, expect: PoolLit, fail: BlockId, kind: GuardShape },
    CallSend { dst: VReg, site: u16, args: L },
    CallRuntime { dst: Option<VReg>, stub: StubId, args: L },
    /// Inline allocation of a fixed-size object.
    Alloc { dst: VReg, klass: PoolLit, size_words: u32 },
    /// Loop back-edge check.
    Poll,
    /// Leaves compiled code; the interpreter resumes at `bci`.
    UncommonTrap { bci: usize },
    Ret { val: VReg },
    RetSelf,
    /// Non-local return out of a compiled block body.
    NlrReturn { closure: VReg, value: VReg },
    Bailout { reason: BailoutReason },
}

/// An operation as contracts see it.
pub type IrView = Ir<Seq<VReg>>;

impl View for Ir {
    type V = IrView;

    open spec fn view(&self) -> IrView {
        match *self {
            Ir::ConstSmi { dst, value } => Ir::ConstSmi { dst, value },
            Ir::ConstPool { dst, lit } => Ir::ConstPool { dst, lit },
            Ir::Move { dst, src } => Ir::Move { dst, src },
            Ir::Param { dst, index } => Ir::Param { dst, index },
            Ir::LoadKlass { dst, obj } => Ir::LoadKlass { dst, obj },
            Ir::LoadField { dst, obj, byte_off } => Ir::LoadField { dst, obj, byte_off },
            Ir::StoreField { obj, byte_off, val, barrier } => Ir::StoreField {
                obj,
                byte_off,
                val,
                barrier,
            },
            Ir::SmiArith { op, dst, a, b, fail } => Ir::SmiArith { op, dst, a, b, fail },
            Ir::ArrayAt { dst, arr, idx, klass, fail } => Ir::ArrayAt { dst, arr, idx, klass, fail },
            Ir::ArrayAtPut { dst, arr, idx, val, klass, fail } => Ir::ArrayAtPut {
                dst,
                arr,
                idx,
                val,
                klass,
                fail,
            },
            Ir::SmiCmpBr { op, a, b, if_true, if_false, fail } => Ir::SmiCmpBr {
                op,
                a,
                b,
                if_true,
                if_false,
                fail,
            },
            Ir::SmiCmpVal { op, dst, a, b, fail } => Ir::SmiCmpVal { op, dst, a, b, fail },
            Ir::RefCmpVal { dst, a, b, neq } => Ir::RefCmpVal { dst, a, b, neq },
            Ir::BoolNot { dst, src, fail } => Ir::BoolNot { dst, src, fail },
            Ir::FUnbox { dst, src, fail } => Ir::FUnbox { dst, src, fail },
            Ir::FBox { dst, src } => Ir::FBox { dst, src },
            Ir::FArith { op, dst, a, b } => Ir::FArith { op, dst, a, b },
            Ir::FCmpBr { op, a, b, if_true, if_false } => Ir::FCmpBr { op, a, b, if_true, if_false },
            Ir::FCmpVal { op, dst, a, b } => Ir::FCmpVal { op, dst, a, b },
            Ir::FConst { dst, bits } => Ir::FConst { dst, bits },
            Ir::VecArith { kind, op, dst, a, b, fail } => Ir::VecArith {
                kind,
                op,
                dst,
                a,
                b,
                fail,
            },
            Ir::Jump { target } => Ir::Jump { target },
            Ir::BoolBr { val, if_true, if_false, not_bool } => Ir::BoolBr {
                val,
                if_true,
                if_false,
                not_bool,
            },
            Ir::GuardKlass { obj, expect, fail, kind } => Ir::GuardKlass {
                obj,
                expect,
                fail,
                kind,
            },
            Ir::CallSend { dst, site, args } => Ir::CallSend { dst, site, args: args@ },
            Ir::CallRuntime { dst, stub, args } => Ir::CallRuntime { dst, stub, args: args@ },
            Ir::Alloc { dst, klass, size_words } => Ir::Alloc { dst, klass, size_words },
            Ir::Poll => Ir::Poll,
            Ir::UncommonTrap { bci } => Ir::UncommonTrap { bci },
            Ir::Ret { val } => Ir::Ret { val },
            Ir::RetSelf => Ir::RetSelf,
            Ir::NlrReturn { closure, value } => Ir::NlrReturn { closure, value },
            Ir::Bailout { reason } => Ir::Bailout { reason },
        }
    }
}

impl Ir<Seq<VReg>> {
    /// The registers this operation reads, in operand order. `RetSelf` reads the receiver, which
    /// always lives in register 0.
    pub open spec fn reads(self) -> Seq<VReg> {
        match self {
            Ir::Move { src, .. } => seq![src],
            Ir::LoadKlass { obj, .. } => seq![obj],
            Ir::LoadField { obj, .. } => seq![obj],
            Ir::StoreField { obj, val, .. } => seq![obj, val],
            Ir::SmiArith { a, b, .. } => seq![a, b],
            Ir::SmiCmpBr { a, b, .. } => seq![a, b],
            Ir::SmiCmpVal { a, b, .. } => seq![a, b],
            Ir::RefCmpVal { a, b, .. } => seq![a, b],
            Ir::BoolNot { src, .. } => seq![src],
            Ir::FArith { a, b, .. } => seq![a, b],
            Ir::FCmpBr { a, b, .. } => seq![a, b],
            Ir::FCmpVal { a, b, .. } => seq![a, b],
            Ir::FUnbox { src, .. } => seq![src],
            Ir::FBox { src, .. } => seq![src],
            Ir::VecArith { a, b, .. } => seq![a, b],
            Ir::ArrayAt { arr, idx, .. } => seq![arr, idx],
            Ir::ArrayAtPut { arr, idx, val, .. } => seq![arr, idx, val],
            Ir::BoolBr { val, .. } => seq![val],
            Ir::GuardKlass { obj, .. } => seq![obj],
            Ir::CallSend { args, .. } => args,
            Ir::CallRuntime { args, .. } => args,
            Ir::Ret { val } => seq![val],
            Ir::NlrReturn { closure, value } => seq![closure, value],
            Ir::RetSelf => seq![VReg(0)],
            _ => seq![],
        }
    }

    /// The register this operation writes, if any.
    pub open spec fn write(self) -> Option<VReg> {
        match self {
            Ir::ConstSmi { dst, .. } => Some(dst),
            Ir::ConstPool { dst, .. } => Some(dst),
            Ir::Move { dst, .. } => Some(dst),
            Ir::Param { dst, .. } => Some(dst),
            Ir::LoadKlass { dst, .. } => Some(dst),
            Ir::LoadField { dst, .. } => Some(dst),
            Ir::SmiArith { dst, .. } => Some(dst),
            Ir::ArrayAt { dst, .. } => Some(dst),
            Ir::ArrayAtPut { dst, .. } => Some(dst),
            Ir::SmiCmpVal { dst, .. } => Some(dst),
            Ir::RefCmpVal { dst, .. } => Some(dst),
            Ir::BoolNot { dst, .. } => Some(dst),
            Ir::CallSend { dst, .. } => Some(dst),
            Ir::FUnbox { dst, .. } => Some(dst),
            Ir::FBox { dst, .. } => Some(dst),
            Ir::FArith { dst, .. } => Some(dst),
            Ir::FCmpVal { dst, .. } => Some(dst),
            Ir::FConst { dst, .. } => Some(dst),
            Ir::VecArith { dst, .. } => Some(dst),
            Ir::Alloc { dst, .. } => Some(dst),
            Ir::CallRuntime { dst, .. } => dst,
            _ => None,
        }
    }
}

/// Copies a register list.
pub(crate) fn copy_regs(v: &Vec<VReg>) -> (r: Vec<VReg>)
    ensures
        r@ == v@,
{
    let mut r: Vec<VReg> = Vec::new();
    for k in 0..v.len()
        invariant
            r@ == v@.take(k as int),
    {
        r.push(v[k]);
        assert(r@ =~= v@.take(k + 1));
    }
    assert(r@ =~= v@);
    r
}

impl Ir {
    /// Every register this operation reads.
    pub fn uses(&self) -> (r: Vec<VReg>)
        ensures
            r@ == self@.reads(),
    {
        match self {
            Ir::Move { src, .. } => vec![*src],
            Ir::LoadKlass { obj, .. } => vec![*obj],
            Ir::LoadField { obj, .. } => vec![*obj],
            Ir::StoreField { obj, val, .. } => vec![*obj, *val],
            Ir::SmiArith { a, b, .. }
            | Ir::SmiCmpBr { a, b, .. }
            | Ir::SmiCmpVal { a, b, .. }
            | Ir::RefCmpVal { a, b, .. } => vec![*a, *b],
            Ir::BoolNot { src, .. } => vec![*src],
            Ir::FArith { a, b, .. } | Ir::FCmpBr { a, b, .. } | Ir::FCmpVal { a, b, .. } => vec![
                *a,
                *b,
            ],
            Ir::FUnbox { src, .. } | Ir::FBox { src, .. } => vec![*src],
            Ir::VecArith { a, b, .. } => vec![*a, *b],
            Ir::ArrayAt { arr, idx, .. } => vec![*arr, *idx],
            Ir::ArrayAtPut { arr, idx, val, .. } => vec![*arr, *idx, *val],
            Ir::BoolBr { val, .. } => vec![*val],
            Ir::GuardKlass { obj, .. } => vec![*obj],
            Ir::CallSend { args, .. } | Ir::CallRuntime { args, .. } => copy_regs(args),
            Ir::Ret { val } => vec![*val],
            Ir::NlrReturn { closure, value } => vec![*closure, *value],
            Ir::RetSelf => vec![VReg(0)],
            Ir::ConstSmi { .. }
            | Ir::ConstPool { .. }
            | Ir::FConst { .. }
            | Ir::Param { .. }
            | Ir::Jump { .. }
            | Ir::Alloc { .. }
            | Ir::Poll
            | Ir::UncommonTrap { .. }
            | Ir::Bailout { .. } => Vec::new(),
        }
    }

    /// The register this operation writes.
    pub fn defs(&self) -> (r: Option<VReg>)
        ensures
            r == self@.write(),
    {
        match self {
            Ir::ConstSmi { dst, .. }
            | Ir::ConstPool { dst, .. }
            | Ir::Move { dst, .. }
            | Ir::Param { dst, .. }
            | Ir::LoadKlass { dst, .. }
            | Ir::LoadField { dst, .. }
            | Ir::SmiArith { dst, .. }
            | Ir::ArrayAt { dst, .. }
            | Ir::ArrayAtPut { dst, .. }
            | Ir::SmiCmpVal { dst, .. }
            | Ir::RefCmpVal { dst, .. }
            | Ir::BoolNot { dst, .. }
            | Ir::CallSend { dst, .. }
            | Ir::FUnbox { dst, .. }
            | Ir::FBox { dst, .. }
            | Ir::FArith { dst, .. }
            | Ir::FCmpVal { dst, .. }
            | Ir::FConst { dst, .. }
            | Ir::VecArith { dst, .. }
            | Ir::Alloc { dst, .. } => Some(*dst),
            Ir::CallRuntime { dst, .. } => *dst,
            Ir::StoreField { .. }
            | Ir::SmiCmpBr { .. }
            | Ir::FCmpBr { .. }
            | Ir::Jump { .. }
            | Ir::BoolBr { .. }
            | Ir::GuardKlass { .. }
            | Ir::Poll
            | Ir::UncommonTrap { .. }
            | Ir::Ret { .. }
            | Ir::RetSelf
            | Ir::NlrReturn { .. }
            | Ir::Bailout { .. } => None,
        }
    }
}

/// The virtual frame of a spliced callee, as a safepoint inside its body describes it.
#[derive(Debug)]
pub struct InlineSite {
    /// Pool index of the callee's own method object.
    pub method_pool_ix: u32,
    pub receiver: VReg,
    /// The callee's argument and temporary slots.
    pub slots: Vec<VReg>,
    /// Where in the caller the spliced send stands.
    pub sender_bci: u16,
    /// The caller's operand stack below the send's receiver and arguments.
    pub caller_pending_stack: Vec<VReg>,
    pub is_block: bool,
    /// The enclosing spliced extent, if the caller was itself spliced.
    pub parent: Option<Box<InlineSite>>,
    /// Slots that hold an elided closure: slot index and the block's pool index.
    pub slot_closures: Vec<(u16, u32)>,
}

pub ghost struct InlineView {
    pub method_pool_ix: u32,
    pub receiver: VReg,
    pub slots: Seq<VReg>,
    pub sender_bci: u16,
    pub caller_pending_stack: Seq<VReg>,
    pub is_block: bool,
    pub parent: Option<Box<InlineView>>,
    pub slot_closures: Seq<(u16, u32)>,
}

impl InlineSite {
    pub open spec fn model(self) -> InlineView
        decreases self,
    {
        InlineView {
            method_pool_ix: self.method_pool_ix,
            receiver: self.receiver,
            slots: self.slots@,
            sender_bci: self.sender_bci,
            caller_pending_stack: self.caller_pending_stack@,
            is_block: self.is_block,
            parent: match self.parent {
                Some(p) => Some(Box::new(p.model())),
                None => None,
            },
            slot_closures: self.slot_closures@,
        }
    }

    /// A copy with the same contents at every level.
    pub fn copy(&self) -> (r: InlineSite)
        ensures
            r.model() == self.model(),
        decreases self,
    {
        let parent = match &self.parent {
            Some(p) => Some(Box::new(p.copy())),
            None => None,
        };
        InlineSite {
            method_pool_ix: self.method_pool_ix,
            receiver: self.receiver,
            slots: copy_regs(&self.slots),
            sender_bci: self.sender_bci,
            caller_pending_stack: copy_regs(&self.caller_pending_stack),
            is_block: self.is_block,
            parent,
            slot_closures: copy_pairs(&self.slot_closures),
        }
    }
}

/// Copies a closure override list.
pub(crate) fn copy_pairs(v: &Vec<(u16, u32)>) -> (r: Vec<(u16, u32)>)
    ensures
        r@ == v@,
{
    let mut r: Vec<(u16, u32)> = Vec::new();
    for k in 0..v.len()
        invariant
            r@ == v@.take(k as int),
    {
        r.push((v[k].0, v[k].1));
        assert(r@ =~= v@.take(k + 1));
    }
    assert(r@ =~= v@);
    r
}

pub open spec fn inline_model(i: Option<InlineSite>) -> Option<InlineView> {
    match i {
        Some(s) => Some(s.model()),
        None => None,
    }
}

/// One deoptimization site: the operand stack to restore and how to resume.
#[derive(Debug)]
pub struct DeoptRaw {
    pub stack: Vec<VReg>,
    pub bci: usize,
    pub kind: SafepointKind,
    /// `true`: resume by running the bytecode at `bci` again, its inputs still on `stack`.
    pub reexecute: bool,
    /// Stack entries that hold an elided closure: stack index and the block's pool index.
    pub stack_closures: Vec<(u16, u32)>,
    /// Present when the site lies inside a spliced body.
    pub inline: Option<InlineSite>,
}

pub ghost struct DeoptView {
    pub stack: Seq<VReg>,
    pub bci: usize,
    pub kind: SafepointKind,
    pub reexecute: bool,
    pub stack_closures: Seq<(u16, u32)>,
    pub inline: Option<InlineView>,
}

impl View for DeoptRaw {
    type V = DeoptView;

    open spec fn view(&self) -> DeoptView {
        DeoptView {
            stack: self.stack@,
            bci: self.bci,
            kind: self.kind,
            reexecute: self.reexecute,
            stack_closures: self.stack_closures@,
            inline: inline_model(self.inline),
        }
    }
}

/// A deoptimization site with the index of the operation it belongs to.
pub open spec fn site_view(s: (u32, DeoptRaw)) -> (u32, DeoptView) {
    (s.0, s.1@)
}

/// A basic block.
#[derive(Debug)]
pub struct IrBlock {
    pub id: BlockId,
    /// First bytecode index this block covers.
    pub bci: usize,
    pub code: Vec<Ir>,
    /// The registers that predecessors must feed on entry.
    pub entry_stack: Vec<VReg>,
    /// Deoptimization sites, keyed by index into `code`.
    pub deopt_sites: Vec<(u32, DeoptRaw)>,
}

pub ghost struct BlockView {
    pub id: BlockId,
    pub bci: usize,
    pub code: Seq<IrView>,
    pub entry_stack: Seq<VReg>,
    pub deopt_sites: Seq<(u32, DeoptView)>,
}

pub open spec fn code_view(code: Seq<Ir>) -> Seq<IrView> {
    code.map_values(|op: Ir| op@)
}

pub open spec fn sites_view(sites: Seq<(u32, DeoptRaw)>) -> Seq<(u32, DeoptView)> {
    sites.map_values(|s: (u32, DeoptRaw)| site_view(s))
}

impl View for IrBlock {
    type V = BlockView;

    open spec fn view(&self) -> BlockView {
        BlockView {
            id: self.id,
            bci: self.bci,
            code: code_view(self.code@),
            entry_stack: self.entry_stack@,
            deopt_sites: sites_view(self.deopt_sites@),
        }
    }
}

/// Selector, operand count and static lookup class of one `Ir::CallSend` site.
#[derive(Clone, Copy, PartialEq, Eq, Debug)]
pub struct CallSiteInfo {
    pub selector: SymbolOop,
    pub argc: u8,
    pub static_klass: Option<KlassOop>,
}

/// A whole method in IR form.
#[derive(Debug)]
pub struct IrMethod {
    /// Never-executed sends that an on-stack-replacement compilation left as plain sends.
    pub osr_cold_sends: u16,
    pub is_osr: bool,
    pub blocks: Vec<IrBlock>,
    pub vregs: Vec<VRegInfo>,
    pub pool: Vec<PoolEntry>,
    pub argc: u8,
    pub ntemps: u8,
    /// The closure parameter, when a block body was compiled.
    pub block_closure_vreg: Option<VReg>,
    /// One register per captured temporary of an elided context.
    pub ctx_vregs: Vec<VReg>,
    /// The allocated context and its slot count, when the context is not elided.
    pub method_ctx_vreg: Option<(VReg, usize)>,
    pub spliced_nlr: u32,
    pub spliced_multibb: u32,
    pub splice_declined_budget: u32,
    pub safepoints: Vec<SafepointId>,
    pub true_lit: PoolLit,
    pub false_lit: PoolLit,
    pub nil_lit: PoolLit,
    pub mark_slots_lit: PoolLit,
    pub mark_double_lit: PoolLit,
    pub double_klass_lit: PoolLit,
    pub float64x2_klass_lit: PoolLit,
    pub float32x4_klass_lit: PoolLit,
    pub int32x4_klass_lit: PoolLit,
    /// One entry per `Ir::CallSend` site.
    pub call_sites: Vec<CallSiteInfo>,
    /// The receiver types seen at each call site, under the same index.
    pub site_feedback: Vec<SiteFeedback>,
    /// The lookups that spliced bodies rely on.
    pub inline_deps: Vec<(KlassOop, SymbolOop)>,
    /// True when the code is only right for receivers of exactly the compiled-for class.
    pub self_devirt: bool,
    /// Pool index of the method's own object; present when there is a deoptimization site.
    pub method_pool_ix: Option<u32>,
}

pub ghost struct MethodView {
    pub osr_cold_sends: u16,
    pub is_osr: bool,
    pub blocks: Seq<BlockView>,
    pub vregs: Seq<VRegInfo>,
    pub pool: Seq<PoolEntry>,
    pub argc: u8,
    pub ntemps: u8,
    pub block_closure_vreg: Option<VReg>,
    pub ctx_vregs: Seq<VReg>,
    pub method_ctx_vreg: Option<(VReg, usize)>,
    pub spliced_nlr: u32,
    pub spliced_multibb: u32,
    pub splice_declined_budget: u32,
    pub safepoints: Seq<SafepointId>,
    pub true_lit: PoolLit,
    pub false_lit: PoolLit,
    pub nil_lit: PoolLit,
    pub mark_slots_lit: PoolLit,
    pub mark_double_lit: PoolLit,
    pub double_klass_lit: PoolLit,
    pub float64x2_klass_lit: PoolLit,
    pub float32x4_klass_lit: PoolLit,
    pub int32x4_klass_lit: PoolLit,
    pub call_sites: Seq<CallSiteInfo>,
    pub site_feedback: Seq<FeedbackView>,
    pub inline_deps: Seq<(KlassOop, SymbolOop)>,
    pub self_devirt: bool,
    pub method_pool_ix: Option<u32>,
}

pub open spec fn blocks_view(blocks: Seq<IrBlock>) -> Seq<BlockView> {
    blocks.map_values(|b: IrBlock| b@)
}

pub open spec fn feedback_views(f: Seq<SiteFeedback>) -> Seq<FeedbackView> {
    f.map_values(|x: SiteFeedback| x@)
}

impl View for IrMethod {
    type V = MethodView;

    open spec fn view(&self) -> MethodView {
        MethodView {
            osr_cold_sends: self.osr_cold_sends,
            is_osr: self.is_osr,
            blocks: blocks_view(self.blocks@),
            vregs: self.vregs@,
            pool: self.pool@,
            argc: self.argc,
            ntemps: self.ntemps,
            block_closure_vreg: self.block_closure_vreg,
            ctx_vregs: self.ctx_vregs@,
            method_ctx_vreg: self.method_ctx_vreg,
            spliced_nlr: self.spliced_nlr,
            spliced_multibb: self.spliced_multibb,
            splice_declined_budget: self.splice_declined_budget,
            safepoints: self.safepoints@,
            true_lit: self.true_lit,
            false_lit: self.false_lit,
            nil_lit: self.nil_lit,
            mark_slots_lit: self.mark_slots_lit,
            mark_double_lit: self.mark_double_lit,
            double_klass_lit: self.double_klass_lit,
            float64x2_klass_lit: self.float64x2_klass_lit,
            float32x4_klass_lit: self.float32x4_klass_lit,
            int32x4_klass_lit: self.int32x4_klass_lit,
            call_sites: self.call_sites@,
            site_feedback: feedback_views(self.site_feedback@),
            inline_deps: self.inline_deps@,
            self_devirt: self.self_devirt,
            method_pool_ix: self.method_pool_ix,
        }
    }
}

} // verus!

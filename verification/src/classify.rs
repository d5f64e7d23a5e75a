//! Which sends compile to something better than a send, read off the site's inline cache and the
//! live method dictionary.

use vstd::prelude::*;
use crate::ir::{CmpOp, FArithOp, SmiOp, VecKind};
use crate::world::{Instr, InterpreterIc, KlassOop, Method, MethodOop, SymbolOop, Terminator, VmState};

verus! {

/// What a small-integer primitive compiles to.
#[derive(Clone, Copy, PartialEq, Eq, Debug)]
pub enum SmiSendKind {
    Arith(SmiOp),
    Cmp(CmpOp),
}

/// What a Double primitive compiles to.
#[derive(Clone, Copy, PartialEq, Eq, Debug)]
pub enum DoubleSendKind {
    Arith(FArithOp),
    Cmp(CmpOp),
}

/// The inlinable small-integer primitives: `+ - *`, the bit operations and the comparisons.
pub open spec fn smi_prim(p: i64) -> Option<SmiSendKind> {
    match p {
        1 => Some(SmiSendKind::Arith(SmiOp::Add)),
        2 => Some(SmiSendKind::Arith(SmiOp::Sub)),
        3 => Some(SmiSendKind::Arith(SmiOp::Mul)),
        6 => Some(SmiSendKind::Arith(SmiOp::And)),
        7 => Some(SmiSendKind::Arith(SmiOp::Or)),
        8 => Some(SmiSendKind::Arith(SmiOp::Xor)),
        10 => Some(SmiSendKind::Cmp(CmpOp::Lt)),
        11 => Some(SmiSendKind::Cmp(CmpOp::Le)),
        12 => Some(SmiSendKind::Cmp(CmpOp::Gt)),
        13 => Some(SmiSendKind::Cmp(CmpOp::Ge)),
        14 => Some(SmiSendKind::Cmp(CmpOp::Eq)),
        15 => Some(SmiSendKind::Cmp(CmpOp::Ne)),
        _ => None,
    }
}

fn smi_prim_kind(p: i64) -> (r: Option<SmiSendKind>)
    ensures
        r == smi_prim(p),
{
    match p {
        1 => Some(SmiSendKind::Arith(SmiOp::Add)),
        2 => Some(SmiSendKind::Arith(SmiOp::Sub)),
        3 => Some(SmiSendKind::Arith(SmiOp::Mul)),
        6 => Some(SmiSendKind::Arith(SmiOp::And)),
        7 => Some(SmiSendKind::Arith(SmiOp::Or)),
        8 => Some(SmiSendKind::Arith(SmiOp::Xor)),
        10 => Some(SmiSendKind::Cmp(CmpOp::Lt)),
        11 => Some(SmiSendKind::Cmp(CmpOp::Le)),
        12 => Some(SmiSendKind::Cmp(CmpOp::Gt)),
        13 => Some(SmiSendKind::Cmp(CmpOp::Ge)),
        14 => Some(SmiSendKind::Cmp(CmpOp::Eq)),
        15 => Some(SmiSendKind::Cmp(CmpOp::Ne)),
        _ => None,
    }
}

/// The inlinable Double primitives.
pub open spec fn double_prim(p: i64) -> Option<DoubleSendKind> {
    match p {
        100 => Some(DoubleSendKind::Arith(FArithOp::Add)),
        101 => Some(DoubleSendKind::Arith(FArithOp::Sub)),
        102 => Some(DoubleSendKind::Arith(FArithOp::Mul)),
        103 => Some(DoubleSendKind::Arith(FArithOp::Div)),
        104 => Some(DoubleSendKind::Cmp(CmpOp::Lt)),
        105 => Some(DoubleSendKind::Cmp(CmpOp::Eq)),
        _ => None,
    }
}

fn double_prim_kind(p: i64) -> (r: Option<DoubleSendKind>)
    ensures
        r == double_prim(p),
{
    match p {
        100 => Some(DoubleSendKind::Arith(FArithOp::Add)),
        101 => Some(DoubleSendKind::Arith(FArithOp::Sub)),
        102 => Some(DoubleSendKind::Arith(FArithOp::Mul)),
        103 => Some(DoubleSendKind::Arith(FArithOp::Div)),
        104 => Some(DoubleSendKind::Cmp(CmpOp::Lt)),
        105 => Some(DoubleSendKind::Cmp(CmpOp::Eq)),
        _ => None,
    }
}

/// The first of the contiguous arithmetic primitives of a vector class.
pub open spec fn vec_prim_base(kind: VecKind) -> int {
    match kind {
        VecKind::F64x2 => 129,
        VecKind::F32x4 => 136,
        VecKind::I32x4 => 150,
    }
}

/// The elementwise operation of a vector primitive. There is no integer vector division.
pub open spec fn vec_prim(kind: VecKind, prim: i64) -> Option<FArithOp> {
    let off = prim - vec_prim_base(kind);
    if off == 0 {
        Some(FArithOp::Add)
    } else if off == 1 {
        Some(FArithOp::Sub)
    } else if off == 2 {
        Some(FArithOp::Mul)
    } else if off == 3 && !(kind is I32x4) {
        Some(FArithOp::Div)
    } else {
        None
    }
}

/// The elementwise operation of a vector primitive.
pub fn vec_arith_op(kind: VecKind, prim: i64) -> (r: Option<FArithOp>)
    ensures
        r == vec_prim(kind, prim),
{
    let base: i64 = match kind {
        VecKind::F64x2 => 129,
        VecKind::F32x4 => 136,
        VecKind::I32x4 => 150,
    };
    if prim == base {
        Some(FArithOp::Add)
    } else if prim == base + 1 {
        Some(FArithOp::Sub)
    } else if prim == base + 2 {
        Some(FArithOp::Mul)
    } else if prim == base + 3 && !kind.is_int() {
        Some(FArithOp::Div)
    } else {
        None
    }
}

/// The small-integer method that a site dispatches to: the cached one of a site that has only seen
/// small integers, the live one of a site that was never taken.
pub open spec fn smi_target(vm: VmState, ic: InterpreterIc) -> Option<MethodOop> {
    if ic.guard == vm.universe.smi_klass.0 {
        ic.target
    } else if ic.guard == vm.universe.nil_obj {
        vm.lookup(vm.universe.smi_klass, ic.selector)
    } else {
        None
    }
}

/// The small-integer operation that a site fuses to.
pub open spec fn smi_kind(vm: VmState, ic: InterpreterIc) -> Option<SmiSendKind> {
    match smi_target(vm, ic) {
        Some(t) => smi_prim(vm.m(t).primitive),
        None => None,
    }
}

pub fn smi_special_target(vm: &VmState, ic: &InterpreterIc) -> (r: Option<MethodOop>)
    requires
        vm.wf(),
        ic.wf(vm.methods@.len() as int),
    ensures
        r == smi_target(*vm, *ic),
        r is Some ==> vm.has(r->0),
{
    if ic.guard == vm.universe.smi_klass.0 {
        ic.target
    } else if ic.guard == vm.universe.nil_obj {
        vm.resolve_method(vm.universe.smi_klass, ic.selector)
    } else {
        None
    }
}

/// The small-integer operation that a site fuses to, if it does.
pub fn classify_smi_send(vm: &VmState, ic: &InterpreterIc) -> (r: Option<SmiSendKind>)
    requires
        vm.wf(),
        ic.wf(vm.methods@.len() as int),
    ensures
        r == smi_kind(*vm, *ic),
{
    match smi_special_target(vm, ic) {
        Some(t) => smi_prim_kind(vm.method(t).primitive),
        None => None,
    }
}

/// `Some(is_put)` for a site that only saw arrays and resolves to element access.
pub open spec fn array_kind(vm: VmState, ic: InterpreterIc) -> Option<bool> {
    if ic.guard != vm.universe.array_klass.0 {
        None
    } else {
        match ic.target {
            Some(t) => if vm.m(t).primitive == 26 {
                Some(false)
            } else if vm.m(t).primitive == 27 {
                Some(true)
            } else {
                None
            },
            None => None,
        }
    }
}

pub fn array_op_kind(vm: &VmState, ic: &InterpreterIc) -> (r: Option<bool>)
    requires
        vm.wf(),
        ic.wf(vm.methods@.len() as int),
    ensures
        r == array_kind(*vm, *ic),
{
    if ic.guard != vm.universe.array_klass.0 {
        return None;
    }
    match ic.target {
        Some(t) => {
            let p: i64 = vm.method(t).primitive;
            if p == 26 {
                Some(false)
            } else if p == 27 {
                Some(true)
            } else {
                None
            }
        },
        None => None,
    }
}

/// The Double operation that a site fuses to. The method is looked up afresh: the cached target of
/// a warm site may be compiled code.
pub open spec fn double_kind(vm: VmState, ic: InterpreterIc) -> Option<DoubleSendKind> {
    if ic.guard != vm.universe.double_klass.0 {
        None
    } else {
        match vm.lookup(vm.universe.double_klass, ic.selector) {
            Some(t) => double_prim(vm.m(t).primitive),
            None => None,
        }
    }
}

pub fn classify_double_send(vm: &VmState, ic: &InterpreterIc) -> (r: Option<DoubleSendKind>)
    requires
        vm.wf(),
    ensures
        r == double_kind(*vm, *ic),
{
    if ic.guard != vm.universe.double_klass.0 {
        return None;
    }
    match vm.resolve_method(vm.universe.double_klass, ic.selector) {
        Some(t) => double_prim_kind(vm.method(t).primitive),
        None => None,
    }
}

/// The vector class whose guard the site carries.
pub open spec fn vec_guard(vm: VmState, ic: InterpreterIc) -> Option<(VecKind, KlassOop)> {
    if ic.guard == vm.universe.float64x2_klass.0 {
        Some((VecKind::F64x2, vm.universe.float64x2_klass))
    } else if ic.guard == vm.universe.float32x4_klass.0 {
        Some((VecKind::F32x4, vm.universe.float32x4_klass))
    } else if ic.guard == vm.universe.int32x4_klass.0 {
        Some((VecKind::I32x4, vm.universe.int32x4_klass))
    } else {
        None
    }
}

/// The vector operation that a site fuses to.
pub open spec fn vec_kind(vm: VmState, ic: InterpreterIc) -> Option<(VecKind, FArithOp)> {
    match vec_guard(vm, ic) {
        Some((kind, klass)) => match vm.lookup(klass, ic.selector) {
            Some(t) => match vec_prim(kind, vm.m(t).primitive) {
                Some(op) => Some((kind, op)),
                None => None,
            },
            None => None,
        },
        None => None,
    }
}

pub fn classify_vec_send(vm: &VmState, ic: &InterpreterIc) -> (r: Option<(VecKind, FArithOp)>)
    requires
        vm.wf(),
    ensures
        r == vec_kind(*vm, *ic),
{
    let (kind, klass) = if ic.guard == vm.universe.float64x2_klass.0 {
        (VecKind::F64x2, vm.universe.float64x2_klass)
    } else if ic.guard == vm.universe.float32x4_klass.0 {
        (VecKind::F32x4, vm.universe.float32x4_klass)
    } else if ic.guard == vm.universe.int32x4_klass.0 {
        (VecKind::I32x4, vm.universe.int32x4_klass)
    } else {
        return None;
    };
    match vm.resolve_method(klass, ic.selector) {
        Some(t) => match vec_arith_op(kind, vm.method(t).primitive) {
            Some(op) => Some((kind, op)),
            None => None,
        },
        None => None,
    }
}

/// `Some(neq)` for the one-argument identity sends `==` and `~~`, whatever the receiver.
pub open spec fn ref_eq(vm: VmState, ic: InterpreterIc) -> Option<bool> {
    if ic.argc != 1 {
        None
    } else if ic.selector == vm.universe.identity_sel {
        Some(false)
    } else if ic.selector == vm.universe.not_identity_sel {
        Some(true)
    } else {
        None
    }
}

pub fn ref_eq_kind(vm: &VmState, ic: &InterpreterIc) -> (r: Option<bool>)
    ensures
        r == ref_eq(*vm, *ic),
{
    if ic.argc != 1 {
        None
    } else if ic.selector == vm.universe.identity_sel {
        Some(false)
    } else if ic.selector == vm.universe.not_identity_sel {
        Some(true)
    } else {
        None
    }
}

/// Everything the site has seen is `true`, `false`, or nothing at all.
pub open spec fn boolean_only(vm: VmState, ic: InterpreterIc) -> bool {
    let u = vm.universe;
    ||| ic.guard == u.nil_obj
    ||| ic.guard == u.true_klass.0
    ||| ic.guard == u.false_klass.0
    ||| match ic.poly_klasses {
        Some(ks) => forall|i: int|
            0 <= i < ks@.len() ==> (#[trigger] ks@[i]) == u.true_klass.0 || ks@[i] == u.false_klass.0
                || ks@[i] == u.nil_obj,
        None => false,
    }
}

/// The method is exactly "push the constant, return it".
pub open spec fn returns_constant(m: Method, want_true: bool) -> bool {
    &&& m.primitive == 0
    &&& m.code@.len() > 0
    &&& m.instr_at(0) == (if want_true {
        Instr::PushTrue
    } else {
        Instr::PushFalse
    })
    &&& m.next_at(0) < m.code@.len()
    &&& m.instr_at(m.next_at(0)) == Instr::ReturnTos
    &&& m.next_at(m.next_at(0)) >= m.code@.len()
}

pub open spec fn canonical_not(vm: VmState, k: KlassOop, sel: SymbolOop, want_true: bool) -> bool {
    match vm.lookup(k, sel) {
        Some(m) => returns_constant(vm.m(m), want_true),
        None => false,
    }
}

/// A `not` send that may become a guarded flip: only booleans were seen, and both live
/// implementations are the plain flips.
pub open spec fn not_speculatable(vm: VmState, ic: InterpreterIc) -> bool {
    &&& ic.argc == 0
    &&& ic.selector == vm.universe.not_sel
    &&& boolean_only(vm, ic)
    &&& canonical_not(vm, vm.universe.true_klass, ic.selector, false)
    &&& canonical_not(vm, vm.universe.false_klass, ic.selector, true)
}

#[verifier::loop_isolation(false)]
fn is_boolean_only(vm: &VmState, ic: &InterpreterIc) -> (r: bool)
    ensures
        r == boolean_only(*vm, *ic),
{
    let u = &vm.universe;
    if ic.guard == u.nil_obj || ic.guard == u.true_klass.0 || ic.guard == u.false_klass.0 {
        return true;
    }
    match &ic.poly_klasses {
        Some(ks) => {
            for i in 0..ks.len()
                invariant
                    u == vm.universe,
                    forall|j: int|
                        0 <= j < i ==> (#[trigger] ks@[j]) == u.true_klass.0 || ks@[j]
                            == u.false_klass.0 || ks@[j] == u.nil_obj,
            {
                let k: u64 = ks[i];
                assert(ks@[i as int] == k);
                if !(k == u.true_klass.0 || k == u.false_klass.0 || k == u.nil_obj) {
                    return false;
                }
            }
            true
        },
        None => false,
    }
}

fn is_canonical_not(vm: &VmState, k: KlassOop, sel: SymbolOop, want_true: bool) -> (r: bool)
    requires
        vm.wf(),
    ensures
        r == canonical_not(*vm, k, sel, want_true),
{
    let m = match vm.resolve_method(k, sel) {
        Some(h) => vm.method(h),
        None => return false,
    };
    let len: usize = m.code.len();
    if m.primitive != 0 || len == 0 {
        return false;
    }
    let (i0, n0) = m.decode_at(0);
    let push_ok = match i0 {
        Instr::PushTrue => want_true,
        Instr::PushFalse => !want_true,
        _ => false,
    };
    if !push_ok || n0 >= len {
        return false;
    }
    let (i1, n1) = m.decode_at(n0);
    matches!(i1, Instr::ReturnTos) && n1 >= len
}

pub fn bool_not_speculatable(vm: &VmState, ic: &InterpreterIc) -> (r: bool)
    requires
        vm.wf(),
    ensures
        r == not_speculatable(*vm, *ic),
{
    ic.argc == 0 && ic.selector == vm.universe.not_sel && is_boolean_only(vm, ic)
        && is_canonical_not(vm, vm.universe.true_klass, ic.selector, false)
        && is_canonical_not(vm, vm.universe.false_klass, ic.selector, true)
}

/// The body is one block that ends by returning.
pub open spec fn single_return_block(m: Method) -> bool {
    m.cfg.blocks@.len() == 1 && m.cfg.blocks@[0].terminator is Return
}

pub fn is_single_return_block(m: &Method) -> (r: bool)
    ensures
        r == single_return_block(*m),
{
    m.cfg.blocks.len() == 1 && matches!(m.cfg.blocks[0].terminator, Terminator::Return)
}

/// The instructions that a leaf splice takes.
pub open spec fn leaf_instr(i: Instr) -> bool {
    match i {
        Instr::PushSelf => true,
        Instr::PushNil => true,
        Instr::PushTrue => true,
        Instr::PushFalse => true,
        Instr::PushSmi(_) => true,
        Instr::PushLiteral(_) => true,
        Instr::PushGlobal(_) => true,
        Instr::PushTemp(_) => true,
        Instr::StoreTemp(_) => true,
        Instr::StoreTempPop(_) => true,
        Instr::PushInstvar(_) => true,
        Instr::StoreInstvarPop(_) => true,
        Instr::Pop => true,
        Instr::Dup => true,
        Instr::ReturnTos => true,
        Instr::ReturnSelf => true,
        _ => false,
    }
}

/// Every instruction from `bci` on is one that a leaf splice takes.
pub open spec fn leaf_from(m: Method, bci: int) -> bool
    decreases m.code@.len() - bci,
{
    if bci < 0 || bci >= m.code@.len() {
        true
    } else if bci < m.next_at(bci) <= m.code@.len() {
        leaf_instr(m.instr_at(bci)) && leaf_from(m, m.next_at(bci))
    } else {
        false
    }
}

/// Does the whole body consist of instructions that a leaf splice takes?
pub fn leaf_body_is_spliceable(m: &Method) -> (r: bool)
    requires
        m.code_wf(),
    ensures
        r == leaf_from(*m, 0),
{
    let len: usize = m.code.len();
    let mut bci: usize = 0;
    while bci < len
        invariant
            m.code_wf(),
            m.boundary(bci as int),
            len == m.code@.len(),
            leaf_from(*m, 0) == leaf_from(*m, bci as int),
        decreases len - bci,
    {
        let (instr, next) = m.decode_at(bci);
        let ok = matches!(
            instr,
            Instr::PushSelf
                | Instr::PushNil
                | Instr::PushTrue
                | Instr::PushFalse
                | Instr::PushSmi(_)
                | Instr::PushLiteral(_)
                | Instr::PushGlobal(_)
                | Instr::PushTemp(_)
                | Instr::StoreTemp(_)
                | Instr::StoreTempPop(_)
                | Instr::PushInstvar(_)
                | Instr::StoreInstvarPop(_)
                | Instr::Pop
                | Instr::Dup
                | Instr::ReturnTos
                | Instr::ReturnSelf
        );
        if !ok {
            return false;
        }
        bci = next;
    }
    true
}

/// Small enough, not a primitive, and of a shape that some splice takes.
pub open spec fn splice_shape(vm: VmState, m: MethodOop) -> bool {
    let c = vm.m(m);
    &&& c.primitive == 0
    &&& c.inline_cost <= vm.budget.per_call_cost
    &&& c.is_leaf || c.eligible_nonleaf || c.eligible_cfg
}

pub fn has_splice_shape(vm: &VmState, m: MethodOop) -> (r: bool)
    requires
        vm.wf(),
        vm.has(m),
    ensures
        r == splice_shape(*vm, m),
{
    let c = vm.method(m);
    c.primitive == 0 && c.inline_cost <= vm.budget.per_call_cost && (c.is_leaf
        || c.eligible_nonleaf || c.eligible_cfg)
}

} // verus!

//! What operations do: the machine that runs them.
//!
//! Values are opaque, but for what the language says of them: small integers are numbers, boxes hold
//! doubles, objects have a class and words in memory.

use vstd::prelude::*;
use crate::copyprop::map_op;
use crate::ir::{
    BlockId, CallSiteInfo, CmpOp, FArithOp, Ir, IrView, PoolEntry, PoolLit, SmiOp, VReg, VecKind,
};
use crate::order::op_targets;
use crate::values::{values, Regs};
use crate::world::{KlassOop, MethodOop, SymbolOop, Universe};

verus! {

/// What values are and what the running system does with them. Memory is a value too.
pub ghost struct World {
    /// The object that a word stands for.
    pub word: spec_fn(u64) -> int,
    /// The small integer object of a number, and the number of a small integer.
    pub small: spec_fn(int) -> int,
    pub int_of: spec_fn(int) -> Option<int>,
    /// The numbers that small integers can be.
    pub in_range: spec_fn(int) -> bool,
    /// The class of an object, given memory.
    pub class: spec_fn(int, int) -> KlassOop,
    /// The field of an object at a byte offset, and memory after a store to one.
    pub field: spec_fn(int, int, int) -> int,
    pub store: spec_fn(int, int, int, int) -> int,
    /// The length of an array, its elements by index from one, and memory after a store to one.
    pub length: spec_fn(int, int) -> int,
    pub elem: spec_fn(int, int, int) -> int,
    pub set_elem: spec_fn(int, int, int, int) -> int,
    /// A fresh object of a class and a number of words, and memory with it.
    pub alloc: spec_fn(int, KlassOop, int) -> (int, int),
    /// The double of some bits, its box, and what a box holds.
    pub num: spec_fn(u64) -> int,
    pub wrap: spec_fn(int) -> int,
    pub peel: spec_fn(int) -> int,
    pub fop: spec_fn(FArithOp, int, int) -> int,
    pub frel: spec_fn(CmpOp, int, int) -> bool,
    pub vop: spec_fn(VecKind, FArithOp, int, int) -> int,
    /// The answer of a send to the first of the operands, and memory after it.
    pub send: spec_fn(SymbolOop, Seq<int>, int) -> (int, int),
    /// The same of a send whose method is looked up from the class given.
    pub send_from: spec_fn(KlassOop, SymbolOop, Seq<int>, int) -> (int, int),
    pub runtime: spec_fn(u32, Seq<int>, int) -> (int, int),
    /// The method that a send to an instance of the class runs.
    pub method: spec_fn(KlassOop, SymbolOop) -> Option<MethodOop>,
}

/// The world, the well-known objects, and what the code refers to by number.
pub ghost struct Env {
    pub w: World,
    pub u: Universe,
    pub pool: Seq<PoolEntry>,
    pub calls: Seq<CallSiteInfo>,
    /// The receiver and the arguments that the code was called with.
    pub params: Seq<int>,
}

pub ghost struct Mach {
    pub regs: Regs,
    pub mem: int,
}

/// Where control goes after an operation.
pub enum Flow {
    /// To the next operation.
    On(Mach),
    To(BlockId, Mach),
    /// Back to the caller, with an answer.
    Answer(int, Mach),
    /// To the home of the closure, with an answer.
    Home(int, int, Mach),
    /// Back to the interpreter.
    Leave(Mach),
}

impl World {
    pub open spec fn truth(self, u: Universe, b: bool) -> int {
        if b {
            (self.word)(u.true_obj)
        } else {
            (self.word)(u.false_obj)
        }
    }
}

impl Mach {
    pub open spec fn put(self, d: VReg, x: int) -> Mach {
        Mach {
            regs: |v: VReg|
                if v == d {
                    x
                } else {
                    (self.regs)(v)
                },
            ..self
        }
    }

    pub open spec fn with_mem(self, mem: int) -> Mach {
        Mach { mem, ..self }
    }
}

/// What an operation on small integers computes.
pub open spec fn smi_result(op: SmiOp, x: int, y: int) -> int {
    match op {
        SmiOp::Add => x + y,
        SmiOp::Sub => x - y,
        SmiOp::Mul => x * y,
        SmiOp::And => (x as i64 & y as i64) as int,
        SmiOp::Or => (x as i64 | y as i64) as int,
        SmiOp::Xor => (x as i64 ^ y as i64) as int,
    }
}

pub open spec fn smi_compare(op: CmpOp, x: int, y: int) -> bool {
    match op {
        CmpOp::Lt => x < y,
        CmpOp::Le => x <= y,
        CmpOp::Gt => x > y,
        CmpOp::Ge => x >= y,
        CmpOp::Eq => x == y,
        CmpOp::Ne => x != y,
    }
}

pub open spec fn vec_class(u: Universe, kind: VecKind) -> KlassOop {
    match kind {
        VecKind::F64x2 => u.float64x2_klass,
        VecKind::F32x4 => u.float32x4_klass,
        VecKind::I32x4 => u.int32x4_klass,
    }
}

pub open spec fn klass_lit(e: Env, lit: PoolLit) -> KlassOop {
    KlassOop(e.pool[lit.0 as int].value)
}

/// The array access stays inside the array.
pub open spec fn in_bounds(e: Env, mem: int, arr: int, idx: int, klass: KlassOop) -> bool {
    &&& (e.w.class)(mem, arr) == klass
    &&& (e.w.int_of)(idx) matches Some(i) && 1 <= i <= (e.w.length)(mem, arr)
}

/// One operation.
pub open spec fn exec(e: Env, op: IrView, m: Mach) -> Flow {
    let w = e.w;
    let r = m.regs;
    match op {
        Ir::ConstSmi { dst, value } => Flow::On(m.put(dst, (w.small)(value as int))),
        Ir::ConstPool { dst, lit } => Flow::On(m.put(dst, (w.word)(e.pool[lit.0 as int].value))),
        Ir::Move { dst, src } => Flow::On(m.put(dst, r(src))),
        Ir::Param { dst, index } => Flow::On(m.put(dst, e.params[index as int])),
        Ir::LoadKlass { dst, obj } => Flow::On(m.put(dst, (w.word)((w.class)(m.mem, r(obj)).0))),
        Ir::LoadField { dst, obj, byte_off } => Flow::On(
            m.put(dst, (w.field)(m.mem, r(obj), byte_off as int)),
        ),
        Ir::StoreField { obj, byte_off, val, .. } => Flow::On(
            m.with_mem((w.store)(m.mem, r(obj), byte_off as int, r(val))),
        ),
        Ir::SmiArith { op, dst, a, b, fail } => match ((w.int_of)(r(a)), (w.int_of)(r(b))) {
            (Some(x), Some(y)) => if (w.in_range)(smi_result(op, x, y)) {
                Flow::On(m.put(dst, (w.small)(smi_result(op, x, y))))
            } else {
                Flow::To(fail, m)
            },
            _ => Flow::To(fail, m),
        },
        Ir::SmiCmpVal { op, dst, a, b, fail } => match ((w.int_of)(r(a)), (w.int_of)(r(b))) {
            (Some(x), Some(y)) => Flow::On(m.put(dst, w.truth(e.u, smi_compare(op, x, y)))),
            _ => Flow::To(fail, m),
        },
        Ir::SmiCmpBr { op, a, b, if_true, if_false, fail } => match (
            (w.int_of)(r(a)),
            (w.int_of)(r(b)),
        ) {
            (Some(x), Some(y)) => if smi_compare(op, x, y) {
                Flow::To(if_true, m)
            } else {
                Flow::To(if_false, m)
            },
            _ => Flow::To(fail, m),
        },
        Ir::ArrayAt { dst, arr, idx, klass, fail } => if in_bounds(
            e,
            m.mem,
            r(arr),
            r(idx),
            klass_lit(e, klass),
        ) {
            Flow::On(m.put(dst, (w.elem)(m.mem, r(arr), (w.int_of)(r(idx))->0)))
        } else {
            Flow::To(fail, m)
        },
        Ir::ArrayAtPut { dst, arr, idx, val, klass, fail } => if in_bounds(
            e,
            m.mem,
            r(arr),
            r(idx),
            klass_lit(e, klass),
        ) {
            Flow::On(
                m.with_mem((w.set_elem)(m.mem, r(arr), (w.int_of)(r(idx))->0, r(val))).put(
                    dst,
                    r(val),
                ),
            )
        } else {
            Flow::To(fail, m)
        },
        Ir::RefCmpVal { dst, a, b, neq } => Flow::On(
            m.put(dst, w.truth(e.u, (r(a) == r(b)) != neq)),
        ),
        Ir::BoolNot { dst, src, fail } => if r(src) == w.truth(e.u, true) {
            Flow::On(m.put(dst, w.truth(e.u, false)))
        } else if r(src) == w.truth(e.u, false) {
            Flow::On(m.put(dst, w.truth(e.u, true)))
        } else {
            Flow::To(fail, m)
        },
        Ir::FUnbox { dst, src, fail } => if (w.class)(m.mem, r(src)) == e.u.double_klass {
            Flow::On(m.put(dst, (w.peel)(r(src))))
        } else {
            Flow::To(fail, m)
        },
        Ir::FBox { dst, src } => Flow::On(m.put(dst, (w.wrap)(r(src)))),
        Ir::FArith { op, dst, a, b } => Flow::On(m.put(dst, (w.fop)(op, r(a), r(b)))),
        Ir::FCmpBr { op, a, b, if_true, if_false } => if (w.frel)(op, r(a), r(b)) {
            Flow::To(if_true, m)
        } else {
            Flow::To(if_false, m)
        },
        Ir::FCmpVal { op, dst, a, b } => Flow::On(
            m.put(dst, w.truth(e.u, (w.frel)(op, r(a), r(b)))),
        ),
        Ir::FConst { dst, bits } => Flow::On(m.put(dst, (w.num)(bits))),
        Ir::VecArith { kind, op, dst, a, b, fail } => if (w.class)(m.mem, r(a)) == vec_class(
            e.u,
            kind,
        ) && (w.class)(m.mem, r(b)) == vec_class(e.u, kind) {
            Flow::On(m.put(dst, (w.vop)(kind, op, r(a), r(b))))
        } else {
            Flow::To(fail, m)
        },
        Ir::Jump { target } => Flow::To(target, m),
        Ir::BoolBr { val, if_true, if_false, not_bool } => if r(val) == w.truth(e.u, true) {
            Flow::To(if_true, m)
        } else if r(val) == w.truth(e.u, false) {
            Flow::To(if_false, m)
        } else {
            Flow::To(not_bool, m)
        },
        Ir::GuardKlass { obj, expect, fail, kind } => if (match kind {
            crate::ir::GuardShape::SmiTest => (w.int_of)(r(obj)) is Some,
            crate::ir::GuardShape::KlassTest => (w.class)(m.mem, r(obj)) == klass_lit(e, expect),
        }) {
            Flow::On(m)
        } else {
            Flow::To(fail, m)
        },
        Ir::CallSend { dst, site, args } => {
            let info = e.calls[site as int];
            let (x, mem) = match info.static_klass {
                Some(k) => (w.send_from)(k, info.selector, values(r, args), m.mem),
                None => (w.send)(info.selector, values(r, args), m.mem),
            };
            Flow::On(m.with_mem(mem).put(dst, x))
        },
        Ir::CallRuntime { dst, stub, args } => {
            let (x, mem) = (w.runtime)(stub.0, values(r, args), m.mem);
            match dst {
                Some(d) => Flow::On(m.with_mem(mem).put(d, x)),
                None => Flow::On(m.with_mem(mem)),
            }
        },
        Ir::Alloc { dst, klass, size_words } => {
            let (x, mem) = (w.alloc)(m.mem, klass_lit(e, klass), size_words as int);
            Flow::On(m.with_mem(mem).put(dst, x))
        },
        Ir::Poll => Flow::On(m),
        Ir::UncommonTrap { .. } => Flow::Leave(m),
        Ir::Ret { val } => Flow::Answer(r(val), m),
        Ir::RetSelf => Flow::Answer(r(VReg(0)), m),
        Ir::NlrReturn { closure, value } => Flow::Home(r(closure), r(value), m),
        Ir::Bailout { .. } => Flow::Leave(m),
    }
}

/// Operations from `from` to `to`, until control leaves the line.
pub open spec fn run(e: Env, code: Seq<IrView>, from: int, to: int, m: Mach) -> Flow
    decreases to - from,
{
    if to <= from {
        Flow::On(m)
    } else {
        match run(e, code, from, to - 1, m) {
            Flow::On(m1) => exec(e, code[to - 1], m1),
            f => f,
        }
    }
}

/// The rest of the line.
pub open spec fn ran(e: Env, code: Seq<IrView>, from: int, m: Mach) -> Flow {
    run(e, code, from, code.len() as int, m)
}

/// An operation reads no register but those it names, and writes none but the one it names: on
/// machines that agree on what it reads it goes the same way and writes the same, and every
/// other register stays.
pub proof fn law_operations_touch_what_they_name(e: Env, op: IrView, m: Mach, n: Mach)
    requires
        m.mem == n.mem,
        forall|k: int|
            0 <= k < op.reads().len() ==> (m.regs)(#[trigger] op.reads()[k]) == (n.regs)(
                op.reads()[k],
            ),
    ensures
        match (exec(e, op, m), exec(e, op, n)) {
            (Flow::On(x), Flow::On(y)) => {
                &&& x.mem == y.mem
                &&& op.write() matches Some(d) ==> (x.regs)(d) == (y.regs)(d)
                &&& forall|v: VReg| op.write() != Some(v) ==> #[trigger] (x.regs)(v) == (m.regs)(v)
            },
            (Flow::To(i, x), Flow::To(j, y)) => i == j && x == m && y == n,
            (Flow::Answer(i, x), Flow::Answer(j, y)) => i == j && x == m && y == n,
            (Flow::Home(c, i, x), Flow::Home(d, j, y)) => c == d && i == j && x == m && y == n,
            (Flow::Leave(x), Flow::Leave(y)) => x == m && y == n,
            _ => false,
        },
{
    let r = op.reads();
    assert(values(m.regs, r) =~= values(n.regs, r));
    if r.len() > 0 {
        assert((m.regs)(op.reads()[0]) == (n.regs)(op.reads()[0]));
    }
    if r.len() > 1 {
        assert((m.regs)(op.reads()[1]) == (n.regs)(op.reads()[1]));
    }
    if r.len() > 2 {
        assert((m.regs)(op.reads()[2]) == (n.regs)(op.reads()[2]));
    }
}

/// An operation leads to no block but those it names.
pub proof fn law_operations_lead_where_they_name(e: Env, op: IrView, m: Mach)
    ensures
        exec(e, op, m) matches Flow::To(b, _) ==> op_targets(op).contains(b),
{
    let t = op_targets(op);
    if t.len() > 0 {
        assert(t.contains(t[0]));
    }
    if t.len() > 1 {
        assert(t.contains(t[1]));
    }
    if t.len() > 2 {
        assert(t.contains(t[2]));
    }
}

/// Renaming the operands of an operation is the same as renaming the registers it finds them in: it
/// goes the same way, and writes the same value to the same register. The return of the
/// receiver has no operand to rename.
pub proof fn law_renamed_operands_are_read(
    e: Env,
    op: IrView,
    f: spec_fn(VReg) -> VReg,
    m: Mach,
    n: Mach,
)
    requires
        m.mem == n.mem,
        forall|v: VReg| #[trigger] (m.regs)(v) == (n.regs)(f(v)),
        !(op is RetSelf),
    ensures
        match (exec(e, op, m), exec(e, map_op(f, op), n)) {
            (Flow::On(x), Flow::On(y)) => {
                &&& x.mem == y.mem
                &&& op.write() == map_op(f, op).write()
                &&& op.write() matches Some(d) ==> (x.regs)(d) == (y.regs)(d)
            },
            (Flow::To(i, x), Flow::To(j, y)) => i == j && x == m && y == n,
            (Flow::Answer(i, x), Flow::Answer(j, y)) => i == j && x == m && y == n,
            (Flow::Home(c, i, x), Flow::Home(d, j, y)) => c == d && i == j && x == m && y == n,
            (Flow::Leave(x), Flow::Leave(y)) => x == m && y == n,
            _ => false,
        },
{
    match op {
        Ir::CallSend { args, .. } => {
            assert(values(m.regs, args) =~= values(n.regs, args.map_values(|v: VReg| f(v))));
            assert(values(m.regs, args) =~= values(n.regs, args.map_values(f)));
        },
        Ir::CallRuntime { args, .. } => {
            assert(values(m.regs, args) =~= values(n.regs, args.map_values(|v: VReg| f(v))));
            assert(values(m.regs, args) =~= values(n.regs, args.map_values(f)));
        },
        _ => {},
    }
}

/// A line that goes on, continued by one operation.
pub(crate) broadcast proof fn ran_push(e: Env, code: Seq<IrView>, op: IrView, from: int, m: Mach)
    requires
        0 <= from <= code.len(),
    ensures
        #[trigger] ran(e, code.push(op), from, m) == (match ran(e, code, from, m) {
            Flow::On(m1) => exec(e, op, m1),
            f => f,
        }),
{
    lemma_run_prefix(e, code, code.push(op), from, code.len() as int, m);
}

pub(crate) broadcast proof fn ran_none(e: Env, code: Seq<IrView>, m: Mach)
    ensures
        #[trigger] ran(e, code, code.len() as int, m) == Flow::On(m),
{
}

pub(crate) proof fn lemma_run_prefix(
    e: Env,
    a: Seq<IrView>,
    b: Seq<IrView>,
    from: int,
    to: int,
    m: Mach,
)
    requires
        0 <= from,
        to <= a.len() <= b.len(),
        forall|i: int| 0 <= i < a.len() ==> a[i] == b[i],
    ensures
        run(e, a, from, to, m) == run(e, b, from, to, m),
    decreases to - from,
{
    if from < to {
        lemma_run_prefix(e, a, b, from, to - 1, m);
    }
}

pub(crate) proof fn lemma_run_split(e: Env, c: Seq<IrView>, from: int, mid: int, to: int, m: Mach)
    requires
        from <= mid <= to,
    ensures
        run(e, c, from, to, m) == (match run(e, c, from, mid, m) {
            Flow::On(m1) => run(e, c, mid, to, m1),
            f => f,
        }),
    decreases to - mid,
{
    if mid < to {
        lemma_run_split(e, c, from, mid, to - 1, m);
    }
}

/// `b` goes on where `a` ends.
pub open spec fn extends(a: Seq<IrView>, b: Seq<IrView>) -> bool {
    a.len() <= b.len() && forall|i: int| 0 <= i < a.len() ==> #[trigger] a[i] == b[i]
}

/// Running a line and then what was appended to it.
pub(crate) proof fn lemma_ran_more(e: Env, a: Seq<IrView>, b: Seq<IrView>, from: int, m: Mach)
    requires
        0 <= from <= a.len(),
        extends(a, b),
    ensures
        ran(e, b, from, m) == (match ran(e, a, from, m) {
            Flow::On(m1) => ran(e, b, a.len() as int, m1),
            f => f,
        }),
{
    assert forall|i: int| 0 <= i < a.len() implies a[i] == b[i] by {}
    lemma_run_prefix(e, a, b, from, a.len() as int, m);
    lemma_run_split(e, b, from, a.len() as int, b.len() as int, m);
}

pub broadcast group group_runs {
    ran_push,
    ran_none,
}

} // verus!

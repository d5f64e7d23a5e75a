//! What bytecode means: the interpreter that translated code stands in for.

use vstd::prelude::*;
use crate::fconst::double_encoding;
use crate::ir::{CmpOp, FArithOp, VecKind};
use crate::machine::{vec_class, World};
use crate::world::{
    InlineDecision, Instr, InterpreterIc, KlassOop, Method, MethodOop, SiteFeedback, SymbolOop,
    Universe, VmState,
};

verus! {

/// An activation: the receiver, the arguments and temporaries, the operand stack, and memory.
pub ghost struct Frame {
    pub me: int,
    pub slots: Seq<int>,
    pub stack: Seq<int>,
    pub mem: int,
}

impl Frame {
    pub open spec fn push(self, x: int) -> Frame {
        Frame { stack: self.stack.push(x), ..self }
    }

    pub open spec fn pop(self, n: int) -> Frame {
        Frame { stack: self.stack.subrange(0, self.stack.len() - n), ..self }
    }

    pub open spec fn top(self) -> int {
        self.stack.last()
    }

    pub open spec fn with_mem(self, mem: int) -> Frame {
        Frame { mem, ..self }
    }
}

/// Where word `n` of an object lies, its two header words included.
pub open spec fn word_at(n: int) -> int {
    8 * n
}

/// Named variables follow the header.
pub open spec fn variable(n: int) -> int {
    word_at(2 + n)
}

/// A global is an association: its key, then its value.
pub open spec fn association_value() -> int {
    variable(1)
}

/// What the arithmetic primitives of small integers compute.
pub open spec fn smi_primitive(p: i64, x: int, y: int) -> Option<int> {
    if p == 1 {
        Some(x + y)
    } else if p == 2 {
        Some(x - y)
    } else if p == 3 {
        Some(x * y)
    } else if p == 6 {
        Some((x as i64 & y as i64) as int)
    } else if p == 7 {
        Some((x as i64 | y as i64) as int)
    } else if p == 8 {
        Some((x as i64 ^ y as i64) as int)
    } else {
        None
    }
}

/// What the comparing primitives of small integers tell.
pub open spec fn smi_test(p: i64, x: int, y: int) -> Option<bool> {
    if p == 10 {
        Some(x < y)
    } else if p == 11 {
        Some(x <= y)
    } else if p == 12 {
        Some(x > y)
    } else if p == 13 {
        Some(x >= y)
    } else if p == 14 {
        Some(x == y)
    } else if p == 15 {
        Some(x != y)
    } else {
        None
    }
}

/// The operation of an arithmetic primitive of doubles.
pub open spec fn double_primitive(p: i64) -> Option<FArithOp> {
    if p == 100 {
        Some(FArithOp::Add)
    } else if p == 101 {
        Some(FArithOp::Sub)
    } else if p == 102 {
        Some(FArithOp::Mul)
    } else if p == 103 {
        Some(FArithOp::Div)
    } else {
        None
    }
}

/// The test of a comparing primitive of doubles.
pub open spec fn double_test(p: i64) -> Option<CmpOp> {
    if p == 104 {
        Some(CmpOp::Lt)
    } else if p == 105 {
        Some(CmpOp::Eq)
    } else {
        None
    }
}

/// The operation of a vector primitive. Each class has its primitives in a row; integer lanes do not
/// divide.
pub open spec fn vector_primitive(p: i64) -> Option<(VecKind, FArithOp)> {
    if p == 129 {
        Some((VecKind::F64x2, FArithOp::Add))
    } else if p == 130 {
        Some((VecKind::F64x2, FArithOp::Sub))
    } else if p == 131 {
        Some((VecKind::F64x2, FArithOp::Mul))
    } else if p == 132 {
        Some((VecKind::F64x2, FArithOp::Div))
    } else if p == 136 {
        Some((VecKind::F32x4, FArithOp::Add))
    } else if p == 137 {
        Some((VecKind::F32x4, FArithOp::Sub))
    } else if p == 138 {
        Some((VecKind::F32x4, FArithOp::Mul))
    } else if p == 139 {
        Some((VecKind::F32x4, FArithOp::Div))
    } else if p == 150 {
        Some((VecKind::I32x4, FArithOp::Add))
    } else if p == 151 {
        Some((VecKind::I32x4, FArithOp::Sub))
    } else if p == 152 {
        Some((VecKind::I32x4, FArithOp::Mul))
    } else {
        None
    }
}

/// The double that a number stands for as an argument: a Double's own, or the one nearest to a
/// small integer.
pub open spec fn as_double(w: World, u: Universe, x: int, mem: int) -> Option<int> {
    if (w.class)(mem, x) == u.double_klass {
        Some((w.peel)(x))
    } else {
        match (w.int_of)(x) {
            Some(i) => Some((w.num)(double_encoding(i) as u64)),
            None => None,
        }
    }
}

/// What a primitive answers and leaves of memory, where it succeeds.
pub open spec fn primitive_answer(w: World, u: Universe, p: i64, args: Seq<int>, mem: int) -> Option<
    (int, int),
> {
    if args.len() == 2 && (smi_primitive(p, 0, 0) is Some || smi_test(p, 0, 0) is Some) {
        match ((w.int_of)(args[0]), (w.int_of)(args[1])) {
            (Some(x), Some(y)) => match smi_primitive(p, x, y) {
                Some(z) => if (w.in_range)(z) {
                    Some(((w.small)(z), mem))
                } else {
                    None
                },
                None => Some((w.truth(u, smi_test(p, x, y)->0), mem)),
            },
            _ => None,
        }
    } else if args.len() == 2 && p == 26 && (w.class)(mem, args[0]) == u.array_klass {
        match (w.int_of)(args[1]) {
            Some(i) => if 1 <= i <= (w.length)(mem, args[0]) {
                Some(((w.elem)(mem, args[0], i), mem))
            } else {
                None
            },
            None => None,
        }
    } else if args.len() == 3 && p == 27 && (w.class)(mem, args[0]) == u.array_klass {
        match (w.int_of)(args[1]) {
            Some(i) => if 1 <= i <= (w.length)(mem, args[0]) {
                Some((args[2], (w.set_elem)(mem, args[0], i, args[2])))
            } else {
                None
            },
            None => None,
        }
    } else if args.len() == 2 && double_primitive(p) is Some && (w.class)(mem, args[0])
        == u.double_klass {
        match as_double(w, u, args[1], mem) {
            Some(y) => Some(
                ((w.wrap)((w.fop)(double_primitive(p)->0, (w.peel)(args[0]), y)), mem),
            ),
            None => None,
        }
    } else if args.len() == 2 && double_test(p) is Some && (w.class)(mem, args[0])
        == u.double_klass {
        match as_double(w, u, args[1], mem) {
            Some(y) => Some(
                (w.truth(u, (w.frel)(double_test(p)->0, (w.peel)(args[0]), y)), mem),
            ),
            None => None,
        }
    } else if args.len() == 2 && vector_primitive(p) is Some {
        let (kind, op) = vector_primitive(p)->0;
        if (w.class)(mem, args[0]) == vec_class(u, kind) && (w.class)(mem, args[1]) == vec_class(
            u,
            kind,
        ) {
            Some(((w.vop)(kind, op, args[0], args[1]), mem))
        } else {
            None
        }
    } else {
        None
    }
}

/// One instruction that neither jumps nor returns, where its operands are there.
pub open spec fn does(w: World, vm: VmState, m: Method, i: Instr, f: Frame) -> Option<Frame> {
    let n = f.stack.len() as int;
    match i {
        Instr::PushSelf => Some(f.push(f.me)),
        Instr::PushNil => Some(f.push((w.word)(vm.universe.nil_obj))),
        Instr::PushTrue => Some(f.push(w.truth(vm.universe, true))),
        Instr::PushFalse => Some(f.push(w.truth(vm.universe, false))),
        Instr::PushSmi(x) => Some(f.push((w.small)(x as int))),
        Instr::PushLiteral(x) => Some(f.push((w.word)(m.literals@[x as int].raw))),
        Instr::PushGlobal(x) => Some(
            f.push(
                (w.field)(f.mem, (w.word)(m.literals@[x as int].raw), association_value()),
            ),
        ),
        Instr::StoreGlobalPop(x) => if n > 0 {
            Some(
                f.with_mem(
                    (w.store)(
                        f.mem,
                        (w.word)(m.literals@[x as int].raw),
                        association_value(),
                        f.top(),
                    ),
                ).pop(1),
            )
        } else {
            None
        },
        Instr::PushTemp(x) => if x < f.slots.len() {
            Some(f.push(f.slots[x as int]))
        } else {
            None
        },
        Instr::StoreTemp(x) => if x < f.slots.len() && n > 0 {
            Some(Frame { slots: f.slots.update(x as int, f.top()), ..f })
        } else {
            None
        },
        Instr::StoreTempPop(x) => if x < f.slots.len() && n > 0 {
            Some((Frame { slots: f.slots.update(x as int, f.top()), ..f }).pop(1))
        } else {
            None
        },
        Instr::PushInstvar(x) => Some(f.push((w.field)(f.mem, f.me, variable(x as int)))),
        Instr::StoreInstvarPop(x) => if n > 0 {
            Some(f.with_mem((w.store)(f.mem, f.me, variable(x as int), f.top())).pop(1))
        } else {
            None
        },
        Instr::Pop => if n > 0 {
            Some(f.pop(1))
        } else {
            None
        },
        Instr::Dup => if n > 0 {
            Some(f.push(f.top()))
        } else {
            None
        },
        Instr::Send { ic, super_ } => {
            let site = m.ics@[ic as int];
            if n < site.argc + 1 {
                None
            } else {
                let args = f.stack.subrange(n - site.argc - 1, n);
                match (super_, above(vm, m)) {
                    (false, _) => {
                        let (x, mem) = (w.send)(site.selector, args, f.mem);
                        Some(f.with_mem(mem).pop(site.argc + 1).push(x))
                    },
                    (true, Some(k)) => {
                        let (x, mem) = (w.send_from)(k, site.selector, args, f.mem);
                        Some(f.with_mem(mem).pop(site.argc + 1).push(x))
                    },
                    _ => None,
                }
            }
        },
        _ => None,
    }
}

/// The class above the one that holds the method: where sends to `super` start.
pub open spec fn above(vm: VmState, m: Method) -> Option<KlassOop> {
    match m.holder {
        Some(h) => match vm.info(h) {
            Some(info) => info.superclass,
            None => None,
        },
        None => None,
    }
}

/// What a straight-line body answers from `bci` on, and what it leaves of memory.
pub open spec fn body_answer(w: World, vm: VmState, m: Method, bci: int, f: Frame) -> Option<
    (int, int),
>
    decreases m.code@.len() - bci,
{
    if bci < 0 || bci >= m.code@.len() || !(bci < m.next_at(bci) <= m.code@.len()) {
        None
    } else {
        let i = m.instr_at(bci);
        if i is ReturnTos {
            if f.stack.len() > 0 {
                Some((f.top(), f.mem))
            } else {
                None
            }
        } else if i is ReturnSelf {
            Some((f.me, f.mem))
        } else {
            match does(w, vm, m, i, f) {
                Some(g) => body_answer(w, vm, m, m.next_at(bci), g),
                None => None,
            }
        }
    }
}

/// The activation of a method on its receiver and arguments; temporaries start as `nil`.
pub open spec fn activation(w: World, vm: VmState, m: Method, args: Seq<int>, mem: int) -> Frame {
    Frame {
        me: args[0],
        slots: args.skip(1) + Seq::new(m.ntemps as nat, |i: int| (w.word)(vm.universe.nil_obj)),
        stack: seq![],
        mem,
    }
}

/// What a method answers, as far as a primitive or a straight-line body tells.
pub open spec fn method_answer(w: World, vm: VmState, t: MethodOop, args: Seq<int>, mem: int) -> Option<
    (int, int),
> {
    let m = vm.m(t);
    if m.primitive != 0 {
        primitive_answer(w, vm.universe, m.primitive, args, mem)
    } else if args.len() == m.argc + 1 {
        body_answer(w, vm, m, 0, activation(w, vm, m, args, mem))
    } else {
        None
    }
}

/// The world is the one that the snapshot was taken of: small integers, booleans and doubles are
/// what they are, objects keep their class, sends run the methods that lookup finds, and identity is identity.
#[verifier::opaque]
pub open spec fn honest(w: World, vm: VmState) -> bool {
    let u = vm.universe;
    &&& u.smi_klass != u.double_klass
    &&& w.truth(u, true) != w.truth(u, false)
    &&& forall|mem: int, x: int| #[trigger] (w.class)(mem, x) == (w.class)(0, x)
    &&& forall|i: int| #[trigger] (w.int_of)((w.small)(i)) == Some(i)
    &&& forall|x: int| (#[trigger] (w.int_of)(x)) matches Some(i) ==> (w.small)(i) == x
    &&& forall|mem: int, x: int|
        #[trigger] (w.class)(mem, x) == u.smi_klass <==> (w.int_of)(x) is Some
    &&& forall|mem: int| #[trigger] (w.class)(mem, w.truth(u, true)) == u.true_klass
    &&& forall|mem: int| #[trigger] (w.class)(mem, w.truth(u, false)) == u.false_klass
    &&& forall|x: int| #[trigger] (w.peel)((w.wrap)(x)) == x
    &&& forall|k: KlassOop, sel: SymbolOop|
        (#[trigger] vm.lookup(k, sel)) matches Some(t) ==> (w.method)(k, sel) == Some(t)
    &&& forall|sel: SymbolOop, args: Seq<int>, mem: int|
        #[trigger] send_runs(w, vm, sel, args, mem)
    &&& forall|k: KlassOop, sel: SymbolOop, args: Seq<int>, mem: int|
        #[trigger] send_from_runs(w, vm, k, sel, args, mem)
    &&& forall|args: Seq<int>, mem: int|
        args.len() == 2 ==> #[trigger] (w.send)(u.identity_sel, args, mem) == (
            w.truth(u, args[0] == args[1]),
            mem,
        )
    &&& forall|args: Seq<int>, mem: int|
        args.len() == 2 ==> #[trigger] (w.send)(u.not_identity_sel, args, mem) == (
            w.truth(u, args[0] != args[1]),
            mem,
        )
    &&& forall|k: KlassOop|
        (#[trigger] vm.lookup(k, u.not_sel)) matches Some(t) ==> vm.m(t).argc == 0
    &&& forall|k: KlassOop, sel: SymbolOop, mem: int| #[trigger] class_makes(w, vm, k, sel, mem)
    &&& forall|mem: int, x: int|
        (vm.info(#[trigger] (w.class)(mem, x)) matches Some(info) ==> (info.sole_instance matches Some(
            c,
        ) ==> x == (w.word)(c.0)))
}

/// A send that runs the allocating primitive on a class of objects with named slots makes an object
/// of that class and its size.
pub open spec fn class_makes(w: World, vm: VmState, k: KlassOop, sel: SymbolOop, mem: int) -> bool {
    let c = (w.word)(k.0);
    (vm.info(k) matches Some(info) && info.slots_format && ((w.method)((w.class)(mem, c), sel) matches Some(
        t,
    ) && vm.m(t).primitive == 23)) ==> (w.send)(sel, seq![c], mem) == (w.alloc)(
        mem,
        k,
        (vm.info(k)->0).non_indexable_size as int,
    )
}

/// A send answers what the method of the receiver's class answers.
pub open spec fn send_runs(w: World, vm: VmState, sel: SymbolOop, args: Seq<int>, mem: int) -> bool {
    args.len() > 0 ==> ((w.method)((w.class)(mem, args[0]), sel) matches Some(t) ==> (method_answer(
        w,
        vm,
        t,
        args,
        mem,
    ) matches Some(r) ==> (w.send)(sel, args, mem) == r))
}

pub open spec fn send_from_runs(
    w: World,
    vm: VmState,
    k: KlassOop,
    sel: SymbolOop,
    args: Seq<int>,
    mem: int,
) -> bool {
    (w.method)(k, sel) matches Some(t) ==> (method_answer(w, vm, t, args, mem) matches Some(r) ==> (
    w.send_from)(k, sel, args, mem) == r)
}

/// What a site has recorded is true of the world: the cached method is the one that instances of the
/// guarded class run, and so are the methods of the profile. A test for small integers stands for
/// their class.
pub open spec fn site_honest(w: World, vm: VmState, ic: InterpreterIc) -> bool {
    &&& ic.target matches Some(t) ==> (w.method)(KlassOop(ic.guard), ic.selector) == Some(t)
    &&& ic.feedback@ matches SiteFeedback::Mono { klass, method } ==> (w.method)(
        klass,
        ic.selector,
    ) == Some(method)
    &&& match ic.decision {
        InlineDecision::Inline { callee, guard } => ic.feedback@ matches SiteFeedback::Mono {
            klass,
            ..
        } ==> (w.method)(klass, ic.selector) == Some(callee) && (guard is SmiTest ==> klass
            == vm.universe.smi_klass),
        InlineDecision::DominantWithSlowPath { case_klass, case_method, guard } => (w.method)(
            case_klass,
            ic.selector,
        ) == Some(case_method) && (guard is SmiTest ==> case_klass == vm.universe.smi_klass),
        _ => true,
    }
}

} // verus!

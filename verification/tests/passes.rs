use macvm::copyprop::copy_propagate;
use macvm::fconst::smi_to_double_bits;
use macvm::ir::{
    BlockId, DeoptRaw, FArithOp, Ir, IrBlock, IrMethod, PoolEntry, PoolLit, RelocKind, SmiOp,
    StubId, VReg, VRegInfo, VecKind,
};
use macvm::promote::promote_float_temps;
use macvm::reduce::reduce_float_boxes;
use macvm::scopes::SafepointKind;
use macvm::splice_promote::promote_float_temps_spliced;
use macvm::world::{BoxedDouble, InlineBudget, KlassOop, SymbolOop, Universe, VmState};

const PI_OOP: u64 = 0x9001;
const NIL: u64 = 0x1001;

fn vm() -> VmState {
    VmState {
        universe: Universe {
            nil_obj: NIL,
            true_obj: 0x1011,
            false_obj: 0x1021,
            smi_klass: KlassOop(0x1101),
            double_klass: KlassOop(0x1111),
            array_klass: KlassOop(0x1121),
            float64x2_klass: KlassOop(0x1131),
            float32x4_klass: KlassOop(0x1141),
            int32x4_klass: KlassOop(0x1151),
            closure_klass: KlassOop(0x1161),
            context_klass: KlassOop(0x1171),
            true_klass: KlassOop(0x1181),
            false_klass: KlassOop(0x1191),
            identity_sel: SymbolOop(0x1201),
            not_identity_sel: SymbolOop(0x1211),
            not_sel: SymbolOop(0x1221),
            mark_slots: 0x1301,
            mark_double: 0x1311,
            home_dead_sentinel: -1,
        },
        methods: vec![],
        klasses: vec![],
        lookups: vec![],
        doubles: vec![BoxedDouble { raw: PI_OOP, bits: 3.25f64.to_bits() }],
        budget: InlineBudget { per_call_cost: 60, total_bytes: 2000 },
        cold_splice_traps: false,
        splice_promote: false,
    }
}

fn block(id: u32, code: Vec<Ir>) -> IrBlock {
    IrBlock { id: BlockId(id), bci: 0, code, entry_stack: vec![], deopt_sites: vec![] }
}

fn trap(id: u32, stack: Vec<VReg>) -> IrBlock {
    let mut b = block(id, vec![Ir::UncommonTrap { bci: 1 }]);
    b.deopt_sites.push((
        0,
        DeoptRaw {
            stack,
            bci: 1,
            kind: SafepointKind::UncommonTrap,
            reexecute: true,
            stack_closures: vec![],
            inline: None,
        },
    ));
    b
}

/// Pool entry 0 is `nil`, entry 1 a boxed double, entry 2 the same word as a plain number.
fn method(blocks: Vec<IrBlock>, vregs: Vec<VRegInfo>) -> IrMethod {
    IrMethod {
        osr_cold_sends: 0,
        is_osr: false,
        blocks,
        vregs,
        pool: vec![
            PoolEntry { value: NIL, kind: Some(RelocKind::Oop) },
            PoolEntry { value: PI_OOP, kind: Some(RelocKind::Oop) },
            PoolEntry { value: PI_OOP, kind: None },
        ],
        argc: 0,
        ntemps: 0,
        block_closure_vreg: None,
        ctx_vregs: vec![],
        method_ctx_vreg: None,
        spliced_nlr: 0,
        spliced_multibb: 0,
        splice_declined_budget: 0,
        safepoints: vec![],
        true_lit: PoolLit(0),
        false_lit: PoolLit(0),
        nil_lit: PoolLit(0),
        mark_slots_lit: PoolLit(0),
        mark_double_lit: PoolLit(0),
        double_klass_lit: PoolLit(0),
        float64x2_klass_lit: PoolLit(0),
        float32x4_klass_lit: PoolLit(0),
        int32x4_klass_lit: PoolLit(0),
        call_sites: vec![],
        site_feedback: vec![],
        inline_deps: vec![],
        self_devirt: false,
        method_pool_ix: None,
    }
}

fn oops(n: usize) -> Vec<VRegInfo> {
    (0..n).map(|_| VRegInfo { is_oop: true, is_fp: false }).collect()
}

fn with_fp(n: usize, fp: &[usize]) -> Vec<VRegInfo> {
    (0..n)
        .map(|i| VRegInfo { is_oop: !fp.contains(&i), is_fp: fp.contains(&i) })
        .collect()
}

fn shown(code: &[Ir]) -> String {
    format!("{:?}", code)
}

#[test]
fn operands_and_results() {
    let op: Ir = Ir::ArrayAtPut {
        dst: VReg(1),
        arr: VReg(2),
        idx: VReg(3),
        val: VReg(4),
        klass: PoolLit(0),
        fail: BlockId(0),
    };
    assert_eq!(op.uses(), vec![VReg(2), VReg(3), VReg(4)]);
    assert_eq!(op.defs(), Some(VReg(1)));
    let op: Ir = Ir::RetSelf;
    assert_eq!(op.uses(), vec![VReg(0)], "the receiver is read");
    assert_eq!(op.defs(), None);
    let op: Ir = Ir::CallRuntime { dst: None, stub: StubId(0), args: vec![VReg(5)] };
    assert_eq!(op.uses(), vec![VReg(5)]);
    assert_eq!(op.defs(), None);
    assert!(VecKind::I32x4.is_int());
    assert!(!VecKind::F32x4.is_int());
    assert_eq!(StubId::must_be_boolean(), StubId(0));
}

/// A copy whose every use is renamed goes away, and sites move with their operations.
#[test]
fn copies_are_propagated_and_removed() {
    let mut b = block(
        0,
        vec![
            Ir::Param { dst: VReg(0), index: 0 },
            Ir::Move { dst: VReg(1), src: VReg(0) },
            Ir::Move { dst: VReg(2), src: VReg(1) },
            Ir::CallSend { dst: VReg(3), site: 0, args: vec![VReg(2), VReg(1)] },
            Ir::Ret { val: VReg(3) },
        ],
    );
    b.deopt_sites.push((
        3,
        DeoptRaw {
            stack: vec![VReg(2)],
            bci: 9,
            kind: SafepointKind::Call,
            reexecute: false,
            stack_closures: vec![],
            inline: None,
        },
    ));
    let mut m = method(vec![b], oops(4));
    copy_propagate(&mut m);
    assert_eq!(
        shown(&m.blocks[0].code),
        shown(&[
            Ir::Param { dst: VReg(0), index: 0 },
            Ir::CallSend { dst: VReg(3), site: 0, args: vec![VReg(0), VReg(0)] },
            Ir::Ret { val: VReg(3) },
        ])
    );
    assert_eq!(m.blocks[0].deopt_sites[0].0, 1);
    assert_eq!(m.blocks[0].deopt_sites[0].1.stack, vec![VReg(0)]);
}

/// Writing the source ends the copy; a copy that other blocks read stays.
#[test]
fn copies_end_where_a_side_is_written() {
    let mut m = method(
        vec![
            block(
                0,
                vec![
                    Ir::Param { dst: VReg(0), index: 0 },
                    Ir::Move { dst: VReg(1), src: VReg(0) },
                    Ir::ConstSmi { dst: VReg(0), value: 5 },
                    Ir::StoreField { obj: VReg(1), byte_off: 16, val: VReg(0), barrier: true },
                    Ir::Jump { target: BlockId(1) },
                ],
            ),
            block(1, vec![Ir::Ret { val: VReg(1) }]),
        ],
        oops(2),
    );
    let before = shown(&m.blocks[0].code);
    copy_propagate(&mut m);
    assert_eq!(shown(&m.blocks[0].code), before);
}

/// The stack that a fail edge hands to the interpreter is renamed with the operation.
#[test]
fn fail_blocks_follow() {
    let mut m = method(
        vec![
            block(
                0,
                vec![
                    Ir::Param { dst: VReg(0), index: 0 },
                    Ir::Move { dst: VReg(1), src: VReg(0) },
                    Ir::SmiArith {
                        op: SmiOp::Add,
                        dst: VReg(2),
                        a: VReg(1),
                        b: VReg(1),
                        fail: BlockId(1),
                    },
                    Ir::Ret { val: VReg(2) },
                ],
            ),
            trap(1, vec![VReg(1), VReg(1)]),
        ],
        oops(3),
    );
    copy_propagate(&mut m);
    assert_eq!(m.blocks[0].code.len(), 3, "the copy is gone");
    assert_eq!(m.blocks[1].deopt_sites[0].1.stack, vec![VReg(0), VReg(0)]);
}

/// Unboxing what was just boxed reads the raw value, and the box goes away.
#[test]
fn boxes_cancel() {
    let mut m = method(
        vec![
            block(
                0,
                vec![
                    Ir::FUnbox { dst: VReg(1), src: VReg(0), fail: BlockId(1) },
                    Ir::FArith { op: FArithOp::Add, dst: VReg(2), a: VReg(1), b: VReg(1) },
                    Ir::FBox { dst: VReg(3), src: VReg(2) },
                    Ir::FUnbox { dst: VReg(4), src: VReg(3), fail: BlockId(1) },
                    Ir::FArith { op: FArithOp::Mul, dst: VReg(5), a: VReg(4), b: VReg(1) },
                    Ir::FBox { dst: VReg(6), src: VReg(5) },
                    Ir::Ret { val: VReg(6) },
                ],
            ),
            trap(1, vec![VReg(0)]),
        ],
        with_fp(7, &[1, 2, 4, 5]),
    );
    reduce_float_boxes(&vm(), &mut m, None);
    assert_eq!(
        shown(&m.blocks[0].code),
        shown(&[
            Ir::FUnbox { dst: VReg(1), src: VReg(0), fail: BlockId(1) },
            Ir::FArith { op: FArithOp::Add, dst: VReg(2), a: VReg(1), b: VReg(1) },
            Ir::FArith { op: FArithOp::Mul, dst: VReg(5), a: VReg(2), b: VReg(1) },
            Ir::FBox { dst: VReg(6), src: VReg(5) },
            Ir::Ret { val: VReg(6) },
        ])
    );
}

/// A box that only a trap needs is made in the trap's block.
#[test]
fn boxes_sink_into_traps() {
    let mut m = method(
        vec![
            block(
                0,
                vec![
                    Ir::FConst { dst: VReg(1), bits: 0 },
                    Ir::FBox { dst: VReg(2), src: VReg(1) },
                    Ir::FUnbox { dst: VReg(3), src: VReg(0), fail: BlockId(1) },
                    Ir::FBox { dst: VReg(4), src: VReg(3) },
                    Ir::Ret { val: VReg(4) },
                ],
            ),
            trap(1, vec![VReg(2), VReg(0)]),
        ],
        with_fp(5, &[1, 3]),
    );
    reduce_float_boxes(&vm(), &mut m, None);
    assert_eq!(m.blocks[0].code.len(), 4);
    assert_eq!(
        shown(&m.blocks[1].code),
        shown(&[Ir::FBox { dst: VReg(2), src: VReg(1) }, Ir::UncommonTrap { bci: 1 }])
    );
    assert_eq!(m.blocks[1].deopt_sites[0].0, 1, "the site stays at its trap");
}

/// Unboxing a literal double is a constant; a pool word that is no object is not looked at.
#[test]
fn literals_fold() {
    for (lit, folds) in [(1u32, true), (2, false), (0, false)] {
        let mut m = method(
            vec![
                block(
                    0,
                    vec![
                        Ir::ConstPool { dst: VReg(1), lit: PoolLit(lit) },
                        Ir::FUnbox { dst: VReg(2), src: VReg(1), fail: BlockId(1) },
                        Ir::FBox { dst: VReg(3), src: VReg(2) },
                        Ir::Ret { val: VReg(3) },
                    ],
                ),
                trap(1, vec![VReg(1)]),
            ],
            with_fp(4, &[2]),
        );
        reduce_float_boxes(&vm(), &mut m, None);
        match &m.blocks[0].code[1] {
            Ir::FConst { dst, bits } => {
                assert!(folds);
                assert_eq!(*dst, VReg(2));
                assert_eq!(f64::from_bits(*bits), 3.25);
            }
            Ir::FUnbox { .. } => assert!(!folds),
            other => panic!("unexpected {other:?}"),
        }
    }
}

/// `t := a + a. ^t * a` with `t` a temporary that always holds a double.
fn float_temp() -> IrMethod {
    method(
        vec![
            block(
                0,
                vec![
                    Ir::Param { dst: VReg(0), index: 0 },
                    Ir::ConstPool { dst: VReg(1), lit: PoolLit(0) },
                    Ir::FUnbox { dst: VReg(2), src: VReg(0), fail: BlockId(1) },
                    Ir::FArith { op: FArithOp::Add, dst: VReg(3), a: VReg(2), b: VReg(2) },
                    Ir::FBox { dst: VReg(4), src: VReg(3) },
                    Ir::Move { dst: VReg(1), src: VReg(4) },
                    Ir::FUnbox { dst: VReg(5), src: VReg(1), fail: BlockId(1) },
                    Ir::FArith { op: FArithOp::Mul, dst: VReg(6), a: VReg(5), b: VReg(2) },
                    Ir::FBox { dst: VReg(7), src: VReg(6) },
                    Ir::Ret { val: VReg(7) },
                ],
            ),
            trap(1, vec![VReg(0)]),
        ],
        with_fp(8, &[2, 3, 5, 6]),
    )
}

/// The box in front of the copy is a safepoint, at which the temporary would not hold a double yet.
#[test]
fn temporaries_wait_for_their_first_value() {
    let mut m = float_temp();
    let before = shown(&m.blocks[0].code);
    promote_float_temps(&vm(), &mut m);
    assert_eq!(shown(&m.blocks[0].code), before);
}

#[test]
fn temporaries_become_doubles() {
    let mut m = float_temp();
    m.blocks[0].code[4] = Ir::ConstPool { dst: VReg(4), lit: PoolLit(1) };
    promote_float_temps(&vm(), &mut m);
    let code = &m.blocks[0].code;
    assert!(m.vregs[1].is_fp);
    assert!(!m.vregs[1].is_oop);
    assert_eq!(
        shown(&code[1..2]),
        shown(&[Ir::FConst { dst: VReg(1), bits: 0 }]),
        "the initial nil is a zero"
    );
    assert_eq!(shown(&code[5..6]), shown(&[Ir::FConst { dst: VReg(1), bits: 3.25f64.to_bits() }]));
    assert_eq!(
        shown(&code[6..7]),
        shown(&[Ir::FArith { op: FArithOp::Mul, dst: VReg(6), a: VReg(1), b: VReg(2) }]),
        "the value is read raw"
    );
}

/// An operation that reads an unboxed value twice reads it raw twice.
#[test]
fn every_use_is_counted() {
    let mut m = float_temp();
    m.blocks[0].code[4] = Ir::ConstPool { dst: VReg(4), lit: PoolLit(1) };
    m.blocks[0].code[7] =
        Ir::FArith { op: FArithOp::Mul, dst: VReg(6), a: VReg(5), b: VReg(5) };
    promote_float_temps(&vm(), &mut m);
    assert!(m.vregs[1].is_fp);
    assert_eq!(
        shown(&m.blocks[0].code[6..7]),
        shown(&[Ir::FArith { op: FArithOp::Mul, dst: VReg(6), a: VReg(1), b: VReg(1) }])
    );
}

/// A use before the unboxing, here in another block, keeps the temporary boxed.
#[test]
fn uses_elsewhere_keep_the_box() {
    let mut m = float_temp();
    m.blocks[0].code[4] = Ir::ConstPool { dst: VReg(4), lit: PoolLit(1) };
    m.blocks.push(block(
        2,
        vec![Ir::FArith { op: FArithOp::Add, dst: VReg(6), a: VReg(5), b: VReg(2) }, Ir::RetSelf],
    ));
    let before = shown(&m.blocks[0].code);
    promote_float_temps(&vm(), &mut m);
    assert!(!m.vregs[1].is_fp);
    assert_eq!(shown(&m.blocks[0].code), before);
}

#[test]
fn trees_of_copies_become_doubles() {
    let mut m = float_temp();
    m.blocks[0].code[1] = Ir::Poll;
    promote_float_temps_spliced(&vm(), &mut m, None);
    let code = &m.blocks[0].code;
    assert!(m.vregs[1].is_fp);
    assert_eq!(shown(&code[5..6]), shown(&[Ir::Move { dst: VReg(1), src: VReg(3) }]));
    assert_eq!(
        shown(&code[6..7]),
        shown(&[Ir::FArith { op: FArithOp::Mul, dst: VReg(6), a: VReg(1), b: VReg(2) }])
    );
}

/// Returning a promoted value boxes it again.
#[test]
fn returned_trees_are_boxed_again() {
    let mut m = float_temp();
    m.blocks[0].code[1] = Ir::Poll;
    m.blocks[0].code.truncate(6);
    m.blocks[0].code.push(Ir::Ret { val: VReg(1) });
    promote_float_temps_spliced(&vm(), &mut m, None);
    let n = m.blocks[0].code.len();
    assert_eq!(m.vregs.len(), 9);
    assert_eq!(
        shown(&m.blocks[0].code[n - 2..]),
        shown(&[Ir::FBox { dst: VReg(8), src: VReg(1) }, Ir::Ret { val: VReg(8) }])
    );
}

#[test]
fn integers_as_doubles() {
    for v in [
        0i64,
        1,
        -1,
        2,
        3,
        1000,
        -123456789,
        (1 << 53) - 1,
        1 << 53,
        (1 << 53) + 1,
        (1 << 53) + 2,
        (1 << 53) + 3,
        -(1 << 54) - 3,
        i64::MAX,
        i64::MIN,
        i64::MIN + 1,
        0x7fff_ffff_ffff_fdff,
        0x7fff_ffff_ffff_fe00,
        0x0fed_cba9_8765_4321,
    ] {
        assert_eq!(smi_to_double_bits(v), (v as f64).to_bits(), "{v}");
    }
}

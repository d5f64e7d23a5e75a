use macvm::intervals::{compute_intervals, Assignment, LiveInterval, SpillSlot};
use macvm::ir::{
    BailoutReason, BlockId, CmpOp, Ir, IrBlock, IrMethod, PoolLit, SmiOp, StubId, VReg, VRegInfo,
};
use macvm::regalloc::{allocatable_regs, allocate, residency_candidates, verify_spill_all};

const RAX: u8 = 0;
const RCX: u8 = 1;
const RDX: u8 = 2;
const RBX: u8 = 3;
const RSP: u8 = 4;
const RBP: u8 = 5;
const RSI: u8 = 6;
const RDI: u8 = 7;
const R8: u8 = 8;
const R9: u8 = 9;
const R10: u8 = 10;
const R11: u8 = 11;
const R12: u8 = 12;
const R13: u8 = 13;
const R14: u8 = 14;
const R15: u8 = 15;
const ARG_REGS: [u8; 4] = [RCX, RDX, R8, R9];

fn hand_method(blocks: Vec<IrBlock>, vregs: Vec<VRegInfo>) -> IrMethod {
    IrMethod {
        osr_cold_sends: 0,
        is_osr: false,
        blocks,
        vregs,
        pool: Vec::new(),
        argc: 0,
        ntemps: 0,
        ctx_vregs: Vec::new(),
        block_closure_vreg: None,
        method_ctx_vreg: None,
        spliced_nlr: 0,
        spliced_multibb: 0,
        splice_declined_budget: 0,
        safepoints: Vec::new(),
        true_lit: PoolLit(0),
        false_lit: PoolLit(0),
        nil_lit: PoolLit(0),
        mark_slots_lit: PoolLit(0),
        mark_double_lit: PoolLit(0),
        double_klass_lit: PoolLit(0),
        float64x2_klass_lit: PoolLit(0),
        float32x4_klass_lit: PoolLit(0),
        int32x4_klass_lit: PoolLit(0),
        call_sites: Vec::new(),
        site_feedback: Vec::new(),
        inline_deps: Vec::new(),
        self_devirt: false,
        method_pool_ix: None,
    }
}

#[test]
fn intervals_basic() {
    let v0 = VReg(0);
    let filler = VReg(1);
    let block = IrBlock {
        id: BlockId(0),
        bci: 0,
        code: vec![
            Ir::Poll,
            Ir::Poll,
            Ir::ConstSmi { dst: v0, value: 1 },
            Ir::Poll,
            Ir::Poll,
            Ir::Move {
                dst: filler,
                src: v0,
            },
            Ir::Poll,
            Ir::Poll,
            Ir::Poll,
            Ir::Ret { val: v0 },
        ],
        entry_stack: Vec::new(),
        deopt_sites: Vec::new(),
    };
    let method = hand_method(
        vec![block],
        vec![VRegInfo { is_oop: true, is_fp: false }, VRegInfo { is_oop: true, is_fp: false }],
    );

    let (_order, intervals, _safepoints, _bsp, _extra) = compute_intervals(&method);
    let iv = intervals
        .iter()
        .find(|iv| iv.vreg == v0)
        .expect("v0 has an interval");
    assert_eq!(iv.start, 2);
    assert_eq!(iv.end, 9);
}

#[test]
fn interval_multi_def_union() {
    let v0 = VReg(0);
    let block0 = IrBlock {
        id: BlockId(0),
        bci: 0,
        code: vec![
            Ir::ConstSmi { dst: v0, value: 1 },
            Ir::Jump { target: BlockId(1) },
        ],
        entry_stack: Vec::new(),
        deopt_sites: Vec::new(),
    };
    let block1 = IrBlock {
        id: BlockId(1),
        bci: 10,
        code: vec![Ir::ConstSmi { dst: v0, value: 2 }, Ir::Ret { val: v0 }],
        entry_stack: Vec::new(),
        deopt_sites: Vec::new(),
    };
    let method = hand_method(vec![block0, block1], vec![VRegInfo { is_oop: true, is_fp: false }]);

    let (order, intervals, _safepoints, _bsp, _extra) = compute_intervals(&method);
    assert_eq!(
        order,
        vec![BlockId(0), BlockId(1)],
        "block0 must be linearized first"
    );
    assert_eq!(intervals.len(), 1, "one vreg -> one interval, never two");
    assert_eq!(intervals[0].start, 0);
    assert_eq!(intervals[0].end, 3);
}

#[test]
fn spill_all_crossing_safepoint() {
    let v0 = VReg(0);
    let block = IrBlock {
        id: BlockId(0),
        bci: 0,
        code: vec![
            Ir::ConstPool {
                dst: v0,
                lit: PoolLit(0),
            },
            Ir::CallRuntime {
                dst: None,
                stub: StubId(0),
                args: vec![],
            },
            Ir::Ret { val: v0 },
        ],
        entry_stack: Vec::new(),
        deopt_sites: Vec::new(),
    };
    let method = hand_method(vec![block], vec![VRegInfo { is_oop: true, is_fp: false }]);

    let (_order, mut intervals, _safepoints, _bsp, _extra) = compute_intervals(&method);
    assert!(
        intervals[0].crosses_safepoint,
        "v0 is defined before and used after the call"
    );

    allocate(&mut intervals);
    assert!(matches!(
        intervals[0].assignment,
        Some(Assignment::Spill(_))
    ));
}

#[test]
fn spill_slot_oopness_recorded() {
    let mut intervals = vec![
        LiveInterval {
            vreg: VReg(0),
            start: 0,
            end: 5,
            is_oop: true,
            is_fp: false,
            crosses_safepoint: true,
            crosses_call: false,
            resident_reg: None,
            assignment: None,
        },
        LiveInterval {
            vreg: VReg(1),
            start: 0,
            end: 5,
            is_oop: false,
            is_fp: false,
            crosses_safepoint: true,
            crosses_call: false,
            resident_reg: None,
            assignment: None,
        },
    ];

    let (frame_slots, slot_is_oop) = allocate(&mut intervals);
    assert_eq!(frame_slots, 2);
    assert_eq!(slot_is_oop.len(), 2);

    let slot_of = |iv: &LiveInterval| match iv.assignment {
        Some(Assignment::Spill(s)) => s.0 as usize,
        _ => panic!("expected a spill assignment"),
    };
    assert!(slot_is_oop[slot_of(&intervals[0])]);
    assert!(!slot_is_oop[slot_of(&intervals[1])]);
}

#[test]
fn verify_spill_all_accepts_spilled_crossing_interval() {
    let intervals = vec![LiveInterval {
        vreg: VReg(0),
        start: 0,
        end: 10,
        is_oop: true,
        is_fp: false,
        crosses_safepoint: true,
        crosses_call: false,
        resident_reg: None,
        assignment: Some(Assignment::Spill(SpillSlot(0))),
    }];
    assert!(verify_spill_all(&intervals));
}

#[test]
fn x64_register_file_excludes_every_reserved_register() {
    for (num, name) in [
        (RSP, "RSP (stack pointer)"),
        (RBP, "RBP (frame pointer / spill base)"),
        (R12, "R12 (method)"),
        (R13, "R13 (bytecode pointer)"),
        (R14, "R14 (receiver)"),
        (R15, "R15 (&VmState)"),
        (R10, "R10 (emit scratch / VEH trap-pc stash)"),
        (R11, "R11 (emit scratch)"),
        (RAX, "RAX (emit two-address temp / imul / idiv / ABI return)"),
    ] {
        assert!(
            !allocatable_regs().contains(&num),
            "{name} must never be linear-scan allocatable"
        );
        assert!(
            !residency_candidates().contains(&num),
            "{name} must never be a residency candidate"
        );
    }
    assert_eq!(
        allocatable_regs(),
        vec![RCX, RDX, RBX, RSI, RDI, R8, R9]
    );
    for r in &residency_candidates() {
        assert!(allocatable_regs().contains(r));
        assert!(
            !ARG_REGS.contains(r),
            "an ABI argument register is written mid-body; it cannot host a resident"
        );
    }
}

#[test]
fn furthest_end_spilled_under_pressure() {
    let n = allocatable_regs().len() as u32;
    let mut intervals = vec![LiveInterval {
        vreg: VReg(0),
        start: 0,
        end: 999,
        is_oop: false,
        is_fp: false,
        crosses_safepoint: false,
        crosses_call: false,
        resident_reg: None,
        assignment: None,
    }];
    for i in 1..=n {
        intervals.push(LiveInterval {
            vreg: VReg(i),
            start: 0,
            end: 10,
            is_oop: false,
            is_fp: false,
            crosses_safepoint: false,
            crosses_call: false,
            resident_reg: None,
            assignment: None,
        });
    }
    assert_eq!(intervals.len(), n as usize + 1);

    let (frame_slots, _slot_is_oop) = allocate(&mut intervals);
    assert_eq!(frame_slots, 1, "exactly one spill");

    let spilled: Vec<&LiveInterval> = intervals
        .iter()
        .filter(|iv| matches!(iv.assignment, Some(Assignment::Spill(_))))
        .collect();
    assert_eq!(spilled.len(), 1);
    assert_eq!(
        spilled[0].vreg,
        VReg(0),
        "the furthest-ending interval (end=999) is spilled"
    );

    let regs: std::collections::HashSet<u8> = intervals[1..]
        .iter()
        .map(|iv| match iv.assignment {
            Some(Assignment::Reg(r)) => r,
            _ => panic!("expected every other interval to hold a register"),
        })
        .collect();
    assert_eq!(
        regs.len(),
        allocatable_regs().len(),
        "every allocatable register used, none double-booked"
    );
    assert!(
        regs.iter().all(|r| allocatable_regs().contains(r)),
        "the allocator only ever hands out registers from the pool — \
         a number outside it would be a wrong (or reserved) register: {regs:?}"
    );
}

#[test]
fn unreachable_block_gets_a_position_not_a_panic() {
    let block0 = IrBlock {
        id: BlockId(0),
        bci: 0,
        code: vec![Ir::RetSelf],
        entry_stack: Vec::new(),
        deopt_sites: Vec::new(),
    };
    let dead = IrBlock {
        id: BlockId(1),
        bci: 5,
        code: vec![Ir::Bailout {
            reason: BailoutReason::SmiOpFailed,
        }],
        entry_stack: Vec::new(),
        deopt_sites: Vec::new(),
    };
    let method = hand_method(vec![block0, dead], Vec::new());
    let (order, _intervals, _safepoints, _bsp, _extra) = compute_intervals(&method);
    assert_eq!(
        order.len(),
        2,
        "both blocks get a position, reachable or not"
    );
    assert_eq!(
        order[0],
        BlockId(0),
        "block 0 (the method's real entry) must always be emitted first"
    );
}

#[test]
fn loop_carried_vreg_interval_spans_whole_loop() {
    let s = VReg(0);
    let i = VReg(1);
    let bound = VReg(2);
    let tmp = VReg(3);
    let one = VReg(4);
    let result = VReg(5);

    let entry = IrBlock {
        id: BlockId(0),
        bci: 0,
        code: vec![
            Ir::ConstSmi { dst: s, value: 0 },
            Ir::ConstSmi { dst: i, value: 1 },
            Ir::ConstSmi {
                dst: bound,
                value: 10,
            },
            Ir::Jump { target: BlockId(1) },
        ],
        entry_stack: Vec::new(),
        deopt_sites: Vec::new(),
    };
    let header = IrBlock {
        id: BlockId(1),
        bci: 10,
        code: vec![Ir::SmiCmpBr {
            op: CmpOp::Le,
            a: i,
            b: bound,
            if_true: BlockId(2),
            if_false: BlockId(3),
            fail: BlockId(4),
        }],
        entry_stack: Vec::new(),
        deopt_sites: Vec::new(),
    };
    let body = IrBlock {
        id: BlockId(2),
        bci: 20,
        code: vec![
            Ir::SmiArith {
                op: SmiOp::Add,
                dst: tmp,
                a: s,
                b: i,
                fail: BlockId(4),
            },
            Ir::Move { dst: s, src: tmp },
            Ir::ConstSmi { dst: one, value: 1 },
            Ir::SmiArith {
                op: SmiOp::Add,
                dst: tmp,
                a: i,
                b: one,
                fail: BlockId(4),
            },
            Ir::Move { dst: i, src: tmp },
            Ir::Jump { target: BlockId(1) },
        ],
        entry_stack: Vec::new(),
        deopt_sites: Vec::new(),
    };
    let exit = IrBlock {
        id: BlockId(3),
        bci: 30,
        code: vec![
            Ir::Move {
                dst: result,
                src: s,
            },
            Ir::Ret { val: result },
        ],
        entry_stack: Vec::new(),
        deopt_sites: Vec::new(),
    };
    let bailout = IrBlock {
        id: BlockId(4),
        bci: 40,
        code: vec![Ir::Bailout {
            reason: BailoutReason::SmiOpFailed,
        }],
        entry_stack: Vec::new(),
        deopt_sites: Vec::new(),
    };

    let method = hand_method(
        vec![entry, header, body, exit, bailout],
        (0..6).map(|_| VRegInfo { is_oop: true, is_fp: false }).collect(),
    );
    let (order, intervals, _safepoints, _bsp, _extra) = compute_intervals(&method);

    let pos_of = |bid: BlockId| order.iter().position(|&b| b == bid).unwrap();
    assert!(
        pos_of(BlockId(3)) < pos_of(BlockId(2)),
        "this test's whole point is a linearization where the loop exit \
         precedes the loop body — order was {order:?}"
    );

    let s_iv = intervals
        .iter()
        .find(|iv| iv.vreg == s)
        .expect("s has an interval");
    let body_last_pos = {
        let mut pos = 0u32;
        for &bid in &order {
            let blk = &method.blocks[bid.0 as usize];
            pos += blk.code.len() as u32;
            if bid == BlockId(2) {
                break;
            }
        }
        pos - 1
    };
    assert!(
        s_iv.end >= body_last_pos,
        "s's interval (end={}) must extend at least through the loop \
         body's own last position ({body_last_pos}) -- otherwise its \
         register is free to be handed to something else mid-loop",
        s_iv.end
    );
}

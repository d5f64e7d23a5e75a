use macvm::intervals::{compute_intervals, Assignment, LiveInterval, SpillSlot};
use macvm::ir::{
    BlockId, CallSiteInfo, DeoptRaw, Ir, IrBlock, IrMethod, PoolLit, SmiOp, StubId, VReg, VRegInfo,
};
use macvm::loc::{resolve_frame_loc, ValueLoc};
use macvm::oopmap::build_for_position;
use macvm::order::reverse_postorder;
use macvm::regalloc::{
    allocate, assign_residents, fp_allocatable_regs, regalloc, verify_spill_all, RegallocResult,
};
use macvm::scopes::SafepointKind;
use macvm::world::SymbolOop;

fn interval(vreg: u32, start: u32, end: u32) -> LiveInterval {
    LiveInterval {
        vreg: VReg(vreg),
        start,
        end,
        is_oop: true,
        is_fp: false,
        crosses_safepoint: false,
        crosses_call: false,
        assignment: None,
        resident_reg: None,
    }
}

fn block(id: u32, code: Vec<Ir>) -> IrBlock {
    IrBlock { id: BlockId(id), bci: 0, code, entry_stack: vec![], deopt_sites: vec![] }
}

fn method(blocks: Vec<IrBlock>, nregs: usize) -> IrMethod {
    IrMethod {
        osr_cold_sends: 0,
        is_osr: false,
        blocks,
        vregs: (0..nregs).map(|_| VRegInfo { is_oop: true, is_fp: false }).collect(),
        pool: vec![],
        argc: 0,
        ntemps: 0,
        block_closure_vreg: None,
        ctx_vregs: vec![],
        method_ctx_vreg: None,
        spliced_nlr: 0,
        spliced_multibb: 0,
        splice_declined_budget: 0,
        safepoints: vec![],
        true_lit: PoolLit(0),
        false_lit: PoolLit(0),
        nil_lit: PoolLit(0),
        mark_slots_lit: PoolLit(0),
        mark_double_lit: PoolLit(0),
        double_klass_lit: PoolLit(0),
        float64x2_klass_lit: PoolLit(0),
        float32x4_klass_lit: PoolLit(0),
        int32x4_klass_lit: PoolLit(0),
        call_sites: vec![CallSiteInfo { selector: SymbolOop(1), argc: 1, static_klass: None }],
        site_feedback: vec![],
        inline_deps: vec![],
        self_devirt: false,
        method_pool_ix: None,
    }
}

fn place_of(r: &RegallocResult, v: u32) -> Option<Assignment> {
    r.intervals.iter().find(|iv| iv.vreg == VReg(v)).unwrap().assignment
}

#[test]
fn registers_go_out_lowest_first_and_come_back() {
    let mut ivs = vec![interval(0, 0, 2), interval(1, 1, 5), interval(2, 2, 4), interval(3, 3, 9)];
    let (slots, oops) = allocate(&mut ivs);
    assert_eq!(slots, 0);
    assert!(oops.is_empty());
    let regs: Vec<_> = ivs.iter().map(|iv| iv.assignment).collect();
    assert_eq!(
        regs,
        vec![
            Some(Assignment::Reg(1)),
            Some(Assignment::Reg(2)),
            Some(Assignment::Reg(3)),
            Some(Assignment::Reg(1)),
        ],
        "the first register is free again once its interval has ended"
    );
}

/// An interval that ends where another starts still holds its register there.
#[test]
fn touching_intervals_do_not_share() {
    let mut ivs = vec![interval(0, 0, 4), interval(1, 4, 8)];
    allocate(&mut ivs);
    assert_ne!(ivs[0].assignment, ivs[1].assignment);
}

#[test]
fn doubles_have_a_file_of_their_own() {
    assert_eq!(fp_allocatable_regs(), vec![0, 1, 2]);
    let mut ivs: Vec<LiveInterval> = (0..4)
        .map(|k| LiveInterval { is_fp: true, is_oop: false, ..interval(k, 0, 10 + k) })
        .collect();
    ivs.push(interval(4, 0, 10));
    let (slots, oops) = allocate(&mut ivs);
    assert_eq!(slots, 1);
    assert_eq!(oops, vec![false]);
    let regs: Vec<_> = ivs.iter().map(|iv| iv.assignment).collect();
    assert_eq!(
        regs,
        vec![
            Some(Assignment::Reg(0)),
            Some(Assignment::Reg(1)),
            Some(Assignment::Reg(2)),
            Some(Assignment::Spill(SpillSlot(0))),
            Some(Assignment::Reg(1)),
        ]
    );
}

#[test]
fn spilled_values_get_slots_of_their_own() {
    let mut ivs: Vec<LiveInterval> = (0..6)
        .map(|k| LiveInterval {
            crosses_safepoint: k % 2 == 0,
            is_oop: k != 2,
            ..interval(k, k, 20)
        })
        .collect();
    let (slots, oops) = allocate(&mut ivs);
    assert_eq!(slots, 3);
    assert_eq!(oops, vec![true, false, true]);
    assert!(verify_spill_all(&ivs));
    for (k, iv) in ivs.iter().enumerate() {
        if k % 2 == 0 {
            assert_eq!(iv.assignment, Some(Assignment::Spill(SpillSlot(k as u16 / 2))));
        } else {
            assert!(matches!(iv.assignment, Some(Assignment::Reg(_))));
        }
    }
    ivs[0].assignment = Some(Assignment::Reg(1));
    assert!(!verify_spill_all(&ivs));
}

fn spilled(vreg: u32, start: u32, end: u32) -> LiveInterval {
    LiveInterval {
        assignment: Some(Assignment::Spill(SpillSlot(vreg as u16))),
        crosses_safepoint: true,
        ..interval(vreg, start, end)
    }
}

#[test]
fn idle_registers_host_frame_values() {
    let mut ivs = vec![
        spilled(0, 0, 10),
        spilled(1, 0, 30),
        spilled(2, 10, 20),
        LiveInterval { crosses_call: true, ..spilled(3, 0, 50) },
        spilled(4, 7, 7),
        LiveInterval { assignment: Some(Assignment::Reg(3)), ..interval(5, 0, 4) },
        LiveInterval { is_fp: true, ..spilled(6, 0, 40) },
        spilled(7, 5, 15),
    ];
    assign_residents(&mut ivs);
    let hosts: Vec<_> = ivs.iter().map(|iv| iv.resident_reg).collect();
    assert_eq!(
        hosts,
        vec![
            Some(7),
            Some(6),
            Some(7),
            None,
            None,
            None,
            None,
            None,
        ],
        "longest first; register 3 is in use; values that touch may share"
    );
}

#[test]
fn allocating_a_method() {
    let m = method(
        vec![block(
            0,
            vec![
                Ir::Param { dst: VReg(0), index: 0 },
                Ir::Param { dst: VReg(1), index: 1 },
                Ir::CallSend { dst: VReg(2), site: 0, args: vec![VReg(0)] },
                Ir::Move { dst: VReg(3), src: VReg(2) },
                Ir::StoreField { obj: VReg(1), byte_off: 16, val: VReg(3), barrier: true },
                Ir::Ret { val: VReg(3) },
            ],
        )],
        4,
    );
    let r = regalloc(&m);
    assert_eq!(r.block_order, vec![BlockId(0)]);
    assert_eq!(r.safepoint_positions, vec![2]);
    assert_eq!(r.block_start_pos.get(&0), Some(&0));
    assert!(r.extra_oop_live.is_empty());
    assert!(r.deopt_nil_init_slots.is_empty());
    assert!(matches!(place_of(&r, 0), Some(Assignment::Reg(_))), "consumed by the call");
    assert_eq!(place_of(&r, 1), Some(Assignment::Spill(SpillSlot(0))), "needed after the call");
    assert_eq!(place_of(&r, 2), Some(Assignment::Spill(SpillSlot(1))), "made by the call");
    assert_eq!(r.frame_slots, 2);
    assert_eq!(r.slot_is_oop, vec![true, true]);
}

/// The closure of a block body lives through the whole of it.
#[test]
fn closures_are_pinned() {
    let mut m = method(
        vec![block(
            0,
            vec![
                Ir::Param { dst: VReg(0), index: 0 },
                Ir::LoadField { dst: VReg(1), obj: VReg(0), byte_off: 40 },
                Ir::CallRuntime { dst: None, stub: StubId(0), args: vec![] },
                Ir::Ret { val: VReg(1) },
            ],
        )],
        2,
    );
    m.block_closure_vreg = Some(VReg(0));
    let r = regalloc(&m);
    let iv = r.intervals.iter().find(|iv| iv.vreg == VReg(0)).unwrap();
    assert_eq!(iv.start, 0);
    assert_eq!(iv.end, 5, "past the last position");
    assert!(matches!(iv.assignment, Some(Assignment::Spill(_))));
}

/// A trap far away names a register: the fact is exact, and its slot is cleared on entry.
#[test]
fn traps_add_exact_facts() {
    let mut trap = block(1, vec![Ir::UncommonTrap { bci: 3 }]);
    trap.deopt_sites.push((
        0,
        DeoptRaw {
            stack: vec![VReg(1)],
            bci: 3,
            kind: SafepointKind::UncommonTrap,
            reexecute: true,
            stack_closures: vec![],
            inline: None,
        },
    ));
    let m = method(
        vec![
            block(
                0,
                vec![
                    Ir::Param { dst: VReg(0), index: 0 },
                    Ir::ConstSmi { dst: VReg(1), value: 4 },
                    Ir::SmiArith {
                        op: SmiOp::Add,
                        dst: VReg(2),
                        a: VReg(0),
                        b: VReg(1),
                        fail: BlockId(1),
                    },
                    Ir::Poll,
                    Ir::Ret { val: VReg(2) },
                ],
            ),
            trap,
        ],
        3,
    );
    let r = regalloc(&m);
    assert_eq!(r.block_order, vec![BlockId(0), BlockId(1)]);
    assert_eq!(r.safepoint_positions, vec![3, 5]);
    assert_eq!(r.block_start_pos.get(&1), Some(&5));
    assert!(r.extra_oop_live.contains(&(VReg(1), 5)));
    assert!(r.extra_oop_live.contains(&(VReg(1), 3)), "and at the safepoint on the way");
    let iv = r.intervals.iter().find(|iv| iv.vreg == VReg(1)).unwrap();
    assert_eq!((iv.start, iv.end), (1, 2), "the range itself is not widened");
    let slot = match iv.assignment {
        Some(Assignment::Spill(s)) => s,
        _ => panic!("expected a spill"),
    };
    assert!(r.deopt_nil_init_slots.contains(&slot));
    let home = ValueLoc::FrameSlot(-8 * (slot.0 as i32 + 1));
    for at in [3, 5] {
        let found = resolve_frame_loc(VReg(1), at, &r.intervals, &r.extra_oop_live);
        assert_eq!(found, home, "what the trap needs is in the frame at {at}");
        let map = build_for_position(&r.intervals, r.frame_slots, at, &r.extra_oop_live, &[]);
        assert!(map.is_oop(slot.0));
    }
    assert_eq!(
        resolve_frame_loc(VReg(1), 4, &r.intervals, &r.extra_oop_live),
        ValueLoc::Nil,
        "and nowhere else after its last use"
    );
    assert!(r.deopt_nil_init_slots.windows(2).all(|w| w[0].0 < w[1].0));
}

#[test]
fn every_block_is_emitted_once() {
    let blocks = vec![
        block(0, vec![Ir::Jump { target: BlockId(3) }]),
        block(1, vec![Ir::RetSelf]),
        block(2, vec![Ir::Jump { target: BlockId(1) }]),
        block(
            3,
            vec![Ir::BoolBr {
                val: VReg(0),
                if_true: BlockId(1),
                if_false: BlockId(0),
                not_bool: BlockId(4),
            }],
        ),
        block(4, vec![Ir::UncommonTrap { bci: 0 }]),
    ];
    let order = reverse_postorder(&blocks);
    assert_eq!(order[0], BlockId(0));
    assert_eq!(order[1], BlockId(3));
    let mut ids: Vec<u32> = order.iter().map(|b| b.0).collect();
    ids.sort();
    assert_eq!(ids, vec![0, 1, 2, 3, 4]);
}

fn range_of(m: &IrMethod, v: u32) -> LiveInterval {
    compute_intervals(m).1.into_iter().find(|iv| iv.vreg == VReg(v)).unwrap()
}

/// A write that nobody reads belongs to the range too.
#[test]
fn ranges_cover_unread_writes() {
    let m = method(
        vec![block(
            0,
            vec![
                Ir::ConstSmi { dst: VReg(0), value: 1 },
                Ir::Move { dst: VReg(1), src: VReg(0) },
                Ir::ConstSmi { dst: VReg(0), value: 2 },
                Ir::Ret { val: VReg(1) },
            ],
        )],
        2,
    );
    let iv = range_of(&m, 0);
    assert_eq!((iv.start, iv.end), (0, 2));
    let iv = range_of(&m, 1);
    assert_eq!((iv.start, iv.end), (1, 3));
}

/// A late write must not land in a register that was given away.
#[test]
fn late_writes_do_not_destroy_neighbours() {
    let m = method(
        vec![block(
            0,
            vec![
                Ir::ConstSmi { dst: VReg(0), value: 1 },
                Ir::Move { dst: VReg(1), src: VReg(0) },
                Ir::ConstSmi { dst: VReg(2), value: 2 },
                Ir::ConstSmi { dst: VReg(0), value: 3 },
                Ir::StoreField { obj: VReg(1), byte_off: 16, val: VReg(2), barrier: false },
                Ir::RetSelf,
            ],
        )],
        3,
    );
    let r = regalloc(&m);
    assert!(place_of(&r, 0).is_some());
    assert_ne!(place_of(&r, 0), place_of(&r, 2));
}

/// The result of a call has to survive the safepoint, but no call lies strictly inside its range.
#[test]
fn a_call_does_not_cross_itself() {
    let m = method(
        vec![block(
            0,
            vec![
                Ir::CallSend { dst: VReg(0), site: 0, args: vec![] },
                Ir::Ret { val: VReg(0) },
            ],
        )],
        1,
    );
    let iv = range_of(&m, 0);
    assert_eq!((iv.start, iv.end), (0, 1));
    assert!(iv.crosses_safepoint);
    assert!(!iv.crosses_call);
    let m = method(
        vec![block(
            0,
            vec![
                Ir::Param { dst: VReg(1), index: 0 },
                Ir::CallSend { dst: VReg(0), site: 0, args: vec![] },
                Ir::StoreField { obj: VReg(1), byte_off: 16, val: VReg(0), barrier: true },
                Ir::Ret { val: VReg(0) },
            ],
        )],
        2,
    );
    assert!(range_of(&m, 1).crosses_call);
    assert!(!range_of(&m, 0).crosses_call);
}

/// The closure outlives the trap blocks at the end of the line.
#[test]
fn pins_reach_past_the_last_trap() {
    let add = |dst: u32, a: u32, fail: u32| Ir::SmiArith {
        op: SmiOp::Add,
        dst: VReg(dst),
        a: VReg(a),
        b: VReg(0),
        fail: BlockId(fail),
    };
    let mut m = method(
        vec![
            block(
                0,
                vec![
                    Ir::Param { dst: VReg(1), index: 0 },
                    Ir::LoadField { dst: VReg(0), obj: VReg(1), byte_off: 40 },
                    add(2, 0, 1),
                    add(3, 2, 2),
                    add(4, 3, 3),
                    Ir::Ret { val: VReg(4) },
                ],
            ),
            block(1, vec![Ir::UncommonTrap { bci: 0 }]),
            block(2, vec![Ir::UncommonTrap { bci: 0 }]),
            block(3, vec![Ir::UncommonTrap { bci: 0 }]),
        ],
        5,
    );
    m.block_closure_vreg = Some(VReg(1));
    let r = regalloc(&m);
    assert_eq!(r.safepoint_positions, vec![6, 7, 8]);
    let iv = r.intervals.iter().find(|iv| iv.vreg == VReg(1)).unwrap();
    assert_eq!(iv.assignment, Some(Assignment::Spill(SpillSlot(0))));
    assert_eq!((iv.start, iv.end), (0, 10));
    for at in [6, 7, 8] {
        assert_eq!(
            resolve_frame_loc(VReg(1), at, &r.intervals, &r.extra_oop_live),
            ValueLoc::FrameSlot(-8)
        );
    }
}

/// A pinned value lives on through the calls that follow its last use, so that no register can hold
/// it besides its slot.
#[test]
fn pinned_values_cross_the_calls_behind_them() {
    let mut m = method(
        vec![block(
            0,
            vec![
                Ir::Param { dst: VReg(0), index: 0 },
                Ir::Move { dst: VReg(1), src: VReg(0) },
                Ir::CallSend { dst: VReg(2), site: 0, args: vec![VReg(1)] },
                Ir::Ret { val: VReg(2) },
            ],
        )],
        3,
    );
    assert!(!range_of(&m, 0).crosses_call);
    m.method_ctx_vreg = Some((VReg(0), 1));
    let r = regalloc(&m);
    let iv = r.intervals.iter().find(|iv| iv.vreg == VReg(0)).unwrap();
    assert_eq!(iv.end, 5);
    assert!(iv.crosses_call);
    assert_eq!(iv.resident_reg, None);
}

/// Under pressure the interval that ends last is spilled, and only as many as there is no register
/// for; their slots are numbered without gaps.
#[test]
fn spills_are_forced_and_slots_are_dense() {
    let mut ivs: Vec<LiveInterval> = (0..9).map(|k| interval(k, k, 40 - k)).collect();
    let (slots, _) = allocate(&mut ivs);
    assert_eq!(slots, 2, "nine values, seven registers");
    let mut used: Vec<u16> = Vec::new();
    for (k, iv) in ivs.iter().enumerate() {
        if let Some(Assignment::Spill(s)) = iv.assignment {
            used.push(s.0);
            assert!(k < 2, "the two that end last");
        }
    }
    used.sort();
    assert_eq!(used, vec![0, 1]);
}

/// Taking the deoptimization sites away changes what the collector must find, not the ranges.
#[test]
fn sites_do_not_widen_ranges() {
    let build = |with_site: bool| {
        let mut trap = block(1, vec![Ir::UncommonTrap { bci: 3 }]);
        if with_site {
            trap.deopt_sites.push((
                0,
                DeoptRaw {
                    stack: vec![VReg(1)],
                    bci: 3,
                    kind: SafepointKind::UncommonTrap,
                    reexecute: true,
                    stack_closures: vec![],
                    inline: None,
                },
            ));
        }
        method(
            vec![
                block(
                    0,
                    vec![
                        Ir::Param { dst: VReg(0), index: 0 },
                        Ir::ConstSmi { dst: VReg(1), value: 4 },
                        Ir::SmiArith {
                            op: SmiOp::Add,
                            dst: VReg(2),
                            a: VReg(0),
                            b: VReg(1),
                            fail: BlockId(1),
                        },
                        Ir::Ret { val: VReg(2) },
                    ],
                ),
                trap,
            ],
            3,
        )
    };
    let (order, ivs, safepoints, starts, facts) = compute_intervals(&build(true));
    let (order2, ivs2, safepoints2, starts2, facts2) = compute_intervals(&build(false));
    assert_eq!(order, order2);
    assert_eq!(safepoints, safepoints2);
    assert_eq!(starts, starts2);
    let ranges = |ivs: &[LiveInterval]| -> Vec<(u32, u32, u32)> {
        ivs.iter().map(|iv| (iv.vreg.0, iv.start, iv.end)).collect()
    };
    assert_eq!(ranges(&ivs), ranges(&ivs2));
    assert!(!facts.is_empty() && facts2.is_empty());
}

/// Blocks that control reaches come first, and without loops every jump goes forward.
#[test]
fn jumps_go_forward() {
    let blocks = vec![
        block(
            0,
            vec![Ir::BoolBr {
                val: VReg(0),
                if_true: BlockId(4),
                if_false: BlockId(2),
                not_bool: BlockId(5),
            }],
        ),
        block(1, vec![Ir::Jump { target: BlockId(2) }]),
        block(2, vec![Ir::Jump { target: BlockId(4) }]),
        block(3, vec![Ir::RetSelf]),
        block(4, vec![Ir::RetSelf]),
        block(5, vec![Ir::UncommonTrap { bci: 0 }]),
    ];
    let order = reverse_postorder(&blocks);
    let at = |b: u32| order.iter().position(|x| x.0 == b).unwrap();
    for (from, to) in [(0, 4), (0, 2), (0, 5), (2, 4)] {
        assert!(at(from) < at(to));
    }
    for dead in [1, 3] {
        for live in [0, 2, 4, 5] {
            assert!(at(live) < at(dead));
        }
    }
}

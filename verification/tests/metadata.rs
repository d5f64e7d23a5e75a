use macvm::intervals::{Assignment, LiveInterval, SpillSlot};
use macvm::ir::VReg;
use macvm::leb::{read_sleb, read_uleb, write_sleb, write_uleb};
use macvm::loc::{resolve_frame_loc, resolve_frame_loc_in, ValueLoc};
use macvm::nmethod::{Nmethod, OopMap};
use macvm::oopmap::{build_for_position, intern, verify};
use macvm::osr::{OsrMap, OsrSlot, OsrSource};
use macvm::regalloc::PollSave;
use macvm::scopes::{
    decode_scope, decode_site, CtxLoc, DecodedScope, DeoptState, PcDesc, SafepointKind,
    SafepointState, ScopeDescData, ScopeDescRecorder, SenderLink,
};

fn uleb(v: u64) -> Vec<u8> {
    let mut out = Vec::new();
    write_uleb(&mut out, v);
    out
}

fn sleb(v: i64) -> Vec<u8> {
    let mut out = Vec::new();
    write_sleb(&mut out, v);
    out
}

#[test]
fn uleb_exact_bytes() {
    assert_eq!(uleb(0), vec![0]);
    assert_eq!(uleb(127), vec![0x7f]);
    assert_eq!(uleb(128), vec![0x80, 0x01]);
    assert_eq!(uleb(300), vec![0xac, 0x02]);
    assert_eq!(uleb(u64::MAX).len(), 10);
    assert_eq!(uleb(u64::MAX)[9], 0x01);
}

#[test]
fn sleb_exact_bytes() {
    assert_eq!(sleb(0), vec![0]);
    assert_eq!(sleb(-1), vec![0x7f]);
    assert_eq!(sleb(63), vec![0x3f]);
    assert_eq!(sleb(64), vec![0xc0, 0x00]);
    assert_eq!(sleb(-64), vec![0x40]);
    assert_eq!(sleb(-65), vec![0xbf, 0x7f]);
    assert_eq!(sleb(i64::MIN).len(), 10);
}

#[test]
fn numbers_are_read_in_the_middle_of_bytes() {
    let mut out = vec![9, 9];
    write_uleb(&mut out, 16384);
    write_sleb(&mut out, -480);
    out.push(7);
    let mut pos = 2;
    assert_eq!(read_uleb(&out, &mut pos), 16384);
    assert_eq!(pos, 5);
    assert_eq!(read_sleb(&out, &mut pos), -480);
    assert_eq!(pos, out.len() - 1);
}

/// A padded encoding of ten bytes: bits past the sixty-fourth are dropped.
#[test]
fn reading_keeps_sixty_four_bits() {
    let mut bytes = vec![0xff; 9];
    bytes.push(0x7f);
    let mut pos = 0;
    assert_eq!(read_uleb(&bytes, &mut pos), u64::MAX);
    assert_eq!(pos, 10);
    let mut pos = 0;
    assert_eq!(read_sleb(&bytes, &mut pos), -1);
    let padded = [0x81, 0x80, 0x00];
    let mut pos = 0;
    assert_eq!(read_uleb(&padded, &mut pos), 1);
    assert_eq!(pos, 3);
}

#[test]
fn locations_exact_bytes() {
    let bytes = |l: ValueLoc| {
        let mut out = Vec::new();
        l.write(&mut out);
        out
    };
    assert_eq!(bytes(ValueLoc::ConstPool(300)), vec![0, 0xac, 0x02]);
    assert_eq!(bytes(ValueLoc::ConstSmi(-1)), vec![1, 0x7f]);
    assert_eq!(bytes(ValueLoc::FrameSlot(-8)), vec![2, 0x78]);
    assert_eq!(bytes(ValueLoc::Nil), vec![3]);
    assert_eq!(bytes(ValueLoc::ElidedClosure(5)), vec![4, 5]);
    assert_eq!(bytes(ValueLoc::DoubleSlot(-16)), vec![5, 0x70]);
    let mut pos = 0;
    assert_eq!(ValueLoc::read(&[5, 0x70], &mut pos), ValueLoc::DoubleSlot(-16));
    assert_eq!(pos, 2);
}

#[test]
fn osr_map_exact_bytes() {
    let m = OsrMap {
        osr_bci: 7,
        entry_off: 300,
        frame_words: 12,
        slots: vec![
            OsrSlot { src: OsrSource::Receiver, dst_frame_off: -8 },
            OsrSlot { src: OsrSource::Slot(3), dst_frame_off: -32 },
            OsrSlot { src: OsrSource::StackSlot(1), dst_frame_off: -48 },
            OsrSlot { src: OsrSource::Context, dst_frame_off: -160 },
        ],
    };
    let packed = m.pack();
    assert_eq!(
        packed,
        vec![7, 0xac, 2, 12, 4, 0, 8, 1, 3, 32, 2, 1, 48, 3, 0xa0, 1]
    );
    let mut longer = packed.clone();
    longer.push(99);
    assert_eq!(OsrMap::unpack(&longer), m, "what follows does not matter");
}

fn scope(ix: u32, sender: Option<SenderLink>) -> ScopeDescData {
    ScopeDescData {
        method_pool_ix: ix,
        is_block: sender.is_some(),
        sender,
        receiver: ValueLoc::Nil,
        slots: vec![],
        ctx: CtxLoc::Absent,
    }
}

fn site(scope: u32, bci: u16, kind: SafepointKind) -> SafepointState {
    SafepointState {
        scope,
        bci,
        kind,
        reexecute: kind != SafepointKind::Call,
        stack: vec![],
    }
}

#[test]
fn records_exact_bytes() {
    let mut rec = ScopeDescRecorder::new();
    let outer = rec.begin_scope(scope(1, None));
    assert_eq!(outer, 0);
    let link = SenderLink { sender: outer, sender_bci: 6, pending_stack: vec![ValueLoc::Nil] };
    let inner = rec.begin_scope(ScopeDescData {
        slots: vec![ValueLoc::ConstSmi(5)],
        ctx: CtxLoc::Elided { temps: vec![ValueLoc::Nil] },
        ..scope(2, Some(link))
    });
    assert_eq!(inner, 1);
    rec.record_site(0x30, site(inner, 4, SafepointKind::UncommonTrap));
    let (blob, descs) = rec.pack();
    assert_eq!(
        blob,
        vec![
            // outer: no flags, method 1, receiver, no slots
            0, 1, 3, 0,
            // inner: sender, block and elided context; method 2; sender at 0, bci 6, one value
            1 + 2 + 8, 2, 0, 6, 1, 3,
            // receiver, one slot, one captured temporary
            3, 1, 1, 5, 1, 3,
            // site: scope at 4, bci 4, run again at a trap, empty stack
            4, 4, 1 + 6, 0,
        ]
    );
    assert_eq!(descs, vec![PcDesc { code_off: 0x30, site_off: 16 }]);
}

/// Sites of one code offset stay in the order of recording; every site is found again.
#[test]
fn descriptors_are_sorted_and_complete() {
    let mut rec = ScopeDescRecorder::new();
    let s = rec.begin_scope(scope(0, None));
    let kinds = [
        SafepointKind::Call,
        SafepointKind::LoopPoll,
        SafepointKind::Alloc,
        SafepointKind::UncommonTrap,
    ];
    for (k, off) in [0x40u32, 0x10, 0x40, 0x20].iter().enumerate() {
        rec.record_site(*off, site(s, k as u16, kinds[k]));
    }
    let (blob, descs) = rec.pack();
    let offs: Vec<u32> = descs.iter().map(|d| d.code_off).collect();
    assert_eq!(offs, vec![0x10, 0x20, 0x40, 0x40]);
    let bcis: Vec<u16> = descs.iter().map(|d| decode_site(&blob, d.site_off).bci).collect();
    assert_eq!(bcis, vec![1, 3, 0, 2]);
    let found = decode_site(&blob, PcDesc::find(&descs, 0x20).site_off);
    assert_eq!(found.kind, SafepointKind::UncommonTrap);
    assert!(found.reexecute);
    assert_eq!(decode_site(&blob, PcDesc::find(&descs, 0x10).site_off).kind, kinds[1]);
}

#[test]
fn chains_lead_to_the_root() {
    let mut rec = ScopeDescRecorder::new();
    let mut last = rec.begin_scope(scope(0, None));
    let other = rec.begin_scope(scope(50, None));
    for ix in 1..4u32 {
        let link = SenderLink { sender: last, sender_bci: ix as u16, pending_stack: vec![] };
        last = rec.begin_scope(scope(ix, Some(link)));
    }
    rec.record_site(8, site(last, 0, SafepointKind::Call));
    rec.record_site(12, site(other, 0, SafepointKind::Call));
    let (blob, descs) = rec.pack();
    let nm = Nmethod {
        id: 3,
        frame_slots: 0,
        slot_is_oop: vec![],
        oopmaps: vec![],
        deopt_scopes: blob,
        deopt_pcdescs: descs,
    };
    let state = DeoptState::at(&nm, 8);
    let chain: Vec<DecodedScope> = state.scopes().collect();
    let methods: Vec<u32> = chain.iter().map(|s| s.method_pool_ix).collect();
    assert_eq!(methods, vec![3, 2, 1, 0]);
    assert_eq!(chain[0], state.innermost());
    assert_eq!(chain[0].sender.as_ref().map(|l| l.1), Some(3));
    let mut it = DeoptState::at(&nm, 12).scopes();
    assert_eq!(it.next().map(|s| s.method_pool_ix), Some(50));
    assert!(it.next().is_none());
    assert!(it.next().is_none());
    assert_eq!(PcDesc::find_in(&nm, 12).code_off, 12);
}

#[test]
fn scopes_decode_as_recorded() {
    let mut rec = ScopeDescRecorder::new();
    let data = ScopeDescData {
        method_pool_ix: 1000,
        is_block: true,
        sender: None,
        receiver: ValueLoc::ElidedClosure(9),
        slots: vec![ValueLoc::DoubleSlot(-24), ValueLoc::ConstPool(70000)],
        ctx: CtxLoc::Materialized(ValueLoc::FrameSlot(-8)),
    };
    rec.begin_scope(data.clone());
    let (blob, descs) = rec.pack();
    assert!(descs.is_empty());
    let d = decode_scope(&blob, 0);
    assert_eq!(d.method_pool_ix, data.method_pool_ix);
    assert!(d.is_block);
    assert_eq!(d.receiver, data.receiver);
    assert_eq!(d.slots, data.slots);
    assert_eq!(d.ctx, data.ctx);
}

fn interval(vreg: u32, start: u32, end: u32, assignment: Option<Assignment>) -> LiveInterval {
    LiveInterval {
        vreg: VReg(vreg),
        start,
        end,
        is_oop: true,
        is_fp: false,
        crosses_safepoint: true,
        crosses_call: false,
        assignment,
        resident_reg: None,
    }
}

fn spill(slot: u16) -> Option<Assignment> {
    Some(Assignment::Spill(SpillSlot(slot)))
}

#[test]
fn frame_locations() {
    let double = LiveInterval { is_fp: true, is_oop: false, ..interval(2, 0, 20, spill(4)) };
    let ivs = vec![
        interval(0, 3, 10, spill(0)),
        interval(1, 0, 20, Some(Assignment::Reg(1))),
        double,
    ];
    let facts = [(VReg(0), 15)];
    assert_eq!(resolve_frame_loc(VReg(0), 3, &ivs, &facts), ValueLoc::FrameSlot(-8));
    assert_eq!(resolve_frame_loc(VReg(0), 9, &ivs, &facts), ValueLoc::FrameSlot(-8));
    assert_eq!(resolve_frame_loc(VReg(0), 10, &ivs, &facts), ValueLoc::Nil);
    assert_eq!(resolve_frame_loc(VReg(0), 15, &ivs, &facts), ValueLoc::FrameSlot(-8));
    assert_eq!(resolve_frame_loc(VReg(1), 5, &ivs, &facts), ValueLoc::Nil);
    assert_eq!(resolve_frame_loc(VReg(2), 5, &ivs, &facts), ValueLoc::DoubleSlot(-40));
    assert_eq!(resolve_frame_loc(VReg(7), 5, &ivs, &facts), ValueLoc::Nil);

    let polls = vec![
        (5, vec![PollSave { vreg: VReg(1), save_slot: SpillSlot(6), is_oop: true }]),
        (5, vec![PollSave { vreg: VReg(2), save_slot: SpillSlot(7), is_oop: true }]),
    ];
    let at = |v: u32, pos: u32| resolve_frame_loc_in(VReg(v), pos, &ivs, &facts, &polls);
    assert_eq!(at(1, 5), ValueLoc::FrameSlot(-56), "the poll's save slot");
    assert_eq!(at(1, 6), ValueLoc::Nil, "saved at the poll only");
    assert_eq!(at(2, 5), ValueLoc::DoubleSlot(-40), "only the first entry of a position counts");
}

#[test]
fn poll_saves_are_traced_at_their_poll() {
    let ivs = vec![interval(0, 0, 20, spill(0)), interval(1, 0, 20, Some(Assignment::Reg(2)))];
    let polls = vec![(
        5,
        vec![
            PollSave { vreg: VReg(1), save_slot: SpillSlot(2), is_oop: true },
            PollSave { vreg: VReg(2), save_slot: SpillSlot(3), is_oop: false },
        ],
    )];
    let map = build_for_position(&ivs, 4, 5, &[], &polls);
    assert_eq!(map.iter_slots(), vec![0, 2]);
    let map = build_for_position(&ivs, 4, 6, &[], &polls);
    assert_eq!(map.iter_slots(), vec![0]);
}

fn nmethod(frame_slots: u16, slot_is_oop: Vec<bool>, oopmaps: Vec<OopMap>) -> Nmethod {
    Nmethod {
        id: 1,
        frame_slots,
        slot_is_oop,
        oopmaps,
        deopt_scopes: vec![],
        deopt_pcdescs: vec![],
    }
}

#[test]
fn maps_that_disagree_with_the_frame() {
    let mut raw_slot = OopMap::empty();
    raw_slot.set(0);
    assert!(!verify(&nmethod(2, vec![false, true], vec![OopMap::empty(), raw_slot])));
    let mut outside = OopMap::empty();
    outside.set(5);
    assert!(!verify(&nmethod(2, vec![false, true], vec![outside])));
    assert!(verify(&nmethod(0, vec![], vec![OopMap::empty()])));
}

#[test]
fn maps_are_sets_of_slots() {
    let mut a = OopMap::empty();
    for s in [9u16, 3, 9, 70, 3] {
        a.set(s);
    }
    assert_eq!(a.iter_slots(), vec![3, 9, 70]);
    let mut b = OopMap::empty();
    for s in [70u16, 3, 9] {
        b.set(s);
    }
    assert!(a.same(&b));
    assert_eq!(a, b);
    let mut maps = vec![OopMap::empty(), b];
    assert_eq!(intern(&mut maps, a), 1);
    assert_eq!(maps.len(), 2);
}

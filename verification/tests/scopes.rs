use macvm::leb::{read_sleb, read_uleb, write_sleb, write_uleb};
use macvm::loc::ValueLoc;
use macvm::osr::{OsrMap, OsrSlot, OsrSource};
use macvm::scopes::{
    decode_scope, decode_site, CtxLoc, DeoptState, SafepointKind, SafepointState, ScopeDescData,
    ScopeDescRecorder, SenderLink,
};

#[test]
fn osr_map_round_trip() {
    let m = OsrMap {
        osr_bci: 7,
        entry_off: 0x1a4,
        frame_words: 12,
        slots: vec![
            OsrSlot {
                src: OsrSource::Receiver,
                dst_frame_off: -8,
            },
            OsrSlot {
                src: OsrSource::Slot(3),
                dst_frame_off: -32,
            },
            OsrSlot {
                src: OsrSource::StackSlot(0),
                dst_frame_off: -48,
            },
            OsrSlot {
                src: OsrSource::Context,
                dst_frame_off: -160,
            },
        ],
    };
    let packed = m.pack();
    assert_eq!(OsrMap::unpack(&packed), m, "pack/unpack round-trip");
}

#[test]
fn osr_map_empty_slots() {
    let m = OsrMap {
        osr_bci: 0,
        entry_off: 0,
        frame_words: 2,
        slots: Vec::new(),
    };
    assert_eq!(OsrMap::unpack(&m.pack()), m);
}

fn uleb_roundtrip(v: u64) {
    let mut out = Vec::new();
    write_uleb(&mut out, v);
    let mut pos = 0;
    assert_eq!(read_uleb(&out, &mut pos), v, "uleb {v}");
    assert_eq!(pos, out.len(), "uleb {v} consumed exactly");
}

fn sleb_roundtrip(v: i64) {
    let mut out = Vec::new();
    write_sleb(&mut out, v);
    let mut pos = 0;
    assert_eq!(read_sleb(&out, &mut pos), v, "sleb {v}");
    assert_eq!(pos, out.len(), "sleb {v} consumed exactly");
}

#[test]
fn leb128_roundtrip() {
    for &v in &[
        0u64,
        1,
        0x7f,
        0x80,
        0x3fff,
        0x4000,
        127,
        128,
        16383,
        16384,
        u32::MAX as u64,
        u64::MAX,
    ] {
        uleb_roundtrip(v);
    }
    for &v in &[
        0i64,
        1,
        -1,
        63,
        64,
        -64,
        -65,
        0x3f,
        -0x40,
        i32::MIN as i64,
        i32::MAX as i64,
        i64::MIN,
        i64::MAX,
    ] {
        sleb_roundtrip(v);
    }
}

#[test]
fn value_loc_roundtrip() {
    for loc in [
        ValueLoc::ConstPool(0),
        ValueLoc::ConstPool(300),
        ValueLoc::ConstSmi(0),
        ValueLoc::ConstSmi(-99999),
        ValueLoc::ConstSmi(123456789),
        ValueLoc::FrameSlot(-8),
        ValueLoc::FrameSlot(-480),
        ValueLoc::FrameSlot(16),
        ValueLoc::Nil,
        ValueLoc::ElidedClosure(0),
        ValueLoc::ElidedClosure(777),
    ] {
        let mut out = Vec::new();
        loc.write(&mut out);
        let mut pos = 0;
        assert_eq!(ValueLoc::read(&out, &mut pos), loc);
        assert_eq!(pos, out.len());
    }
}

#[test]
fn recorder_pack_decode_roundtrip() {
    let mut rec = ScopeDescRecorder::new();
    let scope_data = ScopeDescData {
        method_pool_ix: 7,
        is_block: false,
        sender: None,
        receiver: ValueLoc::FrameSlot(-8),
        slots: vec![
            ValueLoc::FrameSlot(-16),
            ValueLoc::ConstSmi(42),
            ValueLoc::Nil,
        ],
        ctx: CtxLoc::Materialized(ValueLoc::FrameSlot(-24)),
    };
    let scope = rec.begin_scope(scope_data.clone());

    rec.record_site(
        0x40,
        SafepointState {
            scope,
            bci: 10,
            kind: SafepointKind::Call,
            reexecute: false,
            stack: vec![ValueLoc::FrameSlot(-8)],
        },
    );
    rec.record_site(
        0x20,
        SafepointState {
            scope,
            bci: 4,
            kind: SafepointKind::UncommonTrap,
            reexecute: true,
            stack: vec![ValueLoc::FrameSlot(-16), ValueLoc::ConstSmi(1)],
        },
    );

    let (blob, pcdescs) = rec.pack();

    assert_eq!(pcdescs.len(), 2);
    assert_eq!(pcdescs[0].code_off, 0x20);
    assert_eq!(pcdescs[1].code_off, 0x40);

    let site_trap = decode_site(&blob, pcdescs[0].site_off);
    let site_call = decode_site(&blob, pcdescs[1].site_off);
    assert_eq!(
        site_trap.scope_off, site_call.scope_off,
        "one shared scope record"
    );

    assert_eq!(site_call.bci, 10);
    assert_eq!(site_call.kind, SafepointKind::Call);
    assert!(!site_call.reexecute);
    assert_eq!(site_call.stack, vec![ValueLoc::FrameSlot(-8)]);

    assert_eq!(site_trap.bci, 4);
    assert_eq!(site_trap.kind, SafepointKind::UncommonTrap);
    assert!(site_trap.reexecute);
    assert_eq!(
        site_trap.stack,
        vec![ValueLoc::FrameSlot(-16), ValueLoc::ConstSmi(1)]
    );

    let dec = decode_scope(&blob, site_call.scope_off);
    assert_eq!(dec.method_pool_ix, 7);
    assert!(!dec.is_block);
    assert_eq!(dec.sender, None);
    assert_eq!(dec.receiver, ValueLoc::FrameSlot(-8));
    assert_eq!(dec.slots, scope_data.slots);
    assert_eq!(dec.ctx, CtxLoc::Materialized(ValueLoc::FrameSlot(-24)));
}

#[test]
fn nested_scope_and_elided_ctx_roundtrip() {
    let mut rec = ScopeDescRecorder::new();
    let outer = rec.begin_scope(ScopeDescData {
        method_pool_ix: 1,
        is_block: false,
        sender: None,
        receiver: ValueLoc::FrameSlot(-8),
        slots: vec![],
        ctx: CtxLoc::Absent,
    });
    let inner = rec.begin_scope(ScopeDescData {
        method_pool_ix: 2,
        is_block: true,
        sender: Some(SenderLink {
            sender: outer,
            sender_bci: 6,
            pending_stack: vec![ValueLoc::ConstSmi(5), ValueLoc::Nil],
        }),
        receiver: ValueLoc::ConstPool(3),
        slots: vec![ValueLoc::FrameSlot(-40)],
        ctx: CtxLoc::Elided {
            temps: vec![ValueLoc::FrameSlot(-48), ValueLoc::ConstSmi(-7)],
        },
    });
    rec.record_site(
        0x10,
        SafepointState {
            scope: inner,
            bci: 2,
            kind: SafepointKind::Call,
            reexecute: false,
            stack: vec![],
        },
    );
    let (blob, pcdescs) = rec.pack();

    let site = decode_site(&blob, pcdescs[0].site_off);
    let inner_dec = decode_scope(&blob, site.scope_off);
    assert!(inner_dec.is_block);
    assert_eq!(
        inner_dec.ctx,
        CtxLoc::Elided {
            temps: vec![ValueLoc::FrameSlot(-48), ValueLoc::ConstSmi(-7)]
        }
    );
    let (sender_off, sender_bci, pending) = inner_dec.sender.clone().expect("has sender");
    assert_eq!(sender_bci, 6);
    assert_eq!(pending, vec![ValueLoc::ConstSmi(5), ValueLoc::Nil]);

    let outer_dec = decode_scope(&blob, sender_off);
    assert_eq!(outer_dec.method_pool_ix, 1);
    assert_eq!(outer_dec.sender, None);
    assert_eq!(outer_dec.ctx, CtxLoc::Absent);
}

#[test]
fn deopt_state_walks_scope_chain() {
    let mut rec = ScopeDescRecorder::new();
    let outer = rec.begin_scope(ScopeDescData {
        method_pool_ix: 11,
        is_block: false,
        sender: None,
        receiver: ValueLoc::FrameSlot(-8),
        slots: vec![ValueLoc::FrameSlot(-16)],
        ctx: CtxLoc::Absent,
    });
    let inner = rec.begin_scope(ScopeDescData {
        method_pool_ix: 22,
        is_block: true,
        sender: Some(SenderLink {
            sender: outer,
            sender_bci: 9,
            pending_stack: vec![ValueLoc::ConstSmi(3)],
        }),
        receiver: ValueLoc::FrameSlot(-24),
        slots: vec![ValueLoc::Nil],
        ctx: CtxLoc::Absent,
    });
    rec.record_site(
        0x80,
        SafepointState {
            scope: inner,
            bci: 7,
            kind: SafepointKind::Call,
            reexecute: false,
            stack: vec![ValueLoc::FrameSlot(-24)],
        },
    );
    let (blob, pcdescs) = rec.pack();

    let ds = DeoptState::at_parts(&blob, &pcdescs, 0x80);
    assert_eq!(ds.site.bci, 7);
    assert_eq!(ds.site.kind, SafepointKind::Call);
    assert!(!ds.site.reexecute);
    assert_eq!(ds.site.stack, vec![ValueLoc::FrameSlot(-24)]);
    assert_eq!(ds.innermost().method_pool_ix, 22);

    let chain: Vec<_> = ds.scopes().collect();
    assert_eq!(chain.len(), 2, "depth-2 chain yields exactly two scopes");
    assert_eq!(chain[0].method_pool_ix, 22);
    assert!(chain[0].is_block);
    assert_eq!(chain[0].receiver, ValueLoc::FrameSlot(-24));
    assert_eq!(chain[1].method_pool_ix, 11);
    assert!(!chain[1].is_block);
    assert_eq!(chain[1].sender, None, "outermost has no sender");
}


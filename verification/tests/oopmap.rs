use macvm::intervals::{Assignment, LiveInterval, SpillSlot};
use macvm::ir::VReg;
use macvm::nmethod::{Nmethod, OopMap};
use macvm::oopmap::{build_for_position, intern, verify};

fn fake_nmethod(frame_slots: u16, slot_is_oop: Vec<bool>, oopmaps: Vec<OopMap>) -> Nmethod {
    Nmethod {
        id: 0,
        frame_slots,
        slot_is_oop,
        oopmaps,
        deopt_scopes: Vec::new(),
        deopt_pcdescs: Vec::new(),
    }
}

#[test]
fn oopmap_dedup() {
    let mut oopmaps = vec![OopMap::empty()];

    let mut a = OopMap::empty();
    a.set(1);
    let idx_a = intern(&mut oopmaps, a.clone());
    assert_eq!(oopmaps.len(), 2, "a genuinely new map appends");

    let idx_a_again = intern(&mut oopmaps, a);
    assert_eq!(
        idx_a_again, idx_a,
        "identical content reuses the same index"
    );
    assert_eq!(oopmaps.len(), 2, "must NOT append a duplicate");

    let mut b = OopMap::empty();
    b.set(1);
    b.set(3);
    let idx_b = intern(&mut oopmaps, b);
    assert_ne!(idx_b, idx_a, "a different live set gets its own index");
    assert_eq!(oopmaps.len(), 3);

    let idx_empty = intern(&mut oopmaps, OopMap::empty());
    assert_eq!(
        idx_empty, 0,
        "an empty safepoint reuses the reserved slot 0"
    );
    assert_eq!(
        oopmaps.len(),
        3,
        "must not append for the empty case either"
    );
}

fn spilled(vreg: u32, slot: u16, is_oop: bool, start: u32, end: u32) -> LiveInterval {
    LiveInterval {
        vreg: VReg(vreg),
        start,
        end,
        is_oop,
        is_fp: false,
        crosses_safepoint: true,
        crosses_call: false,
        resident_reg: None,
        assignment: Some(Assignment::Spill(SpillSlot(slot))),
    }
}

#[test]
fn oopmap_liveness_intersection() {
    let intervals = vec![
        spilled(0, 0, true, 0, 5),
        spilled(1, 1, true, 0, 20),
    ];
    let map = build_for_position(&intervals, 2, 10, &[], &[]);
    assert!(
        !map.is_oop(0),
        "interval ending before the safepoint must be excluded"
    );
    assert!(
        map.is_oop(1),
        "interval spanning the safepoint must be included"
    );
}

#[test]
fn oopmap_extra_oop_live_is_exact_not_a_widened_range() {
    let intervals = vec![spilled(0, 0, true, 0, 5)];
    let extra = [(VReg(0), 80)];
    assert!(
        !build_for_position(&intervals, 1, 68, &extra, &[]).is_oop(0),
        "an unrelated safepoint numerically between the organic end and \
         the forced trap position must NOT see the vreg as live"
    );
    assert!(
        build_for_position(&intervals, 1, 80, &extra, &[]).is_oop(0),
        "the EXACT forced position must see the vreg as live"
    );
    assert!(
        !build_for_position(&intervals, 1, 81, &extra, &[]).is_oop(0),
        "one past the forced position must not — this is a point fact, \
         not a range"
    );
}

#[test]
fn oopmap_excludes_interval_ending_at_position() {
    let intervals = vec![spilled(0, 0, true, 0, 10)];
    let map = build_for_position(&intervals, 1, 10, &[], &[]);
    assert!(!map.is_oop(0));
}

#[test]
fn oopmap_excludes_interval_starting_at_position() {
    let intervals = vec![spilled(0, 0, true, 10, 20)];
    let map = build_for_position(&intervals, 1, 10, &[], &[]);
    assert!(
        !map.is_oop(0),
        "a call's own dst (def AT the safepoint) must not be traced during the call"
    );
    let map_later = build_for_position(&intervals, 1, 15, &[], &[]);
    assert!(map_later.is_oop(0));
}

#[test]
fn oopmap_excludes_non_oop_interval() {
    let intervals = vec![spilled(0, 0, false, 0, 20)];
    let map = build_for_position(&intervals, 1, 10, &[], &[]);
    assert!(!map.is_oop(0));
}

#[test]
fn oopmap_verifier_accepts_consistent_map() {
    let mut good_map = OopMap::empty();
    good_map.set(1);
    let nm = fake_nmethod(2, vec![false, true], vec![good_map]);
    assert!(verify(&nm));
}


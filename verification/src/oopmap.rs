//! Stack maps: which frame slots hold live objects at a safepoint.

use vstd::prelude::*;
use crate::intervals::{Assignment, LiveInterval};
use crate::ir::VReg;
use crate::loc::{has_fact, polls_view, saves_at};
use crate::nmethod::{Nmethod, OopMap};
use crate::regalloc::{
    allocated, law_allocation_is_sound, law_residents_are_exclusive, law_slots_are_exclusive, slot_of,
    same_place, with_residents, PollSave,
};

verus! {

/// The interval's value exists before the safepoint at `pos` and is needed after it. A value that
/// the safepoint itself produces is not there yet, and one that it consumes is gone.
pub open spec fn live_across(iv: LiveInterval, pos: u32, facts: Seq<(VReg, u32)>) -> bool {
    iv.start < pos < iv.end || facts.contains((iv.vreg, pos))
}

/// Some interval of an object has the slot and is live across `pos`.
pub open spec fn spilled_oop(
    ivs: Seq<LiveInterval>,
    pos: u32,
    facts: Seq<(VReg, u32)>,
    slot: u16,
) -> bool {
    exists|k: int|
        0 <= k < ivs.len() && (#[trigger] ivs[k]).is_oop && slot_of(ivs[k]) == Some(slot)
            && live_across(ivs[k], pos, facts)
}

/// The poll at `pos` saves an object to the slot.
pub open spec fn saved_oop(saves: Seq<PollSave>, slot: u16) -> bool {
    exists|k: int| 0 <= k < saves.len() && (#[trigger] saves[k]).is_oop && saves[k].save_slot.0 == slot
}

/// The slots that hold live objects at `pos`.
pub open spec fn live_slots(
    ivs: Seq<LiveInterval>,
    pos: u32,
    facts: Seq<(VReg, u32)>,
    polls: Seq<(u32, Seq<PollSave>)>,
) -> Set<u16> {
    Set::new(|s: u16| saved_oop(saves_at(polls, pos, 0), s) || spilled_oop(ivs, pos, facts, s))
}

/// Adds the slots that the poll at `pos` saves objects to.
fn add_saves(map: &mut OopMap, pos: u32, polls: &[(u32, Vec<PollSave>)])
    ensures
        forall|s: u16|
            #[trigger] final(map)@.contains(s) <==> old(map)@.contains(s) || saved_oop(
                saves_at(polls_view(polls@), pos, 0),
                s,
            ),
{
    let ghost pv = polls_view(polls@);
    let n: usize = polls.len();
    for k in 0..n
        invariant
            n == polls@.len(),
            pv == polls_view(polls@),
            map@ == old(map)@,
            saves_at(pv, pos, 0) == saves_at(pv, pos, k as int),
    {
        if polls[k].0 == pos {
            let saves = &polls[k].1;
            assert(pv[k as int] == (polls@[k as int].0, polls@[k as int].1@));
            let len: usize = saves.len();
            for j in 0..len
                invariant
                    len == saves@.len(),
                    forall|s: u16|
                        #[trigger] map@.contains(s) <==> old(map)@.contains(s) || saved_oop(
                            saves@.take(j as int),
                            s,
                        ),
            {
                let ghost before = map@;
                if saves[j].is_oop {
                    map.set(saves[j].save_slot.0);
                }
                proof {
                    let a = saves@.take(j as int);
                    let b = saves@.take(j + 1);
                    assert forall|s: u16| #[trigger] map@.contains(s) <==> old(map)@.contains(s)
                        || saved_oop(b, s) by {
                        assert(before.contains(s) <==> old(map)@.contains(s) || saved_oop(a, s));
                        if saved_oop(a, s) {
                            let h = choose|h: int|
                                0 <= h < a.len() && (#[trigger] a[h]).is_oop && a[h].save_slot.0
                                    == s;
                            assert(b[h] == a[h]);
                        }
                        if saved_oop(b, s) {
                            let h = choose|h: int|
                                0 <= h < b.len() && (#[trigger] b[h]).is_oop && b[h].save_slot.0
                                    == s;
                            if h < j {
                                assert(a[h] == b[h]);
                            }
                        }
                        assert(b[j as int] == saves@[j as int]);
                    }
                }
            }
            proof {
                assert(saves@.take(len as int) =~= saves@);
            }
            return;
        }
    }
}

/// The map of the safepoint at `position`: the saved objects of its poll, and every spilled object
/// that is live across it.
pub fn build_for_position(
    intervals: &[LiveInterval],
    frame_slots: u16,
    position: u32,
    extra_oop_live: &[(VReg, u32)],
    poll_saves: &[(u32, Vec<PollSave>)],
) -> (r: OopMap)
    requires
        forall|s: u16|
            #[trigger] live_slots(
                intervals@,
                position,
                extra_oop_live@,
                polls_view(poll_saves@),
            ).contains(s) ==> s < frame_slots,
    ensures
        r@ == live_slots(intervals@, position, extra_oop_live@, polls_view(poll_saves@)),
{
    let mut map = OopMap::empty();
    add_saves(&mut map, position, poll_saves);
    let ghost saved = map@;
    let n: usize = intervals.len();
    proof {
        assert(intervals@.take(0).len() == 0);
    }
    for k in 0..n
        invariant
            n == intervals@.len(),
            forall|s: u16|
                #[trigger] map@.contains(s) <==> saved.contains(s) || spilled_oop(
                    intervals@.take(k as int),
                    position,
                    extra_oop_live@,
                    s,
                ),
    {
        let ghost before = map@;
        let iv = intervals[k];
        if iv.is_oop {
            if let Some(Assignment::Spill(slot)) = iv.assignment {
                if iv.start < position && iv.end > position || has_fact(
                    extra_oop_live,
                    iv.vreg,
                    position,
                ) {
                    map.set(slot.0);
                }
            }
        }
        proof {
            let a = intervals@.take(k as int);
            let b = intervals@.take(k + 1);
            let f = extra_oop_live@;
            assert forall|s: u16| #[trigger] map@.contains(s) <==> saved.contains(s)
                || spilled_oop(b, position, f, s) by {
                assert(before.contains(s) <==> saved.contains(s) || spilled_oop(a, position, f, s));
                if spilled_oop(a, position, f, s) {
                    let h = choose|h: int|
                        0 <= h < a.len() && (#[trigger] a[h]).is_oop && slot_of(a[h]) == Some(s)
                            && live_across(a[h], position, f);
                    assert(b[h] == a[h]);
                }
                if spilled_oop(b, position, f, s) {
                    let h = choose|h: int|
                        0 <= h < b.len() && (#[trigger] b[h]).is_oop && slot_of(b[h]) == Some(s)
                            && live_across(b[h], position, f);
                    if h < k {
                        assert(a[h] == b[h]);
                    }
                }
                assert(b[k as int] == iv);
            }
        }
    }
    proof {
        assert(intervals@.take(n as int) =~= intervals@);
        assert(map@ =~= live_slots(
            intervals@,
            position,
            extra_oop_live@,
            polls_view(poll_saves@),
        ));
    }
    map
}

/// The first map, from the `k`-th on, with the same slots.
pub open spec fn same_map(maps: Seq<OopMap>, map: OopMap, k: int) -> Option<int>
    decreases maps.len() - k,
{
    if k < 0 || k >= maps.len() {
        None
    } else if maps[k]@ == map@ {
        Some(k)
    } else {
        same_map(maps, map, k + 1)
    }
}

/// The index of the map among the maps; it is added only if none has the same slots.
pub fn intern(oopmaps: &mut Vec<OopMap>, map: OopMap) -> (r: u16)
    ensures
        match same_map(old(oopmaps)@, map, 0) {
            Some(k) => r == k as u16 && final(oopmaps)@ == old(oopmaps)@,
            None => r == old(oopmaps)@.len() as u16 && final(oopmaps)@ == old(oopmaps)@.push(map),
        },
{
    let n: usize = oopmaps.len();
    for k in 0..n
        invariant
            n == oopmaps@.len(),
            oopmaps@ == old(oopmaps)@,
            same_map(oopmaps@, map, 0) == same_map(oopmaps@, map, k as int),
    {
        if oopmaps[k].same(&map) {
            return k as u16;
        }
    }
    oopmaps.push(map);
    n as u16
}

/// Every slot of every map is in the frame and holds objects.
pub open spec fn maps_agree(nm: Nmethod) -> bool {
    forall|k: int, s: u16|
        0 <= k < nm.oopmaps@.len() && #[trigger] nm.oopmaps@[k]@.contains(s) ==> slot_agrees(nm, s)
}

pub open spec fn slot_agrees(nm: Nmethod, s: u16) -> bool {
    s < nm.frame_slots && s < nm.slot_is_oop@.len() && nm.slot_is_oop@[s as int]
}

/// Tells whether the maps of a compiled method agree with its frame. On `false` the collector would
/// follow a slot that holds no object: the caller must stop and may not install the method.
#[must_use]
pub fn verify(nm: &Nmethod) -> (r: bool)
    ensures
        r == maps_agree(*nm),
{
    let n: usize = nm.oopmaps.len();
    for k in 0..n
        invariant
            n == nm.oopmaps@.len(),
            forall|h: int, s: u16|
                0 <= h < k && #[trigger] nm.oopmaps@[h]@.contains(s) ==> slot_agrees(*nm, s),
    {
        let slots = nm.oopmaps[k].iter_slots();
        let len: usize = slots.len();
        for j in 0..len
            invariant
                n == nm.oopmaps@.len(),
                k < n,
                len == slots@.len(),
                slots@.to_set() == nm.oopmaps@[k as int]@,
                forall|h: int| 0 <= h < j ==> slot_agrees(*nm, #[trigger] slots@[h]),
        {
            let s: u16 = slots[j];
            if s >= nm.frame_slots || s as usize >= nm.slot_is_oop.len()
                || !nm.slot_is_oop[s as usize] {
                proof {
                    assert(slots@.contains(slots@[j as int]));
                    assert(nm.oopmaps@[k as int]@.contains(s));
                }
                return false;
            }
        }
        proof {
            assert forall|s: u16| nm.oopmaps@[k as int]@.contains(s) implies slot_agrees(
                *nm,
                s,
            ) by {
                assert(slots@.to_set().contains(s));
                let h = choose|h: int| 0 <= h < slots@.len() && slots@[h] == s;
                assert(slot_agrees(*nm, slots@[h]));
            }
        }
    }
    true
}

/// Whatever the position and the facts, a map built from an allocation names only slots of its frame
/// that the allocation gave to objects.
pub proof fn law_maps_agree_with_allocation(
    ivs: Seq<LiveInterval>,
    pos: u32,
    facts: Seq<(VReg, u32)>,
    slot: u16,
)
    requires
        ivs.len() <= usize::MAX,
        forall|k: int| 0 <= k < ivs.len() ==> (#[trigger] ivs[k]).assignment is None,
        forall|k: int| 0 <= k < ivs.len() ==> (#[trigger] ivs[k]).resident_reg is None,
        allocated(ivs).slots.len() <= 0xffff,
        live_slots(with_residents(allocated(ivs).ivs), pos, facts, seq![]).contains(slot),
    ensures
        slot < allocated(ivs).slots.len() as u16,
        allocated(ivs).slots[slot as int],
{
    let f = allocated(ivs);
    law_allocation_is_sound(ivs);
    law_slots_are_exclusive(ivs);
    assert forall|k: int| 0 <= k < f.ivs.len() implies (#[trigger] f.ivs[k]).resident_reg is None by {
        assert(ivs[k].resident_reg is None);
    }
    law_residents_are_exclusive(f.ivs);
    let r = with_residents(f.ivs);
    let k = choose|k: int|
        0 <= k < r.len() && (#[trigger] r[k]).is_oop && slot_of(r[k]) == Some(slot) && live_across(
            r[k],
            pos,
            facts,
        );
    assert(same_place(r[k], f.ivs[k]));
    assert(slot_of(f.ivs[k]) == Some(slot));
}

} // verus!

//! Where the values of a compiled frame live, and how deoptimization metadata says so in bytes.

use vstd::prelude::*;
use crate::intervals::{Assignment, LiveInterval};
use crate::ir::VReg;
use crate::leb::{
    holds, law_sleb_round_trip, law_uleb_round_trip, lemma_holds_split, read_sleb, read_uleb,
    sleb_at, sleb_bytes, uleb_at, uleb_bytes, write_sleb, write_uleb,
};
use crate::regalloc::{
    allocated, law_allocation_is_sound, law_residents_are_exclusive, same_place, same_range, slot_of,
    with_residents, PollSave,
};

verus! {

/// Where a value lives. Registers do not occur: whatever deoptimization reads is in the frame.
#[derive(Clone, Copy, PartialEq, Eq, Debug, Structural)]
pub enum ValueLoc {
    /// An object in the literal pool.
    ConstPool(u32),
    /// A small integer.
    ConstSmi(i64),
    /// The frame slot at this byte offset from the frame pointer.
    FrameSlot(i32),
    Nil,
    /// A closure that was never allocated, of the block at this pool index.
    ElidedClosure(u32),
    /// The frame slot at this byte offset holds the bits of a double.
    DoubleSlot(i32),
}

/// A tag byte, then the payload.
pub open spec fn loc_bytes(l: ValueLoc) -> Seq<u8> {
    match l {
        ValueLoc::ConstPool(ix) => seq![0u8] + uleb_bytes(ix as nat),
        ValueLoc::ConstSmi(v) => seq![1u8] + sleb_bytes(v as int),
        ValueLoc::FrameSlot(off) => seq![2u8] + sleb_bytes(off as int),
        ValueLoc::Nil => seq![3u8],
        ValueLoc::ElidedClosure(ix) => seq![4u8] + uleb_bytes(ix as nat),
        ValueLoc::DoubleSlot(off) => seq![5u8] + sleb_bytes(off as int),
    }
}

/// The location encoded at `p`, and where it ends.
pub open spec fn loc_at(b: Seq<u8>, p: int) -> Option<(ValueLoc, int)> {
    if p < 0 || p >= b.len() {
        None
    } else if b[p] == 3 {
        Some((ValueLoc::Nil, p + 1))
    } else if b[p] == 0 || b[p] == 4 {
        match uleb_at(b, p + 1) {
            Some((v, e)) => Some(
                (
                    if b[p] == 0 {
                        ValueLoc::ConstPool(v as u32)
                    } else {
                        ValueLoc::ElidedClosure(v as u32)
                    },
                    e,
                ),
            ),
            None => None,
        }
    } else if b[p] == 1 || b[p] == 2 || b[p] == 5 {
        match sleb_at(b, p + 1) {
            Some((v, e)) => Some(
                (
                    if b[p] == 1 {
                        ValueLoc::ConstSmi(v)
                    } else if b[p] == 2 {
                        ValueLoc::FrameSlot(v as i32)
                    } else {
                        ValueLoc::DoubleSlot(v as i32)
                    },
                    e,
                ),
            ),
            None => None,
        }
    } else {
        None
    }
}

impl ValueLoc {
    /// Appends the location's bytes.
    pub fn write(self, out: &mut Vec<u8>)
        ensures
            final(out)@ == old(out)@ + loc_bytes(self),
    {
        let ghost before = out@;
        match self {
            ValueLoc::ConstPool(ix) => {
                out.push(0);
                write_uleb(out, ix as u64);
            },
            ValueLoc::ConstSmi(v) => {
                out.push(1);
                write_sleb(out, v);
            },
            ValueLoc::FrameSlot(off) => {
                out.push(2);
                write_sleb(out, off as i64);
            },
            ValueLoc::Nil => {
                out.push(3);
            },
            ValueLoc::ElidedClosure(ix) => {
                out.push(4);
                write_uleb(out, ix as u64);
            },
            ValueLoc::DoubleSlot(off) => {
                out.push(5);
                write_sleb(out, off as i64);
            },
        }
        proof {
            assert(out@ =~= before + loc_bytes(self));
        }
    }

    /// Reads the location at `*pos` and moves `*pos` past it.
    pub fn read(buf: &[u8], pos: &mut usize) -> (r: ValueLoc)
        requires
            loc_at(buf@, *old(pos) as int) is Some,
        ensures
            loc_at(buf@, *old(pos) as int) == Some((r, *final(pos) as int)),
    {
        let tag: u8 = buf[*pos];
        *pos = *pos + 1;
        if tag == 0 {
            ValueLoc::ConstPool(read_uleb(buf, pos) as u32)
        } else if tag == 1 {
            ValueLoc::ConstSmi(read_sleb(buf, pos))
        } else if tag == 2 {
            ValueLoc::FrameSlot(read_sleb(buf, pos) as i32)
        } else if tag == 3 {
            ValueLoc::Nil
        } else if tag == 4 {
            ValueLoc::ElidedClosure(read_uleb(buf, pos) as u32)
        } else {
            ValueLoc::DoubleSlot(read_sleb(buf, pos) as i32)
        }
    }
}

/// Reading a location gives back what was written, and ends where the writing ended.
pub proof fn law_loc_round_trip(b: Seq<u8>, p: int, l: ValueLoc)
    requires
        holds(b, p, loc_bytes(l)),
    ensures
        loc_at(b, p) == Some((l, p + loc_bytes(l).len())),
{
    match l {
        ValueLoc::ConstPool(ix) => {
            lemma_holds_split(b, p, seq![0u8], uleb_bytes(ix as nat));
            law_uleb_round_trip(b, p + 1, ix as u64);
        },
        ValueLoc::ConstSmi(v) => {
            lemma_holds_split(b, p, seq![1u8], sleb_bytes(v as int));
            law_sleb_round_trip(b, p + 1, v);
        },
        ValueLoc::FrameSlot(off) => {
            lemma_holds_split(b, p, seq![2u8], sleb_bytes(off as int));
            law_sleb_round_trip(b, p + 1, off as i64);
        },
        ValueLoc::Nil => {},
        ValueLoc::ElidedClosure(ix) => {
            lemma_holds_split(b, p, seq![4u8], uleb_bytes(ix as nat));
            law_uleb_round_trip(b, p + 1, ix as u64);
        },
        ValueLoc::DoubleSlot(off) => {
            lemma_holds_split(b, p, seq![5u8], sleb_bytes(off as int));
            law_sleb_round_trip(b, p + 1, off as i64);
        },
    }
    assert(b.subrange(p, p + loc_bytes(l).len())[0] == b[p]);
}

/// Locations one after the other.
pub open spec fn locs_bytes(s: Seq<ValueLoc>) -> Seq<u8>
    decreases s.len(),
{
    if s.len() == 0 {
        seq![]
    } else {
        locs_bytes(s.drop_last()) + loc_bytes(s.last())
    }
}

/// The `n` locations encoded from `p` on, and where they end.
pub open spec fn locs_at(b: Seq<u8>, p: int, n: int) -> Option<(Seq<ValueLoc>, int)>
    decreases n,
{
    if n <= 0 {
        Some((seq![], p))
    } else {
        match locs_at(b, p, n - 1) {
            Some((s, e)) => match loc_at(b, e) {
                Some((l, e2)) => Some((s.push(l), e2)),
                None => None,
            },
            None => None,
        }
    }
}

/// A list: its length, then its locations.
pub open spec fn list_bytes(s: Seq<ValueLoc>) -> Seq<u8> {
    uleb_bytes(s.len()) + locs_bytes(s)
}

pub open spec fn list_at(b: Seq<u8>, p: int) -> Option<(Seq<ValueLoc>, int)> {
    match uleb_at(b, p) {
        Some((n, e)) => locs_at(b, e, n as int),
        None => None,
    }
}

proof fn lemma_locs_round_trip(b: Seq<u8>, p: int, s: Seq<ValueLoc>)
    requires
        holds(b, p, locs_bytes(s)),
    ensures
        locs_at(b, p, s.len() as int) == Some((s, p + locs_bytes(s).len())),
    decreases s.len(),
{
    if s.len() > 0 {
        let d = s.drop_last();
        lemma_holds_split(b, p, locs_bytes(d), loc_bytes(s.last()));
        lemma_locs_round_trip(b, p, d);
        law_loc_round_trip(b, p + locs_bytes(d).len(), s.last());
        assert(d.push(s.last()) =~= s);
    } else {
        assert(s =~= seq![]);
    }
}

/// Reading a list gives back what was written, and ends where the writing ended.
pub proof fn law_list_round_trip(b: Seq<u8>, p: int, s: Seq<ValueLoc>)
    requires
        holds(b, p, list_bytes(s)),
        s.len() <= u64::MAX,
    ensures
        list_at(b, p) == Some((s, p + list_bytes(s).len())),
{
    lemma_holds_split(b, p, uleb_bytes(s.len()), locs_bytes(s));
    law_uleb_round_trip(b, p, s.len() as u64);
    lemma_locs_round_trip(b, p + uleb_bytes(s.len()).len(), s);
}

pub(crate) fn write_list(out: &mut Vec<u8>, s: &Vec<ValueLoc>)
    ensures
        final(out)@ == old(out)@ + list_bytes(s@),
{
    let ghost before = out@;
    let n: usize = s.len();
    write_uleb(out, n as u64);
    proof {
        assert(out@ =~= before + uleb_bytes(s@.len()) + locs_bytes(s@.take(0)));
    }
    for k in 0..n
        invariant
            n == s@.len(),
            out@ == before + uleb_bytes(s@.len()) + locs_bytes(s@.take(k as int)),
    {
        s[k].write(out);
        proof {
            assert(s@.take(k + 1).drop_last() =~= s@.take(k as int));
            assert(out@ =~= before + uleb_bytes(s@.len()) + locs_bytes(s@.take(k + 1)));
        }
    }
    proof {
        assert(s@.take(n as int) =~= s@);
        assert(out@ =~= before + list_bytes(s@));
    }
}

proof fn lemma_locs_prefix(b: Seq<u8>, p: int, k: int, n: int)
    requires
        0 <= k <= n,
        locs_at(b, p, n) is Some,
    ensures
        locs_at(b, p, k) is Some,
    decreases n - k,
{
    if k < n {
        lemma_locs_prefix(b, p, k, n - 1);
    }
}

pub(crate) fn read_list(buf: &[u8], pos: &mut usize) -> (r: Vec<ValueLoc>)
    requires
        list_at(buf@, *old(pos) as int) is Some,
    ensures
        list_at(buf@, *old(pos) as int) == Some((r@, *final(pos) as int)),
{
    let n: u64 = read_uleb(buf, pos);
    let ghost start = *pos as int;
    let mut r: Vec<ValueLoc> = Vec::new();
    for k in 0..n
        invariant
            locs_at(buf@, start, n as int) is Some,
            locs_at(buf@, start, k as int) == Some((r@, *pos as int)),
    {
        proof {
            lemma_locs_prefix(buf@, start, k + 1, n as int);
        }
        let l = ValueLoc::read(buf, pos);
        r.push(l);
    }
    r
}

/// The saves of all polls: each poll's position with its saves.
pub open spec fn polls_view(p: Seq<(u32, Vec<PollSave>)>) -> Seq<(u32, Seq<PollSave>)> {
    Seq::new(p.len(), |k: int| (p[k].0, p[k].1@))
}

/// The saves of the poll at `pos`: those of its first entry from the `k`-th on, none without one.
pub open spec fn saves_at(polls: Seq<(u32, Seq<PollSave>)>, pos: u32, k: int) -> Seq<PollSave>
    decreases polls.len() - k,
{
    if k < 0 || k >= polls.len() {
        seq![]
    } else if polls[k].0 == pos {
        polls[k].1
    } else {
        saves_at(polls, pos, k + 1)
    }
}

/// The first save of `v` from the `k`-th on.
pub open spec fn save_of(saves: Seq<PollSave>, v: VReg, k: int) -> Option<PollSave>
    decreases saves.len() - k,
{
    if k < 0 || k >= saves.len() {
        None
    } else if saves[k].vreg == v {
        Some(saves[k])
    } else {
        save_of(saves, v, k + 1)
    }
}

/// The value of the interval is still needed after the safepoint at `pos`.
pub open spec fn survives(iv: LiveInterval, pos: u32, facts: Seq<(VReg, u32)>) -> bool {
    iv.start <= pos < iv.end || facts.contains((iv.vreg, pos))
}

/// The first interval of `v`, from the `k`-th on, that survives `pos` in the frame.
pub open spec fn home_of(
    ivs: Seq<LiveInterval>,
    facts: Seq<(VReg, u32)>,
    v: VReg,
    pos: u32,
    k: int,
) -> Option<LiveInterval>
    decreases ivs.len() - k,
{
    if k < 0 || k >= ivs.len() {
        None
    } else if ivs[k].vreg == v && survives(ivs[k], pos, facts) && slot_of(ivs[k]) is Some {
        Some(ivs[k])
    } else {
        home_of(ivs, facts, v, pos, k + 1)
    }
}

/// The byte offset of a frame slot from the frame pointer.
pub open spec fn slot_offset(slot: u16) -> int {
    -8 * (slot + 1)
}

/// Where `v` lives at the safepoint at `pos`: in the slot that the poll saved it to, else in the
/// slot of its interval, if it survives. A value that does not survive is never read again.
pub open spec fn frame_loc(
    v: VReg,
    pos: u32,
    ivs: Seq<LiveInterval>,
    facts: Seq<(VReg, u32)>,
    polls: Seq<(u32, Seq<PollSave>)>,
) -> ValueLoc {
    match save_of(saves_at(polls, pos, 0), v, 0) {
        Some(s) => ValueLoc::FrameSlot(slot_offset(s.save_slot.0) as i32),
        None => match home_of(ivs, facts, v, pos, 0) {
            Some(iv) => if iv.is_fp {
                ValueLoc::DoubleSlot(slot_offset(slot_of(iv)->0) as i32)
            } else {
                ValueLoc::FrameSlot(slot_offset(slot_of(iv)->0) as i32)
            },
            None => ValueLoc::Nil,
        },
    }
}

fn find_save(polls: &[(u32, Vec<PollSave>)], v: VReg, pos: u32) -> (r: Option<PollSave>)
    ensures
        r == save_of(saves_at(polls_view(polls@), pos, 0), v, 0),
{
    let ghost pv = polls_view(polls@);
    let n: usize = polls.len();
    for k in 0..n
        invariant
            n == polls@.len(),
            pv == polls_view(polls@),
            saves_at(pv, pos, 0) == saves_at(pv, pos, k as int),
    {
        if polls[k].0 == pos {
            let saves = &polls[k].1;
            assert(pv[k as int] == (polls@[k as int].0, polls@[k as int].1@));
            let len: usize = saves.len();
            for j in 0..len
                invariant
                    len == saves@.len(),
                    pv == polls_view(polls@),
                    saves@ == saves_at(pv, pos, 0),
                    save_of(saves@, v, 0) == save_of(saves@, v, j as int),
            {
                if saves[j].vreg == v {
                    return Some(saves[j]);
                }
            }
            return None;
        }
    }
    None
}

pub(crate) fn has_fact(facts: &[(VReg, u32)], v: VReg, pos: u32) -> (r: bool)
    ensures
        r == facts@.contains((v, pos)),
{
    let n: usize = facts.len();
    for k in 0..n
        invariant
            n == facts@.len(),
            forall|h: int| 0 <= h < k ==> #[trigger] facts@[h] != (v, pos),
    {
        if facts[k].0 == v && facts[k].1 == pos {
            assert(facts@[k as int] == (v, pos));
            return true;
        }
    }
    false
}

/// Where `vreg` lives at the safepoint at `pos`, for code without poll saves.
pub fn resolve_frame_loc(
    vreg: VReg,
    pos: u32,
    intervals: &[LiveInterval],
    extra_oop_live: &[(VReg, u32)],
) -> (r: ValueLoc)
    ensures
        r == frame_loc(vreg, pos, intervals@, extra_oop_live@, seq![]),
{
    let none: Vec<(u32, Vec<PollSave>)> = Vec::new();
    proof {
        assert(polls_view(none@) =~= seq![]);
    }
    resolve_frame_loc_in(vreg, pos, intervals, extra_oop_live, none.as_slice())
}

/// Where `vreg` lives at the safepoint at `pos`.
pub fn resolve_frame_loc_in(
    vreg: VReg,
    pos: u32,
    intervals: &[LiveInterval],
    extra_oop_live: &[(VReg, u32)],
    poll_saves: &[(u32, Vec<PollSave>)],
) -> (r: ValueLoc)
    ensures
        r == frame_loc(vreg, pos, intervals@, extra_oop_live@, polls_view(poll_saves@)),
{
    if let Some(s) = find_save(poll_saves, vreg, pos) {
        return ValueLoc::FrameSlot(-8 * (s.save_slot.0 as i32 + 1));
    }
    let n: usize = intervals.len();
    for k in 0..n
        invariant
            n == intervals@.len(),
            save_of(saves_at(polls_view(poll_saves@), pos, 0), vreg, 0) is None,
            home_of(intervals@, extra_oop_live@, vreg, pos, 0) == home_of(
                intervals@,
                extra_oop_live@,
                vreg,
                pos,
                k as int,
            ),
    {
        let iv = intervals[k];
        if iv.vreg == vreg && (iv.start <= pos && iv.end > pos || has_fact(
            extra_oop_live,
            vreg,
            pos,
        )) {
            if let Some(Assignment::Spill(slot)) = iv.assignment {
                let off: i32 = -8 * (slot.0 as i32 + 1);
                if iv.is_fp {
                    return ValueLoc::DoubleSlot(off);
                }
                return ValueLoc::FrameSlot(off);
            }
        }
    }
    ValueLoc::Nil
}

proof fn lemma_home_of(
    ivs: Seq<LiveInterval>,
    facts: Seq<(VReg, u32)>,
    pos: u32,
    j: int,
    k: int,
)
    requires
        0 <= j <= k < ivs.len(),
        forall|i: int| 0 <= i < ivs.len() && i != k ==> (#[trigger] ivs[i]).vreg != ivs[k].vreg,
        survives(ivs[k], pos, facts),
        slot_of(ivs[k]) is Some,
    ensures
        home_of(ivs, facts, ivs[k].vreg, pos, j) == Some(ivs[k]),
    decreases k - j,
{
    if j < k {
        assert(ivs[j].vreg != ivs[k].vreg);
        lemma_home_of(ivs, facts, pos, j + 1, k);
    }
}

/// A value that crosses safepoints is found in the frame at every position that it survives: no
/// allocation leaves it in a register.
pub proof fn law_survivors_are_found(
    ivs: Seq<LiveInterval>,
    facts: Seq<(VReg, u32)>,
    pos: u32,
    k: int,
)
    requires
        ivs.len() <= usize::MAX,
        forall|i: int| 0 <= i < ivs.len() ==> (#[trigger] ivs[i]).assignment is None,
        forall|i: int| 0 <= i < ivs.len() ==> (#[trigger] ivs[i]).resident_reg is None,
        forall|i: int, j: int|
            0 <= i < j < ivs.len() ==> (#[trigger] ivs[i]).vreg != (#[trigger] ivs[j]).vreg,
        0 <= k < ivs.len(),
        ivs[k].crosses_safepoint,
        survives(ivs[k], pos, facts),
    ensures
        ({
            let r = with_residents(allocated(ivs).ivs);
            &&& slot_of(r[k]) is Some
            &&& frame_loc(ivs[k].vreg, pos, r, facts, seq![]) == (if ivs[k].is_fp {
                ValueLoc::DoubleSlot(slot_offset(slot_of(r[k])->0) as i32)
            } else {
                ValueLoc::FrameSlot(slot_offset(slot_of(r[k])->0) as i32)
            })
        }),
{
    let f = allocated(ivs);
    law_allocation_is_sound(ivs);
    assert forall|i: int| 0 <= i < f.ivs.len() implies (#[trigger] f.ivs[i]).resident_reg is None by {
        assert(same_range(f.ivs[i], ivs[i]));
    }
    law_residents_are_exclusive(f.ivs);
    let r = with_residents(f.ivs);
    assert forall|i: int| 0 <= i < r.len() implies (#[trigger] r[i]).vreg == ivs[i].vreg
        && r[i].start == ivs[i].start && r[i].end == ivs[i].end && r[i].is_fp == ivs[i].is_fp
        && slot_of(r[i]) == slot_of(f.ivs[i]) by {
        assert(same_place(r[i], f.ivs[i]));
        assert(same_range(f.ivs[i], ivs[i]));
    }
    assert(f.ivs[k].crosses_safepoint) by {
        assert(same_range(f.ivs[k], ivs[k]));
    }
    assert forall|i: int| 0 <= i < r.len() && i != k implies (#[trigger] r[i]).vreg != r[k].vreg by {
        assert(ivs[i].vreg != ivs[k].vreg) by {
            if i < k {
            } else {
                assert(ivs[k].vreg != ivs[i].vreg);
            }
        }
    }
    lemma_home_of(r, facts, pos, 0, k);
}

} // verus!

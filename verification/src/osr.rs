//! On-stack replacement: how an interpreter frame becomes the frame of compiled code at a loop
//! header, and the bytes that say so.

use vstd::prelude::*;
use crate::leb::{
    holds, law_uleb_round_trip, lemma_holds_split, read_uleb, uleb_at, uleb_bytes, write_uleb,
};

verus! {

/// Where a transferred value comes from in the interpreter frame.
#[derive(Clone, Copy, PartialEq, Eq, Debug, Structural)]
pub enum OsrSource {
    Receiver,
    /// An argument or temporary.
    Slot(u16),
    /// An element of the operand stack at the loop header, the bottom first.
    StackSlot(u16),
    /// The frame's context.
    Context,
}

/// One transferred value: its source, and the byte offset from the frame pointer of its home.
#[derive(Clone, Copy, PartialEq, Eq, Debug, Structural)]
pub struct OsrSlot {
    pub src: OsrSource,
    pub dst_frame_off: i32,
}

/// The frame conversion of one loop. `L` is the type of the list of slots.
#[derive(Clone, PartialEq, Eq, Debug)]
pub struct OsrMap<L = Vec<OsrSlot>> {
    /// The bytecode index of the loop header.
    pub osr_bci: u16,
    /// The code offset of the entry.
    pub entry_off: u32,
    /// The size of the compiled frame.
    pub frame_words: u32,
    /// In the order in which the values are handed over.
    pub slots: L,
}

pub type OsrView = OsrMap<Seq<OsrSlot>>;

impl View for OsrMap {
    type V = OsrView;

    open spec fn view(&self) -> OsrView {
        OsrMap {
            osr_bci: self.osr_bci,
            entry_off: self.entry_off,
            frame_words: self.frame_words,
            slots: self.slots@,
        }
    }
}

pub open spec fn src_bytes(s: OsrSource) -> Seq<u8> {
    match s {
        OsrSource::Receiver => uleb_bytes(0),
        OsrSource::Slot(i) => uleb_bytes(1) + uleb_bytes(i as nat),
        OsrSource::StackSlot(i) => uleb_bytes(2) + uleb_bytes(i as nat),
        OsrSource::Context => uleb_bytes(3),
    }
}

/// The source, then the distance of the home below the frame pointer.
pub open spec fn slot_bytes(s: OsrSlot) -> Seq<u8> {
    src_bytes(s.src) + uleb_bytes((-s.dst_frame_off) as nat)
}

pub open spec fn slots_bytes(s: Seq<OsrSlot>) -> Seq<u8>
    decreases s.len(),
{
    if s.len() == 0 {
        seq![]
    } else {
        slots_bytes(s.drop_last()) + slot_bytes(s.last())
    }
}

pub open spec fn osr_bytes(m: OsrView) -> Seq<u8> {
    uleb_bytes(m.osr_bci as nat) + (uleb_bytes(m.entry_off as nat) + (uleb_bytes(
        m.frame_words as nat,
    ) + (uleb_bytes(m.slots.len()) + slots_bytes(m.slots))))
}

pub open spec fn src_at(b: Seq<u8>, p: int) -> Option<(OsrSource, int)> {
    match uleb_at(b, p) {
        Some((tag, e)) => if tag == 0 {
            Some((OsrSource::Receiver, e))
        } else if tag == 3 {
            Some((OsrSource::Context, e))
        } else if tag == 1 || tag == 2 {
            match uleb_at(b, e) {
                Some((i, e2)) => Some(
                    (
                        if tag == 1 {
                            OsrSource::Slot(i as u16)
                        } else {
                            OsrSource::StackSlot(i as u16)
                        },
                        e2,
                    ),
                ),
                None => None,
            }
        } else {
            None
        },
        None => None,
    }
}

/// The slot encoded at `p`, and where it ends. The distance must have a negative.
pub open spec fn slot_at(b: Seq<u8>, p: int) -> Option<(OsrSlot, int)> {
    match src_at(b, p) {
        Some((src, e)) => match uleb_at(b, e) {
            Some((d, e2)) => if d as i32 == i32::MIN {
                None
            } else {
                Some((OsrSlot { src, dst_frame_off: (-(d as i32)) as i32 }, e2))
            },
            None => None,
        },
        None => None,
    }
}

pub open spec fn slots_at(b: Seq<u8>, p: int, n: int) -> Option<(Seq<OsrSlot>, int)>
    decreases n,
{
    if n <= 0 {
        Some((seq![], p))
    } else {
        match slots_at(b, p, n - 1) {
            Some((s, e)) => match slot_at(b, e) {
                Some((x, e2)) => Some((s.push(x), e2)),
                None => None,
            },
            None => None,
        }
    }
}

/// The map encoded in the bytes.
pub open spec fn osr_at(b: Seq<u8>) -> Option<OsrView> {
    match uleb_at(b, 0) {
        Some((osr_bci, e1)) => match uleb_at(b, e1) {
            Some((entry_off, e2)) => match uleb_at(b, e2) {
                Some((frame_words, e3)) => match uleb_at(b, e3) {
                    Some((n, e4)) => match slots_at(b, e4, n as int) {
                        Some((slots, _)) => Some(
                            OsrMap {
                                osr_bci: osr_bci as u16,
                                entry_off: entry_off as u32,
                                frame_words: frame_words as u32,
                                slots,
                            },
                        ),
                        None => None,
                    },
                    None => None,
                },
                None => None,
            },
            None => None,
        },
        None => None,
    }
}

/// Homes lie below the frame pointer, at a distance that is a number.
pub open spec fn homes_ok(s: Seq<OsrSlot>) -> bool {
    forall|k: int| 0 <= k < s.len() ==> i32::MIN < (#[trigger] s[k]).dst_frame_off < 0
}

fn write_slot(out: &mut Vec<u8>, s: OsrSlot)
    requires
        i32::MIN < s.dst_frame_off < 0,
    ensures
        final(out)@ == old(out)@ + slot_bytes(s),
{
    let ghost before = out@;
    match s.src {
        OsrSource::Receiver => {
            write_uleb(out, 0);
        },
        OsrSource::Slot(i) => {
            write_uleb(out, 1);
            write_uleb(out, i as u64);
        },
        OsrSource::StackSlot(i) => {
            write_uleb(out, 2);
            write_uleb(out, i as u64);
        },
        OsrSource::Context => {
            write_uleb(out, 3);
        },
    }
    write_uleb(out, (-s.dst_frame_off) as u64);
    proof {
        assert(out@ =~= before + slot_bytes(s));
    }
}

fn read_slot(buf: &[u8], pos: &mut usize) -> (r: OsrSlot)
    requires
        slot_at(buf@, *old(pos) as int) is Some,
    ensures
        slot_at(buf@, *old(pos) as int) == Some((r, *final(pos) as int)),
{
    let tag: u64 = read_uleb(buf, pos);
    let src = if tag == 0 {
        OsrSource::Receiver
    } else if tag == 1 {
        OsrSource::Slot(read_uleb(buf, pos) as u16)
    } else if tag == 2 {
        OsrSource::StackSlot(read_uleb(buf, pos) as u16)
    } else {
        OsrSource::Context
    };
    let d: i32 = read_uleb(buf, pos) as i32;
    OsrSlot { src, dst_frame_off: -d }
}

proof fn lemma_slots_prefix(b: Seq<u8>, p: int, k: int, n: int)
    requires
        0 <= k <= n,
        slots_at(b, p, n) is Some,
    ensures
        slots_at(b, p, k) is Some,
    decreases n - k,
{
    if k < n {
        lemma_slots_prefix(b, p, k, n - 1);
    }
}

impl OsrMap {
    /// The map in bytes.
    pub fn pack(&self) -> (r: Vec<u8>)
        requires
            homes_ok(self@.slots),
        ensures
            r@ == osr_bytes(self@),
    {
        let mut out: Vec<u8> = Vec::new();
        write_uleb(&mut out, self.osr_bci as u64);
        write_uleb(&mut out, self.entry_off as u64);
        write_uleb(&mut out, self.frame_words as u64);
        let n: usize = self.slots.len();
        write_uleb(&mut out, n as u64);
        let ghost head = out@;
        proof {
            assert(out@ =~= head + slots_bytes(self.slots@.take(0)));
        }
        for k in 0..n
            invariant
                n == self.slots@.len(),
                homes_ok(self.slots@),
                out@ == head + slots_bytes(self.slots@.take(k as int)),
        {
            write_slot(&mut out, self.slots[k]);
            proof {
                assert(self.slots@.take(k + 1).drop_last() =~= self.slots@.take(k as int));
                assert(out@ =~= head + slots_bytes(self.slots@.take(k + 1)));
            }
        }
        proof {
            assert(self.slots@.take(n as int) =~= self.slots@);
            assert(out@ =~= osr_bytes(self@));
        }
        out
    }

    /// The map that the bytes encode.
    pub fn unpack(buf: &[u8]) -> (r: OsrMap)
        requires
            osr_at(buf@) is Some,
        ensures
            osr_at(buf@) == Some(r@),
    {
        let mut pos: usize = 0;
        let osr_bci: u16 = read_uleb(buf, &mut pos) as u16;
        let entry_off: u32 = read_uleb(buf, &mut pos) as u32;
        let frame_words: u32 = read_uleb(buf, &mut pos) as u32;
        let n: u64 = read_uleb(buf, &mut pos);
        let ghost start = pos as int;
        let mut slots: Vec<OsrSlot> = Vec::new();
        for k in 0..n
            invariant
                slots_at(buf@, start, n as int) is Some,
                slots_at(buf@, start, k as int) == Some((slots@, pos as int)),
        {
            proof {
                lemma_slots_prefix(buf@, start, k + 1, n as int);
            }
            let s = read_slot(buf, &mut pos);
            slots.push(s);
        }
        OsrMap { osr_bci, entry_off, frame_words, slots }
    }
}

proof fn lemma_slot_round_trip(b: Seq<u8>, p: int, s: OsrSlot)
    requires
        holds(b, p, slot_bytes(s)),
        i32::MIN < s.dst_frame_off < 0,
    ensures
        slot_at(b, p) == Some((s, p + slot_bytes(s).len())),
{
    let d = (-s.dst_frame_off) as u64;
    lemma_holds_split(b, p, src_bytes(s.src), uleb_bytes(d as nat));
    law_uleb_round_trip(b, p + src_bytes(s.src).len(), d);
    match s.src {
        OsrSource::Receiver => {
            law_uleb_round_trip(b, p, 0);
        },
        OsrSource::Slot(i) => {
            lemma_holds_split(b, p, uleb_bytes(1), uleb_bytes(i as nat));
            law_uleb_round_trip(b, p, 1);
            law_uleb_round_trip(b, p + uleb_bytes(1).len(), i as u64);
        },
        OsrSource::StackSlot(i) => {
            lemma_holds_split(b, p, uleb_bytes(2), uleb_bytes(i as nat));
            law_uleb_round_trip(b, p, 2);
            law_uleb_round_trip(b, p + uleb_bytes(2).len(), i as u64);
        },
        OsrSource::Context => {
            law_uleb_round_trip(b, p, 3);
        },
    }
}

proof fn lemma_slots_round_trip(b: Seq<u8>, p: int, s: Seq<OsrSlot>)
    requires
        holds(b, p, slots_bytes(s)),
        homes_ok(s),
    ensures
        slots_at(b, p, s.len() as int) == Some((s, p + slots_bytes(s).len())),
    decreases s.len(),
{
    if s.len() > 0 {
        let d = s.drop_last();
        lemma_holds_split(b, p, slots_bytes(d), slot_bytes(s.last()));
        lemma_slots_round_trip(b, p, d);
        lemma_slot_round_trip(b, p + slots_bytes(d).len(), s.last());
        assert(d.push(s.last()) =~= s);
    } else {
        assert(s =~= seq![]);
    }
}

/// Unpacking gives back what was packed, whatever follows it.
pub proof fn law_osr_round_trip(m: OsrView, rest: Seq<u8>)
    requires
        homes_ok(m.slots),
        m.slots.len() <= u64::MAX,
    ensures
        osr_at(osr_bytes(m) + rest) == Some(m),
{
    let b = osr_bytes(m) + rest;
    assert(b.subrange(0, osr_bytes(m).len() as int) =~= osr_bytes(m));
    let b0 = uleb_bytes(m.osr_bci as nat);
    let b1 = uleb_bytes(m.entry_off as nat);
    let b2 = uleb_bytes(m.frame_words as nat);
    let b3 = uleb_bytes(m.slots.len());
    let b4 = slots_bytes(m.slots);
    lemma_holds_split(b, 0, b0, b1 + (b2 + (b3 + b4)));
    law_uleb_round_trip(b, 0, m.osr_bci as u64);
    let e1 = b0.len() as int;
    lemma_holds_split(b, e1, b1, b2 + (b3 + b4));
    law_uleb_round_trip(b, e1, m.entry_off as u64);
    let e2 = e1 + b1.len();
    lemma_holds_split(b, e2, b2, b3 + b4);
    law_uleb_round_trip(b, e2, m.frame_words as u64);
    let e3 = e2 + b2.len();
    lemma_holds_split(b, e3, b3, b4);
    law_uleb_round_trip(b, e3, m.slots.len() as u64);
    lemma_slots_round_trip(b, e3 + b3.len(), m.slots);
}

} // verus!

//! A compiled method as the code cache keeps it.

use vstd::prelude::*;
use crate::scopes::PcDesc;

verus! {

/// The frame slots that hold live objects at one safepoint.
#[derive(PartialEq, Eq, Debug)]
pub struct OopMap {
    slots: Vec<u16>,
}

pub open spec fn ascending(s: Seq<u16>) -> bool {
    forall|j: int, k: int| 0 <= j < k < s.len() ==> #[trigger] s[j] < #[trigger] s[k]
}

impl View for OopMap {
    type V = Set<u16>;

    closed spec fn view(&self) -> Set<u16> {
        self.slots@.to_set()
    }
}

/// Ascending lists with the same elements are the same.
proof fn lemma_ascending_unique(a: Seq<u16>, b: Seq<u16>)
    requires
        ascending(a),
        ascending(b),
        a.to_set() == b.to_set(),
    ensures
        a == b,
    decreases a.len(),
{
    if a.len() == 0 {
        if b.len() > 0 {
            assert(b.to_set().contains(b[0]));
            assert(a.contains(b[0]));
        }
        assert(a =~= b);
    } else {
        assert(a.to_set().contains(a.last()));
        assert(b.contains(a.last()));
        let j = choose|j: int| 0 <= j < b.len() && b[j] == a.last();
        assert(b.to_set().contains(b.last()));
        assert(a.contains(b.last()));
        let i = choose|i: int| 0 <= i < a.len() && a[i] == b.last();
        assert(a.last() == b.last()) by {
            if j < b.len() - 1 {
                assert(b[j] < b[b.len() - 1]);
                if i < a.len() - 1 {
                    assert(a[i] < a[a.len() - 1]);
                }
            }
        }
        let c = a.drop_last();
        let d = b.drop_last();
        assert forall|x: u16| c.to_set().contains(x) <==> d.to_set().contains(x) by {
            if c.contains(x) {
                let k = choose|k: int| 0 <= k < c.len() && c[k] == x;
                assert(a[k] == x && a[k] < a[a.len() - 1]);
                assert(a.to_set().contains(x));
                assert(b.contains(x));
                let h = choose|h: int| 0 <= h < b.len() && b[h] == x;
                assert(d[h] == x);
            }
            if d.contains(x) {
                let k = choose|k: int| 0 <= k < d.len() && d[k] == x;
                assert(b[k] == x && b[k] < b[b.len() - 1]);
                assert(b.to_set().contains(x));
                assert(a.contains(x));
                let h = choose|h: int| 0 <= h < a.len() && a[h] == x;
                assert(c[h] == x);
            }
        }
        assert(c.to_set() =~= d.to_set());
        lemma_ascending_unique(c, d);
        assert(a =~= c.push(a.last()));
        assert(b =~= d.push(b.last()));
    }
}

impl OopMap {
    #[verifier::type_invariant]
    closed spec fn sorted(self) -> bool {
        ascending(self.slots@)
    }

    /// The map without slots.
    pub fn empty() -> (r: OopMap)
        ensures
            r@ == Set::<u16>::empty(),
    {
        let r = OopMap { slots: Vec::new() };
        proof {
            assert(r@ =~= Set::<u16>::empty());
        }
        r
    }

    /// Adds a slot.
    pub fn set(&mut self, slot: u16)
        ensures
            final(self)@ == old(self)@.insert(slot),
    {
        let mut slots = self.iter_slots();
        let ghost before = slots@;
        let mut k: usize = slots.len();
        while k > 0 && slots[k - 1] > slot
            invariant
                slots@ == before,
                k <= before.len(),
                forall|h: int| k <= h < before.len() ==> #[trigger] before[h] > slot,
            decreases k,
        {
            k -= 1;
        }
        if k > 0 && slots[k - 1] == slot {
            proof {
                assert(before[k - 1] == slot);
                assert(before.to_set().contains(slot));
                assert(self@ =~= before.to_set().insert(slot));
            }
            return;
        }
        proof {
            lemma_inserted(before, k as int, slot);
        }
        slots.insert(k, slot);
        *self = OopMap { slots };
    }

    /// Whether the slot is in the map.
    pub fn is_oop(&self, slot: u16) -> (r: bool)
        ensures
            r == self@.contains(slot),
    {
        let n: usize = self.slots.len();
        for k in 0..n
            invariant
                n == self.slots@.len(),
                forall|h: int| 0 <= h < k ==> #[trigger] self.slots@[h] != slot,
        {
            if self.slots[k] == slot {
                assert(self.slots@.contains(self.slots@[k as int]));
                return true;
            }
        }
        false
    }

    /// The slots, ascending.
    pub fn iter_slots(&self) -> (r: Vec<u16>)
        ensures
            ascending(r@),
            r@.to_set() == self@,
    {
        proof {
            use_type_invariant(self);
        }
        let mut r: Vec<u16> = Vec::new();
        let n: usize = self.slots.len();
        for k in 0..n
            invariant
                n == self.slots@.len(),
                r@ == self.slots@.take(k as int),
        {
            r.push(self.slots[k]);
            proof {
                assert(self.slots@.take(k + 1) =~= self.slots@.take(k as int).push(
                    self.slots@[k as int],
                ));
            }
        }
        proof {
            assert(self.slots@.take(n as int) =~= self.slots@);
        }
        r
    }

    /// Whether two maps have the same slots.
    pub fn same(&self, other: &OopMap) -> (r: bool)
        ensures
            r == (self@ == other@),
    {
        proof {
            use_type_invariant(self);
            use_type_invariant(other);
            if self@ == other@ {
                lemma_ascending_unique(self.slots@, other.slots@);
            }
        }
        let n: usize = self.slots.len();
        if n != other.slots.len() {
            return false;
        }
        for k in 0..n
            invariant
                n == self.slots@.len(),
                n == other.slots@.len(),
                self@ == other@ ==> self.slots@ == other.slots@,
                forall|h: int| 0 <= h < k ==> #[trigger] self.slots@[h] == other.slots@[h],
        {
            if self.slots[k] != other.slots[k] {
                return false;
            }
        }
        proof {
            assert(self.slots@ =~= other.slots@);
        }
        true
    }
}

impl Clone for OopMap {
    fn clone(&self) -> (r: OopMap)
        ensures
            r@ == self@,
    {
        OopMap { slots: self.iter_slots() }
    }
}

proof fn lemma_inserted(before: Seq<u16>, k: int, slot: u16)
    requires
        ascending(before),
        0 <= k <= before.len(),
        forall|h: int| k <= h < before.len() ==> #[trigger] before[h] > slot,
        k > 0 ==> before[k - 1] < slot,
    ensures
        ascending(before.insert(k, slot)),
        before.insert(k, slot).to_set() == before.to_set().insert(slot),
{
    let after = before.insert(k, slot);
    assert forall|i: int, j: int| 0 <= i < j < after.len() implies #[trigger] after[i]
        < #[trigger] after[j] by {
        if i < k {
            assert(after[i] == before[i]);
            if j == k {
                assert(before[i] <= before[k - 1]);
            } else if j > k {
                assert(after[j] == before[j - 1]);
            } else {
                assert(after[j] == before[j]);
            }
        } else {
            assert(after[j] == before[j - 1]);
            if i > k {
                assert(after[i] == before[i - 1]);
            }
        }
    }
    assert forall|x: u16| after.to_set().contains(x) <==> before.to_set().insert(slot).contains(
        x,
    ) by {
        if after.contains(x) {
            let i = choose|i: int| 0 <= i < after.len() && after[i] == x;
            if i < k {
                assert(before[i] == x);
            } else if i > k {
                assert(before[i - 1] == x);
            }
        }
        if before.contains(x) {
            let i = choose|i: int| 0 <= i < before.len() && before[i] == x;
            if i < k {
                assert(after[i] == x);
            } else {
                assert(after[i + 1] == x);
            }
        }
        assert(after[k] == slot);
    }
    assert(after.to_set() =~= before.to_set().insert(slot));
}

/// A compiled method: its frame, its stack maps and its deoptimization metadata.
pub struct Nmethod {
    pub id: u32,
    pub frame_slots: u16,
    /// For each frame slot, whether it holds objects.
    pub slot_is_oop: Vec<bool>,
    pub oopmaps: Vec<OopMap>,
    pub deopt_scopes: Vec<u8>,
    /// By code offset.
    pub deopt_pcdescs: Vec<PcDesc>,
}

} // verus!

//! Keeping doubles unboxed keeps every value, up to boxing.

use vstd::prelude::*;
use crate::ir::{DeoptView, Ir, IrView, VReg};
use crate::passes::raw_refs;
use crate::values::{boxing, float_stepped, values, Eval, Regs};

verus! {

/// What operations compute: doubles are boxed and boxes opened, constants are the doubles that their
/// bits stand for, and anything else depends on its position and on what it reads in any way.
pub ghost struct Machine {
    pub eval: Eval,
    pub wrap: spec_fn(int) -> int,
    pub peel: spec_fn(int) -> int,
    pub num: spec_fn(u64) -> int,
}

impl Machine {
    /// Opening a box gives back what was boxed.
    pub open spec fn wf(self) -> bool {
        boxing(self.wrap, self.peel)
    }

    /// The registers after the operation at position `i`.
    pub open spec fn step(self, i: int, op: IrView, regs: Regs) -> Regs {
        match op {
            Ir::FConst { dst, bits } => crate::values::set(regs, dst, (self.num)(bits)),
            _ => float_stepped(self.eval, self.wrap, self.peel, i, op, regs),
        }
    }

    /// The registers before the operation at position `i`.
    pub open spec fn run(self, code: Seq<IrView>, regs: Regs, i: int) -> Regs
        decreases i,
    {
        if i <= 0 {
            regs
        } else {
            self.step(i - 1, code[i - 1], self.run(code, regs, i - 1))
        }
    }

    /// The same of a run that leaves out the operations that are not kept.
    pub open spec fn run_kept(
        self,
        code: Seq<IrView>,
        keep: Seq<bool>,
        regs: Regs,
        i: int,
    ) -> Regs
        decreases i,
    {
        if i <= 0 {
            regs
        } else if keep[i - 1] {
            self.step(i - 1, code[i - 1], self.run_kept(code, keep, regs, i - 1))
        } else {
            self.run_kept(code, keep, regs, i - 1)
        }
    }
}

/// A block before and after promotion.
pub ghost struct Change {
    pub code: Seq<IrView>,
    pub made: Seq<IrView>,
    pub keep: Seq<bool>,
    /// The registers that held boxes and now hold doubles.
    pub promoted: spec_fn(VReg) -> bool,
    /// The registers that promoted ones were unboxed into.
    pub gone: spec_fn(VReg) -> bool,
}

/// The unboxing at `i` went away.
pub open spec fn dropped(x: Change, i: int) -> bool {
    &&& !x.keep[i]
    &&& x.code[i] matches Ir::FUnbox { dst, src, .. } && (x.promoted)(src) && (x.gone)(dst)
        && !(x.promoted)(dst)
}

/// Nothing writes `v` between positions `i` and `j`.
pub open spec fn untouched(code: Seq<IrView>, v: VReg, i: int, j: int) -> bool {
    forall|h: int| i < h < j ==> (#[trigger] code[h]).write() != Some(v)
}

/// The unboxing at `i` was of `w` into `v`, and `w` still holds that value at `j`.
pub(crate) open spec fn stands_for(x: Change, i: int, j: int, v: VReg, w: VReg) -> bool {
    &&& 0 <= i < j
    &&& dropped(x, i)
    &&& x.code[i] matches Ir::FUnbox { dst, src, .. } && dst == v && src == w
    &&& untouched(x.code, w, i, j)
}

pub(crate) open spec fn operand_ok(x: Change, j: int, v: VReg, w: VReg) -> bool {
    ||| v == w && !(x.promoted)(v) && !(x.gone)(v)
    ||| exists|i: int| #[trigger] stands_for(x, i, j, v, w)
}

/// The operations are alike but for what they read.
pub(crate) open spec fn alike(a: IrView, b: IrView) -> bool {
    &&& a.write() == b.write()
    &&& a.reads().len() == b.reads().len()
    &&& a is Move == b is Move
    &&& a is FBox == b is FBox
    &&& a is FUnbox == b is FUnbox
    &&& a is FConst || b is FConst ==> a == b
}

/// What promotion may make of the operation at `j`.
pub(crate) open spec fn change_ok(x: Change, j: int) -> bool {
    let a = x.code[j];
    let b = x.made[j];
    if !x.keep[j] {
        dropped(x, j)
    } else if a matches Ir::Move { dst, src } && (x.promoted)(dst) {
        ||| b == a && (x.promoted)(a->Move_src)
        ||| b matches Ir::Move { dst: d, src: fp } && d == a->Move_dst && fp != a->Move_src
            && !(x.promoted)(fp) && !(x.gone)(fp)
        ||| b matches Ir::FConst { dst: d, .. } && d == a->Move_dst
    } else if a matches Ir::ConstPool { dst, .. } && (x.promoted)(dst) {
        b matches Ir::FConst { dst: d, .. } && d == a->ConstPool_dst
    } else if a matches Ir::Ret { val } && (x.promoted)(val) {
        b == a
    } else {
        &&& alike(a, b)
        &&& a.write() matches Some(d) ==> !(x.promoted)(d) && !(x.gone)(d)
        &&& forall|q: int|
            0 <= q < a.reads().len() ==> operand_ok(
                x,
                j,
                #[trigger] a.reads()[q],
                b.reads()[q],
            )
    }
}

pub(crate) open spec fn changes_ok(x: Change) -> bool {
    &&& x.made.len() == x.code.len()
    &&& x.keep.len() == x.code.len()
    &&& forall|j: int| 0 <= j < x.code.len() ==> #[trigger] change_ok(x, j)
    &&& forall|i: int, j: int|
        0 <= i < x.code.len() && 0 <= j < x.code.len() && i != j && #[trigger] dropped(x, i)
            ==> x.code[i].write() != (#[trigger] x.code[j]).write()
    &&& forall|v: VReg| #[trigger] (x.promoted)(v) ==> !(x.gone)(v)
}

/// At position `j` the promoted register `v` has been given a Double; `held` tells those that hold
/// one on entry.
pub open spec fn given(code: Seq<IrView>, held: spec_fn(VReg) -> bool, j: int, v: VReg) -> bool
    decreases j,
{
    if j <= 0 {
        held(v)
    } else if code[j - 1].write() == Some(v) {
        code[j - 1] is Move
    } else {
        given(code, held, j - 1, v)
    }
}

/// Register `v` holds the same in both runs, but a promoted one holds the double in place of its
/// box.
pub open spec fn same_up_to_boxing(x: Change, mc: Machine, old_regs: Regs, new_regs: Regs, v: VReg) -> bool {
    old_regs(v) == if (x.promoted)(v) {
        (mc.wrap)(new_regs(v))
    } else {
        new_regs(v)
    }
}

/// Every register that is still there and has been given a value holds the same, up to boxing.
pub open spec fn regs_match(
    x: Change,
    mc: Machine,
    old_regs: Regs,
    new_regs: Regs,
    is_given: spec_fn(VReg) -> bool,
) -> bool {
    forall|v: VReg|
        !(x.gone)(v) && ((x.promoted)(v) ==> is_given(v)) ==> #[trigger] same_up_to_boxing(
            x,
            mc,
            old_regs,
            new_regs,
            v,
        )
}

/// Promoted registers are looked at only once they have been given a Double: by operations, and by
/// the deoptimization sites, which name no register that is gone.
pub open spec fn looked_at_late(
    x: Change,
    sites: Seq<(u32, DeoptView)>,
    held: spec_fn(VReg) -> bool,
) -> bool {
    &&& forall|j: int, q: int|
        0 <= j < x.code.len() && 0 <= q < x.code[j].reads().len() && (x.promoted)(
            #[trigger] x.code[j].reads()[q],
        ) ==> given(x.code, held, j, x.code[j].reads()[q])
    &&& forall|k: int, v: VReg|
        0 <= k < sites.len() && (x.promoted)(v) && #[trigger] raw_refs(sites[k].1).contains(v)
            ==> given(x.code, held, sites[k].0 as int, v)
}

/// What a promoted register is given in place of a box is what the box holds.
pub open spec fn boxes_hold(x: Change, mc: Machine, regs: Regs) -> bool {
    forall|j: int|
        0 <= j < x.code.len() && x.keep[j] && x.made[j] != x.code[j] ==> (
        #[trigger] x.code[j] matches Ir::Move { dst, src } ==> (x.promoted)(dst) ==> (match x.made[j] {
            Ir::Move { src: fp, .. } => mc.run(x.code, regs, j)(src) == (mc.wrap)(
                mc.run(x.code, regs, j)(fp),
            ),
            Ir::FConst { bits, .. } => mc.run(x.code, regs, j)(src) == (mc.wrap)((mc.num)(bits)),
            _ => true,
        }))
}

spec fn given_at(x: Change, held: spec_fn(VReg) -> bool, j: int) -> spec_fn(VReg) -> bool {
    |v: VReg| given(x.code, held, j, v)
}

/// What was unboxed and not written since is in the promoted register.
spec fn stand_ins(x: Change, mc: Machine, old_regs: Regs, new_regs: Regs, j: int) -> bool {
    forall|i: int, v: VReg, w: VReg| #[trigger]
        stands_for(x, i, j, v, w) ==> old_regs(v) == new_regs(w)
}

proof fn lemma_operands(
    x: Change,
    mc: Machine,
    held: spec_fn(VReg) -> bool,
    r: Regs,
    s: Regs,
    j: int,
    a: IrView,
    b: IrView,
)
    requires
        regs_match(x, mc, r, s, given_at(x, held, j)),
        stand_ins(x, mc, r, s, j),
        a.reads().len() == b.reads().len(),
        forall|q: int|
            0 <= q < a.reads().len() ==> operand_ok(x, j, #[trigger] a.reads()[q], b.reads()[q]),
    ensures
        values(r, a.reads()) == values(s, b.reads()),
{
    assert forall|q: int| 0 <= q < a.reads().len() implies r(#[trigger] a.reads()[q]) == s(
        b.reads()[q],
    ) by {
        let v = a.reads()[q];
        let w = b.reads()[q];
        assert(operand_ok(x, j, v, w));
        if v == w && !(x.promoted)(v) && !(x.gone)(v) {
            assert(same_up_to_boxing(x, mc, r, s, v));
        } else {
            let i = choose|i: int| #[trigger] stands_for(x, i, j, v, w);
            assert(stands_for(x, i, j, v, w));
        }
    }
    assert(values(r, a.reads()) =~= values(s, b.reads()));
}

/// Promotion keeps the two runs together.
proof fn lemma_simulates(
    x: Change,
    mc: Machine,
    held: spec_fn(VReg) -> bool,
    sites: Seq<(u32, DeoptView)>,
    regs: Regs,
    made_regs: Regs,
    n: int,
)
    requires
        0 <= n <= x.code.len(),
        mc.wf(),
        changes_ok(x),
        regs_match(x, mc, regs, made_regs, held),
        looked_at_late(x, sites, held),
        boxes_hold(x, mc, regs),
    ensures
        regs_match(
            x,
            mc,
            mc.run(x.code, regs, n),
            mc.run_kept(x.made, x.keep, made_regs, n),
            given_at(x, held, n),
        ),
        stand_ins(
            x,
            mc,
            mc.run(x.code, regs, n),
            mc.run_kept(x.made, x.keep, made_regs, n),
            n,
        ),
    decreases n,
{
    if n == 0 {
        assert forall|v: VReg|
            !(x.gone)(v) && ((x.promoted)(v) ==> given_at(x, held, 0)(v)) implies #[trigger] same_up_to_boxing(
            x,
            mc,
            regs,
            made_regs,
            v,
        ) by {
            assert(given(x.code, held, 0, v) == held(v));
        }
    } else {
        let j = n - 1;
        lemma_simulates(x, mc, held, sites, regs, made_regs, j);
        let r = mc.run(x.code, regs, j);
        let s = mc.run_kept(x.made, x.keep, made_regs, j);
        let r1 = mc.run(x.code, regs, n);
        let s1 = mc.run_kept(x.made, x.keep, made_regs, n);
        let a = x.code[j];
        let b = x.made[j];
        assert(change_ok(x, j));
        assert(r1 == mc.step(j, a, r));
        // What each kind of operation leaves behind.
        if !x.keep[j] {
            let u = a->FUnbox_dst;
            let t = a->FUnbox_src;
            assert(dropped(x, j));
            assert(s1 == s);
            assert(a.reads()[0] == t);
            assert(given(x.code, held, j, x.code[j].reads()[0]));
            assert(given_at(x, held, j)(t));
            assert(same_up_to_boxing(x, mc, r, s, t));
        }
        assert forall|v: VReg|
            !(x.gone)(v) && ((x.promoted)(v) ==> given_at(x, held, n)(v)) implies #[trigger] same_up_to_boxing(
            x,
            mc,
            r1,
            s1,
            v,
        ) by {
            assert(given(x.code, held, n, v) == (if a.write() == Some(v) {
                a is Move
            } else {
                given(x.code, held, j, v)
            }));
            if a.write() != Some(v) {
                if (x.promoted)(v) {
                    assert(given_at(x, held, j)(v));
                }
                assert(same_up_to_boxing(x, mc, r, s, v));
                assert(b.write() == a.write() || !x.keep[j]);
            } else if (x.promoted)(v) {
                // A copy into a promoted register.
                let src = a->Move_src;
                assert(a.reads()[0] == src);
                assert(r1(v) == r(src));
                if b == a {
                    assert(given(x.code, held, j, x.code[j].reads()[0]));
                    assert(given_at(x, held, j)(src));
                    assert(same_up_to_boxing(x, mc, r, s, src));
                } else {
                    if let Ir::Move { dst: d, src: fp } = b {
                        assert(same_up_to_boxing(x, mc, r, s, fp));
                    }
                }
            } else {
                lemma_operands(x, mc, held, r, s, j, a, b);
                lemma_alike(mc, j, a, b, r, s);
            }
        }
        assert forall|i: int, v: VReg, w: VReg| #[trigger]
            stands_for(x, i, n, v, w) implies r1(v) == s1(w) by {
            if i == j {
            } else {
                assert(untouched(x.code, w, i, j)) by {
                    assert forall|h: int| i < h < j implies (#[trigger] x.code[h]).write() != Some(
                        w,
                    ) by {
                        assert(x.code[h].write() != Some(w));
                    }
                }
                assert(stands_for(x, i, j, v, w));
                assert(x.code[j].write() != Some(w));
                assert(dropped(x, i));
                assert(x.code[i].write() == Some(v));
                assert(x.code[j].write() != Some(v));
                assert(r1(v) == r(v));
                assert(s1(w) == s(w)) by {
                    assert(b.write() == a.write() || !x.keep[j]);
                }
            }
        }
    }
}

/// Operations that are alike and read the same write the same.
pub(crate) proof fn lemma_alike(mc: Machine, j: int, a: IrView, b: IrView, r: Regs, s: Regs)
    requires
        alike(a, b),
        values(r, a.reads()) == values(s, b.reads()),
    ensures
        a.write() matches Some(d) ==> mc.step(j, a, r)(d) == mc.step(j, b, s)(d),
{
    if a.reads().len() > 0 {
        assert(values(r, a.reads())[0] == r(a.reads()[0]));
        assert(values(s, b.reads())[0] == s(b.reads()[0]));
    }
}

/// What the operation reads is the same, up to boxing: a promoted operand is the double that was
/// boxed, and so is what is copied into a promoted register.
pub open spec fn inputs_match(
    x: Change,
    mc: Machine,
    old_regs: Regs,
    new_regs: Regs,
    a: IrView,
    b: IrView,
) -> bool {
    match (a, b) {
        (Ir::Move { src, .. }, Ir::FConst { bits, .. }) => old_regs(src) == (mc.wrap)(
            (mc.num)(bits),
        ),
        (Ir::ConstPool { .. }, Ir::FConst { .. }) => true,
        _ => {
            &&& a.reads().len() == b.reads().len()
            &&& forall|q: int|
                0 <= q < a.reads().len() ==> old_regs(#[trigger] a.reads()[q]) == if (x.promoted)(
                    a.reads()[q],
                ) || (a is Move && (x.promoted)(a.write()->0)) {
                    (mc.wrap)(new_regs(b.reads()[q]))
                } else {
                    new_regs(b.reads()[q])
                }
        },
    }
}

/// Every operation that is kept and every deoptimization site reads the same, up to boxing; and so
/// does whatever comes after the block.
pub open spec fn keeps_values(
    x: Change,
    mc: Machine,
    held: spec_fn(VReg) -> bool,
    sites: Seq<(u32, DeoptView)>,
    regs: Regs,
    made_regs: Regs,
) -> bool {
    let n = x.code.len() as int;
    &&& forall|j: int|
        0 <= j < n && x.keep[j] ==> inputs_match(
            x,
            mc,
            mc.run(x.code, regs, j),
            mc.run_kept(x.made, x.keep, made_regs, j),
            #[trigger] x.code[j],
            x.made[j],
        )
    &&& forall|k: int, v: VReg|
        0 <= k < sites.len() && #[trigger] raw_refs(sites[k].1).contains(v) ==> same_up_to_boxing(
            x,
            mc,
            mc.run(x.code, regs, sites[k].0 as int),
            mc.run_kept(x.made, x.keep, made_regs, sites[k].0 as int),
            v,
        )
    &&& regs_match(
        x,
        mc,
        mc.run(x.code, regs, n),
        mc.run_kept(x.made, x.keep, made_regs, n),
        |v: VReg| given(x.code, held, n, v),
    )
}

pub(crate) proof fn lemma_keeps_values(
    x: Change,
    mc: Machine,
    held: spec_fn(VReg) -> bool,
    sites: Seq<(u32, DeoptView)>,
    regs: Regs,
    made_regs: Regs,
)
    requires
        mc.wf(),
        changes_ok(x),
        regs_match(x, mc, regs, made_regs, held),
        looked_at_late(x, sites, held),
        boxes_hold(x, mc, regs),
        forall|k: int| 0 <= k < sites.len() ==> (#[trigger] sites[k]).0 <= x.code.len(),
        forall|k: int, v: VReg|
            0 <= k < sites.len() && #[trigger] raw_refs(sites[k].1).contains(v) ==> !(x.gone)(v),
    ensures
        keeps_values(x, mc, held, sites, regs, made_regs),
{
    let n = x.code.len() as int;
    assert forall|j: int| 0 <= j < n && x.keep[j] implies inputs_match(
        x,
        mc,
        mc.run(x.code, regs, j),
        mc.run_kept(x.made, x.keep, made_regs, j),
        #[trigger] x.code[j],
        x.made[j],
    ) by {
        lemma_simulates(x, mc, held, sites, regs, made_regs, j);
        let r = mc.run(x.code, regs, j);
        let s = mc.run_kept(x.made, x.keep, made_regs, j);
        let a = x.code[j];
        let b = x.made[j];
        assert(change_ok(x, j));
        if a is Move && (x.promoted)(a->Move_dst) {
            let src = a->Move_src;
            assert(a.reads()[0] == src);
            if b == a {
                assert(given(x.code, held, j, x.code[j].reads()[0]));
                assert(given_at(x, held, j)(src));
                assert(same_up_to_boxing(x, mc, r, s, src));
            } else if let Ir::Move { dst: d, src: fp } = b {
                assert(same_up_to_boxing(x, mc, r, s, fp));
            }
        } else if a is ConstPool && (x.promoted)(a->ConstPool_dst) {
        } else if a is Ret && (x.promoted)(a->Ret_val) {
            assert(a.reads()[0] == a->Ret_val);
            assert(given(x.code, held, j, x.code[j].reads()[0]));
            assert(given_at(x, held, j)(a->Ret_val));
            assert(same_up_to_boxing(x, mc, r, s, a->Ret_val));
        } else {
            lemma_operands(x, mc, held, r, s, j, a, b);
            assert forall|q: int| 0 <= q < a.reads().len() implies r(#[trigger] a.reads()[q]) == s(
                b.reads()[q],
            ) && !(x.promoted)(a.reads()[q]) by {
                assert(values(r, a.reads())[q] == r(a.reads()[q]));
                assert(values(s, b.reads())[q] == s(b.reads()[q]));
                assert(operand_ok(x, j, a.reads()[q], b.reads()[q]));
            }
        }
    }
    assert forall|k: int, v: VReg|
        0 <= k < sites.len() && #[trigger] raw_refs(sites[k].1).contains(v) implies same_up_to_boxing(
        x,
        mc,
        mc.run(x.code, regs, sites[k].0 as int),
        mc.run_kept(x.made, x.keep, made_regs, sites[k].0 as int),
        v,
    ) by {
        let o = sites[k].0 as int;
        lemma_simulates(x, mc, held, sites, regs, made_regs, o);
        if (x.promoted)(v) {
            assert(given_at(x, held, o)(v));
        }
    }
    lemma_simulates(x, mc, held, sites, regs, made_regs, n);
    let r = mc.run(x.code, regs, n);
    let s = mc.run_kept(x.made, x.keep, made_regs, n);
    let g = |v: VReg| given(x.code, held, n, v);
    assert forall|v: VReg|
        !(x.gone)(v) && ((x.promoted)(v) ==> g(v)) implies #[trigger] same_up_to_boxing(
        x,
        mc,
        r,
        s,
        v,
    ) by {
        assert((x.promoted)(v) ==> given_at(x, held, n)(v));
    }
}

} // verus!

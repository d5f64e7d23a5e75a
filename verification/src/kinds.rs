//! Registers keep their kind for good: the table of registers only ever grows at its end.

use vstd::prelude::*;
use crate::ir::{BlockView, Ir, IrView, VReg, VRegInfo};
use crate::promote::op_below;
use crate::translator::OutView;

verus! {

/// A register for ordinary values.
pub open spec fn reg_ok(v: VReg, o: OutView) -> bool {
    o.vregs.len() <= 0x1_0000_0000 ==> v.0 < o.vregs.len() && !o.vregs[v.0 as int].is_fp
}

/// A register for unboxed doubles.
pub open spec fn fp_ok(v: VReg, o: OutView) -> bool {
    o.vregs.len() <= 0x1_0000_0000 ==> v.0 < o.vregs.len() && o.vregs[v.0 as int].is_fp
}

/// Registers stay what they are.
#[verifier::opaque]
pub open spec fn kinds_kept(a: Seq<VRegInfo>, b: Seq<VRegInfo>) -> bool {
    a.len() <= b.len() && forall|i: int| 0 <= i < a.len() ==> #[trigger] b[i] == a[i]
}

pub(crate) broadcast proof fn kinds_same(a: Seq<VRegInfo>)
    ensures
        #[trigger] kinds_kept(a, a),
{
    reveal(kinds_kept);
}

pub(crate) broadcast proof fn kinds_push(a: Seq<VRegInfo>, b: Seq<VRegInfo>, x: VRegInfo)
    requires
        kinds_kept(a, b),
    ensures
        #[trigger] kinds_kept(a, b.push(x)),
{
    reveal(kinds_kept);
}

pub(crate) broadcast proof fn kinds_trans(a: Seq<VRegInfo>, b: Seq<VRegInfo>, c: Seq<VRegInfo>)
    requires
        #[trigger] kinds_kept(a, b),
        #[trigger] kinds_kept(b, c),
    ensures
        kinds_kept(a, c),
{
    reveal(kinds_kept);
}

pub(crate) broadcast proof fn reg_kept(v: VReg, a: OutView, b: OutView)
    requires
        reg_ok(v, a),
        #[trigger] kinds_kept(a.vregs, b.vregs),
    ensures
        #[trigger] reg_ok(v, b),
{
    reveal(kinds_kept);
}

pub(crate) broadcast proof fn fp_kept(v: VReg, a: OutView, b: OutView)
    requires
        fp_ok(v, a),
        #[trigger] kinds_kept(a.vregs, b.vregs),
    ensures
        #[trigger] fp_ok(v, b),
{
    reveal(kinds_kept);
}

/// Register `v` exists and holds ordinary values.
pub open spec fn general(v: VReg, vregs: Seq<VRegInfo>) -> bool {
    v.0 < vregs.len() && !vregs[v.0 as int].is_fp
}

/// Register `v` exists and holds unboxed doubles.
pub open spec fn unboxed(v: VReg, vregs: Seq<VRegInfo>) -> bool {
    v.0 < vregs.len() && vregs[v.0 as int].is_fp
}

/// Operands and result are of the kind that the operation works on: unboxed doubles in the
/// operations on them, either in a copy, ordinary values everywhere else.
pub open spec fn op_fits(op: IrView, vregs: Seq<VRegInfo>) -> bool {
    match op {
        Ir::FUnbox { dst, src, .. } => unboxed(dst, vregs) && general(src, vregs),
        Ir::FBox { dst, src } => general(dst, vregs) && unboxed(src, vregs),
        Ir::FArith { dst, a, b, .. } => unboxed(dst, vregs) && unboxed(a, vregs) && unboxed(
            b,
            vregs,
        ),
        Ir::FCmpBr { a, b, .. } => unboxed(a, vregs) && unboxed(b, vregs),
        Ir::FCmpVal { dst, a, b, .. } => general(dst, vregs) && unboxed(a, vregs) && unboxed(
            b,
            vregs,
        ),
        Ir::FConst { dst, .. } => unboxed(dst, vregs),
        Ir::Move { dst, src } => general(dst, vregs) && general(src, vregs) || unboxed(dst, vregs)
            && unboxed(src, vregs),
        _ => {
            &&& forall|i: int| 0 <= i < op.reads().len() ==> general(#[trigger] op.reads()[i], vregs)
            &&& op.write() matches Some(d) ==> general(d, vregs)
        },
    }
}

pub open spec fn code_fits(code: Seq<IrView>, vregs: Seq<VRegInfo>) -> bool {
    forall|i: int| 0 <= i < code.len() ==> op_fits(#[trigger] code[i], vregs)
}

/// Ordinary values and unboxed doubles never share a register.
pub open spec fn blocks_fit(bs: Seq<BlockView>, vregs: Seq<VRegInfo>) -> bool {
    forall|b: int| 0 <= b < bs.len() ==> code_fits((#[trigger] bs[b]).code, vregs)
}

pub(crate) proof fn lemma_fits_below(op: IrView, vregs: Seq<VRegInfo>)
    requires
        op_fits(op, vregs),
    ensures
        op_below(op, vregs.len()),
{
    let r = op.reads();
    assert forall|i: int| 0 <= i < r.len() implies (#[trigger] r[i]).0 < vregs.len() by {
        assert(general(r[i], vregs) || unboxed(r[i], vregs));
    }
}

pub broadcast group group_kinds {
    kinds_same,
    kinds_push,
    kinds_trans,
    reg_kept,
    fp_kept,
}

} // verus!

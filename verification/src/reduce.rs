//! All passes over Double boxes, in order.

use vstd::prelude::*;
use crate::boxes::{
    cancel_boxes, cancelled, fold_literals, folded, remove_dead_boxes, sink_boxes, sunk,
    without_dead_boxes,
};
use crate::ir::{IrMethod, MethodView};
use crate::promote::{promote_float_temps, with_float_temps};
use crate::splice_promote::{promote_float_temps_spliced, with_float_trees};
use crate::world::VmState;

verus! {

pub open spec fn with_blocks(m: MethodView, bs: Option<Seq<crate::ir::BlockView>>) -> Option<
    MethodView,
> {
    match bs {
        Some(blocks) => Some(MethodView { blocks, ..m }),
        None => None,
    }
}

/// Boxes cancelled, literals unboxed.
pub open spec fn local_reduced(vm: VmState, m: MethodView) -> Option<MethodView> {
    match with_blocks(m, cancelled(m.blocks)) {
        None => None,
        Some(m1) => with_blocks(m1, folded(vm, m1.pool, m1.blocks)),
    }
}

/// Float values promoted: through spliced bodies where that is selected, else temporaries only, and
/// those not in an on-stack-replacement compilation, whose entry copies boxed values.
pub open spec fn promoted(vm: VmState, m: MethodView, osr_bci: Option<u16>) -> Option<MethodView> {
    if vm.splice_promote {
        with_float_trees(vm, m, osr_bci)
    } else if osr_bci is None {
        with_float_temps(vm, m)
    } else {
        Some(m)
    }
}

/// Boxes that only deoptimization needs moved there, boxes that nothing needs removed.
pub open spec fn swept_boxes(m: MethodView) -> Option<MethodView> {
    if m.vregs.len() > u32::MAX + 1 {
        None
    } else {
        match with_blocks(m, sunk(m.blocks, m.vregs.len())) {
            None => None,
            Some(m1) => with_blocks(m1, without_dead_boxes(m1.blocks, m1.vregs.len())),
        }
    }
}

/// The whole reduction.
pub open spec fn reduced(vm: VmState, m: MethodView, osr_bci: Option<u16>) -> Option<MethodView> {
    match local_reduced(vm, m) {
        None => None,
        Some(m1) => match promoted(vm, m1, osr_bci) {
            None => None,
            Some(m2) => swept_boxes(m2),
        },
    }
}

/// Removes the Double boxes that a method can do without.
pub fn reduce_float_boxes(vm: &VmState, m: &mut IrMethod, osr_bci: Option<u16>)
    requires
        reduced(*vm, old(m)@, osr_bci) is Some,
    ensures
        reduced(*vm, old(m)@, osr_bci) == Some(final(m)@),
{
    cancel_boxes(&mut m.blocks);
    fold_literals(vm, &m.pool, &mut m.blocks);
    if vm.splice_promote {
        promote_float_temps_spliced(vm, m, osr_bci);
    } else if osr_bci.is_none() {
        promote_float_temps(vm, m);
    }
    let n: usize = m.vregs.len();
    sink_boxes(&mut m.blocks, n);
    remove_dead_boxes(&mut m.blocks, n);
}

} // verus!

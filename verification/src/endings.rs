//! Where the returns of a block stand.

use vstd::prelude::*;
use crate::ir::{BlockView, IrView};
use crate::passes::{compacted, selected};
use crate::translator::put_block;

verus! {

pub type Blocks = Seq<Option<BlockView>>;

/// No operation returns a value.
#[verifier::opaque]
pub open spec fn no_ret(c: Seq<IrView>) -> bool {
    forall|i: int| 0 <= i < c.len() ==> !((#[trigger] c[i]) is Ret)
}

/// No operation but the last returns a value.
#[verifier::opaque]
pub open spec fn rets_last(c: Seq<IrView>) -> bool {
    forall|i: int| 0 <= i < c.len() - 1 ==> !((#[trigger] c[i]) is Ret)
}

#[verifier::opaque]
pub open spec fn rets_ok(bl: Blocks) -> bool {
    forall|i: int| 0 <= i < bl.len() && (#[trigger] bl[i]) is Some ==> rets_last((bl[i]->0).code)
}

pub(crate) broadcast proof fn no_ret_empty()
    ensures
        #[trigger] no_ret(Seq::<IrView>::empty()),
{
    reveal(no_ret);
}

pub(crate) broadcast proof fn no_ret_push(c: Seq<IrView>, op: IrView)
    requires
        no_ret(c),
        !(op is Ret),
    ensures
        #[trigger] no_ret(c.push(op)),
{
    reveal(no_ret);
}

pub(crate) broadcast proof fn no_ret_append(c: Seq<IrView>, d: Seq<IrView>)
    requires
        no_ret(c),
        no_ret(d),
    ensures
        #[trigger] no_ret(c + d),
{
    reveal(no_ret);
}

pub(crate) broadcast proof fn no_ret_last(c: Seq<IrView>)
    requires
        no_ret(c),
    ensures
        #[trigger] rets_last(c),
{
    reveal(no_ret);
    reveal(rets_last);
}

pub(crate) broadcast proof fn rets_last_push(c: Seq<IrView>, op: IrView)
    requires
        no_ret(c),
    ensures
        #[trigger] rets_last(c.push(op)),
{
    reveal(no_ret);
    reveal(rets_last);
}

pub(crate) broadcast proof fn rets_new(bl: Blocks)
    requires
        rets_ok(bl),
    ensures
        #[trigger] rets_ok(bl.push(None)),
{
    reveal(rets_ok);
}

pub(crate) broadcast proof fn rets_put(bl: Blocks, idx: int, b: BlockView)
    requires
        rets_ok(bl),
        rets_last(b.code),
    ensures
        #[trigger] rets_ok(put_block(bl, idx, b)),
{
    reveal(rets_ok);
}

/// Returns end the blocks.
pub open spec fn all_rets_last(bs: Seq<BlockView>) -> bool {
    forall|i: int| 0 <= i < bs.len() ==> rets_last((#[trigger] bs[i]).code)
}

proof fn lemma_selected_rets(code: Seq<IrView>, keep: Seq<bool>, n: int)
    requires
        0 <= n <= code.len(),
        forall|i: int| 0 <= i < n ==> !((#[trigger] code[i]) is Ret),
    ensures
        no_ret(selected(code, keep, n)),
    decreases n,
{
    reveal(no_ret);
    if n > 0 {
        lemma_selected_rets(code, keep, n - 1);
    }
}

/// Dropping operations leaves returns where they are.
pub(crate) proof fn lemma_compact_rets(b: BlockView, keep: Seq<bool>)
    requires
        rets_last(b.code),
        compacted(b, keep) is Some,
    ensures
        rets_last((compacted(b, keep)->0).code),
{
    reveal(no_ret);
    reveal(rets_last);
    let n = b.code.len() as int;
    if n > 0 {
        lemma_selected_rets(b.code, keep, n - 1);
    }
}

/// Operations that are returns where the others are.
pub(crate) proof fn lemma_same_rets(a: Seq<IrView>, b: Seq<IrView>)
    requires
        rets_last(a),
        a.len() == b.len(),
        forall|i: int| 0 <= i < a.len() ==> (#[trigger] b[i]) is Ret == a[i] is Ret,
    ensures
        rets_last(b),
{
    reveal(rets_last);
}

pub broadcast group group_returns {
    no_ret_empty,
    no_ret_push,
    no_ret_append,
    no_ret_last,
    rets_last_push,
    rets_new,
    rets_put,
}

} // verus!

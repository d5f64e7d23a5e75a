//! Per-block copy propagation: a read of a register that was just copied to reads the source
//! instead, and a copy that nobody reads any more goes away.

use vstd::prelude::*;
use crate::ir::{
    blocks_view, copy_pairs, site_view, BlockId, BlockView, DeoptRaw, DeoptView, InlineSite,
    InlineView, Ir, IrBlock, IrMethod, IrView, MethodView, VReg,
};
use crate::order::op_targets;
use crate::passes::{
    all_refs, below, block_below, blocks_below, compact, compacted, count_regs, countable,
    counts_of, lemma_countable_prefix, occurrences, raw_refs, sites_refs, write_below,
};

verus! {

/// For each register, the register it is a copy of at some point of a block.
pub type Alias = Seq<Option<VReg>>;

pub open spec fn aliased(alias: Alias, v: VReg) -> bool {
    v.0 < alias.len() && alias[v.0 as int] is Some
}

pub open spec fn resolve(alias: Alias, v: VReg) -> VReg {
    if aliased(alias, v) {
        alias[v.0 as int]->0
    } else {
        v
    }
}

pub open spec fn resolve_all(alias: Alias, s: Seq<VReg>) -> Seq<VReg> {
    s.map_values(|v: VReg| resolve(alias, v))
}

/// The operation with every operand resolved.
pub open spec fn resolve_op(alias: Alias, op: IrView) -> IrView {
    map_op(|v: VReg| resolve(alias, v), op)
}

/// The operation with every operand mapped. The implicit operand of `RetSelf` stays.
pub open spec fn map_op(f: spec_fn(VReg) -> VReg, op: IrView) -> IrView {
    match op {
        Ir::Move { dst, src } => Ir::Move { dst, src: f(src) },
        Ir::LoadKlass { dst, obj } => Ir::LoadKlass { dst, obj: f(obj) },
        Ir::LoadField { dst, obj, byte_off } => Ir::LoadField { dst, obj: f(obj), byte_off },
        Ir::StoreField { obj, byte_off, val, barrier } => Ir::StoreField {
            obj: f(obj),
            byte_off,
            val: f(val),
            barrier,
        },
        Ir::SmiArith { op, dst, a, b, fail } => Ir::SmiArith { op, dst, a: f(a), b: f(b), fail },
        Ir::SmiCmpBr { op, a, b, if_true, if_false, fail } => Ir::SmiCmpBr {
            op,
            a: f(a),
            b: f(b),
            if_true,
            if_false,
            fail,
        },
        Ir::SmiCmpVal { op, dst, a, b, fail } => Ir::SmiCmpVal { op, dst, a: f(a), b: f(b), fail },
        Ir::RefCmpVal { dst, a, b, neq } => Ir::RefCmpVal { dst, a: f(a), b: f(b), neq },
        Ir::BoolNot { dst, src, fail } => Ir::BoolNot { dst, src: f(src), fail },
        Ir::FArith { op, dst, a, b } => Ir::FArith { op, dst, a: f(a), b: f(b) },
        Ir::FCmpBr { op, a, b, if_true, if_false } => Ir::FCmpBr {
            op,
            a: f(a),
            b: f(b),
            if_true,
            if_false,
        },
        Ir::FCmpVal { op, dst, a, b } => Ir::FCmpVal { op, dst, a: f(a), b: f(b) },
        Ir::FUnbox { dst, src, fail } => Ir::FUnbox { dst, src: f(src), fail },
        Ir::FBox { dst, src } => Ir::FBox { dst, src: f(src) },
        Ir::VecArith { kind, op, dst, a, b, fail } => Ir::VecArith {
            kind,
            op,
            dst,
            a: f(a),
            b: f(b),
            fail,
        },
        Ir::ArrayAt { dst, arr, idx, klass, fail } => Ir::ArrayAt {
            dst,
            arr: f(arr),
            idx: f(idx),
            klass,
            fail,
        },
        Ir::ArrayAtPut { dst, arr, idx, val, klass, fail } => Ir::ArrayAtPut {
            dst,
            arr: f(arr),
            idx: f(idx),
            val: f(val),
            klass,
            fail,
        },
        Ir::BoolBr { val, if_true, if_false, not_bool } => Ir::BoolBr {
            val: f(val),
            if_true,
            if_false,
            not_bool,
        },
        Ir::GuardKlass { obj, expect, fail, kind } => Ir::GuardKlass {
            obj: f(obj),
            expect,
            fail,
            kind,
        },
        Ir::CallSend { dst, site, args } => Ir::CallSend {
            dst,
            site,
            args: args.map_values(f),
        },
        Ir::CallRuntime { dst, stub, args } => Ir::CallRuntime {
            dst,
            stub,
            args: args.map_values(f),
        },
        Ir::Ret { val } => Ir::Ret { val: f(val) },
        Ir::NlrReturn { closure, value } => Ir::NlrReturn { closure: f(closure), value: f(value) },
        _ => op,
    }
}

/// The operands that can be resolved.
pub open spec fn operands(op: IrView) -> Seq<VReg> {
    match op {
        Ir::RetSelf => seq![],
        _ => op.reads(),
    }
}

/// The operation with other operands and everything else as it is.
pub open spec fn with_operands(op: IrView, r: Seq<VReg>) -> IrView {
    match op {
        Ir::Move { dst, .. } => Ir::Move { dst, src: r[0] },
        Ir::LoadKlass { dst, .. } => Ir::LoadKlass { dst, obj: r[0] },
        Ir::LoadField { dst, byte_off, .. } => Ir::LoadField { dst, obj: r[0], byte_off },
        Ir::StoreField { byte_off, barrier, .. } => Ir::StoreField {
            obj: r[0],
            byte_off,
            val: r[1],
            barrier,
        },
        Ir::SmiArith { op, dst, fail, .. } => Ir::SmiArith { op, dst, a: r[0], b: r[1], fail },
        Ir::SmiCmpBr { op, if_true, if_false, fail, .. } => Ir::SmiCmpBr {
            op,
            a: r[0],
            b: r[1],
            if_true,
            if_false,
            fail,
        },
        Ir::SmiCmpVal { op, dst, fail, .. } => Ir::SmiCmpVal { op, dst, a: r[0], b: r[1], fail },
        Ir::RefCmpVal { dst, neq, .. } => Ir::RefCmpVal { dst, a: r[0], b: r[1], neq },
        Ir::BoolNot { dst, fail, .. } => Ir::BoolNot { dst, src: r[0], fail },
        Ir::FArith { op, dst, .. } => Ir::FArith { op, dst, a: r[0], b: r[1] },
        Ir::FCmpBr { op, if_true, if_false, .. } => Ir::FCmpBr {
            op,
            a: r[0],
            b: r[1],
            if_true,
            if_false,
        },
        Ir::FCmpVal { op, dst, .. } => Ir::FCmpVal { op, dst, a: r[0], b: r[1] },
        Ir::FUnbox { dst, fail, .. } => Ir::FUnbox { dst, src: r[0], fail },
        Ir::FBox { dst, .. } => Ir::FBox { dst, src: r[0] },
        Ir::VecArith { kind, op, dst, fail, .. } => Ir::VecArith {
            kind,
            op,
            dst,
            a: r[0],
            b: r[1],
            fail,
        },
        Ir::ArrayAt { dst, klass, fail, .. } => Ir::ArrayAt {
            dst,
            arr: r[0],
            idx: r[1],
            klass,
            fail,
        },
        Ir::ArrayAtPut { dst, klass, fail, .. } => Ir::ArrayAtPut {
            dst,
            arr: r[0],
            idx: r[1],
            val: r[2],
            klass,
            fail,
        },
        Ir::BoolBr { if_true, if_false, not_bool, .. } => Ir::BoolBr {
            val: r[0],
            if_true,
            if_false,
            not_bool,
        },
        Ir::GuardKlass { expect, fail, kind, .. } => Ir::GuardKlass { obj: r[0], expect, fail, kind },
        Ir::CallSend { dst, site, .. } => Ir::CallSend { dst, site, args: r },
        Ir::CallRuntime { dst, stub, .. } => Ir::CallRuntime { dst, stub, args: r },
        Ir::Ret { .. } => Ir::Ret { val: r[0] },
        Ir::NlrReturn { .. } => Ir::NlrReturn { closure: r[0], value: r[1] },
        _ => op,
    }
}

/// Resolving changes the operands, each to what it resolves to, and nothing else of what is read
/// and written.
pub(crate) proof fn lemma_resolve_op(alias: Alias, op: IrView)
    ensures
        operands(resolve_op(alias, op)) == resolve_all(alias, operands(op)),
        resolve_op(alias, op).write() == op.write(),
{
    assert(operands(resolve_op(alias, op)) =~= resolve_all(alias, operands(op)));
}

/// Mapping the operands of an operation maps the registers it reads one by one, in order, and keeps
/// everything else: the operation, the register it writes, the blocks it leads to and all other
/// fields. The implicit operand of `RetSelf` stays, whatever the function.
pub proof fn law_mapping_keeps_the_rest(f: spec_fn(VReg) -> VReg, op: IrView)
    ensures
        op is RetSelf ==> map_op(f, op) == op,
        !(op is RetSelf) ==> map_op(f, op).reads() == op.reads().map_values(f),
        map_op(f, op) == with_operands(op, operands(op).map_values(f)),
        map_op(f, op).write() == op.write(),
        op_targets(map_op(f, op)) == op_targets(op),
{
    assert(operands(map_op(f, op)) =~= operands(op).map_values(f));
}

/// Resolving an operation maps the registers it reads one by one, in order, and keeps everything else:
/// the operation, the register it writes, the blocks it leads to and all other fields. The implicit
/// operand of `RetSelf` stays.
pub proof fn law_resolving_maps_operands(alias: Alias, op: IrView)
    ensures
        op is RetSelf ==> resolve_op(alias, op) == op,
        !(op is RetSelf) ==> resolve_op(alias, op).reads() == resolve_all(alias, op.reads()),
        resolve_op(alias, op) == with_operands(op, resolve_all(alias, operands(op))),
        resolve_op(alias, op).write() == op.write(),
        op_targets(resolve_op(alias, op)) == op_targets(op),
{
    lemma_resolve_op(alias, op);
}

pub open spec fn resolve_inline(alias: Alias, i: InlineView) -> InlineView
    decreases i,
{
    InlineView {
        receiver: resolve(alias, i.receiver),
        slots: resolve_all(alias, i.slots),
        caller_pending_stack: resolve_all(alias, i.caller_pending_stack),
        parent: match i.parent {
            Some(p) => Some(Box::new(resolve_inline(alias, *p))),
            None => None,
        },
        ..i
    }
}

pub open spec fn resolve_raw(alias: Alias, r: DeoptView) -> DeoptView {
    DeoptView {
        stack: resolve_all(alias, r.stack),
        inline: match r.inline {
            Some(i) => Some(resolve_inline(alias, i)),
            None => None,
        },
        ..r
    }
}

/// The references that resolving changes.
pub open spec fn hits(alias: Alias, s: Seq<VReg>) -> Seq<VReg>
    decreases s.len(),
{
    if s.len() == 0 {
        seq![]
    } else if aliased(alias, s.last()) {
        hits(alias, s.drop_last()).push(s.last())
    } else {
        hits(alias, s.drop_last())
    }
}

/// The block that the operation leaves to when it fails, where that block's sites are renamed along
/// with the operation. Unboxing and vector operations are not among these: both unboxings of one send
/// share a block.
pub open spec fn fail_edge(op: IrView) -> Option<BlockId> {
    match op {
        Ir::ArrayAt { fail, .. } => Some(fail),
        Ir::ArrayAtPut { fail, .. } => Some(fail),
        Ir::SmiArith { fail, .. } => Some(fail),
        Ir::SmiCmpVal { fail, .. } => Some(fail),
        Ir::SmiCmpBr { fail, .. } => Some(fail),
        Ir::BoolNot { fail, .. } => Some(fail),
        Ir::GuardKlass { fail, .. } => Some(fail),
        Ir::BoolBr { not_bool, .. } => Some(not_bool),
        _ => None,
    }
}

/// Writing `d` ends every copy relation that `d` is part of.
pub open spec fn killed(alias: Alias, d: VReg) -> Alias {
    Seq::new(
        alias.len(),
        |k: int|
            if k == d.0 || alias[k] == Some(d) {
                None
            } else {
                alias[k]
            },
    )
}

/// The copy relations after an operation; `single` tells the registers that are written once.
pub open spec fn alias_after(alias: Alias, single: Seq<bool>, op: IrView) -> Alias {
    let a = match op.write() {
        Some(d) => killed(alias, d),
        None => alias,
    };
    match op {
        Ir::Move { dst, src } => if single[dst.0 as int] && resolve(a, src) != dst {
            a.update(dst.0 as int, Some(resolve(a, src)))
        } else {
            a
        },
        _ => a,
    }
}

pub open spec fn no_alias(alias: Alias) -> bool {
    forall|k: int| 0 <= k < alias.len() ==> #[trigger] alias[k] is None
}

/// A block during the walk over its operations.
pub ghost struct Walk {
    pub alias: Alias,
    /// The deoptimization sites before `p` are done.
    pub p: int,
    pub block: BlockView,
    /// Every reference that was changed so far.
    pub hits: Seq<VReg>,
    /// The copy relations at each operation with a fail edge.
    pub fails: Seq<(BlockId, Alias)>,
}

/// Resolves the sites of operation `i`.
pub open spec fn walk_sites(i: int, w: Walk) -> Walk
    decreases w.block.deopt_sites.len() - w.p,
{
    if 0 <= w.p < w.block.deopt_sites.len() && w.block.deopt_sites[w.p].0 == i {
        walk_sites(i, walk_site(w))
    } else {
        w
    }
}

pub open spec fn walk_site(w: Walk) -> Walk {
    let (ci, raw) = w.block.deopt_sites[w.p];
    Walk {
        p: w.p + 1,
        block: BlockView {
            deopt_sites: w.block.deopt_sites.update(w.p, (ci, resolve_raw(w.alias, raw))),
            ..w.block
        },
        hits: w.hits + hits(w.alias, raw_refs(raw)),
        ..w
    }
}

/// Resolves operation `i`, its sites first.
pub open spec fn walk_op(single: Seq<bool>, i: int, w: Walk) -> Walk {
    let w1 = walk_sites(i, w);
    let op = w1.block.code[i];
    let op1 = resolve_op(w1.alias, op);
    Walk {
        alias: alias_after(w1.alias, single, op1),
        p: w1.p,
        block: BlockView { code: w1.block.code.update(i, op1), ..w1.block },
        hits: w1.hits + hits(w1.alias, operands(op)),
        fails: if fail_edge(op) is Some && !no_alias(w1.alias) {
            w1.fails.push((fail_edge(op)->0, w1.alias))
        } else {
            w1.fails
        },
    }
}

/// The walk over the first `n` operations.
pub open spec fn walk(single: Seq<bool>, n: int, w: Walk) -> Walk
    decreases n,
{
    if n <= 0 {
        w
    } else {
        walk_op(single, n - 1, walk(single, n - 1, w))
    }
}

/// The method's blocks, the references changed so far, and the copy relations at fail edges.
pub ghost struct Prop {
    pub blocks: Seq<BlockView>,
    pub hits: Seq<VReg>,
    pub fails: Seq<(BlockId, Alias)>,
}

pub open spec fn start_walk(n: nat, b: BlockView, x: Prop) -> Walk {
    Walk { alias: Seq::new(n, |i: int| None), p: 0, block: b, hits: x.hits, fails: x.fails }
}

/// The first `k` blocks walked; `n` is the number of registers.
pub open spec fn walk_blocks(single: Seq<bool>, n: nat, k: int, x: Prop) -> Prop
    decreases k,
{
    if k <= 0 {
        x
    } else {
        let y = walk_blocks(single, n, k - 1, x);
        let b = y.blocks[k - 1];
        let w = walk(single, b.code.len() as int, start_walk(n, b, y));
        Prop { blocks: y.blocks.update(k - 1, w.block), hits: w.hits, fails: w.fails }
    }
}

/// The index of the first block named `id` from `from` on, or the number of blocks.
pub open spec fn find_block(bs: Seq<BlockView>, id: BlockId, from: int) -> int
    decreases bs.len() - from,
{
    if from < 0 || from >= bs.len() {
        bs.len() as int
    } else if bs[from].id == id {
        from
    } else {
        find_block(bs, id, from + 1)
    }
}

/// A trap block's sites describe the state at the operation that leaves to it, so the copy
/// relations of that operation apply to them: the first `k` of `fails`.
pub open spec fn resolve_fails(fails: Seq<(BlockId, Alias)>, k: int, x: Prop) -> Prop
    decreases k,
{
    if k <= 0 {
        x
    } else {
        let y = resolve_fails(fails, k - 1, x);
        let (id, alias) = fails[k - 1];
        let j = find_block(y.blocks, id, 0);
        if j < y.blocks.len() {
            let b = y.blocks[j];
            Prop {
                blocks: y.blocks.update(
                    j,
                    BlockView {
                        deopt_sites: b.deopt_sites.map_values(
                            |s: (u32, DeoptView)| (s.0, resolve_raw(alias, s.1)),
                        ),
                        ..b
                    },
                ),
                hits: y.hits + hits(alias, sites_refs(b.deopt_sites)),
                ..y
            }
        } else {
            y
        }
    }
}

pub open spec fn code_writes(c: Seq<IrView>) -> Seq<VReg>
    decreases c.len(),
{
    if c.len() == 0 {
        seq![]
    } else {
        match c.last().write() {
            Some(d) => code_writes(c.drop_last()).push(d),
            None => code_writes(c.drop_last()),
        }
    }
}

/// Every register written, once per write.
pub open spec fn all_writes(bs: Seq<BlockView>) -> Seq<VReg>
    decreases bs.len(),
{
    if bs.len() == 0 {
        seq![]
    } else {
        all_writes(bs.drop_last()) + code_writes(bs.last().code)
    }
}

/// The registers that are written exactly once.
pub open spec fn single_writes(bs: Seq<BlockView>, n: nat) -> Seq<bool> {
    Seq::new(n, |v: int| occurrences(all_writes(bs), VReg(v as u32)) == 1)
}

/// A copy into a register that is written once, is referred to, and of whose references all were
/// changed.
pub open spec fn removable(
    single: Seq<bool>,
    refs: Seq<VReg>,
    changed: Seq<VReg>,
    op: IrView,
) -> bool {
    match op {
        Ir::Move { dst, .. } => single[dst.0 as int] && occurrences(refs, dst) > 0 && occurrences(
            changed,
            dst,
        ) == occurrences(refs, dst),
        _ => false,
    }
}

pub open spec fn keep_flags(
    single: Seq<bool>,
    refs: Seq<VReg>,
    changed: Seq<VReg>,
    b: BlockView,
) -> Seq<bool> {
    Seq::new(b.code.len(), |i: int| !removable(single, refs, changed, b.code[i]))
}

/// The blocks after resolution, before copies are removed.
pub open spec fn resolved(bs: Seq<BlockView>, n: nat) -> Prop {
    let x = walk_blocks(
        single_writes(bs, n),
        n,
        bs.len() as int,
        Prop { blocks: bs, hits: seq![], fails: seq![] },
    );
    resolve_fails(x.fails, x.fails.len() as int, x)
}

/// The first `k` blocks without removable copies.
pub open spec fn without_copies(
    single: Seq<bool>,
    refs: Seq<VReg>,
    changed: Seq<VReg>,
    bs: Seq<BlockView>,
    k: int,
) -> Option<Seq<BlockView>>
    decreases k,
{
    if k <= 0 {
        Some(bs)
    } else {
        match without_copies(single, refs, changed, bs, k - 1) {
            None => None,
            Some(done) => match compacted(
                done[k - 1],
                keep_flags(single, refs, changed, done[k - 1]),
            ) {
                None => None,
                Some(b) => Some(done.update(k - 1, b)),
            },
        }
    }
}

/// Copy propagation over blocks that mention `n` registers. `None` when a register is out of
/// range, a counter would overflow or a site lies outside its block.
pub open spec fn propagated(bs: Seq<BlockView>, n: nat) -> Option<Seq<BlockView>> {
    let x = resolved(bs, n);
    if n > u32::MAX + 1 || !blocks_below(bs, n) || !countable(all_refs(bs), n) || !countable(
        all_writes(bs),
        n,
    ) || !countable(x.hits, n) {
        None
    } else {
        without_copies(
            single_writes(bs, n),
            all_refs(bs),
            x.hits,
            x.blocks,
            x.blocks.len() as int,
        )
    }
}

proof fn lemma_prefix_countable(a: Seq<VReg>, big: Seq<VReg>, n: nat)
    requires
        a.is_prefix_of(big),
        countable(big, n),
    ensures
        countable(a, n),
{
    assert(big =~= a + big.skip(a.len() as int));
    lemma_countable_prefix(a, big.skip(a.len() as int), n);
}

proof fn lemma_walk_sites_hits(i: int, w: Walk)
    ensures
        w.hits.is_prefix_of(walk_sites(i, w).hits),
        walk_sites(i, w).alias == w.alias,
        walk_sites(i, w).fails == w.fails,
        walk_sites(i, w).block.code == w.block.code,
    decreases w.block.deopt_sites.len() - w.p,
{
    if 0 <= w.p < w.block.deopt_sites.len() && w.block.deopt_sites[w.p].0 == i {
        lemma_walk_sites_hits(i, walk_site(w));
        let h = walk_sites(i, w).hits;
        assert(w.hits.is_prefix_of(walk_site(w).hits));
        assert(w.hits =~= h.take(w.hits.len() as int)) by {
            assert(walk_site(w).hits.take(w.hits.len() as int) =~= w.hits);
        }
    }
}

proof fn lemma_prefix_trans(a: Seq<VReg>, b: Seq<VReg>, c: Seq<VReg>)
    requires
        a.is_prefix_of(b),
        b.is_prefix_of(c),
    ensures
        a.is_prefix_of(c),
{
    assert(a =~= c.subrange(0, a.len() as int));
}

proof fn lemma_walk_hits(single: Seq<bool>, m: int, n: int, w: Walk)
    requires
        0 <= m <= n,
    ensures
        walk(single, m, w).hits.is_prefix_of(walk(single, n, w).hits),
    decreases n - m,
{
    if m < n {
        lemma_walk_hits(single, m, n - 1, w);
        let a = walk(single, n - 1, w);
        lemma_walk_sites_hits(n - 1, a);
        let b = walk(single, n, w);
        assert(walk_sites(n - 1, a).hits.is_prefix_of(b.hits));
        lemma_prefix_trans(a.hits, walk_sites(n - 1, a).hits, b.hits);
        lemma_prefix_trans(walk(single, m, w).hits, a.hits, b.hits);
    }
}

proof fn lemma_walk_blocks_hits(single: Seq<bool>, n: nat, j: int, k: int, x: Prop)
    requires
        0 <= j <= k,
    ensures
        walk_blocks(single, n, j, x).hits.is_prefix_of(walk_blocks(single, n, k, x).hits),
    decreases k - j,
{
    if j < k {
        lemma_walk_blocks_hits(single, n, j, k - 1, x);
        let y = walk_blocks(single, n, k - 1, x);
        let b = y.blocks[k - 1];
        lemma_walk_hits(single, 0, b.code.len() as int, start_walk(n, b, y));
        lemma_prefix_trans(
            walk_blocks(single, n, j, x).hits,
            y.hits,
            walk_blocks(single, n, k, x).hits,
        );
    }
}

proof fn lemma_resolve_fails_hits(fails: Seq<(BlockId, Alias)>, j: int, k: int, x: Prop)
    requires
        0 <= j <= k,
    ensures
        resolve_fails(fails, j, x).hits.is_prefix_of(resolve_fails(fails, k, x).hits),
    decreases k - j,
{
    if j < k {
        lemma_resolve_fails_hits(fails, j, k - 1, x);
        let y = resolve_fails(fails, k - 1, x);
        assert(y.hits.is_prefix_of(resolve_fails(fails, k, x).hits));
        lemma_prefix_trans(
            resolve_fails(fails, j, x).hits,
            y.hits,
            resolve_fails(fails, k, x).hits,
        );
    }
}

fn resolve_reg(alias: &Vec<Option<VReg>>, v: VReg) -> (r: VReg)
    ensures
        r == resolve(alias@, v),
{
    let k: usize = v.0 as usize;
    if k < alias.len() {
        if let Some(r) = alias[k] {
            return r;
        }
    }
    v
}

fn resolve_regs(alias: &Vec<Option<VReg>>, s: &Vec<VReg>) -> (r: Vec<VReg>)
    ensures
        r@ == resolve_all(alias@, s@),
{
    let mut r: Vec<VReg> = Vec::new();
    for k in 0..s.len()
        invariant
            r@.len() == k,
            forall|j: int| 0 <= j < k ==> #[trigger] r@[j] == resolve(alias@, s@[j]),
    {
        r.push(resolve_reg(alias, s[k]));
    }
    assert(r@ =~= resolve_all(alias@, s@));
    r
}

/// Resolves every operand of an operation.
fn map_uses(op: &mut Ir, alias: &Vec<Option<VReg>>)
    ensures
        final(op)@ == resolve_op(alias@, old(op)@),
{
    match op {
        Ir::Move { src, .. } => {
            *src = resolve_reg(alias, *src);
        },
        Ir::LoadKlass { obj, .. } => {
            *obj = resolve_reg(alias, *obj);
        },
        Ir::LoadField { obj, .. } => {
            *obj = resolve_reg(alias, *obj);
        },
        Ir::StoreField { obj, val, .. } => {
            *obj = resolve_reg(alias, *obj);
            *val = resolve_reg(alias, *val);
        },
        Ir::SmiArith { a, b, .. } => {
            *a = resolve_reg(alias, *a);
            *b = resolve_reg(alias, *b);
        },
        Ir::SmiCmpBr { a, b, .. } => {
            *a = resolve_reg(alias, *a);
            *b = resolve_reg(alias, *b);
        },
        Ir::SmiCmpVal { a, b, .. } => {
            *a = resolve_reg(alias, *a);
            *b = resolve_reg(alias, *b);
        },
        Ir::RefCmpVal { a, b, .. } => {
            *a = resolve_reg(alias, *a);
            *b = resolve_reg(alias, *b);
        },
        Ir::BoolNot { src, .. } => {
            *src = resolve_reg(alias, *src);
        },
        Ir::FArith { a, b, .. } => {
            *a = resolve_reg(alias, *a);
            *b = resolve_reg(alias, *b);
        },
        Ir::FCmpBr { a, b, .. } => {
            *a = resolve_reg(alias, *a);
            *b = resolve_reg(alias, *b);
        },
        Ir::FCmpVal { a, b, .. } => {
            *a = resolve_reg(alias, *a);
            *b = resolve_reg(alias, *b);
        },
        Ir::FUnbox { src, .. } => {
            *src = resolve_reg(alias, *src);
        },
        Ir::FBox { src, .. } => {
            *src = resolve_reg(alias, *src);
        },
        Ir::VecArith { a, b, .. } => {
            *a = resolve_reg(alias, *a);
            *b = resolve_reg(alias, *b);
        },
        Ir::ArrayAt { arr, idx, .. } => {
            *arr = resolve_reg(alias, *arr);
            *idx = resolve_reg(alias, *idx);
        },
        Ir::ArrayAtPut { arr, idx, val, .. } => {
            *arr = resolve_reg(alias, *arr);
            *idx = resolve_reg(alias, *idx);
            *val = resolve_reg(alias, *val);
        },
        Ir::BoolBr { val, .. } => {
            *val = resolve_reg(alias, *val);
        },
        Ir::GuardKlass { obj, .. } => {
            *obj = resolve_reg(alias, *obj);
        },
        Ir::CallSend { args, .. } => {
            *args = resolve_regs(alias, args);
        },
        Ir::CallRuntime { args, .. } => {
            *args = resolve_regs(alias, args);
        },
        Ir::Ret { val } => {
            *val = resolve_reg(alias, *val);
        },
        Ir::NlrReturn { closure, value } => {
            *closure = resolve_reg(alias, *closure);
            *value = resolve_reg(alias, *value);
        },
        Ir::RetSelf
        | Ir::ConstSmi { .. }
        | Ir::ConstPool { .. }
        | Ir::FConst { .. }
        | Ir::Param { .. }
        | Ir::Jump { .. }
        | Ir::Alloc { .. }
        | Ir::Poll
        | Ir::UncommonTrap { .. }
        | Ir::Bailout { .. } => {},
    }
}

fn resolved_inline(alias: &Vec<Option<VReg>>, i: &InlineSite) -> (r: InlineSite)
    ensures
        r.model() == resolve_inline(alias@, i.model()),
    decreases i,
{
    let parent = match &i.parent {
        Some(p) => Some(Box::new(resolved_inline(alias, p))),
        None => None,
    };
    InlineSite {
        method_pool_ix: i.method_pool_ix,
        receiver: resolve_reg(alias, i.receiver),
        slots: resolve_regs(alias, &i.slots),
        sender_bci: i.sender_bci,
        caller_pending_stack: resolve_regs(alias, &i.caller_pending_stack),
        is_block: i.is_block,
        parent,
        slot_closures: copy_pairs(&i.slot_closures),
    }
}

fn resolved_raw(alias: &Vec<Option<VReg>>, r: &DeoptRaw) -> (out: DeoptRaw)
    ensures
        out@ == resolve_raw(alias@, r@),
{
    let inline = match &r.inline {
        Some(i) => Some(resolved_inline(alias, i)),
        None => None,
    };
    DeoptRaw {
        stack: resolve_regs(alias, &r.stack),
        bci: r.bci,
        kind: r.kind,
        reexecute: r.reexecute,
        stack_closures: copy_pairs(&r.stack_closures),
        inline,
    }
}

/// The references that resolving changes.
fn find_hits(alias: &Vec<Option<VReg>>, s: &Vec<VReg>) -> (r: Vec<VReg>)
    ensures
        r@ == hits(alias@, s@),
        below(r@, alias@.len()),
{
    let mut r: Vec<VReg> = Vec::new();
    assert(s@.take(0) =~= seq![]);
    for k in 0..s.len()
        invariant
            r@ == hits(alias@, s@.take(k as int)),
            below(r@, alias@.len()),
    {
        assert(s@.take(k + 1).drop_last() =~= s@.take(k as int));
        assert(s@.take(k + 1).last() == s@[k as int]);
        let v = s[k];
        if (v.0 as usize) < alias.len() && alias[v.0 as usize].is_some() {
            r.push(v);
        }
    }
    assert(s@.take(s@.len() as int) =~= s@);
    r
}

fn has_alias(alias: &Vec<Option<VReg>>) -> (r: bool)
    ensures
        r == !no_alias(alias@),
{
    for k in 0..alias.len()
        invariant
            forall|j: int| 0 <= j < k ==> #[trigger] alias@[j] is None,
    {
        if alias[k].is_some() {
            assert(alias@[k as int] is Some);
            return true;
        }
    }
    false
}

fn copy_alias(alias: &Vec<Option<VReg>>) -> (r: Vec<Option<VReg>>)
    ensures
        r@ == alias@,
{
    let mut r: Vec<Option<VReg>> = Vec::new();
    for k in 0..alias.len()
        invariant
            r@ == alias@.take(k as int),
    {
        r.push(alias[k]);
        assert(r@ =~= alias@.take(k + 1));
    }
    assert(r@ =~= alias@);
    r
}

fn kill(alias: &mut Vec<Option<VReg>>, d: VReg)
    ensures
        final(alias)@ == killed(old(alias)@, d),
{
    let n: usize = alias.len();
    for k in 0..n
        invariant
            n == alias@.len(),
            n == old(alias)@.len(),
            forall|j: int| 0 <= j < k ==> #[trigger] alias@[j] == killed(old(alias)@, d)[j],
            forall|j: int| k <= j < n ==> #[trigger] alias@[j] == old(alias)@[j],
    {
        let same = match alias[k] {
            Some(v) => v == d,
            None => false,
        };
        if k == d.0 as usize || same {
            alias[k] = None;
        }
    }
    assert(alias@ =~= killed(old(alias)@, d));
}

/// Updates the copy relations for an operation.
fn update_alias(alias: &mut Vec<Option<VReg>>, single: &Vec<bool>, op: &Ir)
    requires
        single@.len() == old(alias)@.len(),
        write_below(op@, single@.len()),
    ensures
        final(alias)@ == alias_after(old(alias)@, single@, op@),
{
    if let Some(d) = op.defs() {
        kill(alias, d);
    }
    if let Ir::Move { dst, src } = op {
        if single[dst.0 as usize] {
            let r = resolve_reg(alias, *src);
            if r != *dst {
                alias[dst.0 as usize] = Some(r);
            }
        }
    }
}

fn fail_target(op: &Ir) -> (r: Option<BlockId>)
    ensures
        r == fail_edge(op@),
{
    match op {
        Ir::ArrayAt { fail, .. }
        | Ir::ArrayAtPut { fail, .. }
        | Ir::SmiArith { fail, .. }
        | Ir::SmiCmpVal { fail, .. }
        | Ir::SmiCmpBr { fail, .. }
        | Ir::BoolNot { fail, .. }
        | Ir::GuardKlass { fail, .. } => Some(*fail),
        Ir::BoolBr { not_bool, .. } => Some(*not_bool),
        _ => None,
    }
}

pub open spec fn fails_view(f: Seq<(BlockId, Vec<Option<VReg>>)>) -> Seq<(BlockId, Alias)> {
    f.map_values(|x: (BlockId, Vec<Option<VReg>>)| (x.0, x.1@))
}

/// Counts the references among `regs` that resolving changes.
fn count_hits(
    rew: &mut Vec<u32>,
    alias: &Vec<Option<VReg>>,
    regs: &Vec<VReg>,
    Ghost(seen): Ghost<Seq<VReg>>,
    Ghost(big): Ghost<Seq<VReg>>,
)
    requires
        counts_of(old(rew)@, seen),
        old(rew)@.len() == alias@.len(),
        alias@.len() <= u32::MAX + 1,
        countable(big, alias@.len()),
        (seen + hits(alias@, regs@)).is_prefix_of(big),
    ensures
        counts_of(final(rew)@, seen + hits(alias@, regs@)),
        final(rew)@.len() == old(rew)@.len(),
{
    let h = find_hits(alias, regs);
    proof {
        lemma_prefix_countable(seen + h@, big, alias@.len());
    }
    count_regs(rew, &h, Ghost(seen));
}

/// Walks one block.
fn propagate_block(
    b: &mut IrBlock,
    single: &Vec<bool>,
    rew: &mut Vec<u32>,
    fails: &mut Vec<(BlockId, Vec<Option<VReg>>)>,
    Ghost(x): Ghost<Prop>,
    Ghost(big): Ghost<Seq<VReg>>,
)
    requires
        single@.len() <= u32::MAX + 1,
        old(rew)@.len() == single@.len(),
        counts_of(old(rew)@, x.hits),
        fails_view(old(fails)@) == x.fails,
        countable(big, single@.len()),
        walk(
            single@,
            old(b)@.code.len() as int,
            start_walk(single@.len(), old(b)@, x),
        ).hits.is_prefix_of(big),
        forall|i: int|
            0 <= i < old(b)@.code.len() ==> write_below(
                #[trigger] old(b)@.code[i],
                single@.len(),
            ),
    ensures
        ({
            let w = walk(
                single@,
                old(b)@.code.len() as int,
                start_walk(single@.len(), old(b)@, x),
            );
            &&& final(b)@ == w.block
            &&& counts_of(final(rew)@, w.hits)
            &&& fails_view(final(fails)@) == w.fails
        }),
        final(rew)@.len() == old(rew)@.len(),
        final(b)@.code.len() == old(b)@.code.len(),
        forall|i: int|
            0 <= i < final(b)@.code.len() ==> write_below(
                #[trigger] final(b)@.code[i],
                single@.len(),
            ),
{
    let nregs: usize = single.len();
    let mut alias: Vec<Option<VReg>> = Vec::new();
    for i in 0..nregs
        invariant
            alias@.len() == i,
            forall|j: int| 0 <= j < i ==> #[trigger] alias@[j] is None,
    {
        alias.push(None);
    }
    let ghost w0 = start_walk(single@.len(), b@, x);
    assert(alias@ =~= w0.alias);
    let mut p: usize = 0;
    let n: usize = b.code.len();
    let nsites: usize = b.deopt_sites.len();
    for i in 0..n
        invariant
            n == b@.code.len(),
            n == w0.block.code.len(),
            nsites == b@.deopt_sites.len(),
            p <= nsites,
            single@.len() <= u32::MAX + 1,
            rew@.len() == single@.len(),
            alias@.len() == single@.len(),
            countable(big, single@.len()),
            walk(single@, n as int, w0).hits.is_prefix_of(big),
            counts_of(rew@, walk(single@, i as int, w0).hits),
            walk(single@, i as int, w0) == (Walk {
                alias: alias@,
                p: p as int,
                block: b@,
                hits: walk(single@, i as int, w0).hits,
                fails: fails_view(fails@),
            }),
            forall|j: int|
                0 <= j < n ==> write_below(#[trigger] b@.code[j], single@.len()),
    {
        let ghost wi = walk(single@, i as int, w0);
        let ghost ws = walk_sites(i as int, wi);
        let ghost mut h = wi.hits;
        proof {
            lemma_walk_hits(single@, i + 1, n as int, w0);
            lemma_walk_sites_hits(i as int, wi);
            let next = walk(single@, i + 1, w0).hits;
            let end = walk(single@, n as int, w0).hits;
            assert(ws.hits.is_prefix_of(next));
            lemma_prefix_trans(ws.hits, next, end);
            lemma_prefix_trans(ws.hits, end, big);
        }
        while p < nsites && b.deopt_sites[p].0 as usize == i
            invariant
                n == b@.code.len(),
                nsites == b@.deopt_sites.len(),
                p <= nsites,
                single@.len() <= u32::MAX + 1,
                rew@.len() == single@.len(),
                alias@.len() == single@.len(),
                countable(big, single@.len()),
                ws.hits.is_prefix_of(big),
                counts_of(rew@, h),
                b@.code == wi.block.code,
                ws == walk_sites(
                    i as int,
                    Walk {
                        alias: alias@,
                        p: p as int,
                        block: b@,
                        hits: h,
                        fails: fails_view(fails@),
                    },
                ),
            decreases nsites - p,
        {
            let ghost w = Walk {
                alias: alias@,
                p: p as int,
                block: b@,
                hits: h,
                fails: fails_view(fails@),
            };
            assert(b@.deopt_sites[p as int] == site_view(b.deopt_sites@[p as int]));
            let refs = b.deopt_sites[p].1.refs();
            proof {
                lemma_walk_sites_hits(i as int, walk_site(w));
                lemma_prefix_trans(walk_site(w).hits, ws.hits, big);
            }
            count_hits(rew, &alias, &refs, Ghost(h), Ghost(big));
            let raw = resolved_raw(&alias, &b.deopt_sites[p].1);
            let ghost b0 = b@;
            b.deopt_sites[p].1 = raw;
            proof {
                h = walk_site(w).hits;
                assert(b@.deopt_sites =~= walk_site(w).block.deopt_sites);
            }
            p = p + 1;
        }
        assert(ws.hits == h && ws.block == b@ && ws.p == p);
        let refs = match b.code[i] {
            Ir::RetSelf => Vec::new(),
            _ => b.code[i].uses(),
        };
        let ghost op = b@.code[i as int];
        assert(b.code@[i as int]@ == op);
        assert(refs@ =~= operands(op));
        proof {
            let next = walk(single@, i + 1, w0).hits;
            let end = walk(single@, n as int, w0).hits;
            lemma_prefix_trans(next, end, big);
            lemma_resolve_op(alias@, op);
        }
        count_hits(rew, &alias, &refs, Ghost(h), Ghost(big));
        if let Some(f) = fail_target(&b.code[i]) {
            if has_alias(&alias) {
                let ghost f0 = fails@;
                fails.push((f, copy_alias(&alias)));
                assert(fails_view(fails@) =~= fails_view(f0).push((f, alias@)));
            }
        }
        map_uses(&mut b.code[i], &alias);
        assert(b@.code =~= ws.block.code.update(i as int, resolve_op(alias@, op)));
        assert(b.code@[i as int]@ == b@.code[i as int]);
        update_alias(&mut alias, single, &b.code[i]);
    }
}

/// The number of references of each register.
fn count_refs(blocks: &Vec<IrBlock>, n: usize) -> (r: Vec<u32>)
    requires
        n <= u32::MAX + 1,
        blocks_below(blocks_view(blocks@), n as nat),
        countable(all_refs(blocks_view(blocks@)), n as nat),
    ensures
        r@.len() == n,
        counts_of(r@, all_refs(blocks_view(blocks@))),
{
    let mut counts = zero_counts(n);
    let ghost bs = blocks_view(blocks@);
    assert(bs.take(0) =~= seq![]);
    for k in 0..blocks.len()
        invariant
            bs == blocks_view(blocks@),
            n <= u32::MAX + 1,
            blocks_below(bs, n as nat),
            countable(all_refs(bs), n as nat),
            counts@.len() == n,
            counts_of(counts@, all_refs(bs.take(k as int))),
    {
        let refs = blocks[k].refs();
        proof {
            assert(bs.take(k + 1).drop_last() =~= bs.take(k as int));
            assert(bs.take(k + 1).last() == blocks@[k as int]@);
            assert(block_below(bs[k as int], n as nat));
            lemma_refs_prefix(bs, k + 1);
            lemma_prefix_countable(all_refs(bs.take(k + 1)), all_refs(bs), n as nat);
        }
        count_regs(&mut counts, &refs, Ghost(all_refs(bs.take(k as int))));
    }
    assert(bs.take(bs.len() as int) =~= bs);
    counts
}

proof fn lemma_refs_prefix(bs: Seq<BlockView>, k: int)
    requires
        0 <= k <= bs.len(),
    ensures
        all_refs(bs.take(k)).is_prefix_of(all_refs(bs)),
    decreases bs.len() - k,
{
    if k == bs.len() {
        assert(bs.take(k) =~= bs);
    } else {
        lemma_refs_prefix(bs, k + 1);
        assert(bs.take(k + 1).drop_last() =~= bs.take(k));
        assert(all_refs(bs.take(k)).is_prefix_of(all_refs(bs.take(k + 1))));
        lemma_prefix_trans(all_refs(bs.take(k)), all_refs(bs.take(k + 1)), all_refs(bs));
    }
}

proof fn lemma_writes_prefix(bs: Seq<BlockView>, k: int)
    requires
        0 <= k <= bs.len(),
    ensures
        all_writes(bs.take(k)).is_prefix_of(all_writes(bs)),
    decreases bs.len() - k,
{
    if k == bs.len() {
        assert(bs.take(k) =~= bs);
    } else {
        lemma_writes_prefix(bs, k + 1);
        assert(bs.take(k + 1).drop_last() =~= bs.take(k));
        assert(all_writes(bs.take(k)).is_prefix_of(all_writes(bs.take(k + 1))));
        lemma_prefix_trans(all_writes(bs.take(k)), all_writes(bs.take(k + 1)), all_writes(bs));
    }
}

fn zero_counts(n: usize) -> (r: Vec<u32>)
    ensures
        r@.len() == n,
        counts_of(r@, seq![]),
{
    let mut r: Vec<u32> = Vec::new();
    for i in 0..n
        invariant
            r@.len() == i,
            forall|j: int| 0 <= j < i ==> #[trigger] r@[j] == 0,
    {
        r.push(0);
    }
    r
}

/// The registers that code writes.
fn collect_writes(b: &IrBlock) -> (r: Vec<VReg>)
    ensures
        r@ == code_writes(b@.code),
{
    let mut r: Vec<VReg> = Vec::new();
    assert(b@.code.take(0) =~= seq![]);
    for i in 0..b.code.len()
        invariant
            r@ == code_writes(b@.code.take(i as int)),
    {
        assert(b@.code.take(i + 1).drop_last() =~= b@.code.take(i as int));
        assert(b@.code.take(i + 1).last() == b.code@[i as int]@);
        if let Some(d) = b.code[i].defs() {
            r.push(d);
        }
    }
    assert(b@.code.take(b@.code.len() as int) =~= b@.code);
    r
}

proof fn lemma_code_writes_below(c: Seq<IrView>, n: nat)
    requires
        forall|i: int| 0 <= i < c.len() ==> write_below(#[trigger] c[i], n),
    ensures
        below(code_writes(c), n),
    decreases c.len(),
{
    if c.len() > 0 {
        assert forall|i: int| 0 <= i < c.len() - 1 implies write_below(
            #[trigger] c.drop_last()[i],
            n,
        ) by {
            assert(write_below(c[i], n));
        }
        lemma_code_writes_below(c.drop_last(), n);
        assert(write_below(c[c.len() - 1], n));
    }
}

/// Which registers are written exactly once.
fn find_single_writes(blocks: &Vec<IrBlock>, n: usize) -> (r: Vec<bool>)
    requires
        n <= u32::MAX + 1,
        blocks_below(blocks_view(blocks@), n as nat),
        countable(all_writes(blocks_view(blocks@)), n as nat),
    ensures
        r@ == single_writes(blocks_view(blocks@), n as nat),
{
    let mut counts = zero_counts(n);
    let ghost bs = blocks_view(blocks@);
    assert(bs.take(0) =~= seq![]);
    for k in 0..blocks.len()
        invariant
            bs == blocks_view(blocks@),
            n <= u32::MAX + 1,
            blocks_below(bs, n as nat),
            countable(all_writes(bs), n as nat),
            counts@.len() == n,
            counts_of(counts@, all_writes(bs.take(k as int))),
    {
        let w = collect_writes(&blocks[k]);
        proof {
            assert(bs.take(k + 1).drop_last() =~= bs.take(k as int));
            assert(bs.take(k + 1).last() == blocks@[k as int]@);
            assert(block_below(bs[k as int], n as nat));
            lemma_code_writes_below(bs[k as int].code, n as nat);
            lemma_writes_prefix(bs, k + 1);
            lemma_prefix_countable(all_writes(bs.take(k + 1)), all_writes(bs), n as nat);
        }
        count_regs(&mut counts, &w, Ghost(all_writes(bs.take(k as int))));
    }
    assert(bs.take(bs.len() as int) =~= bs);
    let mut r: Vec<bool> = Vec::new();
    for v in 0..n
        invariant
            counts@.len() == n,
            counts_of(counts@, all_writes(bs)),
            r@.len() == v,
            forall|j: int| 0 <= j < v ==> #[trigger] r@[j] == single_writes(bs, n as nat)[j],
    {
        r.push(counts[v] == 1);
    }
    assert(r@ =~= single_writes(bs, n as nat));
    r
}

/// Every register that the blocks write is one of the first `n`.
pub open spec fn writes_below(bs: Seq<BlockView>, n: nat) -> bool {
    forall|b: int, i: int|
        0 <= b < bs.len() && 0 <= i < bs[b].code.len() ==> write_below(
            #[trigger] bs[b].code[i],
            n,
        )
}

/// Resolves the sites of the block that an operation leaves to.
fn resolve_fail(
    blocks: &mut Vec<IrBlock>,
    id: BlockId,
    alias: &Vec<Option<VReg>>,
    rew: &mut Vec<u32>,
    Ghost(y): Ghost<Prop>,
    Ghost(fails): Ghost<Seq<(BlockId, Alias)>>,
    Ghost(k): Ghost<int>,
    Ghost(x): Ghost<Prop>,
    Ghost(big): Ghost<Seq<VReg>>,
)
    requires
        0 <= k < fails.len(),
        fails[k] == (id, alias@),
        y == resolve_fails(fails, k, x),
        y.blocks == blocks_view(old(blocks)@),
        counts_of(old(rew)@, y.hits),
        old(rew)@.len() == alias@.len(),
        alias@.len() <= u32::MAX + 1,
        countable(big, alias@.len()),
        resolve_fails(fails, k + 1, x).hits.is_prefix_of(big),
        writes_below(y.blocks, alias@.len()),
    ensures
        resolve_fails(fails, k + 1, x).blocks == blocks_view(final(blocks)@),
        counts_of(final(rew)@, resolve_fails(fails, k + 1, x).hits),
        final(rew)@.len() == old(rew)@.len(),
        final(blocks)@.len() == old(blocks)@.len(),
        writes_below(blocks_view(final(blocks)@), alias@.len()),
{
    let n: usize = blocks.len();
    let mut j: usize = 0;
    while j < n && blocks[j].id != id
        invariant
            n == blocks@.len(),
            blocks@ == old(blocks)@,
            j <= n,
            y.blocks == blocks_view(blocks@),
            find_block(y.blocks, id, 0) == find_block(y.blocks, id, j as int),
        decreases n - j,
    {
        assert(y.blocks[j as int] == blocks@[j as int]@);
        j = j + 1;
    }
    if j < n {
        assert(y.blocks[j as int] == blocks@[j as int]@);
        let ghost z = resolve_fails(fails, k + 1, x);
        let ghost sites0 = y.blocks[j as int].deopt_sites;
        let ghost h = hits(alias@, sites_refs(sites0));
        let b = &mut blocks[j];
        let m: usize = b.deopt_sites.len();
        let ghost b0 = b@;
        assert(sites0.take(0) =~= seq![]);
        assert(y.hits + hits(alias@, sites_refs(sites0.take(0))) =~= y.hits);
        let ghost f = |s: (u32, DeoptView)| (s.0, resolve_raw(alias@, s.1));
        for q in 0..m
            invariant
                m == b@.deopt_sites.len(),
                m == sites0.len(),
                b0.deopt_sites == sites0,
                f == (|s: (u32, DeoptView)| (s.0, resolve_raw(alias@, s.1))),
                alias@.len() == rew@.len(),
                alias@.len() <= u32::MAX + 1,
                countable(big, alias@.len()),
                z.hits == y.hits + h,
                h == hits(alias@, sites_refs(sites0)),
                z.hits.is_prefix_of(big),
                counts_of(rew@, y.hits + hits(alias@, sites_refs(sites0.take(q as int)))),
                b@ == (BlockView { deopt_sites: b@.deopt_sites, ..b0 }),
                forall|i: int| 0 <= i < q ==> #[trigger] b@.deopt_sites[i] == f(sites0[i]),
                forall|i: int| q <= i < m ==> #[trigger] b@.deopt_sites[i] == sites0[i],
        {
            assert(b@.deopt_sites[q as int] == site_view(b.deopt_sites@[q as int]));
            let refs = b.deopt_sites[q].1.refs();
            let ghost seen = y.hits + hits(alias@, sites_refs(sites0.take(q as int)));
            proof {
                let a = sites0.take(q as int);
                assert(sites0.take(q + 1).drop_last() =~= a);
                assert(sites0.take(q + 1).last() == sites0[q as int]);
                lemma_hits_concat(alias@, sites_refs(a), refs@);
                assert(y.hits + hits(alias@, sites_refs(sites0.take(q + 1))) =~= seen + hits(
                    alias@,
                    refs@,
                ));
                lemma_sites_refs_prefix(sites0, q + 1);
                lemma_hits_prefix(alias@, sites_refs(sites0.take(q + 1)), sites_refs(sites0));
                assert((seen + hits(alias@, refs@)).is_prefix_of(z.hits)) by {
                    let u = hits(alias@, sites_refs(sites0.take(q + 1)));
                    assert(u =~= h.subrange(0, u.len() as int));
                    assert((y.hits + u) =~= z.hits.subrange(0, (y.hits + u).len() as int));
                }
                lemma_prefix_trans(seen + hits(alias@, refs@), z.hits, big);
            }
            count_hits(rew, alias, &refs, Ghost(seen), Ghost(big));
            let raw = resolved_raw(alias, &b.deopt_sites[q].1);
            let ghost s1 = b@.deopt_sites;
            b.deopt_sites[q].1 = raw;
            assert(b@.deopt_sites =~= s1.update(q as int, f(sites0[q as int])));
        }
        assert(sites0.take(m as int) =~= sites0);
        assert(b@.deopt_sites =~= sites0.map_values(f));
        assert(blocks_view(blocks@) =~= z.blocks);
        assert(writes_below(z.blocks, alias@.len())) by {
            assert forall|b: int, i: int|
                0 <= b < z.blocks.len() && 0 <= i < z.blocks[b].code.len() implies write_below(
                #[trigger] z.blocks[b].code[i],
                alias@.len(),
            ) by {
                assert(z.blocks[b].code[i] == y.blocks[b].code[i]);
            }
        }
    }
}

proof fn lemma_hits_concat(alias: Alias, a: Seq<VReg>, b: Seq<VReg>)
    ensures
        hits(alias, a + b) == hits(alias, a) + hits(alias, b),
    decreases b.len(),
{
    if b.len() == 0 {
        assert(a + b =~= a);
        assert(hits(alias, a) + hits(alias, b) =~= hits(alias, a));
    } else {
        assert((a + b).drop_last() =~= a + b.drop_last());
        lemma_hits_concat(alias, a, b.drop_last());
        assert(hits(alias, a + b) =~= hits(alias, a) + hits(alias, b));
    }
}

proof fn lemma_hits_prefix(alias: Alias, a: Seq<VReg>, b: Seq<VReg>)
    requires
        a.is_prefix_of(b),
    ensures
        hits(alias, a).is_prefix_of(hits(alias, b)),
{
    assert(b =~= a + b.skip(a.len() as int));
    lemma_hits_concat(alias, a, b.skip(a.len() as int));
}

proof fn lemma_sites_refs_prefix(s: Seq<(u32, DeoptView)>, k: int)
    requires
        0 <= k <= s.len(),
    ensures
        sites_refs(s.take(k)).is_prefix_of(sites_refs(s)),
    decreases s.len() - k,
{
    if k == s.len() {
        assert(s.take(k) =~= s);
    } else {
        lemma_sites_refs_prefix(s, k + 1);
        assert(s.take(k + 1).drop_last() =~= s.take(k));
        assert(sites_refs(s.take(k)).is_prefix_of(sites_refs(s.take(k + 1))));
        lemma_prefix_trans(sites_refs(s.take(k)), sites_refs(s.take(k + 1)), sites_refs(s));
    }
}

/// Walks all blocks; returns the copy relations at fail edges.
fn propagate_blocks(
    blocks: &mut Vec<IrBlock>,
    single: &Vec<bool>,
    rew: &mut Vec<u32>,
    Ghost(big): Ghost<Seq<VReg>>,
) -> (r: Vec<(BlockId, Vec<Option<VReg>>)>)
    requires
        single@.len() <= u32::MAX + 1,
        old(rew)@.len() == single@.len(),
        counts_of(old(rew)@, seq![]),
        countable(big, single@.len()),
        writes_below(blocks_view(old(blocks)@), single@.len()),
        walk_blocks(
            single@,
            single@.len(),
            old(blocks)@.len() as int,
            Prop { blocks: blocks_view(old(blocks)@), hits: seq![], fails: seq![] },
        ).hits.is_prefix_of(big),
    ensures
        ({
            let x = walk_blocks(
                single@,
                single@.len(),
                old(blocks)@.len() as int,
                Prop { blocks: blocks_view(old(blocks)@), hits: seq![], fails: seq![] },
            );
            &&& x.blocks == blocks_view(final(blocks)@)
            &&& counts_of(final(rew)@, x.hits)
            &&& x.fails == fails_view(r@)
        }),
        final(rew)@.len() == old(rew)@.len(),
        final(blocks)@.len() == old(blocks)@.len(),
        writes_below(blocks_view(final(blocks)@), single@.len()),
        forall|k: int| 0 <= k < r@.len() ==> (#[trigger] r@[k]).1@.len() == single@.len(),
{
    let mut fails: Vec<(BlockId, Vec<Option<VReg>>)> = Vec::new();
    assert(fails_view(fails@) =~= seq![]);
    let n: usize = blocks.len();
    let ghost x0 = Prop { blocks: blocks_view(blocks@), hits: seq![], fails: seq![] };
    for k in 0..n
        invariant
            n == blocks@.len(),
            n == x0.blocks.len(),
            single@.len() <= u32::MAX + 1,
            rew@.len() == single@.len(),
            countable(big, single@.len()),
            walk_blocks(single@, single@.len(), n as int, x0).hits.is_prefix_of(big),
            walk_blocks(single@, single@.len(), k as int, x0) == (Prop {
                blocks: blocks_view(blocks@),
                hits: walk_blocks(single@, single@.len(), k as int, x0).hits,
                fails: fails_view(fails@),
            }),
            counts_of(rew@, walk_blocks(single@, single@.len(), k as int, x0).hits),
            writes_below(blocks_view(blocks@), single@.len()),
            fails_sized(fails_view(fails@), single@.len()),
    {
        let ghost y = walk_blocks(single@, single@.len(), k as int, x0);
        let ghost z = walk_blocks(single@, single@.len(), k + 1, x0);
        let ghost b0 = y.blocks[k as int];
        assert(blocks@[k as int]@ == b0);
        proof {
            lemma_walk_blocks_hits(single@, single@.len(), k + 1, n as int, x0);
            lemma_prefix_trans(
                z.hits,
                walk_blocks(single@, single@.len(), n as int, x0).hits,
                big,
            );
            assert forall|i: int| 0 <= i < b0.code.len() implies write_below(
                #[trigger] b0.code[i],
                single@.len(),
            ) by {
                assert(write_below(y.blocks[k as int].code[i], single@.len()));
            }
            lemma_walk_fails_sized(
                single@,
                b0.code.len() as int,
                start_walk(single@.len(), b0, y),
            );
        }
        propagate_block(&mut blocks[k], single, rew, &mut fails, Ghost(y), Ghost(big));
        proof {
            assert(blocks_view(blocks@) =~= z.blocks);
            assert forall|b: int, i: int|
                0 <= b < z.blocks.len() && 0 <= i < z.blocks[b].code.len() implies write_below(
                #[trigger] z.blocks[b].code[i],
                single@.len(),
            ) by {
                if b == k {
                    assert(blocks@[k as int]@.code[i] == z.blocks[b].code[i]);
                } else {
                    assert(z.blocks[b].code[i] == y.blocks[b].code[i]);
                }
            }
        }
    }
    assert forall|k: int| 0 <= k < fails@.len() implies (#[trigger] fails@[k]).1@.len()
        == single@.len() by {
        assert(fails_view(fails@)[k].1.len() == single@.len());
    }
    fails
}

pub open spec fn fails_sized(fails: Seq<(BlockId, Alias)>, n: nat) -> bool {
    forall|k: int| 0 <= k < fails.len() ==> (#[trigger] fails[k]).1.len() == n
}

proof fn lemma_walk_fails_sized(single: Seq<bool>, n: int, w: Walk)
    requires
        w.alias.len() == single.len(),
        fails_sized(w.fails, single.len()),
        n <= w.block.code.len(),
        forall|i: int|
            0 <= i < w.block.code.len() ==> write_below(#[trigger] w.block.code[i], single.len()),
    ensures
        walk(single, n, w).alias.len() == single.len(),
        fails_sized(walk(single, n, w).fails, single.len()),
        walk(single, n, w).block.code.len() == w.block.code.len(),
        forall|i: int|
            0 <= i < w.block.code.len() ==> write_below(
                #[trigger] walk(single, n, w).block.code[i],
                single.len(),
            ),
    decreases n,
{
    if n > 0 {
        lemma_walk_fails_sized(single, n - 1, w);
        let a = walk(single, n - 1, w);
        lemma_walk_sites_hits(n - 1, a);
        lemma_resolve_op(a.alias, a.block.code[n - 1]);
        assert(write_below(a.block.code[n - 1], single.len()));
    }
}

/// Flags the operations of a block that stay.
fn find_keep(b: &IrBlock, single: &Vec<bool>, refs: &Vec<u32>, rew: &Vec<u32>, Ghost(r): Ghost<
    Seq<VReg>,
>, Ghost(h): Ghost<Seq<VReg>>) -> (keep: Vec<bool>)
    requires
        refs@.len() == single@.len(),
        rew@.len() == single@.len(),
        counts_of(refs@, r),
        counts_of(rew@, h),
        forall|i: int|
            0 <= i < b@.code.len() ==> write_below(#[trigger] b@.code[i], single@.len()),
    ensures
        keep@ == keep_flags(single@, r, h, b@),
{
    let mut keep: Vec<bool> = Vec::new();
    for i in 0..b.code.len()
        invariant
            refs@.len() == single@.len(),
            rew@.len() == single@.len(),
            counts_of(refs@, r),
            counts_of(rew@, h),
            forall|j: int|
                0 <= j < b@.code.len() ==> write_below(#[trigger] b@.code[j], single@.len()),
            keep@.len() == i,
            forall|j: int| 0 <= j < i ==> #[trigger] keep@[j] == keep_flags(single@, r, h, b@)[j],
    {
        assert(b.code@[i as int]@ == b@.code[i as int]);
        let gone = match &b.code[i] {
            Ir::Move { dst, .. } => {
                let d: usize = dst.0 as usize;
                assert(VReg(d as int as u32) == *dst);
                single[d] && refs[d] > 0 && rew[d] == refs[d]
            },
            _ => false,
        };
        keep.push(!gone);
    }
    assert(keep@ =~= keep_flags(single@, r, h, b@));
    keep
}

/// Removes the copies that nobody reads any more.
fn remove_copies(
    blocks: &mut Vec<IrBlock>,
    single: &Vec<bool>,
    refs: &Vec<u32>,
    rew: &Vec<u32>,
    Ghost(r): Ghost<Seq<VReg>>,
    Ghost(h): Ghost<Seq<VReg>>,
)
    requires
        refs@.len() == single@.len(),
        rew@.len() == single@.len(),
        counts_of(refs@, r),
        counts_of(rew@, h),
        writes_below(blocks_view(old(blocks)@), single@.len()),
        without_copies(
            single@,
            r,
            h,
            blocks_view(old(blocks)@),
            old(blocks)@.len() as int,
        ) is Some,
    ensures
        without_copies(single@, r, h, blocks_view(old(blocks)@), old(blocks)@.len() as int)
            == Some(blocks_view(final(blocks)@)),
{
    let n: usize = blocks.len();
    let ghost bs = blocks_view(blocks@);
    for k in 0..n
        invariant
            n == blocks@.len(),
            n == bs.len(),
            refs@.len() == single@.len(),
            rew@.len() == single@.len(),
            counts_of(refs@, r),
            counts_of(rew@, h),
            writes_below(bs, single@.len()),
            without_copies(single@, r, h, bs, n as int) is Some,
            without_copies(single@, r, h, bs, k as int) == Some(blocks_view(blocks@)),
            forall|j: int| k <= j < n ==> blocks_view(blocks@)[j] == #[trigger] bs[j],
    {
        let ghost done = blocks_view(blocks@);
        proof {
            lemma_without_copies_some(single@, r, h, bs, k + 1, n as int);
            assert(blocks@[k as int]@ == bs[k as int]);
            assert forall|i: int| 0 <= i < bs[k as int].code.len() implies write_below(
                #[trigger] blocks@[k as int]@.code[i],
                single@.len(),
            ) by {
                assert(write_below(bs[k as int].code[i], single@.len()));
            }
        }
        let keep = find_keep(&blocks[k], single, refs, rew, Ghost(r), Ghost(h));
        compact(&mut blocks[k], &keep);
        assert(blocks_view(blocks@) =~= done.update(k as int, blocks@[k as int]@));
    }
}

proof fn lemma_without_copies_some(
    single: Seq<bool>,
    r: Seq<VReg>,
    h: Seq<VReg>,
    bs: Seq<BlockView>,
    k: int,
    n: int,
)
    requires
        0 <= k <= n,
        without_copies(single, r, h, bs, n) is Some,
    ensures
        without_copies(single, r, h, bs, k) is Some,
    decreases n - k,
{
    if k < n {
        lemma_without_copies_some(single, r, h, bs, k, n - 1);
    }
}

/// Copy propagation over a method.
pub fn copy_propagate(m: &mut IrMethod)
    requires
        propagated(old(m)@.blocks, old(m)@.vregs.len()) is Some,
    ensures
        final(m)@ == (MethodView {
            blocks: propagated(old(m)@.blocks, old(m)@.vregs.len())->0,
            ..old(m)@
        }),
{
    let n: usize = m.vregs.len();
    let ghost bs = m@.blocks;
    let ghost big = resolved(bs, n as nat).hits;
    proof {
        assert forall|b: int, i: int| 0 <= b < bs.len() && 0 <= i < bs[b].code.len() implies write_below(
            #[trigger] bs[b].code[i],
            n as nat,
        ) by {
            assert(block_below(bs[b], n as nat));
        }
    }
    let refs = count_refs(&m.blocks, n);
    let single = find_single_writes(&m.blocks, n);
    let mut rew = zero_counts(n);
    let ghost x = walk_blocks(
        single@,
        n as nat,
        bs.len() as int,
        Prop { blocks: bs, hits: seq![], fails: seq![] },
    );
    proof {
        lemma_resolve_fails_hits(x.fails, 0, x.fails.len() as int, x);
    }
    let fails = propagate_blocks(&mut m.blocks, &single, &mut rew, Ghost(big));
    let nf: usize = fails.len();
    for k in 0..nf
        invariant
            nf == fails@.len(),
            n <= u32::MAX + 1,
            rew@.len() == n,
            single@.len() == n,
            x.fails == fails_view(fails@),
            forall|j: int| 0 <= j < fails@.len() ==> (#[trigger] fails@[j]).1@.len() == n,
            countable(big, n as nat),
            big == resolve_fails(x.fails, nf as int, x).hits,
            resolve_fails(x.fails, k as int, x).blocks == blocks_view(m.blocks@),
            counts_of(rew@, resolve_fails(x.fails, k as int, x).hits),
            writes_below(blocks_view(m.blocks@), n as nat),
            m@ == (MethodView { blocks: blocks_view(m.blocks@), ..old(m)@ }),
    {
        proof {
            lemma_resolve_fails_hits(x.fails, k + 1, nf as int, x);
            assert(x.fails[k as int] == (fails@[k as int].0, fails@[k as int].1@));
        }
        resolve_fail(
            &mut m.blocks,
            fails[k].0,
            &fails[k].1,
            &mut rew,
            Ghost(resolve_fails(x.fails, k as int, x)),
            Ghost(x.fails),
            Ghost(k as int),
            Ghost(x),
            Ghost(big),
        );
    }
    remove_copies(&mut m.blocks, &single, &refs, &rew, Ghost(all_refs(bs)), Ghost(big));
}

} // verus!

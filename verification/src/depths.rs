//! Operand-stack depths over a method's control flow, and where each block's entry stack comes
//! from.

use vstd::prelude::*;
use crate::ir::{Ir, VReg};
use crate::translator::{Seg, SegView};
use crate::world::{BlockIndex, Cfg, CfgBlock, Instr, Method, Terminator};

verus! {

/// Net effect of one instruction on the operand stack.
pub open spec fn delta(m: Method, i: Instr) -> int {
    match i {
        Instr::StoreTemp(_) => 0,
        Instr::StoreTempPop(_) => -1,
        Instr::StoreInstvarPop(_) => -1,
        Instr::StoreGlobalPop(_) => -1,
        Instr::StoreCtxTempPop { .. } => -1,
        Instr::Pop => -1,
        Instr::Send { ic, .. } => -(m.ics@[ic as int].argc as int),
        Instr::JumpFwd(_) => 0,
        Instr::JumpBack(_) => 0,
        Instr::BrTrueFwd(_) => -1,
        Instr::BrFalseFwd(_) => -1,
        Instr::ReturnTos => -1,
        Instr::BlockReturnTos => -1,
        Instr::NlrTos => -1,
        Instr::ReturnSelf => 0,
        // The captured values go into the closure.
        Instr::PushClosure { ncopied, .. } => 1 - ncopied,
        _ => 1,
    }
}

/// How far one instruction moves the operand stack.
pub fn instr_stack_delta(m: &Method, i: &Instr) -> (r: i32)
    requires
        m.instr_wf(*i),
    ensures
        r == delta(*m, *i),
        -255 <= r <= 1,
{
    match *i {
        Instr::PushSelf
        | Instr::PushNil
        | Instr::PushTrue
        | Instr::PushFalse
        | Instr::PushSmi(_)
        | Instr::PushLiteral(_)
        | Instr::PushTemp(_)
        | Instr::PushInstvar(_)
        | Instr::PushGlobal(_)
        | Instr::Dup
        | Instr::PushCtxTemp { .. } => 1,
        Instr::PushClosure { ncopied, .. } => 1 - ncopied as i32,
        Instr::StoreTemp(_) => 0,
        Instr::StoreTempPop(_)
        | Instr::StoreInstvarPop(_)
        | Instr::StoreGlobalPop(_)
        | Instr::StoreCtxTempPop { .. }
        | Instr::Pop => -1,
        Instr::Send { ic, .. } => -(m.ics[ic as usize].argc as i32),
        Instr::JumpFwd(_) | Instr::JumpBack(_) => 0,
        Instr::BrTrueFwd(_) | Instr::BrFalseFwd(_) => -1,
        Instr::ReturnTos | Instr::BlockReturnTos | Instr::NlrTos => -1,
        Instr::ReturnSelf => 0,
    }
}

/// The depths after each instruction from `bci` to `end`, starting at depth `d`.
pub open spec fn depth_trace(m: Method, bci: int, end: int, d: int) -> Seq<int>
    decreases end - bci,
{
    if bci < 0 || bci >= end || bci >= m.code@.len() || !(bci < m.next_at(bci)
        <= m.code@.len()) {
        seq![]
    } else {
        let d1 = d + delta(m, m.instr_at(bci));
        if m.next_at(bci) <= end {
            seq![d1] + depth_trace(m, m.next_at(bci), end, d1)
        } else {
            seq![d1]
        }
    }
}

/// The depths that occur in a block entered at depth `d`: on entry and after each instruction.
pub open spec fn block_trace(m: Method, b: CfgBlock, d: int) -> Seq<int> {
    seq![d] + depth_trace(m, b.bci_start as int, b.bci_end as int, d)
}

pub open spec fn block_exit(m: Method, b: CfgBlock, d: int) -> int {
    block_trace(m, b, d).last()
}

pub open spec fn succs(t: Terminator) -> Seq<int> {
    match t {
        Terminator::Fallthrough(x) => seq![x as int],
        Terminator::Jump { target, .. } => seq![target as int],
        Terminator::Branch { if_true, if_false } => seq![if_true as int, if_false as int],
        Terminator::Return => seq![],
    }
}

/// A walk through the blocks from the entry.
pub open spec fn is_path(cfg: Cfg, p: Seq<int>) -> bool {
    &&& p.len() > 0
    &&& p[0] == 0
    &&& forall|i: int| 0 <= i < p.len() ==> 0 <= #[trigger] p[i] < cfg.blocks@.len()
    &&& forall|i: int|
        0 <= i < p.len() - 1 ==> succs((#[trigger] cfg.blocks@[p[i]]).terminator).contains(p[i + 1])
}

/// The depth at which the last block of a walk is entered.
pub open spec fn path_depth(m: Method, cfg: Cfg, p: Seq<int>) -> int
    decreases p.len(),
{
    if p.len() <= 1 {
        0
    } else {
        let q = p.drop_last();
        block_exit(m, cfg.blocks@[q.last()], path_depth(m, cfg, q))
    }
}

pub open spec fn reaches(cfg: Cfg, p: Seq<int>, b: int) -> bool {
    is_path(cfg, p) && p.last() == b
}

/// Walks to the same block arrive at the same depth, and every depth on the way is an `i32`.
pub open spec fn depths_agree(m: Method, cfg: Cfg) -> bool {
    &&& forall|p: Seq<int>, q: Seq<int>|
        #![trigger is_path(cfg, p), is_path(cfg, q)]
        is_path(cfg, p) && is_path(cfg, q) && p.last() == q.last() ==> path_depth(m, cfg, p)
            == path_depth(m, cfg, q)
    &&& forall|p: Seq<int>, k: int|
        #![trigger is_path(cfg, p), block_trace(m, cfg.blocks@[p.last()], path_depth(m, cfg, p))[k]]
        is_path(cfg, p) && 0 <= k < block_trace(
            m,
            cfg.blocks@[p.last()],
            path_depth(m, cfg, p),
        ).len() ==> i32::MIN <= block_trace(
            m,
            cfg.blocks@[p.last()],
            path_depth(m, cfg, p),
        )[k] <= i32::MAX
}

/// The depth at which block `b` is entered; 0 where no walk leads.
pub open spec fn entry_depth(m: Method, cfg: Cfg, b: int) -> int {
    if exists|p: Seq<int>| reaches(cfg, p, b) {
        path_depth(m, cfg, choose|p: Seq<int>| reaches(cfg, p, b))
    } else {
        0
    }
}

pub open spec fn entry_depths(m: Method, cfg: Cfg) -> Seq<i32> {
    Seq::new(cfg.blocks@.len(), |b: int| entry_depth(m, cfg, b) as i32)
}

/// Depth `d` occurs somewhere on a walk.
pub open spec fn depth_occurs(m: Method, cfg: Cfg, d: int) -> bool {
    exists|p: Seq<int>, k: int|
        #![trigger is_path(cfg, p), block_trace(m, cfg.blocks@[p.last()], path_depth(m, cfg, p))[k]]
        is_path(cfg, p) && 0 <= k < block_trace(
            m,
            cfg.blocks@[p.last()],
            path_depth(m, cfg, p),
        ).len() && block_trace(m, cfg.blocks@[p.last()], path_depth(m, cfg, p))[k] == d
}

pub(crate) proof fn lemma_extend_path(m: Method, cfg: Cfg, p: Seq<int>, t: int)
    requires
        is_path(cfg, p),
        0 <= t < cfg.blocks@.len(),
        succs(cfg.blocks@[p.last()].terminator).contains(t),
    ensures
        is_path(cfg, p.push(t)),
        p.push(t).last() == t,
        path_depth(m, cfg, p.push(t)) == block_exit(
            m,
            cfg.blocks@[p.last()],
            path_depth(m, cfg, p),
        ),
{
    assert(p.push(t).drop_last() =~= p);
    let q = p.push(t);
    assert forall|i: int| 0 <= i < q.len() - 1 implies succs(
        (#[trigger] cfg.blocks@[q[i]]).terminator,
    ).contains(q[i + 1]) by {
        if i < p.len() - 1 {
            assert(cfg.blocks@[p[i]] == cfg.blocks@[q[i]]);
        }
    }
}

pub open spec fn count_none(d: Seq<Option<i32>>) -> nat
    decreases d.len(),
{
    if d.len() == 0 {
        0
    } else {
        count_none(d.drop_last()) + (if d.last() is None {
            1nat
        } else {
            0
        })
    }
}

proof fn lemma_count_none(d: Seq<Option<i32>>, i: int, v: i32)
    requires
        0 <= i < d.len(),
        d[i] is None,
    ensures
        count_none(d.update(i, Some(v))) < count_none(d),
    decreases d.len(),
{
    let u = d.update(i, Some(v));
    if i == d.len() - 1 {
        assert(u.drop_last() =~= d.drop_last());
    } else {
        assert(u.drop_last() =~= d.drop_last().update(i, Some(v)));
        lemma_count_none(d.drop_last(), i, v);
    }
}

/// Every block with a known depth has a walk that arrives at that depth.
spec fn found(m: Method, cfg: Cfg, e: Seq<Option<i32>>) -> bool {
    forall|b: int|
        #![trigger e[b]]
        0 <= b < e.len() && e[b] is Some ==> exists|p: Seq<int>|
            #[trigger]
            reaches(cfg, p, b) && path_depth(m, cfg, p) == e[b]->0
}

/// The successors of `a` are known, at the depth that `a` leaves them.
spec fn passed_on(m: Method, cfg: Cfg, e: Seq<Option<i32>>, a: int) -> bool {
    e[a] is Some && forall|t: int|
        #![trigger e[t]]
        succs(cfg.blocks@[a].terminator).contains(t) ==> e[t] is Some && e[t]->0 == block_exit(
            m,
            cfg.blocks@[a],
            e[a]->0 as int,
        )
}

/// Records that block `b` is entered at `depth`, unless that is known already.
fn record(
    m: &Method,
    cfg: &Cfg,
    entry: &mut Vec<Option<i32>>,
    worklist: &mut Vec<usize>,
    b: usize,
    depth: i32,
    Ghost(p): Ghost<Seq<int>>,
)
    requires
        depths_agree(*m, *cfg),
        b < old(entry)@.len() == cfg.blocks@.len(),
        found(*m, *cfg, old(entry)@),
        reaches(*cfg, p, b as int),
        path_depth(*m, *cfg, p) == depth,
    ensures
        final(entry)@.len() == old(entry)@.len(),
        final(entry)@[b as int] == Some(depth),
        final(entry)@ == old(entry)@ || final(entry)@ == old(entry)@.update(
            b as int,
            Some(depth),
        ),
        old(entry)@[b as int] is Some ==> final(entry)@ == old(entry)@ && final(worklist)@ == old(
            worklist,
        )@,
        old(entry)@[b as int] is None ==> final(worklist)@ == old(worklist)@.push(b) && count_none(
            final(entry)@,
        ) < count_none(old(entry)@),
        found(*m, *cfg, final(entry)@),
{
    match entry[b] {
        Some(d) => {
            proof {
                let q = choose|q: Seq<int>|
                    #[trigger]
                    reaches(*cfg, q, b as int) && path_depth(*m, *cfg, q) == entry@[b as int]->0;
                assert(is_path(*cfg, q) && is_path(*cfg, p));
            }
        },
        None => {
            proof {
                lemma_count_none(entry@, b as int, depth);
            }
            entry[b] = Some(depth);
            worklist.push(b);
        },
    }
}

proof fn lemma_paths_known(m: Method, cfg: Cfg, e: Seq<Option<i32>>, p: Seq<int>)
    requires
        e.len() == cfg.blocks@.len(),
        e.len() > 0,
        e[0] == Some(0i32),
        forall|a: int| #![trigger e[a]] 0 <= a < e.len() && e[a] is Some ==> passed_on(m, cfg, e, a),
        is_path(cfg, p),
    ensures
        e[p.last()] is Some,
        e[p.last()]->0 == path_depth(m, cfg, p),
    decreases p.len(),
{
    if p.len() > 1 {
        let q = p.drop_last();
        assert forall|i: int| 0 <= i < q.len() - 1 implies succs(
            (#[trigger] cfg.blocks@[q[i]]).terminator,
        ).contains(q[i + 1]) by {
            assert(cfg.blocks@[p[i]] == cfg.blocks@[q[i]]);
        }
        assert(is_path(cfg, q));
        lemma_paths_known(m, cfg, e, q);
        let a = q.last();
        assert(cfg.blocks@[p[p.len() - 2]] == cfg.blocks@[a]);
        assert(succs(cfg.blocks@[a].terminator).contains(p.last()));
        assert(passed_on(m, cfg, e, a));
        assert(e[p.last()] is Some);
    }
}

pub(crate) proof fn lemma_entry_depth(m: Method, cfg: Cfg, p: Seq<int>, b: int)
    requires
        depths_agree(m, cfg),
        reaches(cfg, p, b),
    ensures
        entry_depth(m, cfg, b) == path_depth(m, cfg, p),
{
    let q = choose|q: Seq<int>| reaches(cfg, q, b);
    assert(reaches(cfg, q, b));
    assert(is_path(cfg, p) && is_path(cfg, q));
}

/// Walks block `b` from depth `d`; returns the depth it ends at and the highest depth in it.
fn walk_block(m: &Method, cfg: &Cfg, b: usize, d: i32, Ghost(p): Ghost<Seq<int>>) -> (r: (i32, i32))
    requires
        m.code_wf(),
        m.cfg_wf(*cfg),
        depths_agree(*m, *cfg),
        b < cfg.blocks@.len(),
        reaches(*cfg, p, b as int),
        path_depth(*m, *cfg, p) == d,
    ensures
        r.0 == block_exit(*m, cfg.blocks@[b as int], d as int),
        forall|k: int|
            0 <= k < block_trace(*m, cfg.blocks@[b as int], d as int).len() ==> #[trigger] block_trace(
                *m,
                cfg.blocks@[b as int],
                d as int,
            )[k] <= r.1,
        block_trace(*m, cfg.blocks@[b as int], d as int).contains(r.1 as int),
{
    let ghost blk = cfg.blocks@[b as int];
    let ghost tr = block_trace(*m, blk, d as int);
    let mut depth: i32 = d;
    let mut max: i32 = d;
    let mut bci: usize = cfg.blocks[b].bci_start;
    let end: usize = cfg.blocks[b].bci_end;
    let ghost mut k: int = 0;
    assert(tr.skip(1) =~= depth_trace(*m, bci as int, end as int, d as int));
    assert(tr[0] == d);
    while bci < end
        invariant
            m.code_wf(),
            m.cfg_wf(*cfg),
            depths_agree(*m, *cfg),
            reaches(*cfg, p, b as int),
            path_depth(*m, *cfg, p) == d,
            blk == cfg.blocks@[b as int],
            tr == block_trace(*m, blk, d as int),
            end <= m.code@.len(),
            m.boundary(bci as int),
            0 <= k < tr.len(),
            tr[k] == depth,
            tr.skip(k + 1) == depth_trace(*m, bci as int, end as int, depth as int),
            forall|j: int| 0 <= j <= k ==> #[trigger] tr[j] <= max,
            exists|j: int| 0 <= j <= k && #[trigger] tr[j] == max,
        decreases m.code@.len() - bci,
    {
        let (instr, next) = m.decode_at(bci);
        let dd: i32 = instr_stack_delta(m, &instr);
        proof {
            let rest = depth_trace(*m, bci as int, end as int, depth as int);
            assert(rest.len() > 0);
            assert(tr.skip(k + 1)[0] == tr[k + 1]);
            assert(rest[0] == depth + dd);
            assert(is_path(*cfg, p) && i32::MIN <= block_trace(
                *m,
                cfg.blocks@[p.last()],
                path_depth(*m, *cfg, p),
            )[k + 1] <= i32::MAX);
            assert(tr.skip(k + 2) =~= rest.skip(1));
            assert(rest.skip(1) =~= depth_trace(*m, next as int, end as int, depth + dd));
        }
        depth = depth + dd;
        if depth > max {
            max = depth;
        }
        proof {
            k = k + 1;
            assert(tr[k] == depth);
        }
        bci = next;
    }
    proof {
        assert(tr.skip(k + 1).len() == 0);
        assert(k == tr.len() - 1);
    }
    (depth, max)
}

/// The depth at which each block is entered, and the highest depth anywhere.
pub fn compute_entry_depths(m: &Method, cfg: &Cfg) -> (r: (Vec<i32>, i32))
    requires
        m.code_wf(),
        m.cfg_wf(*cfg),
        cfg.blocks@.len() > 0,
        depths_agree(*m, *cfg),
    ensures
        r.0@ == entry_depths(*m, *cfg),
        forall|d: int| #[trigger] depth_occurs(*m, *cfg, d) ==> d <= r.1,
        depth_occurs(*m, *cfg, r.1 as int),
{
    let n: usize = cfg.blocks.len();
    let mut entry: Vec<Option<i32>> = Vec::new();
    for i in 0..n
        invariant
            entry@.len() == i,
            forall|j: int| 0 <= j < i ==> #[trigger] entry@[j] is None,
    {
        entry.push(None);
    }
    entry[0] = Some(0);
    let mut worklist: Vec<usize> = Vec::new();
    worklist.push(0);
    let mut max: i32 = 0;
    proof {
        let p = seq![0int];
        assert(reaches(*cfg, p, 0) && path_depth(*m, *cfg, p) == 0);
        assert(block_trace(*m, cfg.blocks@[0], 0)[0] == 0);
        assert(is_path(*cfg, p) && block_trace(
            *m,
            cfg.blocks@[p.last()],
            path_depth(*m, *cfg, p),
        )[0] == 0);
        assert(depth_occurs(*m, *cfg, 0));
    }
    let ghost mut done: Set<int> = Set::empty();
    assert(worklist@[0] == 0usize);
    while worklist.len() > 0
        invariant
            m.code_wf(),
            m.cfg_wf(*cfg),
            n == cfg.blocks@.len(),
            n > 0,
            depths_agree(*m, *cfg),
            entry@.len() == n,
            entry@[0] == Some(0i32),
            found(*m, *cfg, entry@),
            depth_occurs(*m, *cfg, max as int),
            forall|k: int| 0 <= k < worklist@.len() ==> (#[trigger] worklist@[k]) < n,
            forall|k: int|
                0 <= k < worklist@.len() ==> entry@[(#[trigger] worklist@[k]) as int] is Some,
            forall|a: int|
                #![trigger entry@[a]]
                0 <= a < n && entry@[a] is Some ==> worklist@.contains(a as usize) || done.contains(
                    a,
                ),
            forall|a: int| #[trigger]
                done.contains(a) ==> 0 <= a < n && passed_on(*m, *cfg, entry@, a),
            forall|a: int, k: int|
                #![trigger done.contains(a), block_trace(*m, cfg.blocks@[a], entry@[a]->0 as int)[k]]
                done.contains(a) && 0 <= k < block_trace(
                    *m,
                    cfg.blocks@[a],
                    entry@[a]->0 as int,
                ).len() ==> block_trace(*m, cfg.blocks@[a], entry@[a]->0 as int)[k] <= max,
        decreases count_none(entry@), worklist@.len(),
    {
        let ghost wl0 = worklist@;
        let ghost e0 = entry@;
        let b: usize = worklist.pop().unwrap();
        assert(wl0[wl0.len() - 1] == b);
        let d: i32 = entry[b].unwrap();
        let ghost p = choose|p: Seq<int>|
            #[trigger]
            reaches(*cfg, p, b as int) && path_depth(*m, *cfg, p) == d;
        let (depth, block_max) = walk_block(m, cfg, b, d, Ghost(p));
        if block_max > max {
            max = block_max;
        }
        proof {
            let tr = block_trace(*m, cfg.blocks@[b as int], d as int);
            let k = choose|k: int| 0 <= k < tr.len() && tr[k] == block_max;
            assert(is_path(*cfg, p) && block_trace(
                *m,
                cfg.blocks@[p.last()],
                path_depth(*m, *cfg, p),
            )[k] == block_max);
        }
        match cfg.blocks[b].terminator {
            Terminator::Fallthrough(t) | Terminator::Jump { target: t, .. } => {
                proof {
                    assert(succs(cfg.blocks@[b as int].terminator)[0] == t);
                    lemma_extend_path(*m, *cfg, p, t as int);
                }
                record(m, cfg, &mut entry, &mut worklist, t, depth, Ghost(p.push(t as int)));
            },
            Terminator::Branch { if_true, if_false } => {
                proof {
                    assert(succs(cfg.blocks@[b as int].terminator)[0] == if_true);
                    assert(succs(cfg.blocks@[b as int].terminator)[1] == if_false);
                    lemma_extend_path(*m, *cfg, p, if_true as int);
                    lemma_extend_path(*m, *cfg, p, if_false as int);
                }
                record(
                    m,
                    cfg,
                    &mut entry,
                    &mut worklist,
                    if_true,
                    depth,
                    Ghost(p.push(if_true as int)),
                );
                record(
                    m,
                    cfg,
                    &mut entry,
                    &mut worklist,
                    if_false,
                    depth,
                    Ghost(p.push(if_false as int)),
                );
            },
            Terminator::Return => {},
        }
        proof {
            done = done.insert(b as int);
            // A depth that was known stays what it was.
            assert(forall|a: int|
                #![trigger entry@[a]]
                0 <= a < n && e0[a] is Some ==> entry@[a] == e0[a]);
            assert forall|a: int|
                #![trigger entry@[a]]
                0 <= a < n && entry@[a] is Some implies worklist@.contains(a as usize)
                || done.contains(a) by {
                if e0[a] is Some {
                    if wl0.contains(a as usize) && a != b {
                        let k = choose|k: int| 0 <= k < wl0.len() && wl0[k] == a as usize;
                        assert(worklist@[k] == a as usize);
                    }
                } else {
                    assert(worklist@.contains(a as usize)) by {
                        if worklist@[worklist@.len() - 1] != a as usize {
                            assert(worklist@[worklist@.len() - 2] == a as usize);
                        }
                    }
                }
            }
            assert forall|a: int| #[trigger] done.contains(a) implies 0 <= a < n && passed_on(
                *m,
                *cfg,
                entry@,
                a,
            ) by {
                if a != b {
                    assert(passed_on(*m, *cfg, e0, a));
                    assert(e0[a] is Some);
                    assert forall|t: int|
                        #![trigger entry@[t]]
                        succs(cfg.blocks@[a].terminator).contains(t) implies entry@[t] is Some
                        && entry@[t]->0 == block_exit(*m, cfg.blocks@[a], entry@[a]->0 as int) by {
                        assert(e0[t] is Some);
                    }
                } else {
                    assert(e0[b as int] is Some);
                }
            }
        }
    }
    let mut depths: Vec<i32> = Vec::new();
    proof {
        assert forall|a: int| #![trigger entry@[a]] 0 <= a < n && entry@[a] is Some implies passed_on(
            *m,
            *cfg,
            entry@,
            a,
        ) by {
            assert(done.contains(a));
        }
        assert forall|d: int| #[trigger] depth_occurs(*m, *cfg, d) implies d <= max by {
            let (p, k) = choose|p: Seq<int>, k: int|
                #![trigger is_path(*cfg, p), block_trace(*m, cfg.blocks@[p.last()], path_depth(*m, *cfg, p))[k]]
                is_path(*cfg, p) && 0 <= k < block_trace(
                    *m,
                    cfg.blocks@[p.last()],
                    path_depth(*m, *cfg, p),
                ).len() && block_trace(*m, cfg.blocks@[p.last()], path_depth(*m, *cfg, p))[k] == d;
            lemma_paths_known(*m, *cfg, entry@, p);
            let a = p.last();
            assert(done.contains(a));
            assert(block_trace(*m, cfg.blocks@[a], entry@[a]->0 as int)[k] == d);
        }
    }
    for i in 0..n
        invariant
            n == cfg.blocks@.len(),
            n > 0,
            entry@.len() == n,
            entry@[0] == Some(0i32),
            depths_agree(*m, *cfg),
            found(*m, *cfg, entry@),
            forall|a: int|
                #![trigger entry@[a]]
                0 <= a < n && entry@[a] is Some ==> passed_on(*m, *cfg, entry@, a),
            depths@.len() == i,
            forall|j: int| 0 <= j < i ==> #[trigger] depths@[j] == entry_depth(*m, *cfg, j),
    {
        proof {
            let b = i as int;
            if entry@[b] is Some {
                let p = choose|p: Seq<int>|
                    #[trigger]
                    reaches(*cfg, p, b) && path_depth(*m, *cfg, p) == entry@[b]->0;
                lemma_entry_depth(*m, *cfg, p, b);
            } else {
                assert forall|p: Seq<int>| !reaches(*cfg, p, b) by {
                    if reaches(*cfg, p, b) {
                        lemma_paths_known(*m, *cfg, entry@, p);
                    }
                }
            }
        }
        depths.push(
            match entry[i] {
                Some(d) => d,
                None => 0,
            },
        );
    }
    assert(depths@ =~= entry_depths(*m, *cfg));
    (depths, max)
}

/// Where a block's entry stack comes from.
#[derive(Clone, Copy, PartialEq, Eq, Debug)]
pub enum EntryStackSource {
    /// The stack is empty on entry.
    Empty,
    /// The only way in is a forward edge from this block: its exit stack as it is.
    Inherit(BlockIndex),
    /// Registers of its own, which every predecessor fills.
    Merge,
}

/// The edges of block `i` that lead to `b`: the block and whether the edge goes backward.
pub open spec fn edges_to(cfg: Cfg, i: int, b: int) -> Seq<(int, bool)> {
    match cfg.blocks@[i].terminator {
        Terminator::Fallthrough(t) => if t == b {
            seq![(i, false)]
        } else {
            seq![]
        },
        Terminator::Jump { target, is_backward } => if target == b {
            seq![(i, is_backward)]
        } else {
            seq![]
        },
        Terminator::Branch { if_true, if_false } => (if if_true == b {
            seq![(i, false)]
        } else {
            seq![]
        }) + (if if_false == b {
            seq![(i, false)]
        } else {
            seq![]
        }),
        Terminator::Return => seq![],
    }
}

/// All edges into `b` from the first `n` blocks.
pub open spec fn preds(cfg: Cfg, b: int, n: nat) -> Seq<(int, bool)>
    decreases n,
{
    if n == 0 {
        seq![]
    } else {
        preds(cfg, b, (n - 1) as nat) + edges_to(cfg, n - 1, b)
    }
}

pub open spec fn entry_source(cfg: Cfg, depth: Seq<i32>, b: int) -> EntryStackSource {
    let ps = preds(cfg, b, cfg.blocks@.len());
    if depth[b] == 0 {
        EntryStackSource::Empty
    } else if ps.len() == 1 && !ps[0].1 {
        EntryStackSource::Inherit(ps[0].0 as usize)
    } else {
        EntryStackSource::Merge
    }
}

pub open spec fn entry_sources(cfg: Cfg, depth: Seq<i32>) -> Seq<EntryStackSource> {
    Seq::new(cfg.blocks@.len(), |b: int| entry_source(cfg, depth, b))
}

/// The edges into `b`.
fn predecessors(cfg: &Cfg, b: usize) -> (r: Vec<(usize, bool)>)
    ensures
        r@.map_values(|e: (usize, bool)| (e.0 as int, e.1)) == preds(
            *cfg,
            b as int,
            cfg.blocks@.len(),
        ),
        forall|k: int| 0 <= k < r@.len() ==> (#[trigger] r@[k]).0 < cfg.blocks@.len(),
{
    let mut r: Vec<(usize, bool)> = Vec::new();
    let ghost f = |e: (usize, bool)| (e.0 as int, e.1);
    assert(r@.map_values(f) =~= seq![]);
    for i in 0..cfg.blocks.len()
        invariant
            f == (|e: (usize, bool)| (e.0 as int, e.1)),
            r@.map_values(f) == preds(*cfg, b as int, i as nat),
            forall|k: int| 0 <= k < r@.len() ==> (#[trigger] r@[k]).0 < cfg.blocks@.len(),
    {
        let ghost before = r@;
        match cfg.blocks[i].terminator {
            Terminator::Fallthrough(t) => {
                if t == b {
                    r.push((i, false));
                }
            },
            Terminator::Jump { target, is_backward } => {
                if target == b {
                    r.push((i, is_backward));
                }
            },
            Terminator::Branch { if_true, if_false } => {
                if if_true == b {
                    r.push((i, false));
                }
                if if_false == b {
                    r.push((i, false));
                }
            },
            Terminator::Return => {},
        }
        assert(r@.map_values(f) =~= before.map_values(f) + edges_to(*cfg, i as int, b as int));
    }
    r
}

/// Where each block's entry stack comes from.
pub fn entry_stack_sources(cfg: &Cfg, depth: &Vec<i32>) -> (r: Vec<EntryStackSource>)
    requires
        depth@.len() == cfg.blocks@.len(),
    ensures
        r@ == entry_sources(*cfg, depth@),
        forall|b: int|
            0 <= b < r@.len() ==> (#[trigger] r@[b] matches EntryStackSource::Inherit(p) ==> p
                < cfg.blocks@.len()),
{
    let mut r: Vec<EntryStackSource> = Vec::new();
    for b in 0..cfg.blocks.len()
        invariant
            depth@.len() == cfg.blocks@.len(),
            r@.len() == b,
            forall|j: int| 0 <= j < b ==> #[trigger] r@[j] == entry_source(*cfg, depth@, j),
            forall|j: int|
                0 <= j < b ==> (#[trigger] r@[j] matches EntryStackSource::Inherit(p) ==> p
                    < cfg.blocks@.len()),
    {
        let ps = predecessors(cfg, b);
        let ghost all = preds(*cfg, b as int, cfg.blocks@.len());
        assert(ps@.len() == all.len());
        assert(ps@.len() > 0 ==> all[0] == (ps@[0].0 as int, ps@[0].1));
        r.push(
            if depth[b] == 0 {
                EntryStackSource::Empty
            } else if ps.len() == 1 && !ps[0].1 {
                EntryStackSource::Inherit(ps[0].0)
            } else {
                EntryStackSource::Merge
            },
        );
    }
    assert(r@ =~= entry_sources(*cfg, depth@));
    r
}

/// The moves that feed merge registers.
pub open spec fn moves(dst: Seq<VReg>, src: Seq<VReg>) -> Seq<Ir<Seq<VReg>>> {
    Seq::new(dst.len(), |i: int| Ir::Move { dst: dst[i], src: src[i] })
}

/// Feeds block `t` from the stack `exit`: nothing to do unless `t` merges.
pub open spec fn feed(
    sources: Seq<EntryStackSource>,
    entry_stacks: Seq<Option<Seq<VReg>>>,
    t: int,
    exit: Seq<VReg>,
    s: SegView,
) -> Option<SegView> {
    if sources[t] is Merge {
        match entry_stacks[t] {
            Some(regs) => if regs.len() == exit.len() {
                Some(SegView { code: s.code + moves(regs, exit), ..s })
            } else {
                None
            },
            None => None,
        }
    } else {
        Some(s)
    }
}

pub open spec fn stack_view(s: Option<Vec<VReg>>) -> Option<Seq<VReg>> {
    match s {
        Some(v) => Some(v@),
        None => None,
    }
}

pub open spec fn stack_views(s: Seq<Option<Vec<VReg>>>) -> Seq<Option<Seq<VReg>>> {
    s.map_values(|x: Option<Vec<VReg>>| stack_view(x))
}

/// Emits the moves that feed block `t`.
pub(crate) fn emit_merges(
    sources: &Vec<EntryStackSource>,
    entry_stacks: &Vec<Option<Vec<VReg>>>,
    t: BlockIndex,
    exit: &Vec<VReg>,
    seg: &mut Seg,
)
    requires
        t < sources@.len(),
        t < entry_stacks@.len(),
        feed(sources@, stack_views(entry_stacks@), t as int, exit@, old(seg)@) is Some,
    ensures
        feed(sources@, stack_views(entry_stacks@), t as int, exit@, old(seg)@) == Some(final(seg)@),
{
    if let EntryStackSource::Merge = sources[t] {
        assert(stack_views(entry_stacks@)[t as int] == stack_view(entry_stacks@[t as int]));
        if let Some(regs) = &entry_stacks[t] {
            let ghost code0 = seg@.code;
            assert(seg@.code =~= code0 + moves(regs@, exit@).take(0));
            for k in 0..regs.len()
                invariant
                    regs@.len() == exit@.len(),
                    seg@.code == code0 + moves(regs@, exit@).take(k as int),
                    seg@.stack == old(seg)@.stack,
                    seg@.deopt == old(seg)@.deopt,
            {
                seg.emit(Ir::Move { dst: regs[k], src: exit[k] });
                assert(seg@.code =~= code0 + moves(regs@, exit@).take(k + 1));
            }
            assert(moves(regs@, exit@).take(regs@.len() as int) =~= moves(regs@, exit@));
        }
    }
}

} // verus!

//! Reachability in a directed graph given by adjacency lists.

use vstd::prelude::*;

verus! {

/// A walk: it starts at one of `starts`, and goes on only from open nodes. Entries of the adjacency
/// lists that are no nodes lead nowhere.
pub open spec fn is_walk(
    adj: Seq<Seq<usize>>,
    open: Seq<bool>,
    starts: Seq<usize>,
    p: Seq<usize>,
) -> bool {
    &&& p.len() > 0
    &&& starts.contains(p[0])
    &&& forall|k: int| 0 <= k < p.len() ==> (#[trigger] p[k]) < adj.len()
    &&& forall|k: int|
        0 <= k < p.len() - 1 ==> open[#[trigger] p[k] as int] && adj[p[k] as int].contains(p[k + 1])
}

pub open spec fn reachable(
    adj: Seq<Seq<usize>>,
    open: Seq<bool>,
    starts: Seq<usize>,
    v: int,
) -> bool {
    exists|p: Seq<usize>| #[trigger] is_walk(adj, open, starts, p) && p.last() == v
}

pub open spec fn lists_view(adj: Seq<Vec<usize>>) -> Seq<Seq<usize>> {
    adj.map_values(|l: Vec<usize>| l@)
}

spec fn count_unset(f: Seq<bool>) -> nat
    decreases f.len(),
{
    if f.len() == 0 {
        0
    } else {
        count_unset(f.drop_last()) + (if f.last() {
            0nat
        } else {
            1
        })
    }
}

proof fn lemma_count_unset(f: Seq<bool>, i: int)
    requires
        0 <= i < f.len(),
        !f[i],
    ensures
        count_unset(f.update(i, true)) < count_unset(f),
    decreases f.len(),
{
    let g = f.update(i, true);
    if i == f.len() - 1 {
        assert(g.drop_last() =~= f.drop_last());
    } else {
        assert(g.drop_last() =~= f.drop_last().update(i, true));
        lemma_count_unset(f.drop_last(), i);
    }
}

pub(crate) proof fn lemma_extend(
    adj: Seq<Seq<usize>>,
    open: Seq<bool>,
    starts: Seq<usize>,
    v: usize,
    w: usize,
)
    requires
        reachable(adj, open, starts, v as int),
        open[v as int],
        w < adj.len(),
        adj[v as int].contains(w),
    ensures
        reachable(adj, open, starts, w as int),
{
    let p = choose|p: Seq<usize>| #[trigger] is_walk(adj, open, starts, p) && p.last() == v;
    let q = p.push(w);
    assert forall|k: int| 0 <= k < q.len() - 1 implies open[#[trigger] q[k] as int]
        && adj[q[k] as int].contains(q[k + 1]) by {
        assert(q[k] == p[k]);
        if k < p.len() - 1 {
            assert(q[k + 1] == p[k + 1]);
        }
    }
    assert(is_walk(adj, open, starts, q));
    assert(q.last() == w);
}

proof fn lemma_closed(
    adj: Seq<Seq<usize>>,
    open: Seq<bool>,
    starts: Seq<usize>,
    f: Seq<bool>,
    p: Seq<usize>,
)
    requires
        f.len() == adj.len(),
        forall|k: int|
            0 <= k < starts.len() && (#[trigger] starts[k]) < adj.len() ==> f[starts[k] as int],
        forall|v: int, j: int|
            #![trigger adj[v][j]]
            0 <= v < adj.len() && f[v] && open[v] && 0 <= j < adj[v].len() && adj[v][j] < adj.len()
                ==> f[adj[v][j] as int],
        is_walk(adj, open, starts, p),
    ensures
        f[p.last() as int],
    decreases p.len(),
{
    if p.len() == 1 {
        let k = choose|k: int| 0 <= k < starts.len() && starts[k] == p[0];
        assert(starts[k] < adj.len());
    } else {
        let q = p.drop_last();
        assert forall|k: int| 0 <= k < q.len() - 1 implies open[#[trigger] q[k] as int]
            && adj[q[k] as int].contains(q[k + 1]) by {
            assert(q[k] == p[k]);
            assert(q[k + 1] == p[k + 1]);
        }
        assert forall|k: int| 0 <= k < q.len() implies (#[trigger] q[k]) < adj.len() by {
            assert(q[k] == p[k]);
        }
        lemma_closed(adj, open, starts, f, q);
        let v = p[p.len() - 2];
        assert(open[v as int] && adj[v as int].contains(p[p.len() - 2 + 1]));
        let j = choose|j: int|
            0 <= j < adj[v as int].len() && adj[v as int][j] == p.last();
        assert(adj[v as int][j] < adj.len());
    }
}

/// The nodes that can be reached.
pub(crate) fn reach(adj: &Vec<Vec<usize>>, open: &Vec<bool>, starts: &Vec<usize>) -> (r: Vec<bool>)
    requires
        open@.len() == adj@.len(),
    ensures
        r@.len() == adj@.len(),
        forall|v: int|
            0 <= v < r@.len() ==> #[trigger] r@[v] == reachable(
                lists_view(adj@),
                open@,
                starts@,
                v,
            ),
{
    let n: usize = adj.len();
    let ghost av = lists_view(adj@);
    let mut f: Vec<bool> = Vec::new();
    for i in 0..n
        invariant
            f@.len() == i,
            forall|j: int| 0 <= j < i ==> !#[trigger] f@[j],
    {
        f.push(false);
    }
    let mut work: Vec<usize> = Vec::new();
    for k in 0..starts.len()
        invariant
            n == adj@.len(),
            av == lists_view(adj@),
            f@.len() == n,
            forall|v: int| 0 <= v < n && #[trigger] f@[v] ==> reachable(av, open@, starts@, v),
            forall|j: int|
                0 <= j < k && (#[trigger] starts@[j]) < n ==> f@[starts@[j] as int],
            forall|j: int| 0 <= j < work@.len() ==> (#[trigger] work@[j]) < n,
            forall|j: int| 0 <= j < work@.len() ==> f@[(#[trigger] work@[j]) as int],
            forall|v: int| 0 <= v < n && #[trigger] f@[v] ==> work@.contains(v as usize),
    {
        let s: usize = starts[k];
        if s < n && !f[s] {
            let ghost f0 = f@;
            let ghost w0 = work@;
            f[s] = true;
            work.push(s);
            proof {
                let p = seq![s];
                assert(starts@[k as int] == s);
                assert(is_walk(av, open@, starts@, p) && p.last() == s);
                assert forall|v: int| 0 <= v < n && #[trigger] f@[v] implies work@.contains(
                    v as usize,
                ) by {
                    if v == s {
                        assert(work@[work@.len() - 1] == s);
                    } else {
                        assert(f0[v]);
                        let j = choose|j: int| 0 <= j < w0.len() && w0[j] == v as usize;
                        assert(work@[j] == v as usize);
                    }
                }
            }
        }
    }
    let ghost mut done: Set<int> = Set::empty();
    while work.len() > 0
        invariant
            n == adj@.len(),
            n == open@.len(),
            av == lists_view(adj@),
            f@.len() == n,
            forall|v: int| 0 <= v < n && #[trigger] f@[v] ==> reachable(av, open@, starts@, v),
            forall|j: int|
                0 <= j < starts@.len() && (#[trigger] starts@[j]) < n ==> f@[starts@[j] as int],
            forall|j: int| 0 <= j < work@.len() ==> (#[trigger] work@[j]) < n,
            forall|j: int| 0 <= j < work@.len() ==> f@[(#[trigger] work@[j]) as int],
            forall|v: int|
                0 <= v < n && #[trigger] f@[v] ==> work@.contains(v as usize) || done.contains(v),
            forall|v: int, j: int|
                #![trigger done.contains(v), av[v][j]]
                0 <= v < n && done.contains(v) && open@[v] && 0 <= j < av[v].len() && av[v][j] < n
                    ==> f@[av[v][j] as int],
        decreases count_unset(f@), work@.len(),
    {
        let ghost w0 = work@;
        let ghost f0 = f@;
        let v: usize = work.pop().unwrap();
        assert(w0[w0.len() - 1] == v);
        assert(f@[v as int]);
        assert(av[v as int] == adj@[v as int]@);
        proof {
            assert forall|u: int| 0 <= u < n && #[trigger] f@[u] implies work@.contains(
                u as usize,
            ) || done.contains(u) || u == v by {
                if u != v && w0.contains(u as usize) {
                    let j = choose|j: int| 0 <= j < w0.len() && w0[j] == u as usize;
                    assert(work@[j] == u as usize);
                }
            }
        }
        if open[v] {
            let m: usize = adj[v].len();
            for j in 0..m
                invariant
                    n == adj@.len(),
                    n == open@.len(),
                    v < n,
                    open@[v as int],
                    m == adj@[v as int]@.len(),
                    av == lists_view(adj@),
                    av[v as int] == adj@[v as int]@,
                    f@.len() == n,
                    f@[v as int],
                    forall|u: int|
                        0 <= u < n && #[trigger] f@[u] ==> reachable(av, open@, starts@, u),
                    forall|i: int|
                        0 <= i < starts@.len() && (#[trigger] starts@[i]) < n
                            ==> f@[starts@[i] as int],
                    forall|i: int| 0 <= i < work@.len() ==> (#[trigger] work@[i]) < n,
                    forall|i: int| 0 <= i < work@.len() ==> f@[(#[trigger] work@[i]) as int],
                    forall|u: int|
                        0 <= u < n && #[trigger] f@[u] ==> work@.contains(u as usize)
                            || done.contains(u) || u == v,
                    forall|u: int, i: int|
                        #![trigger done.contains(u), av[u][i]]
                        0 <= u < n && done.contains(u) && open@[u] && 0 <= i < av[u].len()
                            && av[u][i] < n ==> f@[av[u][i] as int],
                    forall|i: int|
                        0 <= i < j && (#[trigger] av[v as int][i]) < n ==> f@[av[v as int][i] as int],
                    f@ == f0 && work@ == w0.drop_last() || count_unset(f@) < count_unset(f0),
            {
                let w: usize = adj[v][j];
                assert(av[v as int][j as int] == w);
                if w < n && !f[w] {
                    let ghost f1 = f@;
                    let ghost w1 = work@;
                    proof {
                        lemma_count_unset(f@, w as int);
                        lemma_extend(av, open@, starts@, v, w);
                    }
                    f[w] = true;
                    work.push(w);
                    proof {
                        assert forall|u: int| 0 <= u < n && #[trigger] f@[u] implies work@.contains(
                            u as usize,
                        ) || done.contains(u) || u == v by {
                            if u == w {
                                assert(work@[work@.len() - 1] == w);
                            } else {
                                assert(f1[u]);
                                if w1.contains(u as usize) {
                                    let i = choose|i: int|
                                        0 <= i < w1.len() && w1[i] == u as usize;
                                    assert(work@[i] == u as usize);
                                }
                            }
                        }
                    }
                }
            }
        }
        proof {
            done = done.insert(v as int);
        }
    }
    proof {
        assert forall|v: int| 0 <= v < n implies #[trigger] f@[v] == reachable(
            av,
            open@,
            starts@,
            v,
        ) by {
            if reachable(av, open@, starts@, v) {
                let p = choose|p: Seq<usize>|
                    #[trigger] is_walk(av, open@, starts@, p) && p.last() == v;
                assert forall|u: int, j: int|
                    #![trigger av[u][j]]
                    0 <= u < n && f@[u] && open@[u] && 0 <= j < av[u].len() && av[u][j]
                        < n implies f@[av[u][j] as int] by {
                    assert(done.contains(u));
                }
                lemma_closed(av, open@, starts@, f@, p);
            }
        }
    }
    f
}

} // verus!

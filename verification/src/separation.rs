//! Shortest-path (separation) distances between nodes, by breadth-first
//! search from every source node.

use vstd::prelude::*;
use crate::graph::{Graph, GraphModel};

verus! {

broadcast use vstd::seq_lib::group_seq_properties, vstd::seq_lib::to_multiset_contains;

/// There is a walk from `s` to `t` of at most `k` edges.
pub open spec fn connected_in(m: GraphModel, s: usize, t: usize, k: nat) -> bool
    decreases k,
{
    s == t || (k > 0 && exists|w: usize|
        w < m.n() && m.has_edge(w, t) && connected_in(m, s, w, (k - 1) as nat))
}

/// `t` can be reached from `s` by some walk.
pub open spec fn reachable(m: GraphModel, s: usize, t: usize) -> bool {
    exists|k: nat| connected_in(m, s, t, k)
}

/// `d` is the shortest-path distance from `s` to `t`.
pub open spec fn dist_is(m: GraphModel, s: usize, t: usize, d: nat) -> bool {
    &&& connected_in(m, s, t, d)
    &&& d > 0 ==> !connected_in(m, s, t, (d - 1) as nat)
}

/// The shortest-path distance from `s` to `t` (meaningful when reachable).
pub open spec fn spec_dist(m: GraphModel, s: usize, t: usize) -> nat {
    choose|d: nat| dist_is(m, s, t, d)
}

pub proof fn lemma_connected_monotone(m: GraphModel, s: usize, t: usize, k1: nat, k2: nat)
    requires
        connected_in(m, s, t, k1),
        k1 <= k2,
    ensures
        connected_in(m, s, t, k2),
    decreases k1,
{
    if s != t && k1 > 0 {
        let w = choose|w: usize|
            w < m.n() && m.has_edge(w, t) && connected_in(m, s, w, (k1 - 1) as nat);
        lemma_connected_monotone(m, s, w, (k1 - 1) as nat, (k2 - 1) as nat);
    }
}

/// Shortest-path distance is unique.
pub proof fn lemma_dist_unique(m: GraphModel, s: usize, t: usize, d1: nat, d2: nat)
    requires
        dist_is(m, s, t, d1),
        dist_is(m, s, t, d2),
    ensures
        d1 == d2,
{
    if d1 < d2 {
        lemma_connected_monotone(m, s, t, d1, (d2 - 1) as nat);
    }
    if d2 < d1 {
        lemma_connected_monotone(m, s, t, d2, (d1 - 1) as nat);
    }
}

/// The distance value recorded in a search table entry (`-1` for unreached).
pub open spec fn dval(o: Option<usize>) -> int {
    match o {
        Some(d) => d as int,
        None => -1,
    }
}

/// A search table entry for `t` is correct: a recorded value is the exact
/// shortest-path distance from `s`, and an empty entry means unreachable.
pub open spec fn entry_ok(m: GraphModel, s: usize, t: usize, o: Option<usize>) -> bool {
    match o {
        Some(d) => dist_is(m, s, t, d as nat),
        None => !reachable(m, s, t),
    }
}

/// The recorded neighbor `w` of `u` is reached, at most one step further than `u`.
pub open spec fn edge_ok(m: GraphModel, dst: Seq<Option<usize>>, u: usize, w: usize) -> bool {
    &&& dst[w as int] is Some
    &&& dval(dst[w as int]) <= dval(dst[u as int]) + 1
}

/// The first `upto` adjacency entries of `u` all satisfy `edge_ok`.
pub open spec fn row_done(m: GraphModel, dst: Seq<Option<usize>>, u: usize, upto: int) -> bool {
    forall|k: int| 0 <= k < upto ==> edge_ok(m, dst, u, #[trigger] m.adj[u as int][k])
}

/// A duplicate-free sequence of indices below `n` has at most `n` elements.
proof fn lemma_unique_bounded_len(q: Seq<usize>, n: nat)
    requires
        q.no_duplicates(),
        forall|p: int| 0 <= p < q.len() ==> (#[trigger] q[p]) < n,
    ensures
        q.len() <= n,
{
    let qi = q.map_values(|x: usize| x as int);
    assert forall|i: int, j: int| 0 <= i < qi.len() && 0 <= j < qi.len() && i != j
        implies qi[i] != qi[j] by {
        assert(q[i] != q[j]);
    }
    assert(qi.no_duplicates());
    qi.unique_seq_to_set();
    assert(qi.to_set().subset_of(vstd::set_lib::set_int_range(0, n as int))) by {
        assert forall|x: int| qi.to_set().contains(x)
            implies vstd::set_lib::set_int_range(0, n as int).contains(x) by {
            let p = choose|p: int| 0 <= p < qi.len() && qi[p] == x;
            assert(q[p] < n);
        }
    }
    vstd::set_lib::lemma_int_range(0, n as int);
    vstd::set_lib::lemma_len_subset(qi.to_set(), vstd::set_lib::set_int_range(0, n as int));
}

/// In a table closed under `edge_ok`, every node within `k` steps of `s` is
/// reached, with a recorded value of at most `k`.
proof fn lemma_bfs_closure(m: GraphModel, s: usize, dst: Seq<Option<usize>>, k: nat)
    requires
        m.wf(),
        s < m.n(),
        dst.len() == m.n(),
        dst[s as int] == Some(0usize),
        forall|u: usize| u < m.n() && dst[u as int] is Some
            ==> row_done(m, dst, u, m.adj[u as int].len() as int),
    ensures
        forall|t: usize|
            t < m.n() && connected_in(m, s, t, k)
                ==> dst[t as int] is Some && dval(dst[t as int]) <= k,
    decreases k,
{
    if k > 0 {
        lemma_bfs_closure(m, s, dst, (k - 1) as nat);
        assert forall|t: usize|
            t < m.n() && connected_in(m, s, t, k)
            implies dst[t as int] is Some && dval(dst[t as int]) <= k by {
            if t != s {
                let w = choose|w: usize|
                    w < m.n() && m.has_edge(w, t) && connected_in(m, s, w, (k - 1) as nat);
                assert(dst[w as int] is Some && dval(dst[w as int]) <= k - 1);
                m.lemma_edge_symmetric(w, t);
                assert(m.adj[w as int].contains(t));
                let kk = choose|kk: int| 0 <= kk < m.adj[w as int].len() && m.adj[w as int][kk] == t;
                assert(edge_ok(m, dst, w, m.adj[w as int][kk]));
            }
        }
    }
}

/// The separation distances recorded from source `s` against targets `0..t`:
/// one entry per reachable target other than `s` itself, in target order.
pub open spec fn row_dists_upto(m: GraphModel, s: usize, t: int) -> Seq<nat>
    decreases t,
{
    if t <= 0 {
        Seq::empty()
    } else {
        row_dists_upto(m, s, t - 1) + if t - 1 != s && reachable(m, s, (t - 1) as usize) {
            seq![spec_dist(m, s, (t - 1) as usize)]
        } else {
            Seq::empty()
        }
    }
}

/// All separation distances recorded from sources `0..k`, concatenated.
pub open spec fn sample_upto(m: GraphModel, k: int) -> Seq<nat>
    decreases k,
{
    if k <= 0 {
        Seq::empty()
    } else {
        sample_upto(m, k - 1) + row_dists_upto(m, (k - 1) as usize, m.n() as int)
    }
}

/// The full separation sample of the graph: for every ordered pair `(s, t)`
/// of distinct nodes with `t` reachable from `s`, the shortest-path distance
/// from `s` to `t`. Each unordered pair therefore contributes twice.
pub open spec fn separation_sample(m: GraphModel) -> Seq<nat> {
    sample_upto(m, m.n() as int)
}

/// Collect the full separation sample of `g`: runs a breadth-first search
/// from every node and records every finite, strictly positive distance.
#[verifier::loop_isolation(false)]
pub fn collect_separations(g: &Graph) -> (sample: Vec<usize>)
    requires
        g@.wf(),
    ensures
        sample@.map_values(|d: usize| d as nat) == separation_sample(g@),
{
    let n: usize = g.node_count();
    let mut sample: Vec<usize> = Vec::new();
    proof {
        assert(sample@.map_values(|d: usize| d as nat) =~= sample_upto(g@, 0));
    }
    let mut s: usize = 0;
    while s < n
        invariant
            s <= n,
            sample@.map_values(|d: usize| d as nat) == sample_upto(g@, s as int),
        decreases n - s,
    {
        let dst = bfs_distances(g, s);
        let mut t: usize = 0;
        proof {
            assert(sample@.map_values(|d: usize| d as nat)
                =~= sample_upto(g@, s as int) + row_dists_upto(g@, s, 0));
        }
        while t < n
            invariant
                t <= n,
                sample@.map_values(|d: usize| d as nat)
                    == sample_upto(g@, s as int) + row_dists_upto(g@, s, t as int),
            decreases n - t,
        {
            let ghost pre = sample@;
            match dst[t] {
                Some(d) => {
                    if t != s {
                        sample.push(d);
                        proof {
                            assert(entry_ok(g@, s, t, dst@[t as int]));
                            assert(dist_is(g@, s, t, d as nat));
                            assert(connected_in(g@, s, t, d as nat));
                            assert(reachable(g@, s, t));
                            assert(dist_is(g@, s, t, spec_dist(g@, s, t)));
                            lemma_dist_unique(g@, s, t, d as nat, spec_dist(g@, s, t));
                            assert(sample@.map_values(|x: usize| x as nat)
                                =~= pre.map_values(|x: usize| x as nat).push(d as nat));
                            assert(sample@.map_values(|x: usize| x as nat)
                                =~= sample_upto(g@, s as int) + row_dists_upto(g@, s, t + 1));
                        }
                    } else {
                        proof {
                            assert(row_dists_upto(g@, s, t + 1) =~= row_dists_upto(g@, s, t as int));
                        }
                    }
                },
                None => {
                    proof {
                        assert(entry_ok(g@, s, t, dst@[t as int]));
                        assert(!reachable(g@, s, t));
                        assert(row_dists_upto(g@, s, t + 1) =~= row_dists_upto(g@, s, t as int));
                    }
                },
            }
            t = t + 1;
        }
        proof {
            assert(sample@.map_values(|d: usize| d as nat) =~= sample_upto(g@, s + 1));
        }
        s = s + 1;
    }
    sample
}

/// Single-source shortest-path distances from `s`, by breadth-first search.
/// Entry `t` holds the exact distance, or `None` when `t` is unreachable.
#[verifier::loop_isolation(false)]
pub fn bfs_distances(g: &Graph, s: usize) -> (dst: Vec<Option<usize>>)
    requires
        g@.wf(),
        s < g@.n(),
    ensures
        dst@.len() == g@.n(),
        forall|t: usize| t < g@.n() ==> entry_ok(g@, s, t, #[trigger] dst@[t as int]),
{
    let n: usize = g.node_count();
    let mut dst: Vec<Option<usize>> = vec![None; n];
    let mut q: Vec<usize> = Vec::new();
    dst[s] = Some(0);
    q.push(s);
    let mut h: usize = 0;
    while h < q.len()
        invariant
            dst@.len() == n,
            h <= q@.len(),
            q@.no_duplicates(),
            q@.len() <= n,
            forall|p: int| 0 <= p < q@.len() ==> (#[trigger] q@[p]) < n,
            forall|t: usize| t < n ==> ((#[trigger] dst@[t as int]) is Some <==> q@.contains(t)),
            dst@[s as int] == Some(0usize),
            forall|t: usize|
                t < n && (#[trigger] dst@[t as int]) is Some ==> 0 <= dval(dst@[t as int]) < q@.len(),
            forall|t: usize|
                t < n && (#[trigger] dst@[t as int]) is Some
                    ==> connected_in(g@, s, t, dval(dst@[t as int]) as nat),
            forall|p1: int, p2: int|
                0 <= p1 <= p2 < q@.len()
                    ==> dval(dst@[(#[trigger] q@[p1]) as int]) <= dval(dst@[(#[trigger] q@[p2]) as int]),
            h == 0 ==> q@.len() == 1,
            h > 0 ==> forall|p: int|
                0 <= p < q@.len()
                    ==> dval(dst@[(#[trigger] q@[p]) as int]) <= dval(dst@[q@[h - 1] as int]) + 1,
            forall|p: int|
                0 <= p < h ==> row_done(g@, dst@, #[trigger] q@[p], g@.adj[q@[p] as int].len() as int),
        decreases n - h,
    {
        let u = q[h];
        proof {
            assert(q@.contains(u));
        }
        let du: usize = dst[u].unwrap();
        h = h + 1;
        let deg: usize = g.adj[u].len();
        proof {
            assert(deg == g@.adj[u as int].len());
        }
        let mut k: usize = 0;
        while k < deg
            invariant
                dst@.len() == n,
                h <= q@.len(),
                q@.no_duplicates(),
                q@.len() <= n,
                u < n,
                forall|p: int| 0 <= p < q@.len() ==> (#[trigger] q@[p]) < n,
                forall|t: usize| t < n ==> ((#[trigger] dst@[t as int]) is Some <==> q@.contains(t)),
                dst@[s as int] == Some(0usize),
                forall|t: usize|
                    t < n && (#[trigger] dst@[t as int]) is Some
                        ==> 0 <= dval(dst@[t as int]) < q@.len(),
                forall|t: usize|
                    t < n && (#[trigger] dst@[t as int]) is Some
                        ==> connected_in(g@, s, t, dval(dst@[t as int]) as nat),
                forall|p1: int, p2: int|
                    0 <= p1 <= p2 < q@.len()
                        ==> dval(dst@[(#[trigger] q@[p1]) as int])
                            <= dval(dst@[(#[trigger] q@[p2]) as int]),
                q@[h - 1] == u,
                dst@[u as int] == Some(du),
                forall|p: int|
                    0 <= p < q@.len()
                        ==> dval(dst@[(#[trigger] q@[p]) as int]) <= du + 1,
                forall|p: int|
                    0 <= p < h - 1
                        ==> row_done(g@, dst@, #[trigger] q@[p], g@.adj[q@[p] as int].len() as int),
                row_done(g@, dst@, u, k as int),
            decreases deg - k,
        {
            let w = g.adj[u][k];
            proof {
                assert(w == g@.adj[u as int][k as int]);
                assert(w < n);
            }
            let ghost pre_dst = dst@;
            let ghost pre_q = q@;
            match dst[w] {
                Some(_) => {
                    proof {
                        assert(dst@[w as int] is Some);
                        assert(q@.contains(w));
                        let p = choose|p: int| 0 <= p < q@.len() && q@[p] == w;
                        assert(q@[p] == w);
                        assert(dval(dst@[(q@[p]) as int]) <= du + 1);
                    }
                },
                None => {
                    dst[w] = Some(du + 1);
                    q.push(w);
                    proof {
                        assert(!pre_q.contains(w));
                        assert(q@ == pre_q.push(w));
                        assert(q@.no_duplicates());
                        lemma_unique_bounded_len(q@, n as nat);
                        assert forall|t: usize|
                            t < n implies ((#[trigger] dst@[t as int]) is Some <==> q@.contains(t)) by {
                            if t != w {
                                assert(dst@[t as int] == pre_dst[t as int]);
                                assert(q@.contains(t) <==> pre_q.contains(t));
                            } else {
                                assert(q@[q@.len() - 1] == w);
                            }
                        }
                        assert(connected_in(g@, s, u, du as nat));
                        g@.lemma_edge_symmetric(w, u);
                        assert(g@.adj[u as int].contains(w));
                        assert(g@.has_edge(u, w));
                        assert(connected_in(g@, s, w, (du + 1) as nat));
                        assert forall|t: usize|
                            t < n && (#[trigger] dst@[t as int]) is Some
                            implies connected_in(g@, s, t, dval(dst@[t as int]) as nat) by {
                            if t != w {
                                assert(dst@[t as int] == pre_dst[t as int]);
                            }
                        }
                        assert forall|p: int|
                            0 <= p < h - 1
                            implies row_done(g@, dst@, #[trigger] q@[p],
                                g@.adj[q@[p] as int].len() as int) by {
                            assert(q@[p] == pre_q[p]);
                            assert(row_done(g@, pre_dst, q@[p], g@.adj[q@[p] as int].len() as int));
                            assert forall|kk: int|
                                0 <= kk < g@.adj[q@[p] as int].len()
                                implies edge_ok(g@, dst@, q@[p],
                                    #[trigger] g@.adj[q@[p] as int][kk]) by {
                                let ww = g@.adj[q@[p] as int][kk];
                                assert(edge_ok(g@, pre_dst, q@[p], ww));
                                assert(dst@[ww as int] == pre_dst[ww as int]);
                            }
                        }
                    }
                },
            }
            proof {
                assert forall|kk: int|
                    0 <= kk < k + 1 implies edge_ok(g@, dst@, u, #[trigger] g@.adj[u as int][kk]) by {
                    if kk < k {
                        assert(edge_ok(g@, pre_dst, u, g@.adj[u as int][kk]));
                        let ww = g@.adj[u as int][kk];
                        assert(dst@[ww as int] is Some);
                    } else {
                        assert(g@.adj[u as int][kk] == w);
                    }
                }
            }
            k = k + 1;
        }
        proof {
            assert(row_done(g@, dst@, u, g@.adj[u as int].len() as int));
            assert forall|p: int|
                0 <= p < h implies row_done(g@, dst@, #[trigger] q@[p],
                    g@.adj[q@[p] as int].len() as int) by {
            }
        }
    }
    proof {
        assert forall|t: usize| t < g@.n() implies entry_ok(g@, s, t, #[trigger] dst@[t as int]) by {
            assert forall|u: usize| u < g@.n() && dst@[u as int] is Some
                implies row_done(g@, dst@, u, g@.adj[u as int].len() as int) by {
                let p = choose|p: int| 0 <= p < q@.len() && q@[p] == u;
                assert(row_done(g@, dst@, q@[p], g@.adj[q@[p] as int].len() as int));
            }
            match dst@[t as int] {
                Some(d) => {
                    assert(connected_in(g@, s, t, d as nat));
                    if d > 0 && connected_in(g@, s, t, (d - 1) as nat) {
                        lemma_bfs_closure(g@, s, dst@, (d - 1) as nat);
                        assert(dval(dst@[t as int]) <= d - 1);
                        assert(false);
                    }
                },
                None => {
                    if reachable(g@, s, t) {
                        let kr = choose|kr: nat| connected_in(g@, s, t, kr);
                        lemma_bfs_closure(g@, s, dst@, kr);
                        assert(false);
                    }
                },
            }
        }
    }
    dst
}

}

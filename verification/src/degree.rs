//! Degree of a node and the degree distribution of a graph.
//!
//! The degree of a node is the length of its adjacency row, so parallel
//! edges contribute separately, exactly as they were stored.

use vstd::prelude::*;
use crate::graph::{Graph, GraphModel};

verus! {

/// Degree of node `v`: the number of adjacency entries incident to it.
pub open spec fn degree_of(m: GraphModel, v: int) -> nat {
    m.adj[v].len()
}

/// Number of nodes among `0..k` whose degree is `d`.
pub open spec fn degree_count_upto(m: GraphModel, d: nat, k: int) -> nat
    decreases k,
{
    if k <= 0 {
        0
    } else {
        degree_count_upto(m, d, k - 1) + if degree_of(m, k - 1) == d {
            1nat
        } else {
            0nat
        }
    }
}

/// Number of nodes of the graph whose degree is `d`.
pub open spec fn degree_count(m: GraphModel, d: nat) -> nat {
    degree_count_upto(m, d, m.n() as int)
}

pub proof fn lemma_degree_count_upto_le(m: GraphModel, d: nat, k: int)
    ensures
        degree_count_upto(m, d, k) <= if k <= 0 { 0 } else { k },
    decreases k,
{
    if k > 0 {
        lemma_degree_count_upto_le(m, d, k - 1);
    }
}

/// Some node among `0..k` has degree `d` exactly when the count up to `k` is positive.
pub proof fn lemma_degree_count_upto_pos(m: GraphModel, d: nat, k: int)
    ensures
        degree_count_upto(m, d, k) > 0 <==> exists|v: int| 0 <= v < k && degree_of(m, v) == d,
    decreases k,
{
    if k > 0 {
        lemma_degree_count_upto_pos(m, d, k - 1);
        if degree_of(m, k - 1) == d {
            assert(0 <= k - 1 < k && degree_of(m, k - 1) == d);
        }
    }
}

/// Degree of node `v`.
pub fn degree(g: &Graph, v: usize) -> (d: usize)
    requires
        g@.wf(),
        v < g@.n(),
    ensures
        d == degree_of(g@, v as int),
{
    g.adj[v].len()
}

/// Number of nodes of `g` whose degree is `d`.
pub fn count_nodes_with_degree(g: &Graph, d: usize) -> (cnt: usize)
    requires
        g@.wf(),
    ensures
        cnt == degree_count(g@, d as nat),
{
    let n: usize = g.node_count();
    let mut cnt: usize = 0;
    let mut v: usize = 0;
    while v < n
        invariant
            v <= n == g@.n(),
            g@.wf(),
            cnt == degree_count_upto(g@, d as nat, v as int),
            cnt <= v,
        decreases n - v,
    {
        proof {
            lemma_degree_count_upto_le(g@, d as nat, v as int);
        }
        if g.adj[v].len() == d {
            cnt = cnt + 1;
        }
        v = v + 1;
    }
    cnt
}

/// The degree distribution of `g`: pairs `(degree, number of nodes with that
/// degree)`, listing exactly the degrees that occur, in strictly ascending
/// order of degree.
#[verifier::loop_isolation(false)]
pub fn calculate_degree_distribution(g: &Graph) -> (dist: Vec<(usize, usize)>)
    requires
        g@.wf(),
    ensures
        forall|p: int, q: int|
            #![trigger dist@[p], dist@[q]]
            0 <= p < q < dist@.len() ==> dist@[p].0 < dist@[q].0,
        forall|p: int|
            0 <= p < dist@.len()
                ==> (#[trigger] dist@[p]).1 == degree_count(g@, dist@[p].0 as nat)
                    && dist@[p].1 > 0,
        forall|d: int|
            0 <= d && #[trigger] degree_count(g@, d as nat) > 0
                ==> exists|p: int| 0 <= p < dist@.len() && (#[trigger] dist@[p]).0 == d,
{
    let n: usize = g.node_count();
    let mut dist: Vec<(usize, usize)> = Vec::new();
    let mut v: usize = 0;
    while v < n
        invariant
            v <= n == g@.n(),
            g@.wf(),
            forall|p: int, q: int|
                #![trigger dist@[p], dist@[q]]
                0 <= p < q < dist@.len() ==> dist@[p].0 < dist@[q].0,
            forall|p: int|
                0 <= p < dist@.len()
                    ==> (#[trigger] dist@[p]).1 == degree_count(g@, dist@[p].0 as nat)
                        && dist@[p].1 > 0,
            forall|u: int|
                #![trigger degree_of(g@, u)]
                0 <= u < v
                    ==> exists|p: int|
                        0 <= p < dist@.len() && (#[trigger] dist@[p]).0 == degree_of(g@, u),
        decreases n - v,
    {
        let d = g.adj[v].len();
        let mut present = false;
        let mut pos: usize = 0;
        while pos < dist.len()
            invariant
                pos <= dist@.len(),
                !present ==> forall|p: int| 0 <= p < pos ==> (#[trigger] dist@[p]).0 != d,
                present ==> pos < dist@.len() && dist@[pos as int].0 == d,
            decreases dist@.len() - pos,
        {
            if dist[pos].0 == d {
                present = true;
                break;
            }
            pos = pos + 1;
        }
        if !present {
            let cnt = count_nodes_with_degree(g, d);
            proof {
                assert(0 <= v < g@.n() && degree_of(g@, v as int) == d as nat);
                lemma_degree_count_upto_pos(g@, d as nat, g@.n() as int);
            }
            let mut ins: usize = 0;
            while ins < dist.len() && dist[ins].0 < d
                invariant
                    ins <= dist@.len(),
                    forall|p: int| 0 <= p < ins ==> (#[trigger] dist@[p]).0 < d,
                decreases dist@.len() - ins,
            {
                ins = ins + 1;
            }
            proof {
                if ins < dist@.len() {
                    assert(dist@[ins as int].0 != d);
                }
            }
            let ghost pre = dist@;
            dist.insert(ins, (d, cnt));
            proof {
                assert(forall|p: int|
                    0 <= p < ins ==> dist@[p] == pre[p]);
                assert(forall|p: int|
                    ins < p < dist@.len() ==> dist@[p] == pre[p - 1]);
                assert(dist@[ins as int] == (d, cnt));
                assert forall|p: int, q: int|
                    #![trigger dist@[p], dist@[q]]
                    0 <= p < q < dist@.len() implies dist@[p].0 < dist@[q].0 by {
                    if q == ins {
                        assert(dist@[p] == pre[p]);
                    } else if p == ins && q > ins {
                        assert(dist@[q] == pre[q - 1]);
                        assert(pre[q - 1].0 >= d);
                    }
                }
                assert forall|u: int|
                    #![trigger degree_of(g@, u)]
                    0 <= u < v + 1 implies exists|p: int|
                        0 <= p < dist@.len() && (#[trigger] dist@[p]).0 == degree_of(g@, u) by {
                    if u < v {
                        let p0 = choose|p: int|
                            0 <= p < pre.len() && (#[trigger] pre[p]).0 == degree_of(g@, u);
                        if p0 < ins {
                            assert(dist@[p0].0 == degree_of(g@, u));
                        } else {
                            assert(dist@[p0 + 1].0 == degree_of(g@, u));
                        }
                    } else {
                        assert(dist@[ins as int].0 == degree_of(g@, u));
                    }
                }
            }
        } else {
            proof {
                assert forall|u: int|
                    #![trigger degree_of(g@, u)]
                    0 <= u < v + 1 implies exists|p: int|
                        0 <= p < dist@.len() && (#[trigger] dist@[p]).0 == degree_of(g@, u) by {
                    if u == v {
                        assert(dist@[pos as int].0 == degree_of(g@, u));
                    }
                }
            }
        }
        v = v + 1;
    }
    proof {
        assert forall|d: int|
            0 <= d && #[trigger] degree_count(g@, d as nat) > 0
            implies exists|p: int| 0 <= p < dist@.len() && (#[trigger] dist@[p]).0 == d by {
            lemma_degree_count_upto_pos(g@, d as nat, g@.n() as int);
            let u = choose|u: int| 0 <= u < g@.n() && degree_of(g@, u) == d as nat;
            assert(exists|p: int|
                0 <= p < dist@.len() && (#[trigger] dist@[p]).0 == degree_of(g@, u));
        }
    }
    dist
}



/// `k` appears as a key in the table `r`.
pub open spec fn has_key(r: Seq<(usize, usize)>, k: usize) -> bool {
    exists|p: int| 0 <= p < r.len() && (#[trigger] r[p]).0 == k
}

/// The properties guaranteed by [`calculate_degree_distribution`] determine
/// its result completely: any two tables with those properties for the same
/// graph are identical, so recomputing the distribution of an unmodified
/// graph can only ever reproduce the same value.
pub proof fn lemma_degree_distribution_deterministic(
    m: GraphModel,
    r1: Seq<(usize, usize)>,
    r2: Seq<(usize, usize)>,
)
    requires
        forall|p: int, q: int|
            #![trigger r1[p], r1[q]]
            0 <= p < q < r1.len() ==> r1[p].0 < r1[q].0,
        forall|p: int, q: int|
            #![trigger r2[p], r2[q]]
            0 <= p < q < r2.len() ==> r2[p].0 < r2[q].0,
        forall|p: int|
            0 <= p < r1.len()
                ==> (#[trigger] r1[p]).1 == degree_count(m, r1[p].0 as nat) && r1[p].1 > 0,
        forall|p: int|
            0 <= p < r2.len()
                ==> (#[trigger] r2[p]).1 == degree_count(m, r2[p].0 as nat) && r2[p].1 > 0,
        forall|d: int|
            0 <= d && #[trigger] degree_count(m, d as nat) > 0
                ==> exists|p: int| 0 <= p < r1.len() && (#[trigger] r1[p]).0 == d,
        forall|d: int|
            0 <= d && #[trigger] degree_count(m, d as nat) > 0
                ==> exists|p: int| 0 <= p < r2.len() && (#[trigger] r2[p]).0 == d,
    ensures
        r1 == r2,
{
    assert forall|k: usize| #[trigger] has_key(r1, k) <==> has_key(r2, k) by {
        let d = k as int;
        if has_key(r1, k) {
            let p = choose|p: int| 0 <= p < r1.len() && (#[trigger] r1[p]).0 == k;
            assert(r1[p].1 == degree_count(m, r1[p].0 as nat));
            assert(degree_count(m, d as nat) > 0);
            let q = choose|q: int| 0 <= q < r2.len() && (#[trigger] r2[q]).0 == d;
            assert(0 <= q < r2.len() && r2[q].0 == k);
            assert(has_key(r2, k));
        }
        if has_key(r2, k) {
            let q = choose|q: int| 0 <= q < r2.len() && (#[trigger] r2[q]).0 == k;
            assert(r2[q].1 == degree_count(m, r2[q].0 as nat));
            assert(degree_count(m, d as nat) > 0);
            let p = choose|p: int| 0 <= p < r1.len() && (#[trigger] r1[p]).0 == d;
            assert(0 <= p < r1.len() && r1[p].0 == k);
            assert(has_key(r1, k));
        }
    }
    lemma_sorted_keyed_unique(m, r1, r2);
}

/// Strictly key-sorted tables with the same key membership, whose entries are
/// each determined by their key, are identical.
proof fn lemma_sorted_keyed_unique(m: GraphModel, r1: Seq<(usize, usize)>, r2: Seq<(usize, usize)>)
    requires
        forall|p: int, q: int|
            #![trigger r1[p], r1[q]]
            0 <= p < q < r1.len() ==> r1[p].0 < r1[q].0,
        forall|p: int, q: int|
            #![trigger r2[p], r2[q]]
            0 <= p < q < r2.len() ==> r2[p].0 < r2[q].0,
        forall|p: int|
            0 <= p < r1.len() ==> (#[trigger] r1[p]).1 == degree_count(m, r1[p].0 as nat),
        forall|p: int|
            0 <= p < r2.len() ==> (#[trigger] r2[p]).1 == degree_count(m, r2[p].0 as nat),
        forall|k: usize| #[trigger] has_key(r1, k) <==> has_key(r2, k),
    ensures
        r1 == r2,
    decreases r1.len(),
{
    if r1.len() == 0 {
        if r2.len() > 0 {
            assert(has_key(r2, r2[0].0));
            assert(has_key(r1, r2[0].0));
            let p = choose|p: int| 0 <= p < r1.len() && (#[trigger] r1[p]).0 == r2[0].0;
            assert(false);
        }
        assert(r1 =~= r2);
    } else {
        assert(has_key(r1, r1[0].0));
        assert(has_key(r2, r1[0].0));
        let q0 = choose|q: int| 0 <= q < r2.len() && (#[trigger] r2[q]).0 == r1[0].0;
        assert(r2.len() > 0);
        assert(r2[0].0 <= r2[q0].0);
        assert(has_key(r2, r2[0].0));
        assert(has_key(r1, r2[0].0));
        let p0 = choose|p: int| 0 <= p < r1.len() && (#[trigger] r1[p]).0 == r2[0].0;
        assert(r1[0].0 <= r1[p0].0);
        assert(r1[0].0 == r2[0].0);
        assert(r1[0].1 == r2[0].1);
        let t1 = r1.drop_first();
        let t2 = r2.drop_first();
        assert forall|k: usize| #[trigger] has_key(t1, k) <==> has_key(t2, k) by {
            if has_key(t1, k) {
                let p = choose|p: int| 0 <= p < t1.len() && (#[trigger] t1[p]).0 == k;
                assert(r1[p + 1].0 == k);
                assert(has_key(r1, k));
                assert(r1[0].0 < k);
                assert(has_key(r2, k));
                let q = choose|q: int| 0 <= q < r2.len() && (#[trigger] r2[q]).0 == k;
                assert(q > 0);
                assert(t2[q - 1].0 == k);
                assert(has_key(t2, k));
            }
            if has_key(t2, k) {
                let q = choose|q: int| 0 <= q < t2.len() && (#[trigger] t2[q]).0 == k;
                assert(r2[q + 1].0 == k);
                assert(has_key(r2, k));
                assert(r2[0].0 < k);
                assert(has_key(r1, k));
                let p = choose|p: int| 0 <= p < r1.len() && (#[trigger] r1[p]).0 == k;
                assert(p > 0);
                assert(t1[p - 1].0 == k);
                assert(has_key(t1, k));
            }
        }
        assert(forall|p: int, q: int|
            #![trigger t1[p], t1[q]]
            0 <= p < q < t1.len() ==> t1[p].0 < t1[q].0);
        assert(forall|p: int, q: int|
            #![trigger t2[p], t2[q]]
            0 <= p < q < t2.len() ==> t2[p].0 < t2[q].0);
        assert(forall|p: int|
            0 <= p < t1.len() ==> (#[trigger] t1[p]).1 == degree_count(m, t1[p].0 as nat));
        assert(forall|p: int|
            0 <= p < t2.len() ==> (#[trigger] t2[p]).1 == degree_count(m, t2[p].0 as nat));
        lemma_sorted_keyed_unique(m, t1, t2);
        assert(r1.len() == r2.len());
        assert forall|i: int| 0 <= i < r1.len() implies r1[i] == r2[i] by {
            if i == 0 {
                assert(r1[0].0 == r2[0].0 && r1[0].1 == r2[0].1);
            } else {
                assert(t1[i - 1] == r1[i]);
                assert(t2[i - 1] == r2[i]);
                assert(t1[i - 1] == t2[i - 1]);
            }
        }
        assert(r1 =~= r2);
    }
}


/// Sum of degree times count over a distribution table.
pub open spec fn table_weight(t: Seq<(usize, usize)>) -> nat
    decreases t.len(),
{
    if t.len() == 0 {
        0
    } else {
        table_weight(t.drop_last()) + (t.last().0 as nat) * (t.last().1 as nat)
    }
}

/// `table_weight` with every count restricted to the nodes `0..k`.
pub open spec fn partial_weight(m: GraphModel, t: Seq<(usize, usize)>, k: int) -> nat
    decreases t.len(),
{
    if t.len() == 0 {
        0
    } else {
        partial_weight(m, t.drop_last(), k)
            + (t.last().0 as nat) * degree_count_upto(m, t.last().0 as nat, k)
    }
}

proof fn lemma_partial_weight_zero(m: GraphModel, t: Seq<(usize, usize)>)
    ensures
        partial_weight(m, t, 0) == 0,
    decreases t.len(),
{
    if t.len() > 0 {
        lemma_partial_weight_zero(m, t.drop_last());
        assert(degree_count_upto(m, t.last().0 as nat, 0) == 0);
    }
}

/// Extending the node range by one node raises the partial weight by that
/// node's degree when the degree has an entry, and not at all otherwise.
proof fn lemma_partial_weight_step(m: GraphModel, t: Seq<(usize, usize)>, k: int)
    requires
        0 <= k,
        forall|p: int, q: int|
            #![trigger t[p], t[q]]
            0 <= p < q < t.len() ==> t[p].0 != t[q].0,
    ensures
        has_key(t, degree_of(m, k) as usize) && degree_of(m, k) <= usize::MAX
            ==> partial_weight(m, t, k + 1) == partial_weight(m, t, k) + degree_of(m, k),
        !(has_key(t, degree_of(m, k) as usize) && degree_of(m, k) <= usize::MAX)
            ==> partial_weight(m, t, k + 1) == partial_weight(m, t, k),
    decreases t.len(),
{
    let d0 = degree_of(m, k);
    if t.len() > 0 {
        let rest = t.drop_last();
        let last = t.last();
        lemma_partial_weight_step(m, rest, k);
        let c = degree_count_upto(m, last.0 as nat, k);
        if last.0 == d0 {
            assert(degree_count_upto(m, last.0 as nat, k + 1) == c + 1);
            assert(last.0 * (c + 1) == last.0 * c + last.0) by (nonlinear_arith);
            assert(t[t.len() - 1].0 == d0 as usize);
            assert(has_key(t, d0 as usize));
            assert(!has_key(rest, d0 as usize)) by {
                if has_key(rest, d0 as usize) {
                    let p = choose|p: int|
                        0 <= p < rest.len() && (#[trigger] rest[p]).0 == d0 as usize;
                    assert(t[p].0 == t[t.len() - 1].0);
                }
            }
        } else {
            assert(degree_count_upto(m, last.0 as nat, k + 1) == c);
            assert(has_key(t, d0 as usize)
                == (has_key(rest, d0 as usize) || last.0 == d0 as usize)) by {
                if has_key(t, d0 as usize) {
                    let p = choose|p: int| 0 <= p < t.len() && (#[trigger] t[p]).0 == d0 as usize;
                    if p < t.len() - 1 {
                        assert(rest[p].0 == d0 as usize);
                        assert(has_key(rest, d0 as usize));
                    }
                }
                if has_key(rest, d0 as usize) {
                    let p = choose|p: int|
                        0 <= p < rest.len() && (#[trigger] rest[p]).0 == d0 as usize;
                    assert(t[p].0 == d0 as usize);
                    assert(has_key(t, d0 as usize));
                }
            }
        }
    } else {
        assert(!has_key(t, d0 as usize)) by {
            if has_key(t, d0 as usize) {
                let p = choose|p: int| 0 <= p < t.len() && (#[trigger] t[p]).0 == d0 as usize;
            }
        }
    }
}

/// Over all nodes, the partial weight of a complete table is the total
/// number of adjacency entries.
proof fn lemma_partial_weight_total(m: GraphModel, t: Seq<(usize, usize)>, k: int)
    requires
        0 <= k <= m.n(),
        m.adj.len() == m.n(),
        forall|p: int, q: int|
            #![trigger t[p], t[q]]
            0 <= p < q < t.len() ==> t[p].0 != t[q].0,
        forall|d: int|
            0 <= d && #[trigger] degree_count(m, d as nat) > 0
                ==> exists|p: int| 0 <= p < t.len() && (#[trigger] t[p]).0 == d,
    ensures
        partial_weight(m, t, k) == crate::graph::total_adjacency(m.adj, k),
    decreases k,
{
    if k == 0 {
        lemma_partial_weight_zero(m, t);
    } else {
        lemma_partial_weight_total(m, t, k - 1);
        lemma_partial_weight_step(m, t, k - 1);
        let d0 = degree_of(m, k - 1);
        lemma_degree_count_upto_pos(m, d0, m.n() as int);
        assert(0 <= k - 1 < m.n() && degree_of(m, k - 1) == d0);
        let di: int = d0 as int;
        assert(di as nat == d0);
        assert(degree_count(m, di as nat) > 0);
        assert(exists|p: int| 0 <= p < t.len() && (#[trigger] t[p]).0 == di);
        let p = choose|p: int| 0 <= p < t.len() && (#[trigger] t[p]).0 == di;
        assert(0 <= p < t.len() && t[p].0 == di);
        assert(t[p].0 == d0);
        assert(d0 <= usize::MAX);
        assert(has_key(t, d0 as usize));
    }
}

/// With every count taken over the whole graph, the partial weight is the
/// plain table weight.
proof fn lemma_partial_weight_full(m: GraphModel, t: Seq<(usize, usize)>)
    requires
        forall|p: int|
            0 <= p < t.len() ==> (#[trigger] t[p]).1 == degree_count(m, t[p].0 as nat),
    ensures
        partial_weight(m, t, m.n() as int) == table_weight(t),
    decreases t.len(),
{
    if t.len() > 0 {
        assert(t[t.len() - 1].1 == degree_count(m, t[t.len() - 1].0 as nat));
        lemma_partial_weight_full(m, t.drop_last());
    }
}

/// The handshake identity: over any table with the properties that
/// [`calculate_degree_distribution`] guarantees, the degrees weighted by
/// their counts add up to twice the number of recorded edges.
pub proof fn lemma_distribution_handshake(m: GraphModel, t: Seq<(usize, usize)>)
    requires
        m.wf(),
        forall|p: int, q: int|
            #![trigger t[p], t[q]]
            0 <= p < q < t.len() ==> t[p].0 < t[q].0,
        forall|p: int|
            0 <= p < t.len()
                ==> (#[trigger] t[p]).1 == degree_count(m, t[p].0 as nat) && t[p].1 > 0,
        forall|d: int|
            0 <= d && #[trigger] degree_count(m, d as nat) > 0
                ==> exists|p: int| 0 <= p < t.len() && (#[trigger] t[p]).0 == d,
    ensures
        table_weight(t) == 2 * m.edges,
{
    assert forall|p: int, q: int|
        #![trigger t[p], t[q]]
        0 <= p < q < t.len() implies t[p].0 != t[q].0 by {
    }
    lemma_partial_weight_total(m, t, m.n() as int);
    lemma_partial_weight_full(m, t);
}

}

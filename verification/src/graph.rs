//! An undirected, unweighted graph over densely indexed nodes, built from
//! parsed edge-list lines.
//!
//! Node names are byte strings; the first appearance of a name assigns it the
//! next free index. A line whose two tokens differ stores its edge
//! symmetrically: each endpoint is appended to the other's adjacency row.
//! A line whose two tokens are equal names its node but forms no edge:
//! an edge needs two distinct endpoints. Duplicate edges are kept.

use vstd::prelude::*;
use crate::parse::tokens_of;

verus! {

broadcast use vstd::seq_lib::to_multiset_contains, vstd::seq_lib::to_multiset_build, vstd::seq_lib::to_multiset_len, vstd::multiset::group_multiset_axioms, vstd::multiset::group_multiset_properties;

/// Mathematical model of a [`Graph`]: node names by index, adjacency rows by
/// index, and the number of accepted edges.
pub ghost struct GraphModel {
    pub names: Seq<Seq<u8>>,
    pub adj: Seq<Seq<usize>>,
    pub edges: nat,
}

impl GraphModel {
    /// Number of nodes.
    pub open spec fn n(self) -> nat {
        self.names.len()
    }

    pub open spec fn has_node(self, name: Seq<u8>) -> bool {
        exists|i: int| 0 <= i < self.names.len() && self.names[i] == name
    }

    /// The index assigned to `name` (meaningful when `has_node` and names are
    /// distinct, as `wf` guarantees).
    pub open spec fn index_of(self, name: Seq<u8>) -> int {
        choose|i: int| 0 <= i < self.names.len() && self.names[i] == name
    }

    /// `u` appears on `v`'s adjacency row (equivalently, by symmetry, `v` on `u`'s).
    pub open spec fn has_edge(self, u: usize, v: usize) -> bool {
        self.adj[v as int].contains(u)
    }

    /// Well-formedness: rows match nodes, entries are in range, names are
    /// distinct, adjacency is symmetric with multiplicity, and the rows hold
    /// two entries per recorded edge (the handshake identity).
    pub open spec fn wf(self) -> bool {
        &&& self.adj.len() == self.names.len()
        &&& total_adjacency(self.adj, self.adj.len() as int) == 2 * self.edges
        &&& forall|i: int, k: int|
            0 <= i < self.adj.len() && 0 <= k < self.adj[i].len()
                ==> (#[trigger] self.adj[i][k]) < self.names.len()
        &&& forall|i: int, j: int|
            #![trigger self.names[i], self.names[j]]
            0 <= i < j < self.names.len() ==> self.names[i] != self.names[j]
        &&& forall|i: usize, j: usize|
            i < self.adj.len() && j < self.adj.len()
                ==> (#[trigger] self.adj[i as int].to_multiset().count(j))
                    == self.adj[j as int].to_multiset().count(i)
    }

    pub proof fn lemma_edge_symmetric(self, u: usize, v: usize)
        requires
            self.wf(),
            u < self.n(),
            v < self.n(),
        ensures
            self.has_edge(u, v) == self.has_edge(v, u),
    {
        assert(self.adj[v as int].to_multiset().count(u)
            == self.adj[u as int].to_multiset().count(v));
    }
}

/// The model of a graph with no nodes and no edges.
pub open spec fn empty_model() -> GraphModel {
    GraphModel { names: Seq::empty(), adj: Seq::empty(), edges: 0 }
}

/// Look up `name`, or append it as a fresh node with an empty adjacency row.
pub open spec fn model_add_node(m: GraphModel, name: Seq<u8>) -> GraphModel {
    if m.has_node(name) {
        m
    } else {
        GraphModel { names: m.names.push(name), adj: m.adj.push(Seq::empty()), edges: m.edges }
    }
}

/// Total number of entries on the first `k` adjacency rows.
pub open spec fn total_adjacency(adj: Seq<Seq<usize>>, k: int) -> nat
    decreases k,
{
    if k <= 0 {
        0
    } else {
        total_adjacency(adj, k - 1) + adj[k - 1].len()
    }
}

/// A row total only reads the first `k` rows.
pub proof fn lemma_total_adjacency_congruent(adj1: Seq<Seq<usize>>, adj2: Seq<Seq<usize>>, k: int)
    requires
        forall|i: int| 0 <= i < k ==> adj1[i] == adj2[i],
    ensures
        total_adjacency(adj1, k) == total_adjacency(adj2, k),
    decreases k,
{
    if k > 0 {
        lemma_total_adjacency_congruent(adj1, adj2, k - 1);
    }
}

/// Replacing one row changes the total by the difference in row length.
pub proof fn lemma_total_adjacency_update(adj: Seq<Seq<usize>>, i: int, row: Seq<usize>, k: int)
    requires
        0 <= i < k <= adj.len(),
    ensures
        total_adjacency(adj.update(i, row), k) + adj[i].len()
            == total_adjacency(adj, k) + row.len(),
    decreases k,
{
    if i < k - 1 {
        lemma_total_adjacency_update(adj, i, row, k - 1);
        assert(adj.update(i, row)[k - 1] == adj[k - 1]);
    } else {
        assert(forall|j: int| 0 <= j < k - 1 ==> adj.update(i, row)[j] == adj[j]);
        lemma_total_adjacency_congruent(adj.update(i, row), adj, k - 1);
        assert(adj.update(i, row)[k - 1] == row);
    }
}

/// Record an undirected edge between the distinct indices `a` and `b`:
/// one row entry for each endpoint.
pub open spec fn model_add_edge(m: GraphModel, a: int, b: int) -> GraphModel {
    let adj1 = m.adj.update(a, m.adj[a].push(b as usize));
    GraphModel {
        names: m.names,
        adj: adj1.update(b, adj1[b].push(a as usize)),
        edges: m.edges + 1,
    }
}

/// Effect of one raw line: a line with exactly two tokens names its
/// endpoints, assigning each an index as needed, and, when the two tokens
/// differ, records the edge between them. An edge needs two distinct
/// endpoints, so a line naming the same token twice forms none; any other
/// line changes nothing.
pub open spec fn model_step(m: GraphModel, line: Seq<u8>) -> GraphModel {
    let toks = tokens_of(line);
    if toks.len() == 2 {
        let m2 = model_add_node(model_add_node(m, toks[0]), toks[1]);
        if toks[0] != toks[1] {
            model_add_edge(m2, m2.index_of(toks[0]), m2.index_of(toks[1]))
        } else {
            m2
        }
    } else {
        m
    }
}

/// The graph described by a sequence of raw lines, processed in order.
pub open spec fn graph_of(lines: Seq<Seq<u8>>) -> GraphModel
    decreases lines.len(),
{
    if lines.len() == 0 {
        empty_model()
    } else {
        model_step(graph_of(lines.drop_last()), lines.last())
    }
}

/// An undirected, unweighted graph: node names by index and adjacency rows by
/// index, plus the count of accepted edges.
pub struct Graph {
    pub names: Vec<Vec<u8>>,
    pub adj: Vec<Vec<usize>>,
    pub edges: usize,
}

impl View for Graph {
    type V = GraphModel;

    open spec fn view(&self) -> GraphModel {
        GraphModel {
            names: self.names.deep_view(),
            adj: self.adj.deep_view(),
            edges: self.edges as nat,
        }
    }
}

/// A node present in a well-formed extension keeps its index.
pub proof fn lemma_index_of_stable(m: GraphModel, m2: GraphModel, name: Seq<u8>)
    requires
        m2.wf(),
        m.names.len() <= m2.names.len(),
        forall|i: int| 0 <= i < m.names.len() ==> m.names[i] == m2.names[i],
        m.has_node(name),
    ensures
        m2.has_node(name),
        m2.index_of(name) == m.index_of(name),
        0 <= m.index_of(name) < m.names.len(),
{
    let i = m.index_of(name);
    assert(0 <= i < m.names.len() && m.names[i] == name);
    assert(m2.names[i] == name);
    let j = m2.index_of(name);
    assert(0 <= j < m2.names.len() && m2.names[j] == name);
    if i != j {
        assert(m2.names[i] != m2.names[j]);
    }
}

fn bytes_eq(a: &Vec<u8>, b: &Vec<u8>) -> (r: bool)
    ensures
        r == (a@ == b@),
{
    if a.len() != b.len() {
        proof {
            assert(a@ != b@);
        }
        return false;
    }
    let mut i: usize = 0;
    while i < a.len()
        invariant
            i <= a@.len() == b@.len(),
            forall|k: int| 0 <= k < i ==> a@[k] == b@[k],
        decreases a@.len() - i,
    {
        if a[i] != b[i] {
            proof {
                assert(a@[i as int] != b@[i as int]);
            }
            return false;
        }
        i = i + 1;
    }
    proof {
        assert(a@ =~= b@);
    }
    true
}

fn find_node(names: &Vec<Vec<u8>>, name: &Vec<u8>) -> (r: Option<usize>)
    ensures
        match r {
            Some(i) => i < names@.len() && names.deep_view()[i as int] == name@,
            None => forall|k: int| 0 <= k < names@.len() ==> names.deep_view()[k] != name@,
        },
{
    let mut i: usize = 0;
    while i < names.len()
        invariant
            i <= names@.len(),
            forall|k: int| 0 <= k < i ==> names.deep_view()[k] != name@,
        decreases names@.len() - i,
    {
        if bytes_eq(&names[i], name) {
            proof {
                assert(names.deep_view()[i as int] == names@[i as int]@);
            }
            return Some(i);
        }
        proof {
            assert(names.deep_view()[i as int] == names@[i as int]@);
        }
        i = i + 1;
    }
    None
}

impl Graph {
    pub fn node_count(&self) -> (r: usize)
        ensures
            r == self@.n(),
    {
        self.names.len()
    }

    pub fn edge_count(&self) -> (r: usize)
        ensures
            r == self@.edges,
    {
        self.edges
    }

    /// Index of `name`, assigning the next free index if it is new.
    fn get_or_add_node(&mut self, name: Vec<u8>) -> (idx: usize)
        requires
            old(self)@.wf(),
        ensures
            final(self)@ == model_add_node(old(self)@, name@),
            final(self)@.wf(),
            idx < final(self)@.n(),
            final(self)@.names[idx as int] == name@,
            idx as int == final(self)@.index_of(name@),
    {
        let ghost pre = old(self)@;
        match find_node(&self.names, &name) {
            Some(i) => {
                proof {
                    assert(pre.has_node(name@));
                    assert(self@ == model_add_node(pre, name@));
                    lemma_index_of_stable(pre, pre, name@);
                    if pre.index_of(name@) != i {
                        assert(pre.names[pre.index_of(name@)] != pre.names[i as int]);
                    }
                }
                i
            },
            None => {
                let idx = self.names.len();
                self.names.push(name);
                self.adj.push(Vec::new());
                proof {
                    assert(!pre.has_node(name@));
                    assert(self.names.deep_view() =~~= pre.names.push(name@));
                    assert(self.adj.deep_view() =~~= pre.adj.push(Seq::empty()));
                    assert(self@ == model_add_node(pre, name@));
                    let m = self@;
                    let n0 = pre.names.len() as int;
                    assert forall|i: usize, j: usize|
                        i < m.adj.len() && j < m.adj.len()
                        implies (#[trigger] m.adj[i as int].to_multiset().count(j))
                            == m.adj[j as int].to_multiset().count(i) by {
                        if i < n0 && j < n0 {
                            assert(m.adj[i as int] == pre.adj[i as int]);
                            assert(m.adj[j as int] == pre.adj[j as int]);
                        } else {
                            if i < n0 && j == n0 {
                                assert(!m.adj[i as int].contains(j));
                                assert(!m.adj[j as int].contains(i));
                            } else if i == n0 && j < n0 {
                                assert(!m.adj[i as int].contains(j));
                                assert(!m.adj[j as int].contains(i));
                            } else {
                                assert(!m.adj[i as int].contains(j));
                            }
                        }
                    }
                    lemma_total_adjacency_congruent(m.adj, pre.adj, n0);
                    assert(total_adjacency(m.adj, m.adj.len() as int)
                        == total_adjacency(pre.adj, n0) + m.adj[n0].len());
                    assert(m.wf());
                    assert(m.names[idx as int] == name@);
                    lemma_index_of_stable(m, m, name@);
                    if m.index_of(name@) != idx {
                        assert(m.names[m.index_of(name@)] != m.names[idx as int]);
                    }
                }
                idx
            },
        }
    }

    /// Record an undirected edge between the distinct existing indices
    /// `a` and `b`.
    fn add_edge(&mut self, a: usize, b: usize)
        requires
            old(self)@.wf(),
            a < old(self)@.n(),
            b < old(self)@.n(),
            a != b,
            old(self).edges < usize::MAX,
        ensures
            final(self)@ == model_add_edge(old(self)@, a as int, b as int),
            final(self)@.wf(),
    {
        let ghost pre = old(self)@;
        self.adj[a].push(b);
        self.adj[b].push(a);
        proof {
            let adj1 = pre.adj.update(a as int, pre.adj[a as int].push(b));
            assert(self.adj.deep_view() =~~= adj1.update(b as int, adj1[b as int].push(a)));
        }
        self.edges = self.edges + 1;
        proof {
            assert(self@ == model_add_edge(pre, a as int, b as int));
            let m = self@;
            let ai = a as int;
            let bi = b as int;
            let k = m.adj.len() as int;
            assert forall|i: usize, j: usize|
                i < m.adj.len() && j < m.adj.len()
                implies (#[trigger] m.adj[i as int].to_multiset().count(j))
                    == m.adj[j as int].to_multiset().count(i) by {
                assert(pre.adj[i as int].to_multiset().count(j)
                    == pre.adj[j as int].to_multiset().count(i));
                assert(m.adj[ai] == pre.adj[ai].push(b));
                assert(m.adj[bi] == pre.adj[bi].push(a));
                assert(m.adj[ai].to_multiset() =~= pre.adj[ai].to_multiset().insert(b));
                assert(m.adj[bi].to_multiset() =~= pre.adj[bi].to_multiset().insert(a));
            }
            let adj1 = pre.adj.update(ai, pre.adj[ai].push(b));
            lemma_total_adjacency_update(pre.adj, ai, pre.adj[ai].push(b), k);
            lemma_total_adjacency_update(adj1, bi, adj1[bi].push(a), k);
            assert(total_adjacency(m.adj, k) == total_adjacency(pre.adj, k) + 2);
            assert(m.wf());
        }
    }
}

/// Build the graph described by `lines`, processing lines in order.
pub fn build_graph(lines: &Vec<Vec<u8>>) -> (g: Graph)
    ensures
        g@ == graph_of(lines.deep_view()),
        g@.wf(),
{
    let mut g = Graph { names: Vec::new(), adj: Vec::new(), edges: 0 };
    proof {
        assert(g@.names =~= empty_model().names);
        assert(g@.adj =~= empty_model().adj);
        assert(g@ == empty_model());
        assert(lines.deep_view().take(0) =~= Seq::<Seq<u8>>::empty());
    }
    let n: usize = lines.len();
    let mut i: usize = 0;
    while i < n
        invariant
            i <= n == lines@.len(),
            g@.wf(),
            g@ == graph_of(lines.deep_view().take(i as int)),
            g@.edges <= i,
            g.edges == g@.edges,
        decreases n - i,
    {
        let ghost pre = g@;
        let ghost line = lines.deep_view()[i as int];
        proof {
            assert(line == lines@[i as int]@);
        }
        match crate::parse::parse_edge_line(&lines[i]) {
            Some(pair) => {
                let (na, nb) = pair;
                let ghost t0 = tokens_of(line)[0];
                let ghost t1 = tokens_of(line)[1];
                let a = g.get_or_add_node(na);
                let ghost m1 = g@;
                let b = g.get_or_add_node(nb);
                let ghost m2 = g@;
                proof {
                    lemma_index_of_stable(m1, m2, t0);
                    assert(a as int == m2.index_of(t0));
                    assert(b as int == m2.index_of(t1));
                    assert(m2.names[a as int] == t0);
                    assert(m2.names[b as int] == t1);
                    assert(g@.edges == pre.edges);
                }
                if a != b {
                    proof {
                        assert(t0 != t1);
                    }
                    g.add_edge(a, b);
                } else {
                    proof {
                        assert(t0 == t1);
                    }
                }
                proof {
                    assert(g@ == model_step(pre, line));
                }
            },
            None => {
                proof {
                    assert(g@ == model_step(pre, line));
                }
            },
        }
        proof {
            assert(lines.deep_view().take(i + 1).drop_last() =~= lines.deep_view().take(i as int));
            assert(lines.deep_view().take(i + 1).last() == line);
            assert(g@ == graph_of(lines.deep_view().take(i + 1)));
        }
        i = i + 1;
    }
    proof {
        assert(lines.deep_view().take(n as int) =~= lines.deep_view());
    }
    g
}


/// A line names its endpoints exactly when it has two tokens.
pub open spec fn valid_line(line: Seq<u8>) -> bool {
    tokens_of(line).len() == 2
}

/// A line forms an edge exactly when its two tokens are distinct.
pub open spec fn edge_line(line: Seq<u8>) -> bool {
    valid_line(line) && tokens_of(line)[0] != tokens_of(line)[1]
}

/// Number of lines that form an edge.
pub open spec fn edge_line_count(lines: Seq<Seq<u8>>) -> nat {
    lines.filter(|l: Seq<u8>| edge_line(l)).len()
}

/// The edge count of the built graph is the number of two-distinct-token lines.
pub proof fn lemma_graph_of_edges(lines: Seq<Seq<u8>>)
    ensures
        graph_of(lines).edges == edge_line_count(lines),
    decreases lines.len(),
{
    reveal(Seq::filter);
    if lines.len() > 0 {
        lemma_graph_of_edges(lines.drop_last());
    }
}

/// Sequence filtering commutes with passing to the multiset.
proof fn lemma_filter_to_multiset(s: Seq<Seq<u8>>, p: spec_fn(Seq<u8>) -> bool)
    ensures
        s.filter(p).to_multiset() == s.to_multiset().filter(p),
    decreases s.len(),
{
    reveal(Seq::filter);
    if s.len() == 0 {
        assert(s.filter(p) == s);
        assert forall|v: Seq<u8>| s.to_multiset().filter(p).count(v)
            == s.to_multiset().count(v) * 0 + 0 by {
            assert(!s.contains(v));
            assert(s.to_multiset().count(v) == 0);
        }
        assert(s.filter(p).to_multiset() =~= s.to_multiset().filter(p));
    } else {
        let rest = s.drop_last();
        let x = s.last();
        lemma_filter_to_multiset(rest, p);
        assert(s =~= rest.push(x));
        assert(s.to_multiset() == rest.push(x).to_multiset());
        assert(rest.push(x).to_multiset() =~= rest.to_multiset().insert(x));
        if p(x) {
            assert(s.filter(p) == rest.filter(p).push(x));
            assert(rest.filter(p).push(x).to_multiset() =~= rest.filter(p).to_multiset().insert(x));
        } else {
            assert(s.filter(p) == rest.filter(p));
        }
        assert forall|v: Seq<u8>| s.filter(p).to_multiset().count(v)
            == #[trigger] s.to_multiset().filter(p).count(v) by {
        }
        assert(s.filter(p).to_multiset() =~= s.to_multiset().filter(p));
    }
}

/// Some two-token line of `lines` has `name` as one of its endpoints.
pub open spec fn mentions_name(lines: Seq<Seq<u8>>, name: Seq<u8>) -> bool {
    exists|i: int|
        0 <= i < lines.len() && valid_line(#[trigger] lines[i])
            && (tokens_of(lines[i])[0] == name || tokens_of(lines[i])[1] == name)
}

/// The nodes of the built graph are exactly the endpoint names of the
/// two-token lines, each listed once.
pub proof fn lemma_graph_of_names(lines: Seq<Seq<u8>>)
    ensures
        forall|i: int, j: int|
            #![trigger graph_of(lines).names[i], graph_of(lines).names[j]]
            0 <= i < j < graph_of(lines).names.len()
                ==> graph_of(lines).names[i] != graph_of(lines).names[j],
        forall|name: Seq<u8>|
            #[trigger] graph_of(lines).has_node(name) <==> mentions_name(lines, name),
    decreases lines.len(),
{
    let m2 = graph_of(lines);
    if lines.len() == 0 {
        assert forall|name: Seq<u8>|
            #[trigger] m2.has_node(name) <==> mentions_name(lines, name) by {
        }
    } else {
        let rest = lines.drop_last();
        let x = lines.last();
        lemma_graph_of_names(rest);
        let m = graph_of(rest);
        if valid_line(x) {
            let t0 = tokens_of(x)[0];
            let t1 = tokens_of(x)[1];
            let ma = model_add_node(m, t0);
            let mb = model_add_node(ma, t1);
            assert(m2.names == mb.names);
            assert forall|name: Seq<u8>|
                #[trigger] ma.has_node(name) <==> (m.has_node(name) || name == t0) by {
                if ma.has_node(name) && !m.has_node(name) {
                    let i = choose|i: int| 0 <= i < ma.names.len() && ma.names[i] == name;
                    assert(i == m.names.len());
                }
                if m.has_node(name) {
                    let i = choose|i: int| 0 <= i < m.names.len() && m.names[i] == name;
                    assert(ma.names[i] == name);
                }
                if name == t0 && !m.has_node(name) {
                    assert(ma.names[m.names.len() as int] == name);
                }
            }
            assert forall|name: Seq<u8>|
                #[trigger] mb.has_node(name) <==> (ma.has_node(name) || name == t1) by {
                if mb.has_node(name) && !ma.has_node(name) {
                    let i = choose|i: int| 0 <= i < mb.names.len() && mb.names[i] == name;
                    assert(i == ma.names.len());
                }
                if ma.has_node(name) {
                    let i = choose|i: int| 0 <= i < ma.names.len() && ma.names[i] == name;
                    assert(mb.names[i] == name);
                }
                if name == t1 && !ma.has_node(name) {
                    assert(mb.names[ma.names.len() as int] == name);
                }
            }
            assert forall|name: Seq<u8>|
                #[trigger] m2.has_node(name) <==> mentions_name(lines, name) by {
                assert(m2.has_node(name) <==> mb.has_node(name));
                assert(mb.has_node(name) <==> (m.has_node(name) || name == t0 || name == t1));
                assert(lines[lines.len() - 1] == x);
                if m2.has_node(name) {
                    if m.has_node(name) {
                        assert(mentions_name(rest, name));
                        let i = choose|i: int|
                            0 <= i < rest.len() && valid_line(#[trigger] rest[i])
                                && (tokens_of(rest[i])[0] == name || tokens_of(rest[i])[1] == name);
                        assert(lines[i] == rest[i]);
                        assert(mentions_name(lines, name));
                    } else {
                        assert(name == t0 || name == t1);
                        assert(valid_line(lines[lines.len() - 1]));
                        assert(tokens_of(lines[lines.len() - 1])[0] == name
                            || tokens_of(lines[lines.len() - 1])[1] == name);
                        assert(mentions_name(lines, name));
                    }
                }
                if mentions_name(lines, name) {
                    let i = choose|i: int|
                        0 <= i < lines.len() && valid_line(#[trigger] lines[i])
                            && (tokens_of(lines[i])[0] == name || tokens_of(lines[i])[1] == name);
                    if i < lines.len() - 1 {
                        assert(rest[i] == lines[i]);
                        assert(mentions_name(rest, name));
                        assert(m.has_node(name));
                    } else {
                        assert(lines[i] == x);
                        assert(name == t0 || name == t1);
                        assert(mb.has_node(name));
                    }
                    assert(m2.has_node(name));
                }
            }
        } else {
            assert(m2 == m);
            assert forall|name: Seq<u8>|
                #[trigger] m2.has_node(name) <==> mentions_name(lines, name) by {
                if mentions_name(lines, name) {
                    let i = choose|i: int|
                        0 <= i < lines.len() && valid_line(#[trigger] lines[i])
                            && (tokens_of(lines[i])[0] == name || tokens_of(lines[i])[1] == name);
                    assert(i < lines.len() - 1);
                    assert(rest[i] == lines[i]);
                    assert(mentions_name(rest, name));
                }
                if m.has_node(name) {
                    assert(mentions_name(rest, name));
                    let i = choose|i: int|
                        0 <= i < rest.len() && valid_line(#[trigger] rest[i])
                            && (tokens_of(rest[i])[0] == name || tokens_of(rest[i])[1] == name);
                    assert(lines[i] == rest[i]);
                    assert(mentions_name(lines, name));
                }
            }
        }
    }
}

/// Reordering the input lines never changes how many nodes and edges the
/// built graph has, even though it may change which index each name gets.
pub proof fn lemma_counts_order_independent(l1: Seq<Seq<u8>>, l2: Seq<Seq<u8>>)
    requires
        l1.to_multiset() == l2.to_multiset(),
    ensures
        graph_of(l1).n() == graph_of(l2).n(),
        graph_of(l1).edges == graph_of(l2).edges,
{
    let p = |l: Seq<u8>| edge_line(l);
    lemma_graph_of_edges(l1);
    lemma_graph_of_edges(l2);
    lemma_filter_to_multiset(l1, p);
    lemma_filter_to_multiset(l2, p);
    assert(l1.filter(p).len() == l1.filter(p).to_multiset().len());
    assert(l2.filter(p).len() == l2.filter(p).to_multiset().len());
    lemma_graph_of_names(l1);
    lemma_graph_of_names(l2);
    let n1 = graph_of(l1).names;
    let n2 = graph_of(l2).names;
    assert forall|name: Seq<u8>|
        #[trigger] mentions_name(l1, name) <==> mentions_name(l2, name) by {
        if mentions_name(l1, name) {
            lemma_mentions_exchange(l1, l2, name);
        }
        if mentions_name(l2, name) {
            lemma_mentions_exchange(l2, l1, name);
        }
    }
    n1.unique_seq_to_set();
    n2.unique_seq_to_set();
    assert(n1.to_set() =~= n2.to_set()) by {
        assert forall|name: Seq<u8>| n1.contains(name) <==> n2.contains(name) by {
            assert(graph_of(l1).has_node(name) <==> n1.contains(name));
            assert(graph_of(l2).has_node(name) <==> n2.contains(name));
        }
    }
}

/// A name mentioned by some line of `l1` is mentioned by the same line
/// wherever it occurs in `l2`.
proof fn lemma_mentions_exchange(l1: Seq<Seq<u8>>, l2: Seq<Seq<u8>>, name: Seq<u8>)
    requires
        l1.to_multiset() == l2.to_multiset(),
        mentions_name(l1, name),
    ensures
        mentions_name(l2, name),
{
    let i = choose|i: int|
        0 <= i < l1.len() && valid_line(#[trigger] l1[i])
            && (tokens_of(l1[i])[0] == name || tokens_of(l1[i])[1] == name);
    assert(l1.contains(l1[i]));
    assert(l1.to_multiset().count(l1[i]) > 0);
    assert(l2.to_multiset().count(l1[i]) > 0);
    assert(l2.contains(l1[i]));
    let j = choose|j: int| 0 <= j < l2.len() && l2[j] == l1[i];
    assert(valid_line(l2[j]));
}

}

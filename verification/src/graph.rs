//! Undirected graphs as symmetric adjacency rows.

use crate::bits::{bitset_contains, bitset_insert, bitset_len, bitset_members, bitset_with_capacity};
use bit_set::BitSet;
use std::collections::HashMap;
use vstd::prelude::*;

verus! {

/// Whether the pair `e`, whose ends are numbered from one, joins the vertices `u` and
/// `v`, which are numbered from zero.
pub open spec fn joins(e: (usize, usize), u: int, v: int) -> bool {
    (e.0 == u + 1 && e.1 == v + 1) || (e.0 == v + 1 && e.1 == u + 1)
}

/// Whether some pair of `edges` joins `u` and `v`.
pub open spec fn edge_listed(edges: Seq<(usize, usize)>, u: int, v: int) -> bool {
    exists|i: int| 0 <= i < edges.len() && #[trigger] joins(edges[i], u, v)
}

/// Whether both ends of every pair name one of `n` vertices, counted from one.
pub open spec fn edges_in_range(n: int, edges: Seq<(usize, usize)>) -> bool {
    forall|i: int|
        0 <= i < edges.len() ==> 1 <= (#[trigger] edges[i]).0 <= n && 1 <= edges[i].1 <= n
}

/// Whether `v` is recorded as a neighbour of `u`.
pub open spec fn adjacent(adj: Seq<Set<usize>>, u: int, v: int) -> bool {
    0 <= u < adj.len() && 0 <= v <= usize::MAX && adj[u].contains(v as usize)
}

/// Every row is finite, names vertices of the graph only, and whatever is a
/// neighbour of a vertex has that vertex as a neighbour.
pub open spec fn adjacency_wf(adj: Seq<Set<usize>>) -> bool {
    &&& forall|u: int| 0 <= u < adj.len() ==> (#[trigger] adj[u]).finite()
    &&& forall|u: int, v: int| #[trigger]
        adjacent(adj, u, v) ==> 0 <= v < adj.len() && adjacent(adj, v, u)
}

/// The vertices below `n`.
pub open spec fn vertices_below(n: nat) -> Set<usize> {
    Set::new(|v: usize| v < n)
}

/// There are `n` vertices below `n`.
pub proof fn lemma_vertices_below_len(n: nat)
    requires
        n <= usize::MAX + 1,
    ensures
        vertices_below(n).finite(),
        vertices_below(n).len() == n,
    decreases n,
{
    if n == 0 {
        assert(vertices_below(n) =~= Set::<usize>::empty());
    } else {
        lemma_vertices_below_len((n - 1) as nat);
        assert(vertices_below(n) =~= vertices_below((n - 1) as nat).insert((n - 1) as usize));
    }
}

/// The number of neighbours of each vertex.
pub open spec fn graph_degrees(adj: Seq<Set<usize>>) -> Seq<usize> {
    Seq::new(adj.len(), |v: int| adj[v].len() as usize)
}

/// No vertex has more neighbours than there are vertices.
pub proof fn lemma_degree_bound(adj: Seq<Set<usize>>, v: int)
    requires
        adjacency_wf(adj),
        0 <= v < adj.len(),
    ensures
        adj[v].len() <= adj.len(),
{
    let m: nat = if adj.len() <= usize::MAX + 1 {
        adj.len()
    } else {
        (usize::MAX + 1) as nat
    };
    lemma_vertices_below_len(m);
    assert(adj[v].subset_of(vertices_below(m))) by {
        assert forall|w: usize| adj[v].contains(w) implies vertices_below(m).contains(w) by {
            assert(adjacent(adj, v, w as int));
        }
    }
    vstd::set_lib::lemma_len_subset(adj[v], vertices_below(m));
}

/// An undirected graph on the vertices `0 .. n`, one bit set of neighbours for each.
pub struct Graph {
    rows: Vec<BitSet<u32>>,
}

impl Graph {
    /// The neighbours of each vertex.
    pub closed spec fn view(&self) -> Seq<Set<usize>> {
        Seq::new(self.rows@.len(), |u: int| bitset_members(self.rows@[u]))
    }

    /// Whether the rows are those of an undirected graph.
    pub open spec fn wf(&self) -> bool {
        adjacency_wf(self@)
    }

    /// The number of vertices.
    pub fn vertex_count(&self) -> (n: usize)
        ensures
            n == self@.len(),
    {
        self.rows.len()
    }

    /// Whether `v` is recorded as a neighbour of `u`.
    pub fn has_edge(&self, u: usize, v: usize) -> (held: bool)
        requires
            u < self@.len(),
        ensures
            held == adjacent(self@, u as int, v as int),
    {
        bitset_contains(&self.rows[u], v)
    }

    /// The number of neighbours of `v`.
    pub fn degree(&self, v: usize) -> (d: usize)
        requires
            self.wf(),
            v < self@.len(),
        ensures
            d == self@[v as int].len(),
            d <= self@.len(),
    {
        proof {
            lemma_degree_bound(self@, v as int);
        }
        bitset_len(&self.rows[v])
    }
}

proof fn lemma_edge_listed_step(edges: Seq<(usize, usize)>, k: int, u: int, v: int)
    requires
        0 <= k < edges.len(),
    ensures
        edge_listed(edges.take(k + 1), u, v) <==> edge_listed(edges.take(k), u, v) || joins(
            edges[k],
            u,
            v,
        ),
{
    let shorter = edges.take(k);
    let longer = edges.take(k + 1);
    if edge_listed(longer, u, v) {
        let i = choose|i: int| 0 <= i < longer.len() && #[trigger] joins(longer[i], u, v);
        if i < k {
            assert(joins(shorter[i], u, v));
        }
    }
    if edge_listed(shorter, u, v) {
        let i = choose|i: int| 0 <= i < shorter.len() && #[trigger] joins(shorter[i], u, v);
        assert(joins(longer[i], u, v));
    }
    if joins(edges[k], u, v) {
        assert(joins(longer[k], u, v));
    }
}

/// Tells whether both ends of every pair lie in `1 ..= amount_ver`.
pub fn edges_fit(amount_ver: usize, data: &[(usize, usize)]) -> (fit: bool)
    ensures
        fit == edges_in_range(amount_ver as int, data@),
{
    let mut k: usize = 0;
    while k < data.len()
        invariant
            k <= data.len(),
            edges_in_range(amount_ver as int, data@.take(k as int)),
        decreases data.len() - k,
    {
        let (a, b) = data[k];
        if a < 1 || a > amount_ver || b < 1 || b > amount_ver {
            return false;
        }
        assert forall|i: int| 0 <= i < k + 1 implies 1 <= (#[trigger] data@.take(
            k + 1,
        )[i]).0 <= amount_ver && 1 <= data@.take(k + 1)[i].1 <= amount_ver by {
            if i < k {
                assert(data@.take(k as int)[i] == data@[i]);
            }
        }
        k += 1;
    }
    assert(data@.take(k as int) =~= data@);
    true
}

/// Builds the graph on `amount_ver` vertices in which two vertices are neighbours
/// exactly when a pair of `data` joins them. The pairs number the vertices from one;
/// a pair may occur more than once, and in either direction. A pair that joins a
/// vertex to itself makes it its own neighbour.
pub fn get_adjacency_matrix(amount_ver: usize, data: &[(usize, usize)]) -> (g: Graph)
    requires
        edges_in_range(amount_ver as int, data@),
    ensures
        g.wf(),
        g@.len() == amount_ver,
        forall|u: int, v: int|
            0 <= u < amount_ver && 0 <= v < amount_ver ==> (#[trigger] adjacent(g@, u, v)
                <==> edge_listed(data@, u, v)),
{
    let mut rows: Vec<BitSet<u32>> = Vec::new();
    let mut made: usize = 0;
    while made < amount_ver
        invariant
            made <= amount_ver,
            rows@.len() == made,
            forall|u: int| 0 <= u < made ==> bitset_members(#[trigger] rows@[u]) == Set::<
                usize,
            >::empty(),
        decreases amount_ver - made,
    {
        rows.push(bitset_with_capacity(amount_ver));
        made += 1;
    }
    let mut g = Graph { rows };
    let mut k: usize = 0;
    while k < data.len()
        invariant
            k <= data.len(),
            edges_in_range(amount_ver as int, data@),
            g@.len() == amount_ver,
            forall|u: int| 0 <= u < amount_ver ==> (#[trigger] g@[u]).finite(),
            forall|u: int, v: int|
                0 <= u < amount_ver && 0 <= v <= usize::MAX ==> (#[trigger] adjacent(g@, u, v)
                    <==> edge_listed(data@.take(k as int), u, v)),
        decreases data.len() - k,
    {
        let (a, b) = data[k];
        let ghost before = g@;
        bitset_insert(&mut g.rows[a - 1], b - 1);
        let ghost between = g@;
        assert(between =~= before.update(a - 1, before[a - 1].insert((b - 1) as usize)));
        bitset_insert(&mut g.rows[b - 1], a - 1);
        assert(g@ =~= between.update(b - 1, between[b - 1].insert((a - 1) as usize)));
        assert forall|u: int, v: int|
            0 <= u < amount_ver && 0 <= v <= usize::MAX implies (#[trigger] adjacent(g@, u, v)
                <==> edge_listed(data@.take(k + 1), u, v)) by {
            lemma_edge_listed_step(data@, k as int, u, v);
            assert(adjacent(before, u, v) <==> edge_listed(data@.take(k as int), u, v));
        }
        k += 1;
    }
    assert(data@.take(k as int) =~= data@);
    assert forall|u: int, v: int| #[trigger] adjacent(g@, u, v) implies 0 <= v < g@.len()
        && adjacent(g@, v, u) by {
        let i = choose|i: int| 0 <= i < data@.len() && #[trigger] joins(data@[i], u, v);
        assert(joins(data@[i], v, u));
    }
    g
}

/// Whether `table` holds, for every vertex and for nothing else, the number of its
/// neighbours.
pub open spec fn is_degree_table(table: Map<usize, usize>, adj: Seq<Set<usize>>) -> bool {
    &&& forall|v: usize| #[trigger] table.contains_key(v) <==> v < adj.len()
    &&& forall|v: usize| v < adj.len() ==> #[trigger] table[v] == adj[v as int].len()
}

/// The degree of every vertex, by vertex.
pub fn get_degree_vert(g: &Graph) -> (degree_vertices: HashMap<usize, usize>)
    requires
        g.wf(),
    ensures
        is_degree_table(degree_vertices@, g@),
{
    let mut degree_vertices: HashMap<usize, usize> = HashMap::new();
    let mut v: usize = 0;
    while v < g.vertex_count()
        invariant
            g.wf(),
            v <= g@.len(),
            forall|w: usize| #[trigger] degree_vertices@.contains_key(w) <==> w < v,
            forall|w: usize| w < v ==> #[trigger] degree_vertices@[w] == g@[w as int].len(),
        decreases g@.len() - v,
    {
        degree_vertices.insert(v, g.degree(v));
        v += 1;
    }
    degree_vertices
}

} // verus!

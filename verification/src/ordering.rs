//! Visiting orders: by falling degree, vertices of one degree in random order.

use crate::coloring::in_range;
use crate::graph::{lemma_vertices_below_len, vertices_below};
use crate::nested::{flatten_groups, nested_view};
use rand::rngs::StdRng;
use rand::seq::SliceRandom;
use std::collections::HashMap;
use vstd::prelude::*;
use vstd::std_specs::iter::IteratorSpec;

verus! {

/// `rand::rngs::StdRng`, the random source that an order is drawn from.
#[verifier::external_type_specification]
#[verifier::external_body]
pub struct ExStdRng(StdRng);

/// `SliceRandom::shuffle` on the vector's slice: it swaps entries among themselves,
/// so the vector holds afterwards what it held, each value as often as before. In
/// which order is up to `rng`, and nothing is said of it.
#[verifier::external_body]
pub(crate) fn shuffle_group(group: &mut Vec<usize>, rng: &mut StdRng)
    ensures
        final(group)@.to_multiset() == old(group)@.to_multiset(),
{
    group.shuffle(rng);
}

/// Whether `order` names each of `n` vertices, and each once.
pub open spec fn is_vertex_order(order: Seq<usize>, n: int) -> bool {
    order.len() == n && in_range(order, n) && order.no_duplicates()
}

/// Whether no vertex of `order` comes before one of higher degree.
pub open spec fn descending_by_degree(order: Seq<usize>, degrees: Seq<usize>) -> bool {
    forall|i: int, j: int|
        0 <= i < j < order.len() ==> degrees[(#[trigger] order[i]) as int] >= degrees[(
        #[trigger] order[j]) as int]
}

/// The degrees in the order in which `order` visits the vertices.
pub open spec fn degrees_along(order: Seq<usize>, degrees: Seq<usize>) -> Seq<usize> {
    order.map_values(|v: usize| degrees[v as int])
}

/// An order that names `n` vertices, none of them twice, leaves none out.
pub proof fn lemma_vertex_order_onto(order: Seq<usize>, n: int)
    requires
        is_vertex_order(order, n),
    ensures
        n <= usize::MAX + 1,
        forall|v: usize| v < n <==> #[trigger] order.contains(v),
{
    let m: nat = if n <= usize::MAX + 1 {
        n as nat
    } else {
        (usize::MAX + 1) as nat
    };
    let all = vertices_below(m);
    lemma_vertices_below_len(m);
    order.unique_seq_to_set();
    assert(order.to_set().subset_of(all)) by {
        assert forall|v: usize| order.to_set().contains(v) implies all.contains(v) by {
            let i = choose|i: int| 0 <= i < order.len() && order[i] == v;
        }
    }
    vstd::set_lib::lemma_len_subset(order.to_set(), all);
    vstd::set_lib::lemma_subset_equality(order.to_set(), all);
    assert forall|v: usize| v < n <==> #[trigger] order.contains(v) by {
        assert(all.contains(v) <==> v < n);
        assert(order.to_set().contains(v) <==> order.contains(v));
    }
}

proof fn lemma_map_keeps_multiset(a: Seq<usize>, b: Seq<usize>, f: spec_fn(usize) -> usize)
    requires
        a.to_multiset() == b.to_multiset(),
    ensures
        a.map_values(f).to_multiset() == b.map_values(f).to_multiset(),
    decreases a.len(),
{
    broadcast use vstd::seq_lib::group_to_multiset_ensures;

    assert(a.len() == b.len()) by {
        vstd::seq_lib::to_multiset_len(a);
        vstd::seq_lib::to_multiset_len(b);
    }
    if a.len() == 0 {
        assert(a.map_values(f) =~= b.map_values(f));
    } else {
        let x = a.last();
        assert(a.contains(x));
        assert(b.to_multiset().count(x) > 0);
        assert(b.contains(x));
        let k = choose|k: int| 0 <= k < b.len() && b[k] == x;
        let shorter_a = a.drop_last();
        let shorter_b = b.remove(k);
        assert(shorter_a =~= a.remove(a.len() - 1));
        assert(shorter_a.to_multiset() =~= shorter_b.to_multiset());
        lemma_map_keeps_multiset(shorter_a, shorter_b, f);
        assert(a.map_values(f).remove(a.len() - 1) =~= shorter_a.map_values(f));
        assert(b.map_values(f).remove(k) =~= shorter_b.map_values(f));
        let ma = a.map_values(f);
        let mb = b.map_values(f);
        assert(ma[a.len() - 1] == f(x));
        assert(mb[k] == f(x));
        assert(ma.contains(f(x)));
        assert(mb.contains(f(x)));
        assert(ma.remove(a.len() - 1).to_multiset() == ma.to_multiset().remove(f(x)));
        assert(mb.remove(k).to_multiset() == mb.to_multiset().remove(f(x)));
        assert(ma.to_multiset() =~= ma.to_multiset().remove(f(x)).insert(f(x)));
        assert(mb.to_multiset() =~= mb.to_multiset().remove(f(x)).insert(f(x)));
    }
}

/// Visiting every vertex once, in whatever order, meets every degree as often as
/// the table holds it.
pub proof fn lemma_order_keeps_degrees(order: Seq<usize>, degrees: Seq<usize>)
    requires
        is_vertex_order(order, degrees.len() as int),
    ensures
        degrees_along(order, degrees).to_multiset() == degrees.to_multiset(),
{
    broadcast use vstd::seq_lib::group_to_multiset_ensures;

    let n = degrees.len();
    lemma_vertex_order_onto(order, n as int);
    let plain = Seq::new(n, |i: int| i as usize);
    assert(is_vertex_order(plain, n as int));
    lemma_vertex_order_onto(plain, n as int);
    order.lemma_multiset_has_no_duplicates();
    plain.lemma_multiset_has_no_duplicates();
    assert(order.to_multiset() =~= plain.to_multiset()) by {
        assert forall|v: usize| order.to_multiset().count(v) == plain.to_multiset().count(v) by {
            assert(order.contains(v) <==> plain.contains(v));
        }
    }
    let f = |v: usize| degrees[v as int];
    lemma_map_keeps_multiset(order, plain, f);
    assert(plain.map_values(f) =~= degrees);
}

/// Two orders that visit every vertex once, none before a vertex of higher degree,
/// meet the same degree at every place: they differ among vertices of one degree
/// only.
pub proof fn lemma_orders_differ_in_ties_only(a: Seq<usize>, b: Seq<usize>, degrees: Seq<usize>)
    requires
        is_vertex_order(a, degrees.len() as int),
        is_vertex_order(b, degrees.len() as int),
        descending_by_degree(a, degrees),
        descending_by_degree(b, degrees),
    ensures
        degrees_along(a, degrees) == degrees_along(b, degrees),
{
    let geq = |x: usize, y: usize| x >= y;
    let along_a = degrees_along(a, degrees);
    let along_b = degrees_along(b, degrees);
    lemma_order_keeps_degrees(a, degrees);
    lemma_order_keeps_degrees(b, degrees);
    assert(vstd::relations::sorted_by(along_a, geq)) by {
        assert forall|i: int, j: int| 0 <= i < j < along_a.len() implies #[trigger] geq(
            along_a[i],
            along_a[j],
        ) by {
            assert(degrees[a[i] as int] >= degrees[a[j] as int]);
        }
    }
    assert(vstd::relations::sorted_by(along_b, geq)) by {
        assert forall|i: int, j: int| 0 <= i < j < along_b.len() implies #[trigger] geq(
            along_b[i],
            along_b[j],
        ) by {
            assert(degrees[b[i] as int] >= degrees[b[j] as int]);
        }
    }
    assert(vstd::relations::total_ordering(geq)) by {
        assert(vstd::relations::reflexive(geq));
        assert(vstd::relations::antisymmetric(geq));
        assert(vstd::relations::transitive(geq));
        assert(vstd::relations::strongly_connected(geq));
    }
    vstd::seq_lib::lemma_sorted_unique(along_a, along_b, geq);
}

/// Whether `table` names exactly the vertices below `n`.
pub open spec fn is_dense(table: Map<usize, usize>, n: nat) -> bool {
    forall|k: usize| #[trigger] table.contains_key(k) <==> k < n
}

/// The degrees of the vertices below `n`, as the table gives them.
pub open spec fn table_degrees(table: Map<usize, usize>, n: nat) -> Seq<usize> {
    Seq::new(n, |v: int| table[v as usize])
}

/// Whether no vertex of `order` comes before one to which the table gives a
/// higher degree.
pub open spec fn descending_by_table(order: Seq<usize>, table: Map<usize, usize>) -> bool {
    forall|i: int, j: int|
        0 <= i < j < order.len() ==> table[#[trigger] order[i]] >= table[#[trigger] order[j]]
}

/// Whether bucket `d` holds vertices of degree `d` only, none of them twice, and
/// every vertex of the table lies in the bucket of its degree.
pub open spec fn bucketed(buckets: Seq<Seq<usize>>, table: Map<usize, usize>) -> bool {
    &&& forall|d: int, j: int|
        0 <= d < buckets.len() && 0 <= j < buckets[d].len() ==> table.contains_key(
            #[trigger] buckets[d][j],
        ) && table[buckets[d][j]] == d
    &&& forall|d: int| 0 <= d < buckets.len() ==> (#[trigger] buckets[d]).no_duplicates()
    &&& forall|k: usize| #[trigger]
        table.contains_key(k) ==> table[k] < buckets.len() && buckets[table[k] as int].contains(k)
}

/// Sorts the vertices of the table into buckets by degree: bucket `d` holds the
/// vertices of degree `d`, in the order in which the walk over the table met them,
/// and the last bucket is that of the highest degree.
pub fn group_by_degree(degree_vertices: &HashMap<usize, usize>) -> (grouped: Vec<Vec<usize>>)
    ensures
        bucketed(nested_view(grouped), degree_vertices@),
        grouped@.len() == 0 || exists|k: usize|
            degree_vertices@.contains_key(k) && (#[trigger] degree_vertices@[k]) + 1
                == grouped@.len(),
{
    let ghost table = degree_vertices@;
    let mut grouped: Vec<Vec<usize>> = Vec::new();
    for pair in it: degree_vertices.iter()
        invariant
            table == degree_vertices@,
            it.seq() == degree_vertices.iter().remaining(),
            it.seq().no_duplicates(),
            forall|d: int, j: int|
                0 <= d < grouped@.len() && 0 <= j < grouped@[d]@.len() ==> table.contains_key(
                    #[trigger] grouped@[d]@[j],
                ) && table[grouped@[d]@[j]] == d,
            forall|d: int, j: int, i: int|
                0 <= d < grouped@.len() && 0 <= j < grouped@[d]@.len() && it.index() <= i
                    < it.seq().len() ==> #[trigger] grouped@[d]@[j] != *(#[trigger] it.seq()[i]).0,
            forall|d: int| 0 <= d < grouped@.len() ==> (#[trigger] grouped@[d]@).no_duplicates(),
            forall|i: int|
                0 <= i < it.index() ==> table[*(#[trigger] it.seq()[i]).0] < grouped@.len()
                    && grouped@[table[*it.seq()[i].0] as int]@.contains(*it.seq()[i].0),
            grouped@.len() == 0 || exists|k: usize|
                table.contains_key(k) && (#[trigger] table[k]) + 1 == grouped@.len(),
    {
        let vertex = *pair.0;
        let degree = *pair.1;
        let ghost walk = it.seq();
        let ghost at = it.index();
        let ghost before = grouped@;
        proof {
            vstd::std_specs::hash::axiom_spec_hash_map_iter(degree_vertices);
            assert(table.contains_key(*walk[at].0) && table[*walk[at].0] == *walk[at].1);
            assert forall|i: int| 0 <= i < walk.len() && i != at implies *(#[trigger] walk[i]).0
                != vertex by {
                if *walk[i].0 == vertex {
                    assert(table.contains_key(*walk[i].0) && table[*walk[i].0] == *walk[i].1);
                    assert(walk[i] == walk[at]);
                }
            }
        }
        while grouped.len() <= degree
            invariant
                before.len() <= grouped@.len(),
                before.len() <= degree ==> grouped@.len() <= degree + 1,
                before.len() > degree ==> grouped@.len() == before.len(),
                forall|d: int| 0 <= d < before.len() ==> grouped@[d] == before[d],
                forall|d: int|
                    before.len() <= d < grouped@.len() ==> (#[trigger] grouped@[d])@.len() == 0,
            decreases degree + 1 - grouped@.len(),
        {
            grouped.push(Vec::new());
        }
        let ghost widened = grouped@;
        grouped[degree].push(vertex);
        proof {
            let top = widened[degree as int]@.len() as int;
            assert(grouped@[degree as int]@ == widened[degree as int]@.push(vertex));
            assert(grouped@.len() == widened.len());
            assert forall|d: int| 0 <= d < grouped@.len() && d != degree implies grouped@[d]
                == widened[d] by {}
            assert forall|d: int, j: int|
                0 <= d < grouped@.len() && 0 <= j < grouped@[d]@.len() implies table.contains_key(
                #[trigger] grouped@[d]@[j],
            ) && table[grouped@[d]@[j]] == d && (forall|i: int|
                at + 1 <= i < walk.len() ==> grouped@[d]@[j] != *(#[trigger] walk[i]).0) by {
                if d == degree && j == top {
                    assert(grouped@[d]@[j] == vertex);
                } else {
                    assert(grouped@[d]@[j] == before[d]@[j]);
                }
            }
            assert forall|d: int| 0 <= d < grouped@.len() implies (
            #[trigger] grouped@[d]@).no_duplicates() by {
                if d == degree {
                    assert forall|j: int, k: int|
                        0 <= j < grouped@[d]@.len() && 0 <= k < grouped@[d]@.len() && j
                            != k implies grouped@[d]@[j] != grouped@[d]@[k] by {
                        if j < top {
                            assert(grouped@[d]@[j] == before[d]@[j]);
                            assert(before[d]@[j] != *walk[at].0);
                        }
                        if k < top {
                            assert(grouped@[d]@[k] == before[d]@[k]);
                            assert(before[d]@[k] != *walk[at].0);
                        }
                    }
                } else if d < before.len() {
                    assert(grouped@[d]@ == before[d]@);
                }
            }
            assert forall|i: int| 0 <= i < at + 1 implies table[*(#[trigger] walk[i]).0]
                < grouped@.len() && grouped@[table[*walk[i].0] as int]@.contains(*walk[i].0) by {
                if i < at {
                    let d = table[*walk[i].0] as int;
                    let j = choose|j: int| 0 <= j < before[d]@.len() && before[d]@[j] == *walk[i].0;
                    assert(grouped@[d]@[j] == *walk[i].0);
                } else {
                    assert(grouped@[degree as int]@[top] == vertex);
                }
            }
            if degree + 1 == grouped@.len() {
                assert(table.contains_key(vertex) && table[vertex] + 1 == grouped@.len());
            } else {
                let k = choose|k: usize|
                    table.contains_key(k) && (#[trigger] table[k]) + 1 == before.len();
                assert(table.contains_key(k) && table[k] + 1 == grouped@.len());
            }
        }
    }
    proof {
        vstd::std_specs::hash::axiom_spec_hash_map_iter(degree_vertices);
        let walk = degree_vertices.iter().remaining();
        let buckets = nested_view(grouped);
        assert forall|k: usize| #[trigger] table.contains_key(k) implies table[k] < buckets.len()
            && buckets[table[k] as int].contains(k) by {
            assert(walk.contains((&k, &table[k])));
            let i = choose|i: int| 0 <= i < walk.len() && walk[i] == (&k, &table[k]);
            assert(*walk[i].0 == k);
            assert(grouped@[table[k] as int]@.contains(k));
        }
    }
    grouped
}

/// Lays the buckets out one behind the other and turns the row round: the last
/// member of the last bucket comes first.
pub fn descending_order(grouped: &Vec<Vec<usize>>) -> (ready_list: Vec<usize>)
    ensures
        ready_list@ == nested_view(*grouped).flatten().reverse(),
{
    let flat = flatten_groups(grouped);
    let mut ready_list: Vec<usize> = Vec::new();
    let mut left: usize = flat.len();
    while left > 0
        invariant
            left <= flat@.len(),
            ready_list@.len() == flat@.len() - left,
            forall|i: int| 0 <= i < ready_list@.len() ==> ready_list@[i] == flat@[flat@.len() - 1 - i],
        decreases left,
    {
        left -= 1;
        ready_list.push(flat[left]);
    }
    assert(ready_list@ =~= flat@.reverse());
    ready_list
}

proof fn lemma_flatten_buckets(buckets: Seq<Seq<usize>>, table: Map<usize, usize>)
    requires
        forall|d: int, j: int|
            0 <= d < buckets.len() && 0 <= j < buckets[d].len() ==> table.contains_key(
                #[trigger] buckets[d][j],
            ) && table[buckets[d][j]] == d,
        forall|d: int| 0 <= d < buckets.len() ==> (#[trigger] buckets[d]).no_duplicates(),
    ensures
        forall|i: int|
            0 <= i < buckets.flatten().len() ==> table.contains_key(
                #[trigger] buckets.flatten()[i],
            ) && table[buckets.flatten()[i]] < buckets.len(),
        forall|i: int, j: int|
            0 <= i < j < buckets.flatten().len() ==> table[#[trigger] buckets.flatten()[i]]
                <= table[#[trigger] buckets.flatten()[j]],
        buckets.flatten().no_duplicates(),
        forall|d: int, j: int|
            0 <= d < buckets.len() && 0 <= j < buckets[d].len() ==> buckets.flatten().contains(
                #[trigger] buckets[d][j],
            ),
    decreases buckets.len(),
{
    let flat = buckets.flatten();
    if buckets.len() > 0 {
        let fewer = buckets.drop_last();
        let top = buckets.last();
        let low = fewer.flatten();
        assert(buckets =~= fewer.push(top));
        fewer.lemma_flatten_push(top);
        assert(flat =~= low + top);
        assert forall|d: int, j: int|
            0 <= d < fewer.len() && 0 <= j < fewer[d].len() implies table.contains_key(
            #[trigger] fewer[d][j],
        ) && table[fewer[d][j]] == d by {
            assert(fewer[d][j] == buckets[d][j]);
        }
        assert forall|d: int| 0 <= d < fewer.len() implies (#[trigger] fewer[d]).no_duplicates() by {
            assert(fewer[d] == buckets[d]);
        }
        lemma_flatten_buckets(fewer, table);
        let m = buckets.len() - 1;
        assert forall|i: int| 0 <= i < flat.len() implies table.contains_key(#[trigger] flat[i])
            && table[flat[i]] < buckets.len() && (i < low.len() ==> table[flat[i]] < m) && (i
            >= low.len() ==> table[flat[i]] == m) by {
            if i < low.len() {
                assert(flat[i] == low[i]);
            } else {
                assert(flat[i] == buckets[m][i - low.len()]);
            }
        }
        assert forall|i: int, j: int| 0 <= i < j < flat.len() implies table[#[trigger] flat[i]]
            <= table[#[trigger] flat[j]] by {
            if j < low.len() {
                assert(flat[i] == low[i] && flat[j] == low[j]);
            }
        }
        assert forall|i: int, j: int|
            0 <= i < flat.len() && 0 <= j < flat.len() && i != j implies flat[i] != flat[j] by {
            if i < low.len() && j < low.len() {
                assert(flat[i] == low[i] && flat[j] == low[j]);
            } else if i >= low.len() && j >= low.len() {
                assert(flat[i] == top[i - low.len()] && flat[j] == top[j - low.len()]);
            }
        }
        assert forall|d: int, j: int|
            0 <= d < buckets.len() && 0 <= j < buckets[d].len() implies flat.contains(
            #[trigger] buckets[d][j],
        ) by {
            if d < m {
                assert(fewer[d][j] == buckets[d][j]);
                assert(low.contains(fewer[d][j]));
                let i = choose|i: int| 0 <= i < low.len() && low[i] == fewer[d][j];
                assert(flat[i] == buckets[d][j]);
            } else {
                assert(flat[low.len() + j] == buckets[d][j]);
            }
        }
    }
}

proof fn lemma_full_order_len(order: Seq<usize>, n: nat)
    requires
        n <= usize::MAX + 1,
        in_range(order, n as int),
        order.no_duplicates(),
        forall|v: usize| v < n ==> order.contains(v),
    ensures
        order.len() == n,
{
    lemma_vertices_below_len(n);
    order.unique_seq_to_set();
    assert(order.to_set() =~= vertices_below(n)) by {
        assert forall|v: usize| order.to_set().contains(v) <==> vertices_below(n).contains(v) by {
            if order.to_set().contains(v) {
                let i = choose|i: int| 0 <= i < order.len() && order[i] == v;
            }
        }
    }
}

proof fn lemma_shuffled_bucket(before: Seq<usize>, after: Seq<usize>)
    requires
        before.to_multiset() == after.to_multiset(),
    ensures
        forall|v: usize| before.contains(v) <==> #[trigger] after.contains(v),
        before.no_duplicates() ==> after.no_duplicates(),
{
    broadcast use vstd::seq_lib::group_to_multiset_ensures;

    assert forall|v: usize| before.contains(v) <==> #[trigger] after.contains(v) by {
        vstd::seq_lib::to_multiset_contains(before, v);
        vstd::seq_lib::to_multiset_contains(after, v);
    }
    if before.no_duplicates() {
        before.lemma_multiset_has_no_duplicates();
        after.lemma_multiset_has_no_duplicates_conv();
    }
}

/// An order that names every vertex of a table once, none before one of higher
/// degree, is a vertex order where the table names exactly the vertices below `n`:
/// it falls by degree and meets every degree as often as the table holds it.
pub proof fn lemma_table_order(order: Seq<usize>, table: Map<usize, usize>, n: nat)
    requires
        n <= usize::MAX + 1,
        is_dense(table, n),
        order.no_duplicates(),
        forall|k: usize| order.contains(k) <==> table.contains_key(k),
        descending_by_table(order, table),
    ensures
        is_vertex_order(order, n as int),
        descending_by_degree(order, table_degrees(table, n)),
        degrees_along(order, table_degrees(table, n)).to_multiset() == table_degrees(
            table,
            n,
        ).to_multiset(),
{
    assert(in_range(order, n as int)) by {
        assert forall|i: int| 0 <= i < order.len() implies (#[trigger] order[i]) < n by {
            assert(order.contains(order[i]));
        }
    }
    assert forall|v: usize| v < n implies order.contains(v) by {
        assert(table.contains_key(v));
    }
    lemma_full_order_len(order, n);
    lemma_order_keeps_degrees(order, table_degrees(table, n));
}

/// Gives a visiting order for the vertices of the table: every vertex once, none
/// before a vertex of higher degree. Which of two vertices of one degree comes
/// first is drawn from `rng`.
pub fn get_random(degree_vertices: &HashMap<usize, usize>, rng: &mut StdRng) -> (ready_list: Vec<
    usize,
>)
    ensures
        ready_list@.no_duplicates(),
        forall|k: usize| ready_list@.contains(k) <==> degree_vertices@.contains_key(k),
        descending_by_table(ready_list@, degree_vertices@),
        forall|n: nat|
            n <= usize::MAX + 1 && #[trigger] is_dense(degree_vertices@, n) ==> is_vertex_order(
                ready_list@,
                n as int,
            ) && descending_by_degree(ready_list@, table_degrees(degree_vertices@, n))
                && degrees_along(ready_list@, table_degrees(degree_vertices@, n)).to_multiset()
                == table_degrees(degree_vertices@, n).to_multiset(),
{
    let ghost table = degree_vertices@;
    let mut grouped = group_by_degree(degree_vertices);
    let mut d: usize = 0;
    while d < grouped.len()
        invariant
            table == degree_vertices@,
            bucketed(nested_view(grouped), table),
            d <= grouped@.len(),
        decreases grouped@.len() - d,
    {
        let ghost before = nested_view(grouped);
        shuffle_group(&mut grouped[d], rng);
        proof {
            let after = nested_view(grouped);
            assert(after.len() == before.len());
            assert(after[d as int].to_multiset() == before[d as int].to_multiset());
            lemma_shuffled_bucket(before[d as int], after[d as int]);
            assert forall|e: int| 0 <= e < after.len() && e != d implies after[e] == before[e] by {}
            assert forall|e: int, j: int|
                0 <= e < after.len() && 0 <= j < after[e].len() implies table.contains_key(
                #[trigger] after[e][j],
            ) && table[after[e][j]] == e by {
                if e == d {
                    assert(after[e].contains(after[e][j]));
                    assert(before[e].contains(after[e][j]));
                    let i = choose|i: int| 0 <= i < before[e].len() && before[e][i] == after[e][j];
                    assert(table.contains_key(before[e][i]));
                } else {
                    assert(before[e][j] == after[e][j]);
                }
            }
            assert forall|e: int| 0 <= e < after.len() implies (#[trigger] after[e]).no_duplicates() by {
                if e != d {
                    assert(after[e] == before[e]);
                }
            }
            assert forall|k: usize| #[trigger] table.contains_key(k) implies table[k] < after.len()
                && after[table[k] as int].contains(k) by {
                assert(before[table[k] as int].contains(k));
                if table[k] != d {
                    assert(after[table[k] as int] == before[table[k] as int]);
                }
            }
        }
        d += 1;
    }
    let ready_list = descending_order(&grouped);
    proof {
        let buckets = nested_view(grouped);
        let flat = buckets.flatten();
        lemma_flatten_buckets(buckets, table);
        assert(ready_list@.len() == flat.len());
        assert forall|i: int| 0 <= i < flat.len() implies ready_list@[i] == flat[flat.len() - 1 - i] by {}
        assert forall|k: usize| ready_list@.contains(k) <==> table.contains_key(k) by {
            if ready_list@.contains(k) {
                let i = choose|i: int| 0 <= i < ready_list@.len() && ready_list@[i] == k;
                assert(table.contains_key(flat[flat.len() - 1 - i]));
            }
            if table.contains_key(k) {
                let b = table[k] as int;
                assert(buckets[b].contains(k));
                let j = choose|j: int| 0 <= j < buckets[b].len() && buckets[b][j] == k;
                assert(flat.contains(buckets[b][j]));
                let i = choose|i: int| 0 <= i < flat.len() && flat[i] == k;
                assert(ready_list@[flat.len() - 1 - i] == k);
            }
        }
        assert(ready_list@.no_duplicates()) by {
            assert forall|i: int, j: int|
                0 <= i < ready_list@.len() && 0 <= j < ready_list@.len() && i != j implies ready_list@[i]
                != ready_list@[j] by {
                assert(flat[flat.len() - 1 - i] != flat[flat.len() - 1 - j]);
            }
        }
        assert forall|i: int, j: int| 0 <= i < j < ready_list@.len() implies table[
        #[trigger] ready_list@[i]] >= table[#[trigger] ready_list@[j]] by {
            assert(table[flat[flat.len() - 1 - j]] <= table[flat[flat.len() - 1 - i]]);
        }
        assert forall|n: nat|
            n <= usize::MAX + 1 && #[trigger] is_dense(table, n) implies is_vertex_order(
            ready_list@,
            n as int,
        ) && descending_by_degree(ready_list@, table_degrees(table, n))
            && degrees_along(ready_list@, table_degrees(table, n)).to_multiset() == table_degrees(
            table,
            n,
        ).to_multiset() by {
            lemma_table_order(ready_list@, table, n);
        }
    }
    ready_list
}

} // verus!

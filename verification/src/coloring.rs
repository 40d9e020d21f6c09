//! First-fit colouring of the vertices in a given order.

use crate::graph::{adjacency_wf, adjacent, Graph};
use crate::nested::nested_view;
use vstd::prelude::*;

verus! {

/// Whether `class` holds a vertex that is recorded as a neighbour of `v`.
pub open spec fn conflicts(adj: Seq<Set<usize>>, class: Seq<usize>, v: int) -> bool {
    exists|j: int| 0 <= j < class.len() && adjacent(adj, v, #[trigger] class[j] as int)
}

/// The first class from `from` on that holds no neighbour of `v`; the number of
/// classes where every one of them holds a neighbour.
pub open spec fn first_free(adj: Seq<Set<usize>>, classes: Seq<Seq<usize>>, v: int, from: int) -> int
    decreases classes.len() - from,
{
    if from >= classes.len() {
        classes.len() as int
    } else if !conflicts(adj, classes[from], v) {
        from
    } else {
        first_free(adj, classes, v, from + 1)
    }
}

/// `classes` with `v` added at the end of class `c`, which is opened where it is
/// not there yet.
pub open spec fn place(classes: Seq<Seq<usize>>, c: int, v: usize) -> Seq<Seq<usize>> {
    if 0 <= c < classes.len() {
        classes.update(c, classes[c].push(v))
    } else {
        classes.push(seq![v])
    }
}

/// The first-fit colouring: starting from one empty class, each vertex of `order`
/// in turn joins the first class that holds none of its neighbours, and opens a
/// new class behind the others where there is none.
pub open spec fn first_fit(adj: Seq<Set<usize>>, order: Seq<usize>) -> Seq<Seq<usize>>
    decreases order.len(),
{
    if order.len() == 0 {
        seq![Seq::<usize>::empty()]
    } else {
        let before = first_fit(adj, order.drop_last());
        place(before, first_free(adj, before, order.last() as int, 0), order.last())
    }
}

/// The number of classes that hold a vertex.
pub open spec fn color_count(classes: Seq<Seq<usize>>) -> nat
    decreases classes.len(),
{
    if classes.len() == 0 {
        0
    } else {
        color_count(classes.drop_last()) + if classes.last().len() > 0 {
            1nat
        } else {
            0nat
        }
    }
}

/// Whether every member of every class is one of `n` vertices.
pub open spec fn members_in_range(classes: Seq<Seq<usize>>, n: int) -> bool {
    forall|c: int, j: int|
        0 <= c < classes.len() && 0 <= j < classes[c].len() ==> (#[trigger] classes[c][j]) < n
}

/// No class holds, at two places, a vertex and one recorded as its neighbour.
pub open spec fn proper(adj: Seq<Set<usize>>, classes: Seq<Seq<usize>>) -> bool {
    forall|c: int, i: int, j: int|
        0 <= c < classes.len() && 0 <= i < j < classes[c].len() ==> !adjacent(
            adj,
            #[trigger] classes[c][i] as int,
            #[trigger] classes[c][j] as int,
        )
}

/// Whether `v` is a member of some class.
pub open spec fn occurs(classes: Seq<Seq<usize>>, v: usize) -> bool {
    exists|c: int, j: int|
        0 <= c < classes.len() && 0 <= j < classes[c].len() && #[trigger] classes[c][j] == v
}

/// No vertex is a member at two places, of one class or of two.
pub open spec fn no_repeats(classes: Seq<Seq<usize>>) -> bool {
    forall|c: int, j: int, d: int, k: int|
        0 <= c < classes.len() && 0 <= j < classes[c].len() && 0 <= d < classes.len() && 0 <= k
            < classes[d].len() && #[trigger] classes[c][j] == #[trigger] classes[d][k] ==> c == d
            && j == k
}

/// Whether every entry of `order` is one of `n` vertices.
pub open spec fn in_range(order: Seq<usize>, n: int) -> bool {
    forall|i: int| 0 <= i < order.len() ==> (#[trigger] order[i]) < n
}

/// Tells whether `color_class` holds a vertex recorded as a neighbour of `vert`.
pub fn has_neighbours(vert: usize, color_class: &Vec<usize>, g: &Graph) -> (found: bool)
    requires
        vert < g@.len(),
    ensures
        found == conflicts(g@, color_class@, vert as int),
{
    let mut j: usize = 0;
    while j < color_class.len()
        invariant
            vert < g@.len(),
            j <= color_class@.len(),
            forall|i: int| 0 <= i < j ==> !adjacent(g@, vert as int, #[trigger] color_class@[i] as int),
        decreases color_class@.len() - j,
    {
        if g.has_edge(vert, color_class[j]) {
            return true;
        }
        j += 1;
    }
    false
}

proof fn lemma_first_free_bounds(adj: Seq<Set<usize>>, classes: Seq<Seq<usize>>, v: int, from: int)
    requires
        0 <= from <= classes.len(),
    ensures
        from <= first_free(adj, classes, v, from) <= classes.len(),
        first_free(adj, classes, v, from) < classes.len() ==> !conflicts(
            adj,
            classes[first_free(adj, classes, v, from)],
            v,
        ),
        forall|c: int|
            from <= c < first_free(adj, classes, v, from) ==> conflicts(adj, #[trigger] classes[c], v),
    decreases classes.len() - from,
{
    if from < classes.len() && conflicts(adj, classes[from], v) {
        lemma_first_free_bounds(adj, classes, v, from + 1);
    }
}

proof fn lemma_all_nonempty_count(classes: Seq<Seq<usize>>)
    requires
        forall|c: int| 0 <= c < classes.len() ==> (#[trigger] classes[c]).len() > 0,
    ensures
        color_count(classes) == classes.len(),
    decreases classes.len(),
{
    if classes.len() > 0 {
        lemma_all_nonempty_count(classes.drop_last());
    }
}

/// From the first vertex on, every class holds a vertex, and there are no more
/// classes than vertices placed.
pub proof fn lemma_first_fit_shape(adj: Seq<Set<usize>>, order: Seq<usize>)
    ensures
        1 <= first_fit(adj, order).len(),
        order.len() > 0 ==> first_fit(adj, order).len() <= order.len(),
        order.len() > 0 ==> forall|c: int|
            0 <= c < first_fit(adj, order).len() ==> (#[trigger] first_fit(adj, order)[c]).len() > 0,
        color_count(first_fit(adj, order)) == if order.len() == 0 {
            0
        } else {
            first_fit(adj, order).len()
        },
    decreases order.len(),
{
    if order.len() == 0 {
        let start = seq![Seq::<usize>::empty()];
        assert(start.drop_last() =~= Seq::<Seq<usize>>::empty());
        assert(color_count(start.drop_last()) == 0);
    } else {
        let before = first_fit(adj, order.drop_last());
        lemma_first_fit_shape(adj, order.drop_last());
        lemma_first_free_bounds(adj, before, order.last() as int, 0);
        let c = first_free(adj, before, order.last() as int, 0);
        if order.len() == 1 {
            assert(before =~= seq![Seq::<usize>::empty()]);
            assert(!conflicts(adj, before[0], order.last() as int));
            assert(c == 0);
        }
        lemma_all_nonempty_count(first_fit(adj, order));
    }
}

/// Colours the vertices in the order given, first fit. Returns the number of classes
/// that hold a vertex, and the classes. A vertex that is its own neighbour is placed
/// like any other: only the vertices placed before it count.
pub fn solver(sorted_keys: &[usize], g: &Graph) -> (res: (usize, Vec<Vec<usize>>))
    requires
        in_range(sorted_keys@, g@.len() as int),
    ensures
        nested_view(res.1) == first_fit(g@, sorted_keys@),
        res.0 == color_count(first_fit(g@, sorted_keys@)),
        res.0 <= sorted_keys@.len(),
{
    let mut colour_classes: Vec<Vec<usize>> = Vec::new();
    colour_classes.push(Vec::new());
    proof {
        assert(nested_view(colour_classes) =~= first_fit(g@, sorted_keys@.take(0)));
        lemma_first_fit_shape(g@, sorted_keys@.take(0));
    }
    let mut max_colour: usize = 0;
    let mut i: usize = 0;
    while i < sorted_keys.len()
        invariant
            i <= sorted_keys@.len(),
            in_range(sorted_keys@, g@.len() as int),
            nested_view(colour_classes) == first_fit(g@, sorted_keys@.take(i as int)),
            max_colour == color_count(first_fit(g@, sorted_keys@.take(i as int))),
            max_colour <= i,
        decreases sorted_keys@.len() - i,
    {
        let vertex = sorted_keys[i];
        let ghost before = nested_view(colour_classes);
        let mut current_colour: usize = 0;
        while current_colour < colour_classes.len() && has_neighbours(
            vertex,
            &colour_classes[current_colour],
            g,
        )
            invariant
                vertex < g@.len(),
                before == nested_view(colour_classes),
                current_colour <= colour_classes@.len(),
                first_free(g@, before, vertex as int, 0) == first_free(
                    g@,
                    before,
                    vertex as int,
                    current_colour as int,
                ),
            decreases colour_classes@.len() - current_colour,
        {
            assert(before[current_colour as int] == colour_classes@[current_colour as int]@);
            current_colour += 1;
        }
        proof {
            if current_colour < colour_classes@.len() {
                assert(before[current_colour as int] == colour_classes@[current_colour as int]@);
            }
            assert(first_free(g@, before, vertex as int, 0) == current_colour);
            assert(sorted_keys@.take(i + 1).drop_last() =~= sorted_keys@.take(i as int));
            assert(sorted_keys@.take(i + 1).last() == vertex);
        }
        if current_colour == colour_classes.len() {
            colour_classes.push(Vec::new());
            colour_classes[current_colour].push(vertex);
            assert(nested_view(colour_classes) =~= place(before, current_colour as int, vertex));
        } else {
            colour_classes[current_colour].push(vertex);
            assert(nested_view(colour_classes) =~= place(before, current_colour as int, vertex));
        }
        proof {
            lemma_first_fit_shape(g@, sorted_keys@.take(i + 1));
        }
        max_colour = colour_classes.len();
        i += 1;
    }
    assert(sorted_keys@.take(i as int) =~= sorted_keys@);
    (max_colour, colour_classes)
}

/// The members of the classes are the entries of the order: a first-fit colouring
/// leaves no vertex out and brings none in.
pub proof fn lemma_first_fit_members(adj: Seq<Set<usize>>, order: Seq<usize>)
    ensures
        forall|v: usize|
            #![trigger occurs(first_fit(adj, order), v)]
            #![trigger order.contains(v)]
            occurs(first_fit(adj, order), v) <==> order.contains(v),
    decreases order.len(),
{
    let after = first_fit(adj, order);
    if order.len() == 0 {
        assert forall|v: usize| !occurs(after, v) by {
            if occurs(after, v) {
                let (c, j) = choose|c: int, j: int|
                    0 <= c < after.len() && 0 <= j < after[c].len() && #[trigger] after[c][j] == v;
            }
        }
    } else {
        let shorter = order.drop_last();
        let before = first_fit(adj, shorter);
        let last = order.last();
        let at = first_free(adj, before, last as int, 0);
        lemma_first_fit_members(adj, shorter);
        lemma_first_free_bounds(adj, before, last as int, 0);
        assert forall|v: usize|
            #![trigger occurs(after, v)]
            #![trigger order.contains(v)]
            occurs(after, v) <==> order.contains(v) by {
            if occurs(after, v) {
                let (c, j) = choose|c: int, j: int|
                    0 <= c < after.len() && 0 <= j < after[c].len() && #[trigger] after[c][j] == v;
                if c == at && j == after[c].len() - 1 {
                    assert(order[order.len() - 1] == v);
                } else {
                    assert(before[c][j] == v);
                    assert(occurs(before, v));
                    let i = choose|i: int| 0 <= i < shorter.len() && shorter[i] == v;
                    assert(order[i] == v);
                }
            }
            if order.contains(v) {
                let i = choose|i: int| 0 <= i < order.len() && order[i] == v;
                if i == order.len() - 1 {
                    assert(after[at][after[at].len() - 1] == v);
                } else {
                    assert(shorter[i] == v);
                    assert(occurs(before, v));
                    let (c, j) = choose|c: int, j: int|
                        0 <= c < before.len() && 0 <= j < before[c].len() && #[trigger] before[c][j]
                            == v;
                    assert(after[c][j] == v);
                }
            }
        }
    }
}

/// Where the order names no vertex twice, no vertex is a member twice.
pub proof fn lemma_first_fit_no_repeats(adj: Seq<Set<usize>>, order: Seq<usize>)
    requires
        order.no_duplicates(),
    ensures
        no_repeats(first_fit(adj, order)),
    decreases order.len(),
{
    let after = first_fit(adj, order);
    if order.len() > 0 {
        let shorter = order.drop_last();
        let before = first_fit(adj, shorter);
        let last = order.last();
        let at = first_free(adj, before, last as int, 0);
        lemma_first_fit_no_repeats(adj, shorter);
        lemma_first_fit_members(adj, shorter);
        lemma_first_free_bounds(adj, before, last as int, 0);
        assert(!occurs(before, last)) by {
            if shorter.contains(last) {
                let i = choose|i: int| 0 <= i < shorter.len() && shorter[i] == last;
                assert(order[i] == order[order.len() - 1]);
            }
        }
        assert forall|c: int, j: int, d: int, k: int|
            0 <= c < after.len() && 0 <= j < after[c].len() && 0 <= d < after.len() && 0 <= k
                < after[d].len() && #[trigger] after[c][j] == #[trigger] after[d][k] implies c == d
            && j == k by {
            let new_c = c == at && j == after[c].len() - 1;
            let new_d = d == at && k == after[d].len() - 1;
            if !new_c {
                assert(before[c][j] == after[c][j]);
            }
            if !new_d {
                assert(before[d][k] == after[d][k]);
            }
        }
    }
}

/// A member of a class has a neighbour in every class before its own: first fit
/// passes a class over only for a neighbour in it.
pub proof fn lemma_first_fit_passes_over(
    adj: Seq<Set<usize>>,
    order: Seq<usize>,
    c: int,
    j: int,
    d: int,
)
    requires
        0 <= d < c < first_fit(adj, order).len(),
        0 <= j < first_fit(adj, order)[c].len(),
    ensures
        conflicts(adj, first_fit(adj, order)[d], first_fit(adj, order)[c][j] as int),
    decreases order.len(),
{
    let after = first_fit(adj, order);
    if order.len() > 0 {
        let shorter = order.drop_last();
        let before = first_fit(adj, shorter);
        let last = order.last();
        let at = first_free(adj, before, last as int, 0);
        lemma_first_free_bounds(adj, before, last as int, 0);
        let v = after[c][j] as int;
        if c == at && j == after[c].len() - 1 {
            assert(conflicts(adj, before[d], v));
        } else {
            assert(before[c][j] == after[c][j]);
            lemma_first_fit_passes_over(adj, shorter, c, j, d);
        }
        let k = choose|k: int| 0 <= k < before[d].len() && adjacent(adj, v, #[trigger] before[d][k] as int);
        assert(after[d][k] == before[d][k]);
    }
}

/// Without edges, first fit puts every vertex into the first class, whatever the
/// order.
pub proof fn lemma_edgeless_one_class(adj: Seq<Set<usize>>, order: Seq<usize>)
    requires
        forall|u: int, v: int| !#[trigger] adjacent(adj, u, v),
    ensures
        first_fit(adj, order) == seq![order],
    decreases order.len(),
{
    if order.len() == 0 {
        assert(order =~= Seq::<usize>::empty());
    } else {
        let shorter = order.drop_last();
        let before = first_fit(adj, shorter);
        lemma_edgeless_one_class(adj, shorter);
        assert(before[0] == shorter);
        assert(!conflicts(adj, before[0], order.last() as int));
        assert(shorter.push(order.last()) =~= order);
        assert(first_fit(adj, order) =~= seq![order]);
    }
}

/// Where every two vertices are neighbours, first fit gives every vertex of an
/// order that names none twice a class of its own, in the order of the visits.
pub proof fn lemma_complete_singletons(adj: Seq<Set<usize>>, order: Seq<usize>)
    requires
        order.len() > 0,
        order.no_duplicates(),
        in_range(order, adj.len() as int),
        forall|u: int, v: int|
            0 <= u < adj.len() && 0 <= v < adj.len() && u != v ==> #[trigger] adjacent(adj, u, v),
    ensures
        first_fit(adj, order) == Seq::new(order.len(), |i: int| seq![order[i]]),
    decreases order.len(),
{
    let shorter = order.drop_last();
    let before = first_fit(adj, shorter);
    let last = order.last();
    let alone = Seq::new(order.len(), |i: int| seq![order[i]]);
    if order.len() == 1 {
        assert(before =~= seq![Seq::<usize>::empty()]);
        assert(!conflicts(adj, before[0], last as int));
        assert(first_fit(adj, order) =~= alone);
    } else {
        assert(in_range(shorter, adj.len() as int)) by {
            assert forall|i: int| 0 <= i < shorter.len() implies (#[trigger] shorter[i])
                < adj.len() by {
                assert(shorter[i] == order[i]);
            }
        }
        lemma_complete_singletons(adj, shorter);
        lemma_first_free_bounds(adj, before, last as int, 0);
        let at = first_free(adj, before, last as int, 0);
        if at < before.len() {
            assert(before[at][0] == order[at]);
            assert(order[at] != order[order.len() - 1]);
            assert(adjacent(adj, last as int, before[at][0] as int));
            assert(conflicts(adj, before[at], last as int));
        }
        assert(first_fit(adj, order) =~= alone) by {
            assert forall|i: int| 0 <= i < alone.len() implies first_fit(adj, order)[i] == alone[i] by {
                if i < before.len() {
                    assert(before[i] == seq![shorter[i]]);
                    assert(shorter[i] == order[i]);
                }
            }
        }
    }
}

/// In a symmetric graph no class of a first-fit colouring holds two neighbours,
/// whatever the order.
pub proof fn lemma_first_fit_proper(adj: Seq<Set<usize>>, order: Seq<usize>)
    requires
        adjacency_wf(adj),
        in_range(order, adj.len() as int),
    ensures
        proper(adj, first_fit(adj, order)),
    decreases order.len(),
{
    let after = first_fit(adj, order);
    if order.len() > 0 {
        let shorter = order.drop_last();
        let before = first_fit(adj, shorter);
        let last = order.last();
        let at = first_free(adj, before, last as int, 0);
        assert(in_range(shorter, adj.len() as int)) by {
            assert forall|i: int| 0 <= i < shorter.len() implies (#[trigger] shorter[i])
                < adj.len() by {
                assert(shorter[i] == order[i]);
            }
        }
        lemma_first_fit_proper(adj, shorter);
        lemma_first_free_bounds(adj, before, last as int, 0);
        assert forall|c: int, i: int, j: int|
            0 <= c < after.len() && 0 <= i < j < after[c].len() implies !adjacent(
            adj,
            #[trigger] after[c][i] as int,
            #[trigger] after[c][j] as int,
        ) by {
            if c == at && j == after[c].len() - 1 {
                assert(before[c][i] == after[c][i]);
                assert(!conflicts(adj, before[c], last as int));
                assert(!adjacent(adj, last as int, before[c][i] as int));
            } else {
                assert(before[c][i] == after[c][i]);
                assert(before[c][j] == after[c][j]);
            }
        }
    }
}

/// Every member of a first-fit colouring is a vertex, where every entry of the
/// order is one.
pub proof fn lemma_first_fit_in_range(adj: Seq<Set<usize>>, order: Seq<usize>, n: int)
    requires
        in_range(order, n),
    ensures
        members_in_range(first_fit(adj, order), n),
{
    let after = first_fit(adj, order);
    lemma_first_fit_members(adj, order);
    assert forall|c: int, j: int| 0 <= c < after.len() && 0 <= j < after[c].len() implies (
    #[trigger] after[c][j]) < n by {
        assert(occurs(after, after[c][j]));
        assert(order.contains(after[c][j]));
    }
}

} // verus!

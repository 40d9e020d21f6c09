//! The restart search: many colourings of one graph, the one with the fewest
//! classes kept.

use crate::coloring::{
    color_count, first_fit, lemma_first_fit_in_range, lemma_first_fit_members,
    lemma_first_fit_no_repeats, lemma_first_fit_proper, lemma_first_fit_shape, members_in_range,
    no_repeats, occurs, proper, solver,
};
use crate::graph::{
    adjacency_wf, adjacent, edge_listed, edges_fit, edges_in_range, get_adjacency_matrix,
    get_degree_vert, graph_degrees, is_degree_table, Graph,
};
use crate::nested::nested_view;
use crate::ordering::{
    descending_by_degree, get_random, is_dense, is_vertex_order, lemma_vertex_order_onto,
    table_degrees,
};
use crate::validate::{testing_solution, TestOutcome};
use rand::rngs::StdRng;
use std::collections::HashMap;
use std::time::{Duration, Instant};
use vstd::prelude::*;

verus! {

/// `std::time::Instant`, a reading of the clock.
#[verifier::external_type_specification]
#[verifier::external_body]
pub struct ExInstant(Instant);

/// `Instant::now`: the clock's reading, of which nothing is claimed.
#[verifier::external_body]
fn clock_now() -> Instant {
    Instant::now()
}

/// `Instant::elapsed`: the time since `start` was read, of which nothing is claimed.
#[verifier::external_body]
fn clock_elapsed(start: &Instant) -> Duration {
    start.elapsed()
}

/// What one trial gave: the colouring, the number of its classes that hold a
/// vertex, the time the colouring took, and whether the colouring is valid.
pub struct TrialResult {
    pub amount_colors: usize,
    pub elapsed: Duration,
    pub classes: Vec<Vec<usize>>,
    pub test: TestOutcome,
}

/// Why a search gave no result.
#[derive(Clone, Copy, Debug, PartialEq, Eq, Structural)]
pub enum SearchError {
    /// An end of some edge is no vertex of the graph.
    EdgeOutOfRange,
    /// No trial was asked for.
    NoTrials,
}

/// Every vertex below `n` is a member of exactly one class, at exactly one place,
/// and nothing else is a member.
pub open spec fn partitions(classes: Seq<Seq<usize>>, n: int) -> bool {
    &&& members_in_range(classes, n)
    &&& no_repeats(classes)
    &&& forall|v: usize| v < n ==> #[trigger] occurs(classes, v)
}

/// Whether `classes` is the first-fit colouring of the graph for some order that
/// visits every vertex once, none before a vertex of higher degree, and `amount`
/// is the number of classes that hold a vertex.
pub open spec fn is_trial_of(adj: Seq<Set<usize>>, classes: Seq<Seq<usize>>, amount: int) -> bool {
    exists|order: Seq<usize>|
        is_vertex_order(order, adj.len() as int) && descending_by_degree(order, graph_degrees(adj))
            && classes == #[trigger] first_fit(adj, order) && amount == color_count(classes)
}

/// No class holds two vertices that a pair of `edges` joins.
pub open spec fn no_edge_within(edges: Seq<(usize, usize)>, classes: Seq<Seq<usize>>) -> bool {
    forall|c: int, i: int, j: int|
        0 <= c < classes.len() && 0 <= i < j < classes[c].len() ==> !edge_listed(
            edges,
            #[trigger] classes[c][i] as int,
            #[trigger] classes[c][j] as int,
        )
}

/// Whether `trial` takes the place of `best`: where there is no best yet, or the
/// trial has fewer colours.
pub open spec fn improves(best: Option<TrialResult>, trial: TrialResult) -> bool {
    match best {
        None => true,
        Some(b) => trial.amount_colors < b.amount_colors,
    }
}

/// The first-fit colouring for an order that visits every vertex once puts every
/// vertex into exactly one class.
pub proof fn lemma_first_fit_partitions(adj: Seq<Set<usize>>, order: Seq<usize>)
    requires
        is_vertex_order(order, adj.len() as int),
    ensures
        partitions(first_fit(adj, order), adj.len() as int),
{
    lemma_first_fit_in_range(adj, order, adj.len() as int);
    lemma_first_fit_no_repeats(adj, order);
    lemma_first_fit_members(adj, order);
    lemma_vertex_order_onto(order, adj.len() as int);
}

/// The colouring of a trial on a symmetric graph uses no more colours than there
/// are vertices, puts no two neighbours into one class, and puts every vertex into
/// exactly one class.
pub proof fn lemma_trial_is_sound(adj: Seq<Set<usize>>, classes: Seq<Seq<usize>>, amount: int)
    requires
        adjacency_wf(adj),
        is_trial_of(adj, classes, amount),
    ensures
        0 <= amount <= adj.len(),
        proper(adj, classes),
        partitions(classes, adj.len() as int),
{
    let order = choose|order: Seq<usize>|
        is_vertex_order(order, adj.len() as int) && descending_by_degree(order, graph_degrees(adj))
            && classes == #[trigger] first_fit(adj, order) && amount == color_count(classes);
    lemma_first_fit_shape(adj, order);
    lemma_first_fit_proper(adj, order);
    lemma_first_fit_partitions(adj, order);
}

/// The best after a trial: the trial where it improves on the best before it, else
/// that best.
pub open spec fn kept(best: Option<TrialResult>, trial: TrialResult) -> Option<TrialResult> {
    if improves(best, trial) {
        Some(trial)
    } else {
        best
    }
}

/// The best after a row of trials, each held against the best of those before it.
pub open spec fn best_of(trials: Seq<TrialResult>) -> Option<TrialResult>
    decreases trials.len(),
{
    if trials.len() == 0 {
        None
    } else {
        kept(best_of(trials.drop_last()), trials.last())
    }
}

/// Where in a row of trials the first of those with the fewest colours stands.
pub open spec fn first_least(trials: Seq<TrialResult>) -> int
    decreases trials.len(),
{
    if trials.len() <= 1 {
        0
    } else if trials.last().amount_colors < trials[first_least(
        trials.drop_last(),
    )].amount_colors {
        trials.len() - 1
    } else {
        first_least(trials.drop_last())
    }
}

/// The best after a row of trials is the first of those with the fewest colours.
pub proof fn lemma_best_is_first_least(trials: Seq<TrialResult>)
    requires
        trials.len() > 0,
    ensures
        0 <= first_least(trials) < trials.len(),
        best_of(trials) == Some(trials[first_least(trials)]),
    decreases trials.len(),
{
    let fewer = trials.drop_last();
    if fewer.len() > 0 {
        lemma_best_is_first_least(fewer);
        assert(fewer[first_least(fewer)] == trials[first_least(fewer)]);
    } else {
        assert(best_of(fewer) is None);
    }
}

/// No trial of the row has fewer colours than the one at `first_least`, and none
/// before it has as few.
pub proof fn lemma_first_least(trials: Seq<TrialResult>, j: int)
    requires
        0 <= j < trials.len(),
    ensures
        0 <= first_least(trials) < trials.len(),
        trials[first_least(trials)].amount_colors <= trials[j].amount_colors,
        j < first_least(trials) ==> trials[first_least(trials)].amount_colors
            < trials[j].amount_colors,
    decreases trials.len(),
{
    let fewer = trials.drop_last();
    if fewer.len() > 0 {
        if j < fewer.len() {
            lemma_first_least(fewer, j);
            assert(fewer[j] == trials[j]);
        } else {
            lemma_first_least(fewer, 0);
        }
        assert(fewer[first_least(fewer)] == trials[first_least(fewer)]);
    }
}

/// One more trial never raises the number of colours of the best.
pub proof fn lemma_best_never_rises(trials: Seq<TrialResult>, trial: TrialResult)
    requires
        trials.len() > 0,
    ensures
        best_of(trials) is Some,
        best_of(trials.push(trial)) is Some,
        best_of(trials.push(trial)).unwrap().amount_colors <= best_of(
            trials,
        ).unwrap().amount_colors,
{
    let longer = trials.push(trial);
    assert(longer.drop_last() =~= trials);
    lemma_best_is_first_least(trials);
    lemma_best_is_first_least(longer);
    lemma_first_least(longer, first_least(trials));
    assert(longer[first_least(trials)] == trials[first_least(trials)]);
}

/// Keeps the better of the best result so far and a new trial: the trial only
/// where it has fewer colours, or there is no best yet.
pub fn keep_better(best: Option<TrialResult>, trial: TrialResult) -> (better: Option<TrialResult>)
    ensures
        better == kept(best, trial),
        better is Some,
        better.unwrap().amount_colors <= trial.amount_colors,
        best is Some ==> better.unwrap().amount_colors <= best.unwrap().amount_colors,
{
    match best {
        None => Some(trial),
        Some(b) => {
            if trial.amount_colors < b.amount_colors {
                Some(trial)
            } else {
                Some(b)
            }
        },
    }
}

/// Runs one trial: draws an order, colours the graph in it, takes the time of the
/// colouring and validates the result, which always passes.
pub fn run_trial(g: &Graph, degree_vertices: &HashMap<usize, usize>, rng: &mut StdRng) -> (trial:
    TrialResult)
    requires
        g.wf(),
        is_degree_table(degree_vertices@, g@),
    ensures
        is_trial_of(g@, nested_view(trial.classes), trial.amount_colors as int),
        trial.test == TestOutcome::Pass,
        trial.amount_colors <= g@.len(),
        proper(g@, nested_view(trial.classes)),
        partitions(nested_view(trial.classes), g@.len() as int),
{
    let ready_list = get_random(degree_vertices, rng);
    let amount_ver = g.vertex_count();
    proof {
        assert(is_dense(degree_vertices@, amount_ver as nat));
        assert(table_degrees(degree_vertices@, amount_ver as nat) =~= graph_degrees(g@));
    }
    let time_start = clock_now();
    let (max_colour, color_classes) = solver(ready_list.as_slice(), g);
    let elapsed = clock_elapsed(&time_start);
    proof {
        assert(nested_view(color_classes) == first_fit(g@, ready_list@));
        assert(is_trial_of(g@, nested_view(color_classes), max_colour as int));
        lemma_trial_is_sound(g@, nested_view(color_classes), max_colour as int);
    }
    let test = testing_solution(&color_classes, g);
    TrialResult { amount_colors: max_colour, elapsed, classes: color_classes, test }
}

/// Runs `trial_count` trials on the graph and returns the first among those with
/// the fewest colours; nothing where no trial was asked for.
pub fn search(g: &Graph, trial_count: usize, rng: &mut StdRng) -> (best: Option<TrialResult>)
    requires
        g.wf(),
    ensures
        best is None <==> trial_count == 0,
        best is Some ==> {
            let b = best.unwrap();
            &&& is_trial_of(g@, nested_view(b.classes), b.amount_colors as int)
            &&& b.test == TestOutcome::Pass
            &&& b.amount_colors <= g@.len()
            &&& proper(g@, nested_view(b.classes))
            &&& partitions(nested_view(b.classes), g@.len() as int)
        },
{
    let degree_vertices = get_degree_vert(g);
    let mut best: Option<TrialResult> = None;
    let mut done: usize = 0;
    while done < trial_count
        invariant
            g.wf(),
            is_degree_table(degree_vertices@, g@),
            done <= trial_count,
            best is None <==> done == 0,
            best is Some ==> {
                let b = best.unwrap();
                &&& is_trial_of(g@, nested_view(b.classes), b.amount_colors as int)
                &&& b.test == TestOutcome::Pass
                &&& b.amount_colors <= g@.len()
                &&& proper(g@, nested_view(b.classes))
                &&& partitions(nested_view(b.classes), g@.len() as int)
            },
        decreases trial_count - done,
    {
        let trial = run_trial(g, &degree_vertices, rng);
        best = keep_better(best, trial);
        done += 1;
    }
    best
}

/// Builds the graph on `amount_ver` vertices from its edges, whose ends are
/// numbered from one, and searches it with `trial_count` trials.
pub fn greedy_with_vertex_degree_sort_and_randomize(
    amount_ver: usize,
    data: &[(usize, usize)],
    trial_count: usize,
    rng: &mut StdRng,
) -> (found: Result<(Graph, TrialResult), SearchError>)
    ensures
        found is Ok <==> edges_in_range(amount_ver as int, data@) && trial_count > 0,
        found == Err::<(Graph, TrialResult), SearchError>(SearchError::EdgeOutOfRange)
            <==> !edges_in_range(amount_ver as int, data@),
        found == Err::<(Graph, TrialResult), SearchError>(SearchError::NoTrials) <==> edges_in_range(
            amount_ver as int,
            data@,
        ) && trial_count == 0,
        found is Ok ==> {
            let (g, b) = found.unwrap();
            &&& g.wf()
            &&& g@.len() == amount_ver
            &&& forall|u: int, v: int|
                0 <= u < amount_ver && 0 <= v < amount_ver ==> (#[trigger] adjacent(g@, u, v)
                    <==> edge_listed(data@, u, v))
            &&& is_trial_of(g@, nested_view(b.classes), b.amount_colors as int)
            &&& b.test == TestOutcome::Pass
            &&& b.amount_colors <= amount_ver
            &&& proper(g@, nested_view(b.classes))
            &&& no_edge_within(data@, nested_view(b.classes))
            &&& partitions(nested_view(b.classes), amount_ver as int)
        },
{
    if !edges_fit(amount_ver, data) {
        return Err(SearchError::EdgeOutOfRange);
    }
    let g = get_adjacency_matrix(amount_ver, data);
    match search(&g, trial_count, rng) {
        None => Err(SearchError::NoTrials),
        Some(b) => {
            proof {
                let classes = nested_view(b.classes);
                assert forall|c: int, i: int, j: int|
                    0 <= c < classes.len() && 0 <= i < j < classes[c].len() implies !edge_listed(
                    data@,
                    #[trigger] classes[c][i] as int,
                    #[trigger] classes[c][j] as int,
                ) by {
                    assert(!adjacent(g@, classes[c][i] as int, classes[c][j] as int));
                }
            }
            Ok((g, b))
        },
    }
}

} // verus!

use rand::rngs::StdRng;
use rand::SeedableRng;
use restart_coloring::coloring::{has_neighbours, solver};
use restart_coloring::graph::{edges_fit, get_adjacency_matrix, get_degree_vert};
use restart_coloring::ordering::{descending_order, get_random, group_by_degree};
use restart_coloring::search::{
    greedy_with_vertex_degree_sort_and_randomize, keep_better, run_trial, search, SearchError,
    TrialResult,
};
use restart_coloring::validate::{testing_solution, TestOutcome};
use std::collections::HashMap;
use std::time::Duration;

fn cycle4() -> Vec<(usize, usize)> {
    vec![(1, 2), (2, 3), (3, 4), (4, 1)]
}

fn complete4() -> Vec<(usize, usize)> {
    vec![(1, 2), (1, 3), (1, 4), (2, 3), (2, 4), (3, 4)]
}

fn sorted(mut v: Vec<usize>) -> Vec<usize> {
    v.sort();
    v
}

fn table(degrees: &[usize]) -> HashMap<usize, usize> {
    degrees.iter().cloned().enumerate().collect()
}

#[test]
fn adjacency_is_symmetric_and_zero_based() {
    let g = get_adjacency_matrix(4, &[(1, 2), (3, 4)]);
    assert_eq!(g.vertex_count(), 4);
    assert!(g.has_edge(0, 1));
    assert!(g.has_edge(1, 0));
    assert!(g.has_edge(2, 3));
    assert!(g.has_edge(3, 2));
    assert!(!g.has_edge(0, 2));
    assert!(!g.has_edge(0, 0));
    assert!(!g.has_edge(0, 17));
}

#[test]
fn duplicate_edges_count_once() {
    let g = get_adjacency_matrix(3, &[(1, 2), (2, 1), (1, 2)]);
    assert_eq!(get_degree_vert(&g), table(&[1, 1, 0]));
}

#[test]
fn self_loop_is_its_own_neighbour() {
    let g = get_adjacency_matrix(2, &[(1, 1)]);
    assert!(g.has_edge(0, 0));
    assert_eq!(g.degree(0), 1);
    assert_eq!(g.degree(1), 0);
}

#[test]
fn edges_fit_tells_range() {
    assert!(edges_fit(4, &cycle4()));
    assert!(!edges_fit(3, &cycle4()));
    assert!(!edges_fit(4, &[(0, 1)]));
    assert!(!edges_fit(4, &[(1, 5)]));
    assert!(edges_fit(0, &[]));
}

#[test]
fn degree_table_of_a_star() {
    let g = get_adjacency_matrix(4, &[(1, 2), (1, 3), (1, 4)]);
    assert_eq!(get_degree_vert(&g), table(&[3, 1, 1, 1]));
}

#[test]
fn has_neighbours_looks_at_the_row_of_the_vertex() {
    let g = get_adjacency_matrix(4, &cycle4());
    assert!(has_neighbours(0, &vec![2, 1], &g));
    assert!(!has_neighbours(0, &vec![2], &g));
    assert!(!has_neighbours(0, &vec![], &g));
}

#[test]
fn solver_first_fit_on_a_path() {
    let g = get_adjacency_matrix(4, &[(1, 2), (2, 3), (3, 4)]);
    let (k, classes) = solver(&[0, 3, 1, 2], &g);
    assert_eq!(k, 3);
    assert_eq!(classes, vec![vec![0, 3], vec![1], vec![2]]);
    let (k, classes) = solver(&[1, 2, 0, 3], &g);
    assert_eq!(k, 2);
    assert_eq!(classes, vec![vec![1, 3], vec![2, 0]]);
}

#[test]
fn solver_is_deterministic() {
    let g = get_adjacency_matrix(4, &cycle4());
    let first = solver(&[2, 0, 3, 1], &g);
    let second = solver(&[2, 0, 3, 1], &g);
    assert_eq!(first, second);
    assert_eq!(first.1, vec![vec![2, 0], vec![3, 1]]);
}

#[test]
fn solver_on_the_empty_order() {
    let g = get_adjacency_matrix(0, &[]);
    let (k, classes) = solver(&[], &g);
    assert_eq!(k, 0);
    assert_eq!(classes, vec![Vec::<usize>::new()]);
}

#[test]
fn four_cycle_is_two_coloured() {
    let g = get_adjacency_matrix(4, &cycle4());
    let mut rng = StdRng::seed_from_u64(11);
    let best = search(&g, 50, &mut rng).unwrap();
    assert_eq!(best.amount_colors, 2);
    assert_eq!(best.test, TestOutcome::Pass);
    assert_eq!(testing_solution(&best.classes, &g), TestOutcome::Pass);
    let mut all: Vec<usize> = best.classes.iter().flatten().cloned().collect();
    all.sort();
    assert_eq!(all, vec![0, 1, 2, 3]);
}

#[test]
fn edgeless_graph_has_one_class() {
    let g = get_adjacency_matrix(5, &[]);
    let mut rng = StdRng::seed_from_u64(3);
    let best = search(&g, 20, &mut rng).unwrap();
    assert_eq!(best.amount_colors, 1);
    assert_eq!(best.classes.len(), 1);
    assert_eq!(sorted(best.classes[0].clone()), vec![0, 1, 2, 3, 4]);
    assert_eq!(best.test, TestOutcome::Pass);
}

#[test]
fn complete_graph_needs_a_class_per_vertex() {
    let g = get_adjacency_matrix(4, &complete4());
    let degrees = get_degree_vert(&g);
    let mut rng = StdRng::seed_from_u64(5);
    for _ in 0..40 {
        let trial = run_trial(&g, &degrees, &mut rng);
        assert_eq!(trial.amount_colors, 4);
        assert_eq!(trial.classes.len(), 4);
        for class in &trial.classes {
            assert_eq!(class.len(), 1);
        }
        assert_eq!(trial.test, TestOutcome::Pass);
    }
    for order in [[0usize, 1, 2, 3], [3, 2, 1, 0], [2, 0, 3, 1]] {
        let (k, classes) = solver(&order, &g);
        assert_eq!(k, 4);
        assert_eq!(classes, order.iter().map(|v| vec![*v]).collect::<Vec<_>>());
    }
}

#[test]
fn validator_fails_on_neighbours_in_one_class() {
    let g = get_adjacency_matrix(4, &cycle4());
    assert_eq!(testing_solution(&vec![vec![0, 1], vec![2, 3]], &g), TestOutcome::Fail);
    assert_eq!(testing_solution(&vec![vec![0, 2], vec![1, 3]], &g), TestOutcome::Pass);
    assert_eq!(testing_solution(&vec![vec![0], vec![1], vec![2, 3]], &g), TestOutcome::Fail);
    assert_eq!(testing_solution(&vec![], &g), TestOutcome::Pass);
}

#[test]
fn outcome_labels() {
    assert_eq!(TestOutcome::Pass.label(), "PASS");
    assert_eq!(TestOutcome::Fail.label(), "FAIL");
}

#[test]
fn buckets_hold_vertices_by_degree() {
    let grouped = group_by_degree(&table(&[3, 1, 1, 1, 0]));
    let grouped: Vec<Vec<usize>> = grouped.into_iter().map(sorted).collect();
    assert_eq!(grouped, vec![vec![4], vec![1, 2, 3], vec![], vec![0]]);
    assert_eq!(group_by_degree(&HashMap::new()), Vec::<Vec<usize>>::new());
}

#[test]
fn descending_order_reverses_the_row_of_buckets() {
    let order = descending_order(&vec![vec![4], vec![1, 2, 3], vec![], vec![0]]);
    assert_eq!(order, vec![0, 3, 2, 1, 4]);
}

#[test]
fn random_order_visits_all_by_falling_degree() {
    let degrees = vec![2, 5, 2, 0, 5, 2, 1, 2];
    let mut rng = StdRng::seed_from_u64(99);
    for _ in 0..30 {
        let order = get_random(&table(&degrees), &mut rng);
        assert_eq!(sorted(order.clone()), (0..8).collect::<Vec<usize>>());
        for pair in order.windows(2) {
            assert!(degrees[pair[0]] >= degrees[pair[1]]);
        }
        let mut met: Vec<usize> = order.iter().map(|v| degrees[*v]).collect();
        assert_eq!(met, vec![5, 5, 2, 2, 2, 2, 1, 0]);
        met.sort();
        assert_eq!(met, sorted(degrees.clone()));
    }
}

#[test]
fn random_order_breaks_ties_differently() {
    let degrees = table(&[1; 12]);
    let unshuffled = descending_order(&group_by_degree(&degrees));
    let mut rng = StdRng::seed_from_u64(2024);
    let mut moved = false;
    let mut seen = Vec::new();
    for _ in 0..10 {
        let order = get_random(&degrees, &mut rng);
        if order != unshuffled {
            moved = true;
        }
        seen.push(order);
    }
    assert!(moved);
    assert!(seen.iter().any(|o| *o != seen[0]));
}

#[test]
fn random_order_is_reproducible_for_a_seed() {
    let degrees = table(&[1; 9]);
    let mut a = StdRng::seed_from_u64(7);
    let mut b = StdRng::seed_from_u64(7);
    assert_eq!(get_random(&degrees, &mut a), get_random(&degrees, &mut b));
}

fn trial(amount_colors: usize, millis: u64) -> TrialResult {
    TrialResult {
        amount_colors,
        elapsed: Duration::from_millis(millis),
        classes: vec![vec![amount_colors]],
        test: TestOutcome::Pass,
    }
}

#[test]
fn keep_better_replaces_only_when_strictly_better() {
    let kept = keep_better(None, trial(5, 1)).unwrap();
    assert_eq!((kept.amount_colors, kept.elapsed), (5, Duration::from_millis(1)));
    let kept = keep_better(Some(kept), trial(5, 2)).unwrap();
    assert_eq!((kept.amount_colors, kept.elapsed), (5, Duration::from_millis(1)));
    let kept = keep_better(Some(kept), trial(7, 3)).unwrap();
    assert_eq!((kept.amount_colors, kept.elapsed), (5, Duration::from_millis(1)));
    let kept = keep_better(Some(kept), trial(4, 4)).unwrap();
    assert_eq!((kept.amount_colors, kept.elapsed), (4, Duration::from_millis(4)));
    assert_eq!(kept.classes, vec![vec![4]]);
}

#[test]
fn best_colour_count_never_rises() {
    let mut best: Option<TrialResult> = None;
    let mut last = usize::MAX;
    for amount in [9usize, 9, 12, 7, 8, 7, 3, 30] {
        best = keep_better(best, trial(amount, 0));
        let now = best.as_ref().unwrap().amount_colors;
        assert!(now <= last);
        last = now;
    }
    assert_eq!(last, 3);
}

#[test]
fn search_without_trials_gives_nothing() {
    let g = get_adjacency_matrix(4, &cycle4());
    let mut rng = StdRng::seed_from_u64(1);
    assert!(search(&g, 0, &mut rng).is_none());
}

#[test]
fn colour_count_is_at_most_the_vertex_count() {
    let edges = vec![(1, 2), (1, 3), (2, 3), (3, 4), (4, 5), (5, 6), (6, 4), (2, 6)];
    let g = get_adjacency_matrix(6, &edges);
    let mut rng = StdRng::seed_from_u64(17);
    let best = search(&g, 100, &mut rng).unwrap();
    assert!(best.amount_colors <= 6);
    assert_eq!(best.amount_colors, 3);
    assert_eq!(best.amount_colors, best.classes.len());
    assert_eq!(best.test, TestOutcome::Pass);
    let all: Vec<usize> = best.classes.iter().flatten().cloned().collect();
    assert_eq!(sorted(all), vec![0, 1, 2, 3, 4, 5]);
}

#[test]
fn whole_search_from_edges() {
    let mut rng = StdRng::seed_from_u64(8);
    match greedy_with_vertex_degree_sort_and_randomize(4, &cycle4(), 25, &mut rng) {
        Ok((g, best)) => {
            assert_eq!(g.vertex_count(), 4);
            assert_eq!(best.amount_colors, 2);
            assert_eq!(testing_solution(&best.classes, &g), TestOutcome::Pass);
        }
        Err(_) => panic!("a search was owed"),
    }
}

#[test]
fn whole_search_reports_what_went_wrong() {
    let mut rng = StdRng::seed_from_u64(8);
    let out_of_range = greedy_with_vertex_degree_sort_and_randomize(3, &cycle4(), 25, &mut rng);
    assert!(matches!(out_of_range, Err(SearchError::EdgeOutOfRange)));
    let no_trials = greedy_with_vertex_degree_sort_and_randomize(4, &cycle4(), 0, &mut rng);
    assert!(matches!(no_trials, Err(SearchError::NoTrials)));
    let both = greedy_with_vertex_degree_sort_and_randomize(3, &cycle4(), 0, &mut rng);
    assert!(matches!(both, Err(SearchError::EdgeOutOfRange)));
}

#[test]
fn whole_search_returns_the_graph_of_its_edges() {
    let mut rng = StdRng::seed_from_u64(21);
    let (g, best) =
        greedy_with_vertex_degree_sort_and_randomize(4, &cycle4(), 10, &mut rng).ok().unwrap();
    for u in 0..4usize {
        for v in 0..4usize {
            let listed = cycle4().iter().any(|e| *e == (u + 1, v + 1) || *e == (v + 1, u + 1));
            assert_eq!(g.has_edge(u, v), listed);
        }
    }
    let mut classes: Vec<Vec<usize>> = best.classes.iter().map(|c| sorted(c.clone())).collect();
    classes.sort();
    assert_eq!(classes, vec![vec![0, 2], vec![1, 3]]);
    assert_eq!(best.amount_colors, 2);
    assert_eq!(best.test, TestOutcome::Pass);
}

#[test]
fn whole_search_on_the_edgeless_graph() {
    let mut rng = StdRng::seed_from_u64(22);
    let (g, best) = greedy_with_vertex_degree_sort_and_randomize(5, &[], 10, &mut rng).ok().unwrap();
    assert_eq!(get_degree_vert(&g), table(&[0, 0, 0, 0, 0]));
    assert_eq!(best.amount_colors, 1);
    assert_eq!(best.classes.len(), 1);
    assert_eq!(sorted(best.classes[0].clone()), vec![0, 1, 2, 3, 4]);
    assert_eq!(best.test, TestOutcome::Pass);
}

#[test]
fn whole_search_on_the_complete_graph() {
    let mut rng = StdRng::seed_from_u64(23);
    let (g, best) =
        greedy_with_vertex_degree_sort_and_randomize(4, &complete4(), 10, &mut rng).ok().unwrap();
    assert_eq!(get_degree_vert(&g), table(&[3, 3, 3, 3]));
    assert_eq!(best.amount_colors, 4);
    assert_eq!(best.classes.len(), 4);
    assert!(best.classes.iter().all(|c| c.len() == 1));
    let all: Vec<usize> = best.classes.iter().flatten().cloned().collect();
    assert_eq!(sorted(all), vec![0, 1, 2, 3]);
    assert_eq!(best.test, TestOutcome::Pass);
}

#[test]
fn edgeless_graph_gives_one_class_in_the_order_of_the_visits() {
    let g = get_adjacency_matrix(5, &[]);
    let (k, classes) = solver(&[3, 0, 4, 1, 2], &g);
    assert_eq!(k, 1);
    assert_eq!(classes, vec![vec![3, 0, 4, 1, 2]]);
}

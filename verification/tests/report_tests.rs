use restart_coloring::report::{
    create_optimal_solutions, make_entry, optimal_solution, solved, UNKNOWN_OPTIMAL,
};
use restart_coloring::search::TrialResult;
use restart_coloring::validate::TestOutcome;
use std::time::Duration;

fn best(amount_colors: usize, classes: Vec<Vec<usize>>) -> TrialResult {
    TrialResult {
        amount_colors,
        elapsed: Duration::from_micros(1500),
        classes,
        test: TestOutcome::Pass,
    }
}

#[test]
fn the_table_names_fourteen_graphs() {
    let table = create_optimal_solutions();
    assert_eq!(table.len(), 14);
    assert_eq!(table[0], ("myciel3.col.txt".to_string(), 4));
    assert_eq!(table[11], ("latin_square_10.col.txt".to_string(), 97));
    assert_eq!(table[13], ("school1_nsh.col.txt".to_string(), 21));
    let total: i32 = table.iter().map(|e| e.1).sum();
    assert_eq!(total, 4 + 54 + 16 + 49 + 15 + 11 + 11 + 18 + 11 + 42 + 8 + 97 + 10 + 21);
}

#[test]
fn optimum_by_file_name() {
    let table = create_optimal_solutions();
    assert_eq!(optimal_solution(&table, &"myciel3.col.txt".to_string()), 4);
    assert_eq!(optimal_solution(&table, &"queen11_11.col".to_string()), 16);
    assert_eq!(optimal_solution(&table, &"huck.col".to_string()), 11);
    assert_eq!(optimal_solution(&table, &"myciel3.col".to_string()), UNKNOWN_OPTIMAL);
    assert_eq!(optimal_solution(&table, &"".to_string()), UNKNOWN_OPTIMAL);
    assert_eq!(UNKNOWN_OPTIMAL, i32::MAX);
}

#[test]
fn a_later_entry_of_a_name_counts() {
    let table = vec![("g".to_string(), 3), ("h".to_string(), 5), ("g".to_string(), 4)];
    assert_eq!(optimal_solution(&table, &"g".to_string()), 4);
    assert_eq!(optimal_solution(&table, &"h".to_string()), 5);
    assert_eq!(optimal_solution(&Vec::new(), &"g".to_string()), UNKNOWN_OPTIMAL);
}

#[test]
fn solved_needs_a_known_optimum() {
    assert!(solved(4, 4));
    assert!(solved(3, 4));
    assert!(!solved(5, 4));
    assert!(!solved(4, UNKNOWN_OPTIMAL));
    assert!(!solved(0, UNKNOWN_OPTIMAL));
    assert!(!solved(1, -1));
    assert!(solved(0, 0));
}

#[test]
fn known_optimum_four_is_solved_by_four_and_not_by_five() {
    let table = create_optimal_solutions();
    let four = make_entry(
        "myciel3.col.txt".to_string(),
        best(4, vec![vec![0, 2], vec![1], vec![3], vec![4]]),
        &table,
    );
    assert_eq!(four.optimal_solution, 4);
    assert!(four.solved);
    let five = make_entry(
        "myciel3.col.txt".to_string(),
        best(5, vec![vec![0], vec![2], vec![1], vec![3], vec![4]]),
        &table,
    );
    assert_eq!(five.optimal_solution, 4);
    assert!(!five.solved);
}

#[test]
fn a_row_holds_the_best_trial() {
    let table = create_optimal_solutions();
    let row = make_entry("other.col".to_string(), best(2, vec![vec![3, 0], vec![], vec![2, 1]]), &table);
    assert_eq!(row.filename, "other.col");
    assert_eq!(row.amount_colors, 2);
    assert_eq!(row.time, Duration::from_micros(1500));
    assert_eq!(row.groups, vec![3, 0, 2, 1]);
    assert_eq!(row.test, TestOutcome::Pass);
    assert_eq!(row.test.label(), "PASS");
    assert_eq!(row.optimal_solution, UNKNOWN_OPTIMAL);
    assert!(!row.solved);
}

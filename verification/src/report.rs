//! One row of the report for each graph: the best colouring found, held against
//! the chromatic number where it is known.

use crate::nested::{flatten_groups, nested_view};
use crate::search::TrialResult;
use crate::validate::TestOutcome;
use std::time::Duration;
use vstd::prelude::*;

verus! {

/// Stands for the optimum of a graph that the table does not name.
pub const UNKNOWN_OPTIMAL: i32 = 2147483647;

/// The row of one graph.
pub struct DataEntry {
    pub filename: String,
    pub amount_colors: usize,
    pub time: Duration,
    pub groups: Vec<usize>,
    pub test: TestOutcome,
    pub optimal_solution: i32,
    pub solved: bool,
}

/// A table of optima as a sequence of names and numbers.
pub open spec fn table_view(table: Vec<(String, i32)>) -> Seq<(Seq<char>, i32)> {
    Seq::new(table@.len(), |i: int| (table@[i].0@, table@[i].1))
}

/// The graphs whose chromatic number is known, with that number.
pub open spec fn known_optima() -> Seq<(Seq<char>, i32)> {
    seq![
        ("myciel3.col.txt"@, 4i32),
        ("inithx.i.1.col"@, 54i32),
        ("queen11_11.col"@, 16i32),
        ("mulsol.i.1.col"@, 49i32),
        ("school1.col.txt"@, 15i32),
        ("le450_5a.col"@, 11i32),
        ("huck.col"@, 11i32),
        ("le450_15b.col"@, 18i32),
        ("anna.col"@, 11i32),
        ("miles1000.col"@, 42i32),
        ("myciel7.col.txt"@, 8i32),
        ("latin_square_10.col.txt"@, 97i32),
        ("jean.col.txt"@, 10i32),
        ("school1_nsh.col.txt"@, 21i32),
    ]
}

/// The number that the table gives for `name`: that of the last entry of this name,
/// and `UNKNOWN_OPTIMAL` where there is none.
pub open spec fn lookup(table: Seq<(Seq<char>, i32)>, name: Seq<char>) -> i32
    decreases table.len(),
{
    if table.len() == 0 {
        UNKNOWN_OPTIMAL
    } else if table.last().0 == name {
        table.last().1
    } else {
        lookup(table.drop_last(), name)
    }
}

/// Whether a colouring with `amount` colours reaches the optimum: never where the
/// optimum is not known.
pub open spec fn is_solved(amount: int, optimal: i32) -> bool {
    optimal != UNKNOWN_OPTIMAL && amount <= optimal
}

fn entry(name: &str, optimal: i32) -> (pair: (String, i32))
    ensures
        pair.0@ == name@,
        pair.1 == optimal,
{
    (name.to_owned(), optimal)
}

/// The table of the known chromatic numbers.
pub fn create_optimal_solutions() -> (table: Vec<(String, i32)>)
    ensures
        table_view(table) == known_optima(),
{
    let mut table: Vec<(String, i32)> = Vec::new();
    table.push(entry("myciel3.col.txt", 4));
    table.push(entry("inithx.i.1.col", 54));
    table.push(entry("queen11_11.col", 16));
    table.push(entry("mulsol.i.1.col", 49));
    table.push(entry("school1.col.txt", 15));
    table.push(entry("le450_5a.col", 11));
    table.push(entry("huck.col", 11));
    table.push(entry("le450_15b.col", 18));
    table.push(entry("anna.col", 11));
    table.push(entry("miles1000.col", 42));
    table.push(entry("myciel7.col.txt", 8));
    table.push(entry("latin_square_10.col.txt", 97));
    table.push(entry("jean.col.txt", 10));
    table.push(entry("school1_nsh.col.txt", 21));
    assert(table_view(table) =~= known_optima());
    table
}

/// Looks the optimum of a graph up by the name of its file.
pub fn optimal_solution(table: &Vec<(String, i32)>, filename: &String) -> (optimal: i32)
    ensures
        optimal == lookup(table_view(*table), filename@),
{
    let ghost rows = table_view(*table);
    let mut left: usize = table.len();
    assert(rows.take(left as int) =~= rows);
    while left > 0
        invariant
            rows == table_view(*table),
            left <= rows.len(),
            lookup(rows, filename@) == lookup(rows.take(left as int), filename@),
        decreases left,
    {
        left -= 1;
        proof {
            assert(rows.take(left + 1).last() == rows[left as int]);
            assert(rows.take(left + 1).drop_last() =~= rows.take(left as int));
        }
        if table[left].0 == *filename {
            return table[left].1;
        }
    }
    assert(rows.take(0).len() == 0);
    UNKNOWN_OPTIMAL
}

/// Tells whether `amount_colors` colours reach the optimum.
pub fn solved(amount_colors: usize, optimal_solution: i32) -> (reached: bool)
    ensures
        reached == is_solved(amount_colors as int, optimal_solution),
{
    if optimal_solution == UNKNOWN_OPTIMAL || optimal_solution < 0 {
        false
    } else {
        amount_colors <= optimal_solution as usize
    }
}

/// Makes the row of a graph from the best trial of its search.
pub fn make_entry(filename: String, best: TrialResult, table: &Vec<(String, i32)>) -> (row: DataEntry)
    ensures
        row.filename == filename,
        row.amount_colors == best.amount_colors,
        row.time == best.elapsed,
        row.groups@ == nested_view(best.classes).flatten(),
        row.test == best.test,
        row.optimal_solution == lookup(table_view(*table), filename@),
        row.solved == is_solved(best.amount_colors as int, row.optimal_solution),
{
    let optimal = optimal_solution(table, &filename);
    let groups = flatten_groups(&best.classes);
    DataEntry {
        filename,
        amount_colors: best.amount_colors,
        time: best.elapsed,
        groups,
        test: best.test,
        optimal_solution: optimal,
        solved: solved(best.amount_colors, optimal),
    }
}

} // verus!

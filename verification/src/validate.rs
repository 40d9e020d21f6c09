//! Validation of a colouring: no class may hold two neighbours.

use crate::coloring::{members_in_range, proper};
use crate::graph::{adjacent, Graph};
use crate::nested::nested_view;
use vstd::prelude::*;

verus! {

/// Whether a colouring is valid.
#[derive(Clone, Copy, Debug, PartialEq, Eq, Structural)]
pub enum TestOutcome {
    Pass,
    Fail,
}

/// `proper` for one class, up to the pairs whose first place lies before `upto`.
spec fn class_proper_upto(adj: Seq<Set<usize>>, class: Seq<usize>, upto: int) -> bool {
    forall|i: int, j: int|
        0 <= i < j < class.len() && i < upto ==> !adjacent(
            adj,
            #[trigger] class[i] as int,
            #[trigger] class[j] as int,
        )
}

impl TestOutcome {
    /// The words that stand for the outcome in a report.
    pub fn label(self) -> (words: &'static str)
        ensures
            words@ == (match self {
                TestOutcome::Pass => "PASS"@,
                TestOutcome::Fail => "FAIL"@,
            }),
    {
        match self {
            TestOutcome::Pass => "PASS",
            TestOutcome::Fail => "FAIL",
        }
    }
}

/// Validates a colouring against the graph: it passes exactly when no class holds two
/// vertices of which the later is recorded as a neighbour of the earlier.
pub fn testing_solution(color_classes: &Vec<Vec<usize>>, g: &Graph) -> (outcome: TestOutcome)
    requires
        members_in_range(nested_view(*color_classes), g@.len() as int),
    ensures
        outcome == TestOutcome::Pass <==> proper(g@, nested_view(*color_classes)),
{
    let ghost classes = nested_view(*color_classes);
    let mut c: usize = 0;
    while c < color_classes.len()
        invariant
            classes == nested_view(*color_classes),
            members_in_range(classes, g@.len() as int),
            c <= classes.len(),
            forall|d: int| 0 <= d < c ==> class_proper_upto(g@, #[trigger] classes[d], classes[d].len() as int),
        decreases classes.len() - c,
    {
        let cluster = &color_classes[c];
        assert(cluster@ == classes[c as int]);
        let mut n: usize = 0;
        while n < cluster.len()
            invariant
                classes == nested_view(*color_classes),
                members_in_range(classes, g@.len() as int),
                c < classes.len(),
                cluster@ == classes[c as int],
                n <= cluster@.len(),
                class_proper_upto(g@, cluster@, n as int),
            decreases cluster@.len() - n,
        {
            let vert = cluster[n];
            assert(vert == classes[c as int][n as int]);
            let mut m: usize = n + 1;
            while m < cluster.len()
                invariant
                    classes == nested_view(*color_classes),
                    c < classes.len(),
                    cluster@ == classes[c as int],
                    vert == cluster@[n as int],
                    vert < g@.len(),
                    n < m <= cluster@.len(),
                    forall|j: int| n < j < m ==> !adjacent(g@, vert as int, #[trigger] cluster@[j] as int),
                decreases cluster@.len() - m,
            {
                if g.has_edge(vert, cluster[m]) {
                    assert(adjacent(g@, classes[c as int][n as int] as int, classes[c as int][m as int] as int));
                    return TestOutcome::Fail;
                }
                m += 1;
            }
            n += 1;
        }
        c += 1;
    }
    assert forall|d: int, i: int, j: int|
        0 <= d < classes.len() && 0 <= i < j < classes[d].len() implies !adjacent(
        g@,
        #[trigger] classes[d][i] as int,
        #[trigger] classes[d][j] as int,
    ) by {
        assert(class_proper_upto(g@, classes[d], classes[d].len() as int));
    }
    TestOutcome::Pass
}

} // verus!

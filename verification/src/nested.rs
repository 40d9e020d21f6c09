//! Vectors of vectors of vertices: the classes of a colouring, the buckets of an
//! ordering.

use vstd::prelude::*;

verus! {

/// A vector of vectors as a sequence of sequences.
pub open spec fn nested_view(groups: Vec<Vec<usize>>) -> Seq<Seq<usize>> {
    Seq::new(groups@.len(), |c: int| groups@[c]@)
}

/// Lays the groups out in one row, one behind the other.
pub fn flatten_groups(groups: &Vec<Vec<usize>>) -> (flat: Vec<usize>)
    ensures
        flat@ == nested_view(*groups).flatten(),
{
    let ghost rows = nested_view(*groups);
    let mut flat: Vec<usize> = Vec::new();
    let mut d: usize = 0;
    proof {
        assert(rows.take(0) =~= Seq::<Seq<usize>>::empty());
    }
    while d < groups.len()
        invariant
            rows == nested_view(*groups),
            d <= rows.len(),
            flat@ == rows.take(d as int).flatten(),
        decreases rows.len() - d,
    {
        let group = &groups[d];
        let ghost done = flat@;
        let mut j: usize = 0;
        while j < group.len()
            invariant
                group@ == rows[d as int],
                j <= group@.len(),
                flat@ == done + group@.take(j as int),
            decreases group@.len() - j,
        {
            flat.push(group[j]);
            assert(group@.take(j + 1) =~= group@.take(j as int).push(group@[j as int]));
            j += 1;
        }
        proof {
            assert(group@.take(j as int) =~= group@);
            assert(rows.take(d + 1) =~= rows.take(d as int).push(rows[d as int]));
            rows.take(d as int).lemma_flatten_push(rows[d as int]);
        }
        d += 1;
    }
    assert(rows.take(d as int) =~= rows);
    flat
}

} // verus!

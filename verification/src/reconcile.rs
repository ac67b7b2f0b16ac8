use vstd::prelude::*;

use crate::engine::Match;

verus! {

/// The paths of every member of a match group but the first: reconciling a
/// group deletes exactly these files and preserves the first member in
/// match order. An empty group yields nothing to delete.
pub fn deletion_candidates(group: &Match) -> (r: Vec<String>)
    ensures
        r@.len() == (if group@.matches.len() == 0 {
            0int
        } else {
            group@.matches.len() - 1
        }),
        forall|x: int| 0 <= x < r@.len() ==> (#[trigger] r@[x])@ == group@.matches[x + 1].path,
{
    let mut r: Vec<String> = Vec::new();
    let n = group.matches.len();
    let mut i: usize = 1;
    proof {
        assert(group@.matches.len() == n);
    }
    while i < n
        invariant
            n == group.matches@.len(),
            group@.matches.len() == n,
            1 <= i <= n || (n == 0 && i == 1),
            r@.len() == i - 1 || (n == 0 && r@.len() == 0),
            forall|x: int| 0 <= x < r@.len() ==> (#[trigger] r@[x])@ == group@.matches[x + 1].path,
        decreases n - i,
    {
        r.push(group.matches[i].path.clone());
        proof {
            assert(group@.matches[i as int] == group.matches@[i as int]@);
        }
        i = i + 1;
    }
    r
}

} // verus!

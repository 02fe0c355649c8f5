use vstd::prelude::*;

use crate::matching::chunk_pairs;
use crate::matching::random_pair;
use crate::matching::shuffle_of;

verus! {

/// Creates matches from the participant list (up to one triple is created
/// if there is not an even number): the shuffled order chunked two at a
/// time, as a bare match list without an imperfect set.
pub fn pair(vec: Vec<u64>, seed: u64) -> (r: Vec<Vec<u64>>)
    requires
        vec@.len() >= 2,
    ensures
        r.deep_view() == chunk_pairs(shuffle_of(vec@, seed)),
        r.deep_view().flatten() == shuffle_of(vec@, seed),
        r.deep_view().flatten().to_multiset() == vec@.to_multiset(),
{
    let p = random_pair(vec, seed);
    p.0
}

} // verus!

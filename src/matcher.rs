use vstd::prelude::*;

verus! {

/// Why no closest candidate could be picked.
#[derive(Clone, Copy, Debug, PartialEq, Eq, Structural)]
pub enum MatchError {
    /// The candidate list was empty.
    EmptyPalette,
}

/// `r` is the first position whose distance is minimal in `d`.
pub open spec fn is_first_closest(d: Seq<u32>, r: int) -> bool {
    &&& 0 <= r < d.len()
    &&& forall|j: int| 0 <= j < d.len() ==> d[r] <= #[trigger] d[j]
    &&& forall|j: int| 0 <= j < r ==> d[r] < #[trigger] d[j]
}

/// Picks the candidate closest to a target, given the distance from the target
/// to each candidate as an ordered key (a smaller key is a smaller distance).
/// Of several candidates at the minimal distance the first wins.
pub fn find_closest(distances: &[u32]) -> (r: Result<usize, MatchError>)
    ensures
        distances@.len() == 0 <==> r is Err,
        r is Err ==> r->Err_0 == MatchError::EmptyPalette,
        r is Ok ==> is_first_closest(distances@, r->Ok_0 as int),
{
    if distances.len() == 0 {
        return Err(MatchError::EmptyPalette);
    }
    let mut closest: usize = 0;
    let mut i: usize = 1;
    while i < distances.len()
        invariant
            1 <= i <= distances@.len(),
            closest < i,
            forall|j: int| 0 <= j < i ==> distances@[closest as int] <= #[trigger] distances@[j],
            forall|j: int| 0 <= j < closest ==> distances@[closest as int] < #[trigger] distances@[j],
        decreases distances@.len() - i,
    {
        if distances[i] < distances[closest] {
            closest = i;
        }
        i = i + 1;
    }
    Ok(closest)
}

/// The matcher is deterministic: for one list of distances at most one position
/// is the first closest, so two calls on the same list return the same index.
pub proof fn lemma_find_closest_deterministic(distances: Seq<u32>, r1: int, r2: int)
    requires
        is_first_closest(distances, r1),
        is_first_closest(distances, r2),
    ensures
        r1 == r2,
{
    if r1 < r2 {
        assert(distances[r2] < distances[r1]);
    } else if r2 < r1 {
        assert(distances[r1] < distances[r2]);
    }
}

} // verus!

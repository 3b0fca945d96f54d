use vstd::prelude::*;

verus! {

/// The identifier of a track inside a project.
#[derive(Clone, Copy, Default, Eq, Hash, PartialEq, Structural, Debug)]
pub struct TrackID(pub u64);

/// Whether some track in `taken` has the id `id`.
fn is_taken(taken: &Vec<TrackID>, id: u64) -> (found: bool)
    ensures
        found <==> taken@.contains(TrackID(id)),
{
    let mut i: usize = 0;
    while i < taken.len()
        invariant
            i <= taken.len(),
            forall|j: int| 0 <= j < i ==> taken@[j] != TrackID(id),
        decreases taken.len() - i,
    {
        if taken[i].0 == id {
            assert(taken@[i as int] == TrackID(id));
            return true;
        }
        i = i + 1;
    }
    false
}

/// Generates a track id that no track in `taken` has: the first one from
/// `next` on. `None` when every id from `next` below the largest `u64` is taken.
pub fn first_free_track_id(taken: &Vec<TrackID>, next: u64) -> (id: Option<TrackID>)
    ensures
        match id {
            Some(id) => {
                &&& next <= id.0 < u64::MAX
                &&& !taken@.contains(id)
                &&& forall|w: u64| next <= w < id.0 ==> #[trigger] taken@.contains(TrackID(w))
            },
            None => forall|w: u64| next <= w < u64::MAX ==> #[trigger] taken@.contains(TrackID(w)),
        },
{
    let mut candidate = next;
    while candidate < u64::MAX
        invariant
            next <= candidate,
            forall|w: u64| next <= w < candidate ==> #[trigger] taken@.contains(TrackID(w)),
        decreases u64::MAX - candidate,
    {
        if !is_taken(taken, candidate) {
            return Some(TrackID(candidate));
        }
        candidate = candidate + 1;
    }
    None
}

} // verus!

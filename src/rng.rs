use rand::seq::SliceRandom;
use vstd::prelude::*;

verus! {

/// Relies on `rand::seq::SliceRandom::choose` with `rand::thread_rng()`:
/// `None` for an empty slice, otherwise one of its elements.
#[verifier::external_body]
pub(crate) fn choose_one<T: Copy>(items: &Vec<T>) -> (r: Option<T>)
    ensures
        items@.len() == 0 <==> r is None,
        r matches Some(x) ==> items@.contains(x),
{
    items.as_slice().choose(&mut rand::thread_rng()).copied()
}

} // verus!

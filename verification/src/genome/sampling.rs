//! Random choices, drawn from the thread-local generator of the `rand`
//! crate.

use rand::rngs::ThreadRng;
use vstd::prelude::*;

verus! {

/// The handle to the thread-local generator of `rand`. Nothing of its
/// inside is visible here.
#[verifier::external_type_specification]
#[verifier::external_body]
pub struct ExThreadRng(ThreadRng);

/// `rand::thread_rng`: a handle to the generator of the calling thread.
/// Nothing is claimed of it. (The first call on a thread seeds the
/// generator from the operating system and registers it with the process's
/// fork handling; it does not return where either fails.)
#[verifier::external_body]
pub(crate) fn thread_rng() -> ThreadRng {
    rand::thread_rng()
}

/// `rand::seq::index::sample`: exactly `amount` distinct indices below
/// `length`, in some order. Which indices, and in which order, is left to
/// chance.
///
/// The call does not return where `amount` exceeds `length`, nor, for a
/// `length` above `u32::MAX`, where `amount` equals it: both are left out.
/// (Nor does it return where the generator fails to reseed itself from the
/// operating system in the course of a draw, which no caller can foresee.)
#[verifier::external_body]
pub(crate) fn sample(rng: &mut ThreadRng, length: usize, amount: usize) -> (picked: Vec<usize>)
    requires
        amount <= length,
        amount < length || length <= u32::MAX,
    ensures
        picked@.len() == amount,
        forall|i: int| 0 <= i < picked@.len() ==> #[trigger] picked@[i] < length,
        picked@.no_duplicates(),
{
    rand::seq::index::sample(rng, length, amount).into_vec()
}

/// One position below `length`, chosen at random; none where there is no
/// position to choose.
pub fn pick_one(rng: &mut ThreadRng, length: usize) -> (r: Option<usize>)
    ensures
        match r {
            Some(i) => i < length,
            None => length == 0,
        },
{
    if length == 0 {
        return None;
    }
    let picked = sample(rng, length, 1);
    Some(picked[0])
}

/// Two different positions below `length`, chosen at random; none where
/// there are fewer than two positions.
pub fn pick_two(rng: &mut ThreadRng, length: usize) -> (r: Option<(usize, usize)>)
    ensures
        match r {
            Some((i, j)) => i < length && j < length && i != j,
            None => length < 2,
        },
{
    if length < 2 {
        return None;
    }
    let picked = sample(rng, length, 2);
    Some((picked[0], picked[1]))
}

} // verus!

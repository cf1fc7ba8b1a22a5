use vstd::prelude::*;
use rand::Rng;
use rand::rngs::ThreadRng;

verus! {

#[verifier::external_type_specification]
#[verifier::external_body]
pub struct ExThreadRng(ThreadRng);

/// `rand::thread_rng`: a handle on the generator of the current thread.
/// Nothing is claimed of the numbers it will give.
#[verifier::external_body]
pub fn thread_rng() -> ThreadRng {
    rand::thread_rng()
}

/// `rand::Rng::gen_range` on `low..high`: a number drawn from that range, which
/// its documentation promises is at least `low` and below `high`; which one is
/// left to chance. It panics on an empty range, which `requires` rules out.
#[verifier::external_body]
pub fn gen_range(rng: &mut ThreadRng, low: usize, high: usize) -> (res: usize)
    requires
        low < high,
    ensures
        low <= res < high,
{
    rng.gen_range(low..high)
}

} // verus!

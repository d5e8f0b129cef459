//! The random-number source used when circles are spawned.

use rand::Rng;
use rand::rngs::ThreadRng;
use vstd::prelude::*;

verus! {

/// `rand`'s thread-local generator, carried through verified code unopened.
#[verifier::external_type_specification]
#[verifier::external_body]
pub struct ExThreadRng(ThreadRng);

/// Calls `rand::Rng::gen_range(low..high)` on a `u8` range.
///
/// Trusted: `rand` documents that the result is drawn from the half-open
/// range `low..high` and that the call panics on an empty range, which the
/// `requires` rules out. Which value comes back depends on the generator's
/// state and is left unsaid.
#[verifier::external_body]
pub(crate) fn gen_range_u8(rng: &mut ThreadRng, low: u8, high: u8) -> (r: u8)
    requires
        low < high,
    ensures
        low <= r < high,
{
    rng.gen_range(low..high)
}

/// `r` is a value that a call `gen_range_u8(.., low, high)` can return when
/// the generator is in state `state` at the call.
pub closed spec fn drawn_from(state: ThreadRng, low: u8, high: u8, r: u8) -> bool {
    exists|m: &mut ThreadRng| *m == state && call_ensures(gen_range_u8, (m, low, high), r)
}

/// Draws from `low..high` by one call of `gen_range_u8` with exactly these
/// bounds, on the generator as it stands.
pub(crate) fn draw_u8(rng: &mut ThreadRng, low: u8, high: u8) -> (r: u8)
    requires
        low < high,
    ensures
        low <= r < high,
        drawn_from(*old(rng), low, high, r),
{
    let draw = gen_range_u8;
    let ghost before = *rng;
    let r = draw(rng, low, high);
    assert(exists|m: &mut ThreadRng| *m == before && call_ensures(draw, (m, low, high), r));
    r
}

} // verus!

//! The trusted boundary around the external pseudo-random source.
//!
//! The generator `rand::rngs::StdRng` is a pure state machine: what a draw
//! returns, and the state it leaves behind, are functions of the state it
//! started from and of the bounds of the draw. The spec functions below name
//! those two functions for each kind of draw the engine makes; the wrappers
//! state the documented range of each draw and nothing more.

use vstd::prelude::*;

use rand::Rng;
use rand::rngs::StdRng;

verus! {

#[verifier::external_type_specification]
#[verifier::external_body]
pub struct ExStdRng(StdRng);

/// What `Rng::gen_range` over the inclusive range `min..=max` returns from a
/// given generator state: the drawn count and the advanced state.
pub uninterp spec fn count_step(rng: StdRng, min: u32, max: u32) -> (u32, StdRng);

/// What `Rng::gen_range` over the half-open range `0..n` returns from a
/// given generator state: the drawn index and the advanced state.
pub uninterp spec fn index_step(rng: StdRng, n: usize) -> (usize, StdRng);

/// What `Rng::gen_ratio` with ratio `num/den` returns from a given generator
/// state: the drawn boolean and the advanced state.
pub uninterp spec fn ratio_step(rng: StdRng, num: u32, den: u32) -> (bool, StdRng);

/// Relies on rand's `Rng::gen_range` over `min..=max`: the draw lies in the
/// inclusive range (it panics only on an empty range, kept out here), and it
/// is a function of the generator's state and the bounds alone.
#[verifier::external_body]
pub(crate) fn draw_count(rng: &mut StdRng, min: u32, max: u32) -> (r: u32)
    requires
        min <= max,
    ensures
        min <= r <= max,
        (r, *final(rng)) == count_step(*old(rng), min, max),
{
    rng.gen_range(min..=max)
}

/// Relies on rand's `Rng::gen_range` over `0..n`: the draw lies below `n`
/// (it panics only on an empty range, kept out here), and it is a function
/// of the generator's state and the bound alone.
#[verifier::external_body]
pub(crate) fn draw_index(rng: &mut StdRng, n: usize) -> (r: usize)
    requires
        n > 0,
    ensures
        r < n,
        (r, *final(rng)) == index_step(*old(rng), n),
{
    rng.gen_range(0..n)
}

/// Relies on rand's `Rng::gen_ratio`: it panics only when `den == 0` or
/// `num > den` (kept out here); a ratio of `0/den` is documented to always
/// return false and `den/den` to always return true; and the draw is a
/// function of the generator's state and the ratio alone.
#[verifier::external_body]
pub(crate) fn draw_ratio(rng: &mut StdRng, num: u32, den: u32) -> (r: bool)
    requires
        den > 0,
        num <= den,
    ensures
        (r, *final(rng)) == ratio_step(*old(rng), num, den),
        num == 0 ==> r == false,
        num == den ==> r == true,
{
    rng.gen_ratio(num, den)
}

/// Relies on std's `String: FromIterator<char>` (through `Iterator::collect`):
/// the string holds exactly the given characters, in order.
#[verifier::external_body]
pub(crate) fn chars_to_string(chars: &Vec<char>) -> (r: String)
    ensures
        r@ == chars@,
{
    chars.iter().collect()
}

} // verus!

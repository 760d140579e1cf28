//! Uniform random draws for asteroid generation and splitting, taken from the
//! `rand` crate. Nothing can be promised of a random value, so the trusted
//! specification is empty and every range below is enforced by verified
//! arithmetic on the raw draw.

use vstd::prelude::*;

verus! {

/// Relies on `rand::random`: returns some value of the requested type drawn
/// from the thread-local generator. No outcome is promised.
pub assume_specification<T>[ rand::random::<T> ]() -> (r: T)
    where
        rand::distr::StandardUniform: rand::distr::Distribution<T>,
;

/// A uniform draw below `n`.
pub fn rand_below(n: u64) -> (r: u64)
    requires
        n > 0,
    ensures
        r < n,
{
    let x: u64 = rand::random::<u64>();
    let r = x % n;
    proof {
        vstd::arithmetic::div_mod::lemma_mod_pos_bound(x as int, n as int);
    }
    r
}

/// A uniform draw from `[0, 1)` of a unit, in milli-units.
pub fn rand_milli_unit() -> (r: i64)
    ensures
        0 <= r < 1000,
{
    rand_below(1000) as i64
}

} // verus!

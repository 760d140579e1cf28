//! Sine and cosine on milli-radian angles, computed by the `cordic` crate
//! over `fixed` binary fixed-point numbers.
//!
//! The angle is first reduced into one turn and converted to a 16-fractional-
//! bit representation by exact integer arithmetic; the CORDIC result is named
//! by an uninterpreted function (it depends on the argument bits alone) and
//! clamped into `[-1, 1]` by verified code, so every bound the physics needs
//! is established without trusting more than determinism.

use crate::num::{clamp_i64, clamp_spec, div_floor, rem_floor};
use vstd::prelude::*;

verus! {

/// One full turn in milli-radians (2 pi rounded down).
pub const TWO_PI_MILLI: i64 = 6283;

/// What `cordic::sin_cos` returns, as `(sine bits, cosine bits)`, for an
/// angle given in `I48F16` bits: a pure function of its argument.
pub uninterp spec fn sin_cos_bits(b: int) -> (int, int);

/// Relies on `cordic::sin_cos` over `fixed::FixedI64<U16>`: a deterministic
/// integer algorithm, so its result is a function of the argument bits alone.
#[verifier::external_body]
fn cordic_sin_cos(bits: i64) -> (r: (i64, i64))
    requires
        0 <= bits <= 1_000_000,
    ensures
        r.0 == sin_cos_bits(bits as int).0,
        r.1 == sin_cos_bits(bits as int).1,
{
    let angle = fixed::FixedI64::<fixed::types::extra::U16>::from_bits(bits);
    let (s, c) = cordic::sin_cos(angle);
    (s.to_bits(), c.to_bits())
}

/// The milli-radian angle reduced into `[0, TWO_PI_MILLI)` and rescaled to
/// `I48F16` bits.
pub open spec fn angle_bits(phi: int) -> int {
    (phi % (TWO_PI_MILLI as int)) * 65536 / 1000
}

/// The crate's sine of a milli-radian angle, in milli-units: the named CORDIC
/// result clamped into `[-1, 1]`.
pub open spec fn sin_milli(phi: int) -> int {
    clamp_spec(sin_cos_bits(angle_bits(phi)).0, -65536, 65536) * 1000 / 65536
}

/// The crate's cosine of a milli-radian angle, in milli-units.
pub open spec fn cos_milli(phi: int) -> int {
    clamp_spec(sin_cos_bits(angle_bits(phi)).1, -65536, 65536) * 1000 / 65536
}

/// Computes `(sin, cos)` of a milli-radian angle in milli-units, both within
/// `[-1000, 1000]`.
pub fn sin_cos_milli(phi: i64) -> (r: (i64, i64))
    ensures
        r.0 == sin_milli(phi as int),
        r.1 == cos_milli(phi as int),
        -1000 <= r.0 <= 1000,
        -1000 <= r.1 <= 1000,
{
    let reduced = rem_floor(phi as i128, TWO_PI_MILLI as i128);
    let bits = div_floor(reduced * 65536, 1000);
    proof {
        assert(0 <= bits <= 1_000_000);
        assert(reduced * 65536 == (phi as int % (TWO_PI_MILLI as int)) * 65536);
    }
    let raw = cordic_sin_cos(bits as i64);
    let sb = clamp_i64(raw.0, -65536, 65536);
    let cb = clamp_i64(raw.1, -65536, 65536);
    let sm = div_floor((sb as i128) * 1000, 65536);
    let cm = div_floor((cb as i128) * 1000, 65536);
    proof {
        assert(-65_536_000 <= sb as i128 * 1000 <= 65_536_000);
        assert(-65_536_000 <= cb as i128 * 1000 <= 65_536_000);
        assert(sm == sin_milli(phi as int));
        assert(cm == cos_milli(phi as int));
        assert(-1000 <= sm <= 1000 && -1000 <= cm <= 1000);
    }
    (sm as i64, cm as i64)
}

} // verus!

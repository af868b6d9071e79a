use vstd::prelude::*;
use vstd::arithmetic::power2::{pow2, lemma2_to64, lemma_pow2_adds, lemma_pow2_pos};
use vstd::bits::{lemma_u64_shl_is_mul, lemma_u64_shr_is_div};
use crate::cursor::DecodeError;

verus! {

/// The fewest whole seconds that a time span can hold.
pub const MIN_DURATION_SECONDS: i64 = -9_223_372_036_854_775;

/// The most whole seconds that a time span can hold.
pub const MAX_DURATION_SECONDS: i64 = 9_223_372_036_854_775;

/// Whether `secs` whole seconds make a valid time span.
pub open spec fn duration_in_range(secs: int) -> bool {
    MIN_DURATION_SECONDS <= secs <= MAX_DURATION_SECONDS
}

/// The biased exponent field of an IEEE-754 single with bit pattern `bits`.
pub open spec fn f32_exponent(bits: u32) -> int {
    (bits / 0x80_0000) as int % 256
}

/// The fraction field of an IEEE-754 single with bit pattern `bits`.
pub open spec fn f32_fraction(bits: u32) -> int {
    bits as int % 0x80_0000
}

/// The integer part of the magnitude of a finite single with bit pattern `bits`.
pub open spec fn f32_truncated_magnitude(bits: u32) -> int {
    let e = f32_exponent(bits);
    let sig = f32_fraction(bits) + 0x80_0000;
    if e < 127 {
        0
    } else if e >= 150 {
        sig * pow2((e - 150) as nat)
    } else {
        sig / pow2((150 - e) as nat) as int
    }
}

/// `v` limited to the range of `i64`.
pub open spec fn clamp_i64(v: int) -> int {
    if v < i64::MIN {
        i64::MIN as int
    } else if v > i64::MAX {
        i64::MAX as int
    } else {
        v
    }
}

/// The value of `f as i64` for the single `f` with bit pattern `bits`: the
/// float truncated toward zero, saturating at the ends of `i64`, with NaN
/// giving zero.
pub open spec fn f32_bits_as_i64(bits: u32) -> int {
    let negative = bits >= 0x8000_0000;
    if f32_exponent(bits) == 255 {
        if f32_fraction(bits) != 0 {
            0
        } else if negative {
            i64::MIN as int
        } else {
            i64::MAX as int
        }
    } else if negative {
        clamp_i64(-f32_truncated_magnitude(bits))
    } else {
        clamp_i64(f32_truncated_magnitude(bits))
    }
}

/// Truncates the single with bit pattern `bits` to a whole number, as a
/// cast of the float to `i64` does.
pub fn f32_bits_to_i64(bits: u32) -> (r: i64)
    ensures
        r == f32_bits_as_i64(bits),
{
    let negative = bits >= 0x8000_0000;
    let exponent: u32 = (bits / 0x80_0000) % 256;
    let fraction: u32 = bits % 0x80_0000;
    if exponent == 255 {
        if fraction != 0 {
            return 0;
        } else if negative {
            return i64::MIN;
        } else {
            return i64::MAX;
        }
    }
    if exponent < 127 {
        return 0;
    }
    let sig: u64 = (fraction + 0x80_0000) as u64;
    proof {
        lemma2_to64();
        lemma_pow2_adds(20, 20);
        lemma_pow2_adds(20, 19);
    }
    let magnitude: u64;
    if exponent >= 150 {
        let shift: u32 = exponent - 150;
        proof {
            lemma_pow2_pos(shift as nat);
        }
        if shift >= 40 {
            proof {
                lemma_pow2_adds(40, (shift - 40) as nat);
                lemma_pow2_pos((shift - 40) as nat);
                let p = pow2(shift as nat);
                let q = pow2((shift - 40) as nat);
                assert(40 + (shift - 40) as nat == shift as nat);
                assert(p == 0x100_0000_0000 * q);
                assert(sig * p >= 0x8000_0000_0000_0000) by (nonlinear_arith)
                    requires
                        sig >= 0x80_0000,
                        p == 0x100_0000_0000 * q,
                        q >= 1,
                ;
            }
            if negative {
                return i64::MIN;
            } else {
                return i64::MAX;
            }
        }
        proof {
            lemma_pow2_adds(shift as nat, (39 - shift) as nat);
            lemma_pow2_pos((39 - shift) as nat);
            let p = pow2(shift as nat);
            let q = pow2((39 - shift) as nat);
            assert(shift as nat + (39 - shift) as nat == 39);
            assert(p * q == 0x80_0000_0000);
            assert(sig * p < 0x8000_0000_0000_0000) by (nonlinear_arith)
                requires
                    sig < 0x100_0000,
                    p * q == 0x80_0000_0000,
                    q >= 1,
                    p >= 1,
            ;
            lemma_u64_shl_is_mul(sig, shift as u64);
        }
        magnitude = sig << (shift as u64);
    } else {
        let shift: u32 = 150 - exponent;
        proof {
            lemma_u64_shr_is_div(sig, shift as u64);
        }
        magnitude = sig >> (shift as u64);
        assert(magnitude <= sig);
    }
    if negative {
        -(magnitude as i64)
    } else {
        magnitude as i64
    }
}

/// Relies on `chrono::TimeDelta::new(secs, 0)`: it returns `Some` exactly when
/// `secs` lies within the span of `i64::MAX` milliseconds either way, that is
/// within `MIN_DURATION_SECONDS..=MAX_DURATION_SECONDS`.
#[verifier::external_body]
fn time_delta_accepts(secs: i64) -> (r: bool)
    ensures
        r == duration_in_range(secs as int),
{
    chrono::TimeDelta::new(secs, 0).is_some()
}

/// The whole seconds of a duration sent as a single-precision float with bit
/// pattern `bits`, or `InvalidDuration` where they make no time span.
pub fn duration_from_f32_bits(bits: u32) -> (r: Result<i64, DecodeError>)
    ensures
        duration_in_range(f32_bits_as_i64(bits)) ==> r == Ok::<i64, DecodeError>(
            f32_bits_as_i64(bits) as i64,
        ),
        !duration_in_range(f32_bits_as_i64(bits)) ==> r == Err::<i64, DecodeError>(
            DecodeError::InvalidDuration,
        ),
{
    let secs = f32_bits_to_i64(bits);
    if time_delta_accepts(secs) {
        Ok(secs)
    } else {
        Err(DecodeError::InvalidDuration)
    }
}

} // verus!

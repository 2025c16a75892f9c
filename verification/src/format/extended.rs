//! The 80-bit IEEE extended precision numbers that AIFF uses for sample
//! rates.
//!
//! An extended number is a sign bit, a 15-bit exponent biased by 16383, and
//! a 64-bit mantissa with an explicit integer bit, all big-endian. Sample
//! rates are read by converting the number to a double-precision float and
//! truncating that to a `u32`; this module computes that result exactly,
//! with integers only. A `u32` sample rate is written as the extended number
//! of the same value.
use crate::byte_order::{be_bytes, be_value, read_u32_be, write_u32_be};
use crate::error::{AudioError, AudioResult};
use vstd::arithmetic::div_mod::{
    lemma_div_is_ordered_by_denominator,
    lemma_fundamental_div_mod,
    lemma_fundamental_div_mod_converse_div,
    lemma_fundamental_div_mod_converse_mod,
};
use vstd::prelude::*;
use vstd::string::StringExecFns;

verus! {

/// 2 raised to the power `n`.
pub open spec fn exp2(n: nat) -> nat
    decreases n,
{
    if n == 0 {
        1
    } else {
        2 * exp2((n - 1) as nat)
    }
}

/// The number of binary digits of `m`.
pub open spec fn bit_length(m: nat) -> nat
    decreases m,
{
    if m == 0 {
        0
    } else {
        1 + bit_length(m / 2)
    }
}

pub proof fn lemma_exp2_positive(n: nat)
    ensures
        exp2(n) > 0,
    decreases n,
{
    if n > 0 {
        lemma_exp2_positive((n - 1) as nat);
    }
}

pub proof fn lemma_exp2_adds(a: nat, b: nat)
    ensures
        exp2(a + b) == exp2(a) * exp2(b),
    decreases a,
{
    if a > 0 {
        lemma_exp2_adds((a - 1) as nat, b);
        assert(exp2(a + b) == 2 * exp2((a - 1 + b) as nat));
        assert(exp2(a) == 2 * exp2((a - 1) as nat));
        let x = exp2((a - 1) as nat);
        let y = exp2(b);
        assert(2 * (x * y) == (2 * x) * y) by (nonlinear_arith);
    } else {
        assert(exp2(0) == 1);
        assert(a + b == b);
    }
}

pub proof fn lemma_exp2_monotonic(a: nat, b: nat)
    requires
        a <= b,
    ensures
        exp2(a) <= exp2(b),
    decreases b,
{
    if a < b {
        lemma_exp2_monotonic(a, (b - 1) as nat);
        lemma_exp2_positive((b - 1) as nat);
    }
}

/// A number lies between the powers of two around its bit length.
pub proof fn lemma_bit_length(m: nat)
    ensures
        m < exp2(bit_length(m)),
        m > 0 ==> exp2((bit_length(m) - 1) as nat) <= m,
    decreases m,
{
    if m > 0 {
        lemma_bit_length(m / 2);
        if m / 2 > 0 {
            assert(exp2((bit_length(m / 2) - 1) as nat) <= m / 2);
        }
    }
}

/// The bit length is at most `n` exactly when the number is below `2^n`.
pub proof fn lemma_bit_length_bound(m: nat, n: nat)
    ensures
        m < exp2(n) <==> bit_length(m) <= n,
{
    lemma_bit_length(m);
    if m < exp2(n) && bit_length(m) > n {
        lemma_exp2_monotonic(n, (bit_length(m) - 1) as nat);
    }
    if bit_length(m) <= n {
        lemma_exp2_monotonic(bit_length(m), n);
    }
}

/// `m` rounded to the nearest number with at most 53 significant bits, ties
/// to even: the rounding of a double-precision float.
pub open spec fn round_to_double(m: nat) -> nat {
    if bit_length(m) <= 53 {
        m
    } else {
        let d = (bit_length(m) - 53) as nat;
        let p = exp2(d);
        let q = m / p;
        let r = m % p;
        let half = p / 2;
        let rounded = if r > half || (r == half && q % 2 == 1) {
            q + 1
        } else {
            q
        };
        rounded * p
    }
}

/// The sign bit of an extended number.
pub open spec fn ext_negative(b: Seq<u8>) -> bool {
    b[0] >= 0x80
}

/// The biased exponent of an extended number.
pub open spec fn ext_exponent(b: Seq<u8>) -> nat {
    ((b[0] % 0x80) * 256 + b[1]) as nat
}

/// The high 32 bits of the mantissa of an extended number.
pub open spec fn ext_hi(b: Seq<u8>) -> nat {
    be_value(b.subrange(2, 6))
}

/// The low 32 bits of the mantissa of an extended number.
pub open spec fn ext_lo(b: Seq<u8>) -> nat {
    be_value(b.subrange(6, 10))
}

/// Whether the extended number has the exponent of infinities and NaNs.
pub open spec fn ext_is_special(b: Seq<u8>) -> bool {
    ext_exponent(b) == 0x7fff
}

/// The `u32` that the 10-byte extended number `b` gives when it is
/// converted to a double and the double to a `u32` (truncating, and
/// saturating at `0` and `u32::MAX`; NaN gives `0`).
///
/// The conversion takes the double `hi * 2^k + lo * 2^(k - 32)`, where
/// `k` is the exponent less 16383 + 31; a factor `2^x` with `x >= 1024` is
/// infinite, and infinity times zero is NaN. The sum of the two terms is the
/// mantissa times `2^(k - 32)`, rounded to a double.
pub open spec fn extended_as_u32(b: Seq<u8>) -> u32 {
    let e = ext_exponent(b);
    let hi = ext_hi(b);
    let lo = ext_lo(b);
    let k = e - 16414;
    if e == 0 && hi == 0 && lo == 0 {
        0
    } else if (k >= 1024 && hi == 0) || (k >= 1056 && lo == 0) {
        // infinity times zero
        0
    } else if ext_negative(b) {
        0
    } else if k >= 1024 {
        u32::MAX
    } else {
        let v = round_to_double(hi * 0x1_0000_0000 + lo);
        let t = if k >= 32 {
            v * exp2((k - 32) as nat)
        } else {
            v / exp2((32 - k) as nat)
        };
        if t > u32::MAX {
            u32::MAX
        } else {
            t as u32
        }
    }
}

/// Values of some powers of two.
pub proof fn lemma_exp2_values()
    ensures
        exp2(8) == 0x100,
        exp2(11) == 0x800,
        exp2(16) == 0x1_0000,
        exp2(32) == 0x1_0000_0000,
        exp2(53) == 0x20_0000_0000_0000,
        exp2(64) == 0x1_0000_0000_0000_0000,
        exp2(127) == 0x8000_0000_0000_0000_0000_0000_0000_0000,
{
    reveal_with_fuel(exp2, 17);
    assert(exp2(16) == 0x1_0000);
    lemma_exp2_adds(16, 16);
    assert(exp2(32) == 0x1_0000_0000);
    lemma_exp2_adds(32, 16);
    assert(exp2(48) == 0x1_0000_0000_0000);
    lemma_exp2_adds(48, 5);
    assert(exp2(53) == 0x20_0000_0000_0000);
    lemma_exp2_adds(32, 32);
    assert(exp2(64) == 0x1_0000_0000_0000_0000);
    lemma_exp2_adds(64, 32);
    assert(exp2(96) == 0x1_0000_0000_0000_0000_0000_0000);
    lemma_exp2_adds(96, 16);
    assert(exp2(112) == 0x1_0000_0000_0000_0000_0000_0000_0000);
    assert(exp2(15) == 0x8000);
    lemma_exp2_adds(112, 15);
    lemma_exp2_adds(8, 3);
}

/// `2^n` for `n < 128`.
fn exp2_u128(n: u32) -> (r: u128)
    requires
        n < 128,
    ensures
        r == exp2(n as nat),
{
    let mut r: u128 = 1;
    let mut i: u32 = 0;
    while i < n
        invariant
            i <= n < 128,
            r == exp2(i as nat),
        decreases n - i,
    {
        proof {
            lemma_exp2_monotonic(i as nat, 126);
            lemma_exp2_values();
            assert(exp2(127) == 2 * exp2(126));
        }
        r = r * 2;
        i = i + 1;
    }
    r
}

/// The number of binary digits of `m`.
fn bit_length_u64(m: u64) -> (r: u32)
    ensures
        r == bit_length(m as nat),
        r <= 64,
{
    proof {
        lemma_exp2_values();
        lemma_bit_length_bound(m as nat, 64);
    }
    let mut x: u64 = m;
    let mut count: u32 = 0;
    while x > 0
        invariant
            bit_length(m as nat) == count + bit_length(x as nat),
            bit_length(m as nat) <= 64,
        decreases x,
    {
        x = x / 2;
        count = count + 1;
    }
    count
}

/// `m` rounded to a double, as `round_to_double` says.
fn round_to_double_u64(m: u64) -> (r: u128)
    ensures
        r == round_to_double(m as nat),
        r < 0x1_0000_0000_0000_0000 + 0x800,
{
    let len = bit_length_u64(m);
    if len <= 53 {
        return m as u128;
    }
    let d = len - 53;
    let p: u128 = exp2_u128(d);
    proof {
        lemma_exp2_values();
        lemma_exp2_monotonic(d as nat, 11);
        lemma_exp2_positive(d as nat);
    }
    let q: u128 = m as u128 / p;
    let r: u128 = m as u128 % p;
    let half: u128 = p / 2;
    proof {
        lemma_fundamental_div_mod(m as int, p as int);
        assert(q * p <= m) by (nonlinear_arith)
            requires
                m == p * q + r,
                r >= 0,
        ;
    }
    let rounded: u128 = if r > half || (r == half && q % 2 == 1) {
        q + 1
    } else {
        q
    };
    assert(rounded * p <= m + p) by (nonlinear_arith)
        requires
            rounded <= q + 1,
            q * p <= m,
            p > 0,
    ;
    rounded * p
}

/// Converts the 10-byte extended number `bytes` to a `u32` sample rate, as
/// a conversion to a double and a truncating conversion of that to `u32`
/// would (see `extended_as_u32`).
///
/// Returns a `Format` error for the exponent of infinities and NaNs, which
/// is not a sample rate.
pub fn sample_rate_from_extended(bytes: &[u8]) -> (r: AudioResult<u32>)
    requires
        bytes.len() == 10,
    ensures
        ext_is_special(bytes@) ==> (r matches Err(AudioError::Format(message)) && message@
            == "Sampling rate is not a number!"@),
        !ext_is_special(bytes@) ==> r == Ok::<u32, AudioError>(extended_as_u32(bytes@)),
{
    let exponent: u32 = (bytes[0] % 0x80) as u32 * 256 + bytes[1] as u32;
    let hi_mant: u32 = read_u32_be(bytes, 2);
    let low_mant: u32 = read_u32_be(bytes, 6);
    if exponent == 0 && hi_mant == 0 && low_mant == 0 {
        return Ok(0);
    }
    if exponent == 0x7fff {
        return Err(AudioError::Format(String::from_str("Sampling rate is not a number!")));
    }
    let k: i64 = exponent as i64 - 16414;
    // infinity times zero is NaN, which converts to zero
    if (k >= 1024 && hi_mant == 0) || (k >= 1056 && low_mant == 0) {
        return Ok(0);
    }
    // negative numbers saturate at zero
    if bytes[0] >= 0x80 {
        return Ok(0);
    }
    // infinity saturates at the maximum
    if k >= 1024 {
        return Ok(u32::MAX);
    }
    let m: u64 = hi_mant as u64 * 0x1_0000_0000 + low_mant as u64;
    let v: u128 = round_to_double_u64(m);
    proof {
        lemma_exp2_values();
    }
    let ghost spec_t: int = if k >= 32 {
        v * exp2((k - 32) as nat)
    } else {
        v as int / exp2((32 - k) as nat) as int
    };
    let t: u128 = if k >= 32 {
        let s: u32 = (k - 32) as u32;
        if v == 0 {
            assert(spec_t == 0) by (nonlinear_arith)
                requires
                    spec_t == v * exp2((k - 32) as nat),
                    v == 0,
            ;
            0
        } else if s >= 32 {
            proof {
                lemma_exp2_monotonic(32, s as nat);
                assert(v * exp2(s as nat) >= exp2(s as nat)) by (nonlinear_arith)
                    requires
                        v >= 1,
                ;
                assert(spec_t > u32::MAX);
            }
            0x1_0000_0000
        } else {
            let f = exp2_u128(s);
            proof {
                lemma_exp2_monotonic(s as nat, 32);
                assert(v * f <= (0x1_0000_0000_0000_0000 + 0x800) * 0x1_0000_0000)
                    by (nonlinear_arith)
                    requires
                        v < 0x1_0000_0000_0000_0000 + 0x800,
                        f <= 0x1_0000_0000,
                ;
            }
            assert(spec_t == v * f);
            v * f
        }
    } else {
        let s: i64 = 32 - k;
        if s >= 128 {
            proof {
                lemma_exp2_monotonic(127, s as nat);
                assert(exp2(127) <= exp2(s as nat));
                lemma_div_is_ordered_by_denominator(v as int, exp2(127) as int, exp2(s as nat) as int);
                assert(v as int / exp2(127) as int == 0);
                assert(spec_t == 0);
            }
            0
        } else {
            proof {
                lemma_exp2_positive(s as nat);
            }
            let f = exp2_u128(s as u32);
            assert(spec_t == v / f);
            v / f
        }
    };
    assert(v == round_to_double(m as nat));
    assert(m == ext_hi(bytes@) * 0x1_0000_0000 + ext_lo(bytes@));
    assert(t > u32::MAX <==> spec_t > u32::MAX);
    assert(t <= u32::MAX ==> t == spec_t);
    proof {
        assert(hi_mant == ext_hi(bytes@));
        assert(low_mant == ext_lo(bytes@));
        assert(exponent == ext_exponent(bytes@));
    }
    if t > u32::MAX as u128 {
        Ok(u32::MAX)
    } else {
        Ok(t as u32)
    }
}

/// The 10-byte extended number that a `u32` sample rate is written as: zero
/// for zero, and otherwise the exact value: for a rate of `l` binary digits,
/// the exponent 16382 + `l` and the rate shifted to the top of the mantissa.
pub open spec fn extended_of_u32(rate: u32) -> Seq<u8> {
    if rate == 0 {
        Seq::new(10, |i: int| 0u8)
    } else {
        let l = bit_length(rate as nat);
        be_bytes((16382 + l) as int, 2) + be_bytes(rate * exp2((32 - l) as nat), 4) + be_bytes(0, 4)
    }
}

/// Writes a `u32` sample rate as a 10-byte extended number.
pub fn extended_from_sample_rate(rate: u32) -> (r: Vec<u8>)
    ensures
        r@ == extended_of_u32(rate),
{
    let mut out: Vec<u8> = Vec::new();
    if rate == 0 {
        let mut i: usize = 0;
        while i < 10
            invariant
                i <= 10,
                out@ == Seq::new(i as nat, |j: int| 0u8),
            decreases 10 - i,
        {
            out.push(0);
            i = i + 1;
            assert(out@ =~= Seq::new(i as nat, |j: int| 0u8));
        }
        return out;
    }
    let len = bit_length_u64(rate as u64);
    proof {
        lemma_bit_length(rate as nat);
        lemma_exp2_values();
        lemma_bit_length_bound(rate as nat, 32);
    }
    let exponent: u32 = 16382 + len;
    let scale = exp2_u128(32 - len);
    proof {
        lemma_exp2_positive((32 - len) as nat);
        lemma_exp2_adds((32 - len) as nat, len as nat);
        assert(rate * scale < exp2(len as nat) * scale) by (nonlinear_arith)
            requires
                rate < exp2(len as nat),
                scale > 0,
        ;
        lemma_exp2_positive((32 - len) as nat);
    }
    let hi_mant: u32 = (rate as u128 * scale) as u32;
    out.push((exponent / 256) as u8);
    out.push((exponent % 256) as u8);
    proof {
        reveal_with_fuel(be_bytes, 3);
        assert(out@ =~= be_bytes(exponent as int, 2));
    }
    write_u32_be(&mut out, hi_mant);
    write_u32_be(&mut out, 0);
    out
}

/// Scaling by a power of two adds to the bit length.
pub proof fn lemma_bit_length_scale(x: nat, j: nat)
    requires
        x > 0,
    ensures
        bit_length(x * exp2(j)) == bit_length(x) + j,
{
    let l = bit_length(x);
    lemma_bit_length(x);
    lemma_exp2_adds(l, j);
    lemma_exp2_adds((l - 1) as nat, j);
    lemma_exp2_positive(j);
    assert(x * exp2(j) < exp2(l) * exp2(j)) by (nonlinear_arith)
        requires
            x < exp2(l),
            exp2(j) > 0,
    ;
    assert(exp2((l - 1) as nat) * exp2(j) <= x * exp2(j)) by (nonlinear_arith)
        requires
            exp2((l - 1) as nat) <= x,
            exp2(j) > 0,
    ;
    lemma_bit_length_bound(x * exp2(j), l + j);
    lemma_bit_length_bound(x * exp2(j), (l - 1 + j) as nat);
    assert((l - 1 + j) as nat == (l - 1) as nat + j);
}

/// Reading back a written sample rate gives the rate.
pub proof fn lemma_sample_rate_round_trip(rate: u32)
    ensures
        !ext_is_special(extended_of_u32(rate)),
        extended_as_u32(extended_of_u32(rate)) == rate,
{
    let b = extended_of_u32(rate);
    lemma_exp2_values();
    if rate == 0 {
        reveal_with_fuel(be_value, 5);
        assert(b.subrange(2, 6) =~= seq![0u8, 0, 0, 0]);
        assert(b.subrange(6, 10) =~= seq![0u8, 0, 0, 0]);
    } else {
        let l = bit_length(rate as nat);
        lemma_bit_length(rate as nat);
        lemma_bit_length_bound(rate as nat, 32);
        let e: int = (16382 + l) as int;
        let hi = rate * exp2((32 - l) as nat);
        lemma_exp2_adds((32 - l) as nat, l);
        lemma_exp2_positive((32 - l) as nat);
        assert(hi < exp2(32)) by (nonlinear_arith)
            requires
                hi == rate * exp2((32 - l) as nat),
                rate < exp2(l),
                exp2(l) * exp2((32 - l) as nat) == exp2(32),
                exp2((32 - l) as nat) > 0,
        ;
        reveal_with_fuel(be_bytes, 5);
        reveal_with_fuel(be_value, 5);
        crate::byte_order::lemma_be_round_trip(e, 2);
        crate::byte_order::lemma_be_round_trip(hi, 4);
        crate::byte_order::lemma_be_round_trip(0, 4);
        crate::byte_order::lemma_be_bytes_len(e, 2);
        crate::byte_order::lemma_be_bytes_len(hi, 4);
        crate::byte_order::lemma_be_bytes_len(0, 4);
        let eb = be_bytes(e, 2);
        assert(b.subrange(2, 6) =~= be_bytes(hi, 4));
        assert(b.subrange(6, 10) =~= be_bytes(0, 4));
        assert(b[0] == eb[0] && b[1] == eb[1]);
        assert(ext_exponent(b) == e);
        assert(ext_hi(b) == hi);
        assert(ext_lo(b) == 0);
        let m: nat = (hi * 0x1_0000_0000) as nat;
        // m is the rate scaled to 64 binary digits
        lemma_exp2_adds((32 - l) as nat, 32);
        assert(m == rate * exp2((64 - l) as nat)) by (nonlinear_arith)
            requires
                m == hi * 0x1_0000_0000,
                hi == rate * exp2((32 - l) as nat),
                exp2((64 - l) as nat) == exp2((32 - l) as nat) * exp2(32),
                exp2(32) == 0x1_0000_0000,
        ;
        lemma_bit_length_scale(rate as nat, (64 - l) as nat);
        assert(bit_length(m) == 64);
        // the low 11 digits of m are zero, so rounding keeps it
        lemma_exp2_adds(11, (53 - l) as nat);
        let q: nat = (rate * exp2((53 - l) as nat)) as nat;
        assert(m == q * 0x800) by (nonlinear_arith)
            requires
                q == rate * exp2((53 - l) as nat),
                m == rate * exp2((64 - l) as nat),
                exp2((64 - l) as nat) == exp2(11) * exp2((53 - l) as nat),
                exp2(11) == 0x800,
        ;
        lemma_fundamental_div_mod_converse_div(m as int, 0x800, q as int, 0);
        lemma_fundamental_div_mod_converse_mod(m as int, 0x800, q as int, 0);
        assert(round_to_double(m) == m);
        // dividing by 2^(64 - l) gives back the rate
        lemma_fundamental_div_mod_converse_div(
            m as int,
            exp2((64 - l) as nat) as int,
            rate as int,
            0,
        );
        assert(extended_as_u32(b) == rate);
    }
}

/// A written sample rate takes ten bytes.
pub proof fn lemma_extended_of_u32_len(rate: u32)
    ensures
        extended_of_u32(rate).len() == 10,
{
    if rate != 0 {
        let l = bit_length(rate as nat);
        crate::byte_order::lemma_be_bytes_len((16382 + l) as int, 2);
        crate::byte_order::lemma_be_bytes_len(rate * exp2((32 - l) as nat), 4);
        crate::byte_order::lemma_be_bytes_len(0, 4);
    }
}

} // verus!

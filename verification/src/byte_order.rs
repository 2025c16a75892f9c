//! Fixed-width integers in little- and big-endian byte order.
//!
//! The mathematical model of a byte string read as an unsigned integer is
//! `le_value` / `be_value`; the model of an integer written as bytes is
//! `le_bytes` / `be_bytes`. The executable readers and writers are thin
//! wrappers over the `byteorder` crate, whose contracts are stated over these
//! models.
use byteorder::{BigEndian, ByteOrder, LittleEndian, WriteBytesExt};
use vstd::arithmetic::div_mod::{
    lemma_fundamental_div_mod,
    lemma_fundamental_div_mod_converse_div,
    lemma_fundamental_div_mod_converse_mod,
};
use vstd::prelude::*;

verus! {

/// `256` raised to the power `n`.
pub open spec fn pow256(n: nat) -> nat
    decreases n,
{
    if n == 0 {
        1
    } else {
        256 * pow256((n - 1) as nat)
    }
}

/// The unsigned value of `s`, least significant byte first.
pub open spec fn le_value(s: Seq<u8>) -> nat
    decreases s.len(),
{
    if s.len() == 0 {
        0
    } else {
        s[0] as nat + 256 * le_value(s.drop_first())
    }
}

/// The unsigned value of `s`, most significant byte first.
pub open spec fn be_value(s: Seq<u8>) -> nat
    decreases s.len(),
{
    if s.len() == 0 {
        0
    } else {
        be_value(s.drop_last()) * 256 + s.last() as nat
    }
}

/// The `n` low bytes of `w` in two's complement, least significant first.
pub open spec fn le_bytes(w: int, n: nat) -> Seq<u8>
    decreases n,
{
    if n == 0 {
        Seq::empty()
    } else {
        seq![(w % 256) as u8] + le_bytes(w / 256, (n - 1) as nat)
    }
}

/// The `n` low bytes of `w` in two's complement, most significant first.
pub open spec fn be_bytes(w: int, n: nat) -> Seq<u8>
    decreases n,
{
    if n == 0 {
        Seq::empty()
    } else {
        be_bytes(w / 256, (n - 1) as nat).push((w % 256) as u8)
    }
}

/// The value of the two's complement word `u` whose top bit has weight `half`.
pub open spec fn twos_complement(u: int, half: int) -> int {
    if u >= half {
        u - 2 * half
    } else {
        u
    }
}

pub proof fn lemma_pow256_positive(n: nat)
    ensures
        pow256(n) > 0,
    decreases n,
{
    if n > 0 {
        lemma_pow256_positive((n - 1) as nat);
    }
}

/// Splitting the remainder by `256 * m` into its low byte and the rest.
proof fn lemma_mod_split(x: int, m: int)
    requires
        m > 0,
    ensures
        x % (256 * m) == 256 * ((x / 256) % m) + x % 256,
{
    let a = x / 256;
    let b = x % 256;
    lemma_fundamental_div_mod(x, 256);
    lemma_fundamental_div_mod(a, m);
    let q = a / m;
    let r = a % m;
    assert(0 <= r < m);
    assert(0 <= b < 256);
    assert(x == (256 * m) * q + (256 * r + b)) by (nonlinear_arith)
        requires
            x == 256 * a + b,
            a == m * q + r,
    ;
    assert(0 <= 256 * r + b < 256 * m) by (nonlinear_arith)
        requires
            0 <= r < m,
            0 <= b < 256,
    ;
    lemma_fundamental_div_mod_converse_mod(x, 256 * m, q, 256 * r + b);
}

pub proof fn lemma_le_bytes_len(w: int, n: nat)
    ensures
        le_bytes(w, n).len() == n,
    decreases n,
{
    if n > 0 {
        lemma_le_bytes_len(w / 256, (n - 1) as nat);
    }
}

pub proof fn lemma_be_bytes_len(w: int, n: nat)
    ensures
        be_bytes(w, n).len() == n,
    decreases n,
{
    if n > 0 {
        lemma_be_bytes_len(w / 256, (n - 1) as nat);
    }
}

/// Reading back little-endian bytes gives the value modulo `256^n`.
pub proof fn lemma_le_round_trip(w: int, n: nat)
    ensures
        le_value(le_bytes(w, n)) == w % (pow256(n) as int),
    decreases n,
{
    lemma_pow256_positive(n);
    if n == 0 {
        assert(le_bytes(w, n) =~= Seq::<u8>::empty());
    } else {
        let rest = le_bytes(w / 256, (n - 1) as nat);
        lemma_le_round_trip(w / 256, (n - 1) as nat);
        lemma_pow256_positive((n - 1) as nat);
        let s = le_bytes(w, n);
        assert(s.drop_first() =~= rest);
        assert(s[0] == (w % 256) as u8);
        lemma_mod_split(w, pow256((n - 1) as nat) as int);
    }
}

/// Reading back big-endian bytes gives the value modulo `256^n`.
pub proof fn lemma_be_round_trip(w: int, n: nat)
    ensures
        be_value(be_bytes(w, n)) == w % (pow256(n) as int),
    decreases n,
{
    lemma_pow256_positive(n);
    if n == 0 {
        assert(be_bytes(w, n) =~= Seq::<u8>::empty());
    } else {
        let rest = be_bytes(w / 256, (n - 1) as nat);
        lemma_be_round_trip(w / 256, (n - 1) as nat);
        lemma_pow256_positive((n - 1) as nat);
        let s = be_bytes(w, n);
        assert(s.drop_last() =~= rest);
        assert(s.last() == (w % 256) as u8);
        lemma_mod_split(w, pow256((n - 1) as nat) as int);
    }
}

/// Little-endian bytes only depend on the value modulo `256^n`.
pub proof fn lemma_le_bytes_periodic(x: int, k: int, n: nat)
    ensures
        le_bytes(x + pow256(n) * k, n) == le_bytes(x, n),
    decreases n,
{
    if n > 0 {
        let p = pow256((n - 1) as nat) as int;
        let y = x + pow256(n) * k;
        assert(y == 256 * (x / 256 + p * k) + x % 256) by (nonlinear_arith)
            requires
                y == x + pow256(n) * k,
                pow256(n) == 256 * p,
                x == 256 * (x / 256) + x % 256,
        ;
        lemma_fundamental_div_mod(x, 256);
        lemma_fundamental_div_mod_converse_mod(y, 256, x / 256 + p * k, x % 256);
        lemma_fundamental_div_mod_converse_div(y, 256, x / 256 + p * k, x % 256);
        lemma_le_bytes_periodic(x / 256, k, (n - 1) as nat);
    }
}

/// Big-endian bytes only depend on the value modulo `256^n`.
pub proof fn lemma_be_bytes_periodic(x: int, k: int, n: nat)
    ensures
        be_bytes(x + pow256(n) * k, n) == be_bytes(x, n),
    decreases n,
{
    if n > 0 {
        let p = pow256((n - 1) as nat) as int;
        let y = x + pow256(n) * k;
        assert(y == 256 * (x / 256 + p * k) + x % 256) by (nonlinear_arith)
            requires
                y == x + pow256(n) * k,
                pow256(n) == 256 * p,
                x == 256 * (x / 256) + x % 256,
        ;
        lemma_fundamental_div_mod(x, 256);
        lemma_fundamental_div_mod_converse_mod(y, 256, x / 256 + p * k, x % 256);
        lemma_fundamental_div_mod_converse_div(y, 256, x / 256 + p * k, x % 256);
        lemma_be_bytes_periodic(x / 256, k, (n - 1) as nat);
    }
}

/// An unsigned value fits in its bytes.
pub proof fn lemma_le_value_bound(s: Seq<u8>)
    ensures
        le_value(s) < pow256(s.len()),
    decreases s.len(),
{
    if s.len() > 0 {
        lemma_le_value_bound(s.drop_first());
    }
}

/// An unsigned value fits in its bytes.
pub proof fn lemma_be_value_bound(s: Seq<u8>)
    ensures
        be_value(s) < pow256(s.len()),
    decreases s.len(),
{
    if s.len() > 0 {
        lemma_be_value_bound(s.drop_last());
    }
}

/// Writing the value of a byte string gives back the byte string.
pub proof fn lemma_le_bytes_of_value(s: Seq<u8>)
    ensures
        le_bytes(le_value(s) as int, s.len()) == s,
    decreases s.len(),
{
    if s.len() > 0 {
        let v = le_value(s) as int;
        let rest = le_value(s.drop_first()) as int;
        lemma_fundamental_div_mod_converse_mod(v, 256, rest, s[0] as int);
        lemma_fundamental_div_mod_converse_div(v, 256, rest, s[0] as int);
        lemma_le_bytes_of_value(s.drop_first());
        assert(le_bytes(v, s.len()) =~= s);
    } else {
        assert(le_bytes(le_value(s) as int, s.len()) =~= s);
    }
}

/// Writing the value of a byte string gives back the byte string.
pub proof fn lemma_be_bytes_of_value(s: Seq<u8>)
    ensures
        be_bytes(be_value(s) as int, s.len()) == s,
    decreases s.len(),
{
    if s.len() > 0 {
        let v = be_value(s) as int;
        let rest = be_value(s.drop_last()) as int;
        lemma_fundamental_div_mod_converse_mod(v, 256, rest, s.last() as int);
        lemma_fundamental_div_mod_converse_div(v, 256, rest, s.last() as int);
        lemma_be_bytes_of_value(s.drop_last());
        assert(be_bytes(v, s.len()) =~= s);
    } else {
        assert(be_bytes(be_value(s) as int, s.len()) =~= s);
    }
}

/// Little-endian bytes of a value cast to a narrower type.
pub proof fn lemma_le_bytes_truncate(w: int, n: nat)
    ensures
        le_bytes(w % (pow256(n) as int), n) == le_bytes(w, n),
{
    lemma_pow256_positive(n);
    let m = pow256(n) as int;
    lemma_fundamental_div_mod(w, m);
    lemma_le_bytes_periodic(w % m, w / m, n);
    assert(w % m + m * (w / m) == w);
}

/// The big-endian bytes of a value are its little-endian bytes in reverse
/// order.
pub proof fn lemma_be_le_reverse(w: int, n: nat, k: int)
    requires
        0 <= k < n,
    ensures
        be_bytes(w, n)[k] == le_bytes(w, n)[n - 1 - k],
    decreases n,
{
    lemma_be_bytes_len(w / 256, (n - 1) as nat);
    lemma_le_bytes_len(w / 256, (n - 1) as nat);
    if k < n - 1 {
        lemma_be_le_reverse(w / 256, (n - 1) as nat, k);
    }
}

/// `LittleEndian::read_u16` of byteorder: the unsigned little-endian value of the 2 bytes
/// of `buf` that start at `at` (byteorder panics on fewer than 2 bytes).
#[verifier::external_body]
pub(crate) fn read_u16_le(buf: &[u8], at: usize) -> (r: u16)
    requires
        at + 2 <= buf.len(),
    ensures
        r == le_value(buf@.subrange(at as int, at + 2)),
{
    LittleEndian::read_u16(&buf[at..at + 2])
}

/// `LittleEndian::read_u32` of byteorder: the unsigned little-endian value of the 4 bytes
/// of `buf` that start at `at` (byteorder panics on fewer than 4 bytes).
#[verifier::external_body]
pub(crate) fn read_u32_le(buf: &[u8], at: usize) -> (r: u32)
    requires
        at + 4 <= buf.len(),
    ensures
        r == le_value(buf@.subrange(at as int, at + 4)),
{
    LittleEndian::read_u32(&buf[at..at + 4])
}

/// `LittleEndian::read_i16` of byteorder: the signed little-endian value of the 2 bytes
/// of `buf` that start at `at` (byteorder panics on fewer than 2 bytes).
#[verifier::external_body]
pub(crate) fn read_i16_le(buf: &[u8], at: usize) -> (r: i16)
    requires
        at + 2 <= buf.len(),
    ensures
        r == twos_complement(le_value(buf@.subrange(at as int, at + 2)) as int, 0x8000),
{
    LittleEndian::read_i16(&buf[at..at + 2])
}

/// `LittleEndian::read_i32` of byteorder: the signed little-endian value of the 4 bytes
/// of `buf` that start at `at` (byteorder panics on fewer than 4 bytes).
#[verifier::external_body]
pub(crate) fn read_i32_le(buf: &[u8], at: usize) -> (r: i32)
    requires
        at + 4 <= buf.len(),
    ensures
        r == twos_complement(le_value(buf@.subrange(at as int, at + 4)) as int, 0x8000_0000),
{
    LittleEndian::read_i32(&buf[at..at + 4])
}

/// `LittleEndian::read_i64` of byteorder: the signed little-endian value of the 8 bytes
/// of `buf` that start at `at` (byteorder panics on fewer than 8 bytes).
#[verifier::external_body]
pub(crate) fn read_i64_le(buf: &[u8], at: usize) -> (r: i64)
    requires
        at + 8 <= buf.len(),
    ensures
        r == twos_complement(le_value(buf@.subrange(at as int, at + 8)) as int, 0x8000_0000_0000_0000),
{
    LittleEndian::read_i64(&buf[at..at + 8])
}

/// `BigEndian::read_u32` of byteorder: the unsigned big-endian value of the 4 bytes
/// of `buf` that start at `at` (byteorder panics on fewer than 4 bytes).
#[verifier::external_body]
pub(crate) fn read_u32_be(buf: &[u8], at: usize) -> (r: u32)
    requires
        at + 4 <= buf.len(),
    ensures
        r == be_value(buf@.subrange(at as int, at + 4)),
{
    BigEndian::read_u32(&buf[at..at + 4])
}

/// `BigEndian::read_i16` of byteorder: the signed big-endian value of the 2 bytes
/// of `buf` that start at `at` (byteorder panics on fewer than 2 bytes).
#[verifier::external_body]
pub(crate) fn read_i16_be(buf: &[u8], at: usize) -> (r: i16)
    requires
        at + 2 <= buf.len(),
    ensures
        r == twos_complement(be_value(buf@.subrange(at as int, at + 2)) as int, 0x8000),
{
    BigEndian::read_i16(&buf[at..at + 2])
}

/// `BigEndian::read_i32` of byteorder: the signed big-endian value of the 4 bytes
/// of `buf` that start at `at` (byteorder panics on fewer than 4 bytes).
#[verifier::external_body]
pub(crate) fn read_i32_be(buf: &[u8], at: usize) -> (r: i32)
    requires
        at + 4 <= buf.len(),
    ensures
        r == twos_complement(be_value(buf@.subrange(at as int, at + 4)) as int, 0x8000_0000),
{
    BigEndian::read_i32(&buf[at..at + 4])
}

/// `BigEndian::read_i64` of byteorder: the signed big-endian value of the 8 bytes
/// of `buf` that start at `at` (byteorder panics on fewer than 8 bytes).
#[verifier::external_body]
pub(crate) fn read_i64_be(buf: &[u8], at: usize) -> (r: i64)
    requires
        at + 8 <= buf.len(),
    ensures
        r == twos_complement(be_value(buf@.subrange(at as int, at + 8)) as int, 0x8000_0000_0000_0000),
{
    BigEndian::read_i64(&buf[at..at + 8])
}

/// `WriteBytesExt::write_u16::<LittleEndian>` of byteorder on a `Vec<u8>`: appends the
/// 2-byte little-endian two's complement encoding of `n` (writing to a vector
/// does not fail).
#[verifier::external_body]
pub(crate) fn write_u16_le(out: &mut Vec<u8>, n: u16)
    ensures
        final(out)@ == old(out)@ + le_bytes(n as int, 2),
{
    let _ = out.write_u16::<LittleEndian>(n);
}

/// `WriteBytesExt::write_u32::<LittleEndian>` of byteorder on a `Vec<u8>`: appends the
/// 4-byte little-endian two's complement encoding of `n` (writing to a vector
/// does not fail).
#[verifier::external_body]
pub(crate) fn write_u32_le(out: &mut Vec<u8>, n: u32)
    ensures
        final(out)@ == old(out)@ + le_bytes(n as int, 4),
{
    let _ = out.write_u32::<LittleEndian>(n);
}

/// `WriteBytesExt::write_i16::<LittleEndian>` of byteorder on a `Vec<u8>`: appends the
/// 2-byte little-endian two's complement encoding of `n` (writing to a vector
/// does not fail).
#[verifier::external_body]
pub(crate) fn write_i16_le(out: &mut Vec<u8>, n: i16)
    ensures
        final(out)@ == old(out)@ + le_bytes(n as int, 2),
{
    let _ = out.write_i16::<LittleEndian>(n);
}

/// `WriteBytesExt::write_i32::<LittleEndian>` of byteorder on a `Vec<u8>`: appends the
/// 4-byte little-endian two's complement encoding of `n` (writing to a vector
/// does not fail).
#[verifier::external_body]
pub(crate) fn write_i32_le(out: &mut Vec<u8>, n: i32)
    ensures
        final(out)@ == old(out)@ + le_bytes(n as int, 4),
{
    let _ = out.write_i32::<LittleEndian>(n);
}

/// `WriteBytesExt::write_i64::<LittleEndian>` of byteorder on a `Vec<u8>`: appends the
/// 8-byte little-endian two's complement encoding of `n` (writing to a vector
/// does not fail).
#[verifier::external_body]
pub(crate) fn write_i64_le(out: &mut Vec<u8>, n: i64)
    ensures
        final(out)@ == old(out)@ + le_bytes(n as int, 8),
{
    let _ = out.write_i64::<LittleEndian>(n);
}

/// `WriteBytesExt::write_u32::<BigEndian>` of byteorder on a `Vec<u8>`: appends the
/// 4-byte big-endian two's complement encoding of `n` (writing to a vector
/// does not fail).
#[verifier::external_body]
pub(crate) fn write_u32_be(out: &mut Vec<u8>, n: u32)
    ensures
        final(out)@ == old(out)@ + be_bytes(n as int, 4),
{
    let _ = out.write_u32::<BigEndian>(n);
}

/// `WriteBytesExt::write_i16::<BigEndian>` of byteorder on a `Vec<u8>`: appends the
/// 2-byte big-endian two's complement encoding of `n` (writing to a vector
/// does not fail).
#[verifier::external_body]
pub(crate) fn write_i16_be(out: &mut Vec<u8>, n: i16)
    ensures
        final(out)@ == old(out)@ + be_bytes(n as int, 2),
{
    let _ = out.write_i16::<BigEndian>(n);
}

/// `WriteBytesExt::write_i32::<BigEndian>` of byteorder on a `Vec<u8>`: appends the
/// 4-byte big-endian two's complement encoding of `n` (writing to a vector
/// does not fail).
#[verifier::external_body]
pub(crate) fn write_i32_be(out: &mut Vec<u8>, n: i32)
    ensures
        final(out)@ == old(out)@ + be_bytes(n as int, 4),
{
    let _ = out.write_i32::<BigEndian>(n);
}

/// `WriteBytesExt::write_i64::<BigEndian>` of byteorder on a `Vec<u8>`: appends the
/// 8-byte big-endian two's complement encoding of `n` (writing to a vector
/// does not fail).
#[verifier::external_body]
pub(crate) fn write_i64_be(out: &mut Vec<u8>, n: i64)
    ensures
        final(out)@ == old(out)@ + be_bytes(n as int, 8),
{
    let _ = out.write_i64::<BigEndian>(n);
}

/// `WriteBytesExt::write_u64::<BigEndian>` of byteorder on a `Vec<u8>`: appends the
/// 8-byte big-endian two's complement encoding of `n` (writing to a vector
/// does not fail).
#[verifier::external_body]
pub(crate) fn write_u64_be(out: &mut Vec<u8>, n: u64)
    ensures
        final(out)@ == old(out)@ + be_bytes(n as int, 8),
{
    let _ = out.write_u64::<BigEndian>(n);
}

} // verus!

//! Big-endian integer encodings shared by the payload codec, the `CASpec`
//! serialisation and the archive index.

use vstd::prelude::*;
use vstd::arithmetic::div_mod::lemma_fundamental_div_mod;
use vstd::arithmetic::div_mod::lemma_mod_breakdown;

verus! {

/// The two bytes of `v` in big-endian order.
pub open spec fn spec_u16_be(v: u16) -> Seq<u8> {
    seq![(v / 0x100) as u8, (v % 0x100) as u8]
}

/// The `u16` value denoted by two big-endian bytes.
pub open spec fn spec_u16_of_bytes(b0: u8, b1: u8) -> u16 {
    (b0 as int * 0x100 + b1 as int) as u16
}

/// The eight bytes of `v` in big-endian order.
pub open spec fn spec_u64_be(v: u64) -> Seq<u8> {
    seq![
        ((v as int / 0x100000000000000) % 0x100) as u8,
        ((v as int / 0x1000000000000) % 0x100) as u8,
        ((v as int / 0x10000000000) % 0x100) as u8,
        ((v as int / 0x100000000) % 0x100) as u8,
        ((v as int / 0x1000000) % 0x100) as u8,
        ((v as int / 0x10000) % 0x100) as u8,
        ((v as int / 0x100) % 0x100) as u8,
        (v as int % 0x100) as u8,
    ]
}

/// The integer denoted by the eight big-endian bytes of `buf` starting at `i`.
pub open spec fn spec_u64_of_bytes_at(buf: Seq<u8>, i: int) -> int {
    buf[i] * 0x100000000000000
        + buf[i + 1] * 0x1000000000000
        + buf[i + 2] * 0x10000000000
        + buf[i + 3] * 0x100000000
        + buf[i + 4] * 0x1000000
        + buf[i + 5] * 0x10000
        + buf[i + 6] * 0x100
        + buf[i + 7]
}

/// Appends the two big-endian bytes of `v` to `out`.
pub fn u16_to_be(v: u16, out: &mut Vec<u8>)
    ensures
        final(out)@ == old(out)@ + spec_u16_be(v),
{
    out.push((v / 0x100) as u8);
    out.push((v % 0x100) as u8);
    proof {
        assert(out@ =~= old(out)@ + spec_u16_be(v));
    }
}

/// Appends the eight big-endian bytes of `v` to `out`.
pub fn u64_to_be(v: u64, out: &mut Vec<u8>)
    ensures
        final(out)@ == old(out)@ + spec_u64_be(v),
{
    out.push(((v / 0x100000000000000) % 0x100) as u8);
    out.push(((v / 0x1000000000000) % 0x100) as u8);
    out.push(((v / 0x10000000000) % 0x100) as u8);
    out.push(((v / 0x100000000) % 0x100) as u8);
    out.push(((v / 0x1000000) % 0x100) as u8);
    out.push(((v / 0x10000) % 0x100) as u8);
    out.push(((v / 0x100) % 0x100) as u8);
    out.push((v % 0x100) as u8);
    proof {
        assert(out@ =~= old(out)@ + spec_u64_be(v));
    }
}

/// Reads a big-endian `u16` from `buf` at offset `i`.
pub fn u16_be_at(buf: &[u8], i: usize) -> (v: u16)
    requires
        i + 2 <= buf@.len(),
    ensures
        v == spec_u16_of_bytes(buf@[i as int], buf@[i as int + 1]),
{
    buf[i] as u16 * 0x100 + buf[i + 1] as u16
}

/// Reads a big-endian `u64` from `buf` at offset `i`.
pub fn u64_be_at(buf: &[u8], i: usize) -> (v: u64)
    requires
        i + 8 <= buf@.len(),
    ensures
        v == spec_u64_of_bytes_at(buf@, i as int),
{
    buf[i] as u64 * 0x100000000000000
        + buf[i + 1] as u64 * 0x1000000000000
        + buf[i + 2] as u64 * 0x10000000000
        + buf[i + 3] as u64 * 0x100000000
        + buf[i + 4] as u64 * 0x1000000
        + buf[i + 5] as u64 * 0x10000
        + buf[i + 6] as u64 * 0x100
        + buf[i + 7] as u64
}

/// Writing a `u16` big-endian and reading it back yields the same value.
pub proof fn lemma_u16_be_roundtrip(v: u16)
    ensures
        spec_u16_be(v).len() == 2,
        spec_u16_of_bytes(spec_u16_be(v)[0], spec_u16_be(v)[1]) == v,
{
    lemma_fundamental_div_mod(v as int, 0x100);
}

/// Writing a `u64` big-endian and reading it back yields the same value.
pub proof fn lemma_u64_be_roundtrip(v: u64)
    ensures
        spec_u64_be(v).len() == 8,
        spec_u64_of_bytes_at(spec_u64_be(v), 0) == v,
{
    let x = v as int;
    lemma_mod_breakdown(x, 0x100, 0x100);
    lemma_mod_breakdown(x, 0x10000, 0x100);
    lemma_mod_breakdown(x, 0x1000000, 0x100);
    lemma_mod_breakdown(x, 0x100000000, 0x100);
    lemma_mod_breakdown(x, 0x10000000000, 0x100);
    lemma_mod_breakdown(x, 0x1000000000000, 0x100);
    lemma_mod_breakdown(x, 0x100000000000000, 0x100);
    assert(x % 0x10000000000000000 == x) by {
        vstd::arithmetic::div_mod::lemma_small_mod(v as nat, 0x10000000000000000);
    }
}

} // verus!

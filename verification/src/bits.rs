//! Per-column bit widths and the MSB-first bit stream underlying the
//! bit-packed payload codec.

use vstd::prelude::*;
use vstd::arithmetic::power2::{
    lemma2_to64, lemma_pow2_pos, lemma_pow2_strictly_increases, lemma_pow2_unfold, pow2,
};
use vstd::arithmetic::div_mod::{lemma_div_denominator, lemma_mod_breakdown};

verus! {

/// `ceil(log2 v)` for `v >= 1`; zero for smaller arguments.
pub open spec fn spec_clog2(v: int) -> nat
    decreases v,
{
    if v <= 1 {
        0
    } else {
        (1 + spec_clog2((v + 1) / 2)) as nat
    }
}

/// Width in bits of a stored value for a column with `v` values:
/// `max(1, ceil(log2 v))`.
pub open spec fn spec_bit_width(v: u16) -> nat {
    if spec_clog2(v as int) == 0 {
        1
    } else {
        spec_clog2(v as int)
    }
}

/// `2^(clog2 v)` reaches `v`, and one bit fewer does not.
pub proof fn lemma_clog2_bounds(v: int)
    requires
        1 <= v,
    ensures
        v <= pow2(spec_clog2(v)),
        v >= 2 ==> pow2((spec_clog2(v) - 1) as nat) < v,
    decreases v,
{
    lemma2_to64();
    if v >= 2 {
        let c = (v + 1) / 2;
        assert(1 <= c < v);
        lemma_clog2_bounds(c);
        let e = spec_clog2(c);
        assert(spec_clog2(v) == 1 + e);
        lemma_pow2_unfold((1 + e) as nat);
        assert(pow2((1 + e) as nat) == 2 * pow2(e));
        assert(2 * c >= v);
        if c >= 2 {
            lemma_pow2_unfold(e);
            assert(pow2((e - 1) as nat) < c);
            assert(pow2(e) <= 2 * (c - 1));
            assert(2 * c - 2 < v);
        }
    }
}

/// If `2^b` reaches `v` then `clog2 v` is at most `b`.
pub proof fn lemma_clog2_le(v: int, b: nat)
    requires
        1 <= v,
        v <= pow2(b),
    ensures
        spec_clog2(v) <= b,
{
    if spec_clog2(v) > b {
        if v >= 2 {
            lemma_clog2_bounds(v);
            let e = (spec_clog2(v) - 1) as nat;
            if b < e {
                lemma_pow2_strictly_increases(b, e);
            }
            assert(pow2(b) <= pow2(e));
            assert(pow2(e) < v);
        }
    }
}

/// Smallest width (at least one bit) whose range covers values below `v`.
pub fn bit_width_u16(v: u16) -> (b: u8)
    ensures
        b == spec_bit_width(v),
        1 <= b <= 16,
{
    let mut b: u8 = 1;
    let mut cap: u32 = 2;
    proof {
        lemma2_to64();
    }
    while cap < v as u32
        invariant
            1 <= b <= 16,
            2 <= cap,
            cap == pow2(b as nat),
            b > 1 ==> pow2((b - 1) as nat) < v,
        decreases 16 - b,
    {
        proof {
            lemma2_to64();
            if b as nat >= 16 {
                assert(pow2(16) == 0x10000);
                assert(cap >= 0x10000);
            }
            lemma_pow2_unfold((b + 1) as nat);
        }
        b += 1;
        cap *= 2;
    }
    proof {
        lemma2_to64();
        if v <= 1 {
            assert(spec_clog2(v as int) == 0);
        } else {
            lemma_clog2_le(v as int, b as nat);
            if b > 1 {
                lemma_clog2_bounds(v as int);
                if spec_clog2(v as int) <= (b - 1) as nat {
                    if spec_clog2(v as int) < (b - 1) as nat {
                        lemma_pow2_strictly_increases(spec_clog2(v as int), (b - 1) as nat);
                    }
                    assert(v <= pow2((b - 1) as nat));
                    assert(false);
                }
            } else {
                assert(v == 2);
                assert(spec_clog2(2) == 1 + spec_clog2(1));
            }
        }
    }
    b
}

/// Per-column widths for the bit-packed codec.
pub fn generate_bit_sizes(vs_out: &Vec<u16>) -> (r: Vec<u8>)
    ensures
        r@.len() == vs_out@.len(),
        forall|i: int| 0 <= i < vs_out@.len() ==> r@[i] == spec_bit_width(vs_out@[i]),
        forall|i: int| 0 <= i < vs_out@.len() ==> 1 <= #[trigger] r@[i] <= 16,
{
    let mut r: Vec<u8> = Vec::new();
    let mut i: usize = 0;
    while i < vs_out.len()
        invariant
            i <= vs_out@.len(),
            r@.len() == i,
            forall|j: int| 0 <= j < i ==> r@[j] == spec_bit_width(vs_out@[j]),
            forall|j: int| 0 <= j < i ==> 1 <= #[trigger] r@[j] <= 16,
        decreases vs_out@.len() - i,
    {
        r.push(bit_width_u16(vs_out[i]));
        i += 1;
    }
    r
}

/// `2^e` as a machine integer.
pub fn pow2_u32(e: u8) -> (r: u32)
    requires
        e < 32,
    ensures
        r == pow2(e as nat),
{
    let mut r: u32 = 1;
    let mut i: u8 = 0;
    proof {
        lemma2_to64();
    }
    while i < e
        invariant
            i <= e,
            e < 32,
            r == pow2(i as nat),
        decreases e - i,
    {
        proof {
            lemma2_to64();
            if (i as nat) < 30 {
                lemma_pow2_strictly_increases(i as nat, 30);
            }
            lemma_pow2_unfold((i + 1) as nat);
        }
        r = r * 2;
        i += 1;
    }
    r
}

/// Bit `b` of a byte stream, MSB first within each byte; zero or one.
pub open spec fn spec_bit_at(data: Seq<u8>, b: int) -> u16 {
    (((data[b / 8] as nat) / pow2((7 - b % 8) as nat)) % 2) as u16
}

/// The integer denoted by `width` stream bits starting at `start`, MSB first.
pub open spec fn spec_bits_value(data: Seq<u8>, start: int, width: int) -> int
    decreases width,
{
    if width <= 0 {
        0
    } else {
        spec_bits_value(data, start, width - 1) * 2 + spec_bit_at(data, start + width - 1)
    }
}

/// The low `width` bits of `v`, MSB first.
pub open spec fn spec_value_bits(v: u16, width: nat) -> Seq<u16> {
    Seq::new(width, |q: int| (((v as nat) / pow2((width - 1 - q) as nat)) % 2) as u16)
}

/// MSB-first accumulation of a sequence of bits.
pub open spec fn spec_horner(s: Seq<u16>) -> int
    decreases s.len(),
{
    if s.len() == 0 {
        0
    } else {
        spec_horner(s.drop_last()) * 2 + s.last()
    }
}

/// Sum of per-column bit widths.
pub open spec fn spec_bits_sum(bits: Seq<u8>) -> nat
    decreases bits.len(),
{
    if bits.len() == 0 {
        0
    } else {
        (bits[0] + spec_bits_sum(bits.drop_first())) as nat
    }
}

/// The widths split additively around any column boundary.
pub proof fn lemma_bits_sum_split(bits: Seq<u8>, j: int)
    requires
        0 <= j <= bits.len(),
    ensures
        spec_bits_sum(bits) == spec_bits_sum(bits.take(j)) + spec_bits_sum(bits.skip(j)),
    decreases j,
{
    if j == 0 {
        assert(bits.take(0) =~= Seq::<u8>::empty());
        assert(bits.skip(0) =~= bits);
    } else {
        assert(bits.take(j)[0] == bits[0]);
        assert(bits.take(j).drop_first() =~= bits.drop_first().take(j - 1));
        assert(bits.skip(j) =~= bits.drop_first().skip(j - 1));
        lemma_bits_sum_split(bits.drop_first(), j - 1);
    }
}

/// Extending the prefix by one column adds that column's width.
pub proof fn lemma_bits_sum_take_succ(bits: Seq<u8>, j: int)
    requires
        0 <= j < bits.len(),
    ensures
        spec_bits_sum(bits.take(j + 1)) == spec_bits_sum(bits.take(j)) + bits[j],
{
    lemma_bits_sum_split(bits.take(j + 1), j);
    assert(bits.take(j + 1).take(j) =~= bits.take(j));
    assert(bits.take(j + 1).skip(j) =~= seq![bits[j]]);
    assert(spec_bits_sum(seq![bits[j]]) == bits[j] + spec_bits_sum(
        seq![bits[j]].drop_first(),
    ));
    assert(seq![bits[j]].drop_first() =~= Seq::<u8>::empty());
}

/// Dividing away one doubled digit: `(2a + r) / 2^m == a / 2^(m-1)`.
proof fn lemma_double_div(a: int, r: int, m: nat)
    requires
        0 <= a,
        0 <= r < 2,
        m >= 1,
    ensures
        (2 * a + r) / (pow2(m) as int) == a / (pow2((m - 1) as nat) as int),
{
    let x = 2 * a + r;
    assert(x / 2 == a);
    lemma_pow2_unfold(m);
    lemma_pow2_pos((m - 1) as nat);
    lemma_div_denominator(x, 2, pow2((m - 1) as nat) as int);
    assert((x / 2) / (pow2((m - 1) as nat) as int) == x / (2 * (pow2((m - 1) as nat) as int)));
}

/// The bits listed for `v / 2` are the high `width - 1` bits listed for `v`.
proof fn lemma_value_bits_shift(v: u16, width: nat)
    requires
        width >= 1,
    ensures
        spec_value_bits(v, width).drop_last() =~= spec_value_bits(v / 2, (width - 1) as nat),
{
    assert forall|q: int| 0 <= q < width - 1 implies spec_value_bits(v, width)[q]
        == spec_value_bits(v / 2, (width - 1) as nat)[q] by {
        let m = (width - 1 - q) as nat;
        lemma_pow2_pos((m - 1) as nat);
        lemma_double_div((v / 2) as int, (v % 2) as int, m);
        assert(2 * ((v / 2) as int) + ((v % 2) as int) == v as int);
        lemma_div_denominator(v as int, 2, pow2((m - 1) as nat) as int);
    }
}

/// Stream bits that list `v` decode to `v` modulo `2^width`.
pub proof fn lemma_bits_value_decode(data: Seq<u8>, start: int, width: nat, v: u16)
    requires
        forall|q: int| 0 <= q < width ==> spec_bit_at(data, start + q) == spec_value_bits(
            v,
            width,
        )[q],
    ensures
        spec_bits_value(data, start, width as int) == (v as int) % (pow2(width) as int),
    decreases width,
{
    lemma2_to64();
    if width == 0 {
        assert((v as int) % 1 == 0);
    } else {
        lemma_value_bits_shift(v, width);
        assert forall|q: int| 0 <= q < width - 1 implies #[trigger] spec_bit_at(data, start + q)
            == spec_value_bits(v / 2, (width - 1) as nat)[q] by {
            assert(spec_value_bits(v, width).drop_last()[q] == spec_value_bits(v, width)[q]);
        }
        lemma_bits_value_decode(data, start, (width - 1) as nat, v / 2);
        assert(spec_bit_at(data, start + width - 1) == spec_value_bits(v, width)[
            width - 1
        ]);
        assert(spec_value_bits(v, width)[width - 1] == (((v as nat) / pow2(0)) % 2) as u16);
        lemma_pow2_pos((width - 1) as nat);
        lemma_mod_breakdown(v as int, 2, pow2((width - 1) as nat) as int);
        lemma_pow2_unfold(width);
    }
}

/// A decoded value always lies below `2^width`.
pub proof fn lemma_bits_value_bound(data: Seq<u8>, start: int, width: int)
    requires
        width >= 0,
    ensures
        0 <= spec_bits_value(data, start, width) < pow2(width as nat),
    decreases width,
{
    lemma2_to64();
    if width > 0 {
        lemma_bits_value_bound(data, start, width - 1);
        lemma_pow2_unfold(width as nat);
        assert(spec_bit_at(data, start + width - 1) < 2);
    }
}

/// The Horner value of zero-or-one digits lies below `2^len`.
pub proof fn lemma_horner_bound(s: Seq<u16>)
    requires
        forall|i: int| 0 <= i < s.len() ==> s[i] < 2,
    ensures
        0 <= spec_horner(s) < pow2(s.len()),
    decreases s.len(),
{
    lemma2_to64();
    if s.len() > 0 {
        assert(forall|i: int| 0 <= i < s.len() - 1 ==> s.drop_last()[i] < 2);
        lemma_horner_bound(s.drop_last());
        lemma_pow2_unfold(s.len());
        assert(s.last() < 2);
    }
}

/// Extracting bit `k` from the Horner value gives the digit back.
pub proof fn lemma_horner_extract(s: Seq<u16>)
    requires
        forall|i: int| 0 <= i < s.len() ==> s[i] < 2,
    ensures
        forall|k: int|
            0 <= k < s.len() ==> ((spec_horner(s) / (pow2((s.len() - 1 - k) as nat) as int)) % 2)
                == s[k],
    decreases s.len(),
{
    lemma2_to64();
    if s.len() > 0 {
        let a = spec_horner(s.drop_last());
        let r = s.last() as int;
        assert(forall|i: int| 0 <= i < s.len() - 1 ==> s.drop_last()[i] < 2);
        lemma_horner_extract(s.drop_last());
        lemma_horner_bound(s.drop_last());
        assert forall|k: int| 0 <= k < s.len() implies ((spec_horner(s) / (pow2(
            (s.len() - 1 - k) as nat,
        ) as int)) % 2) == s[k] by {
            if k == s.len() - 1 {
                assert(spec_horner(s) / (pow2(0) as int) == 2 * a + r);
                assert((2 * a + r) % 2 == r);
            } else {
                lemma_double_div(a, r, (s.len() - 1 - k) as nat);
                assert(s.drop_last()[k] == s[k]);
            }
        }
    }
}

} // verus!

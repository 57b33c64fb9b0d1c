//! The payload codecs: the bit-packed format packs each interned value into
//! its column's bit width, MSB first, padded to whole 64-bit words; the
//! entropy-coded format writes every value as a fixed two-byte big-endian
//! word, to be wrapped by a general-purpose compressor.

use vstd::prelude::*;
use vstd::arithmetic::power2::{
    lemma2_to64, lemma_pow2_pos, lemma_pow2_strictly_increases, lemma_pow2_unfold, pow2,
};
use vstd::arithmetic::div_mod::{
    lemma_div_denominator, lemma_div_is_ordered, lemma_div_multiples_vanish,
    lemma_fundamental_div_mod, lemma_fundamental_div_mod_converse, lemma_hoist_over_denominator,
};
use vstd::arithmetic::mul::lemma_mul_inequality;
use crate::bits::{
    lemma_horner_bound, lemma_horner_extract, spec_bit_at, spec_bits_sum, spec_bits_value,
    spec_value_bits, spec_horner, lemma_bits_sum_take_succ, lemma_bits_sum_split, pow2_u32,
};
use crate::caspec::CA2Version;
use crate::wire::{spec_u16_of_bytes, u16_be_at, u16_to_be};

verus! {

/// Length in bytes of a bit-packed payload holding `lbits` stream bits:
/// whole 64-bit words, the last one zero-padded.
pub open spec fn spec_basic_len(lbits: int) -> int {
    ((lbits + 63) / 64) * 8
}

/// All bits of one row: each column's value contributes its width, MSB first.
pub open spec fn spec_row_bits(row: Seq<u16>, bits: Seq<u8>) -> Seq<u16>
    decreases bits.len(),
{
    if bits.len() == 0 {
        Seq::empty()
    } else {
        spec_value_bits(row[0], bits[0] as nat) + spec_row_bits(row.drop_first(), bits.drop_first())
    }
}

/// The bit stream of all rows, in row order.
pub open spec fn spec_stream_bits(rows: Seq<Seq<u16>>, bits: Seq<u8>) -> Seq<u16>
    decreases rows.len(),
{
    if rows.len() == 0 {
        Seq::empty()
    } else {
        spec_row_bits(rows[0], bits) + spec_stream_bits(rows.drop_first(), bits)
    }
}

/// One row occupies the sum of the column widths.
pub proof fn lemma_row_bits_len(row: Seq<u16>, bits: Seq<u8>)
    ensures
        spec_row_bits(row, bits).len() == spec_bits_sum(bits),
    decreases bits.len(),
{
    if bits.len() > 0 {
        lemma_row_bits_len(row.drop_first(), bits.drop_first());
    }
}

/// The stream occupies the row count times the row width.
pub proof fn lemma_stream_bits_len(rows: Seq<Seq<u16>>, bits: Seq<u8>)
    ensures
        spec_stream_bits(rows, bits).len() == rows.len() * spec_bits_sum(bits),
    decreases rows.len(),
{
    if rows.len() > 0 {
        lemma_row_bits_len(rows[0], bits);
        lemma_stream_bits_len(rows.drop_first(), bits);
        assert(rows.len() * spec_bits_sum(bits) == spec_bits_sum(bits) + (rows.len() - 1)
            * spec_bits_sum(bits)) by (nonlinear_arith);
    }
}

/// Appending one value appends its listed bits.
pub proof fn lemma_row_bits_snoc(row: Seq<u16>, bits: Seq<u8>, v: u16, w: u8)
    requires
        row.len() == bits.len(),
    ensures
        spec_row_bits(row.push(v), bits.push(w)) == spec_row_bits(row, bits) + spec_value_bits(
            v,
            w as nat,
        ),
    decreases bits.len(),
{
    if bits.len() == 0 {
        assert(row.push(v).drop_first() =~= row);
        assert(bits.push(w).drop_first() =~= bits);
        assert(row.push(v)[0] == v);
        assert(bits.push(w)[0] == w);
        assert(spec_row_bits(row.push(v), bits.push(w)) =~= spec_row_bits(row, bits)
            + spec_value_bits(v, w as nat));
    } else {
        assert(row.push(v).drop_first() =~= row.drop_first().push(v));
        assert(bits.push(w).drop_first() =~= bits.drop_first().push(w));
        assert(row.push(v)[0] == row[0]);
        assert(bits.push(w)[0] == bits[0]);
        lemma_row_bits_snoc(row.drop_first(), bits.drop_first(), v, w);
        assert(spec_value_bits(row[0], bits[0] as nat) + (spec_row_bits(
            row.drop_first(),
            bits.drop_first(),
        ) + spec_value_bits(v, w as nat)) =~= (spec_value_bits(row[0], bits[0] as nat)
            + spec_row_bits(row.drop_first(), bits.drop_first())) + spec_value_bits(v, w as nat));
    }
}

/// Appending one row appends its bits.
pub proof fn lemma_stream_bits_snoc(rows: Seq<Seq<u16>>, bits: Seq<u8>, row: Seq<u16>)
    ensures
        spec_stream_bits(rows.push(row), bits) == spec_stream_bits(rows, bits) + spec_row_bits(
            row,
            bits,
        ),
    decreases rows.len(),
{
    if rows.len() == 0 {
        assert(rows.push(row).drop_first() =~= rows);
        assert(rows.push(row)[0] == row);
        assert(spec_stream_bits(rows.push(row), bits) =~= spec_stream_bits(rows, bits)
            + spec_row_bits(row, bits));
    } else {
        assert(rows.push(row).drop_first() =~= rows.drop_first().push(row));
        assert(rows.push(row)[0] == rows[0]);
        lemma_stream_bits_snoc(rows.drop_first(), bits, row);
        assert(spec_row_bits(rows[0], bits) + (spec_stream_bits(rows.drop_first(), bits)
            + spec_row_bits(row, bits)) =~= (spec_row_bits(rows[0], bits) + spec_stream_bits(
            rows.drop_first(),
            bits,
        )) + spec_row_bits(row, bits));
    }
}

/// Within one row, bit `q` of column `j` sits after the widths of the
/// earlier columns.
pub proof fn lemma_row_bits_index(row: Seq<u16>, bits: Seq<u8>, j: int, q: int)
    requires
        row.len() == bits.len(),
        0 <= j < bits.len(),
        0 <= q < bits[j],
    ensures
        spec_bits_sum(bits.take(j)) + q < spec_row_bits(row, bits).len(),
        spec_row_bits(row, bits)[spec_bits_sum(bits.take(j)) as int + q] == spec_value_bits(
            row[j],
            bits[j] as nat,
        )[q],
    decreases j,
{
    lemma_row_bits_len(row, bits);
    lemma_bits_sum_take_succ(bits, j);
    lemma_bits_sum_split(bits, j + 1);
    if j == 0 {
        assert(bits.take(0) =~= Seq::<u8>::empty());
        assert(spec_bits_sum(bits.take(0)) == 0);
        assert(spec_row_bits(row, bits)[q] == spec_value_bits(row[0], bits[0] as nat)[q]);
    } else {
        assert(bits.take(j).drop_first() =~= bits.drop_first().take(j - 1));
        assert(spec_bits_sum(bits.take(j)) == bits[0] + spec_bits_sum(
            bits.drop_first().take(j - 1),
        )) by {
            assert(bits.take(j)[0] == bits[0]);
        }
        lemma_row_bits_index(row.drop_first(), bits.drop_first(), j - 1, q);
        assert(row.drop_first()[j - 1] == row[j]);
        assert(bits.drop_first()[j - 1] == bits[j]);
    }
}

/// In the whole stream, bit `q` of column `j` of row `i` sits at
/// `i * S + P(j) + q`.
pub proof fn lemma_stream_bits_index(rows: Seq<Seq<u16>>, bits: Seq<u8>, i: int, j: int, q: int)
    requires
        forall|m: int| 0 <= m < rows.len() ==> #[trigger] rows[m].len() == bits.len(),
        0 <= i < rows.len(),
        0 <= j < bits.len(),
        0 <= q < bits[j],
    ensures
        0 <= i * spec_bits_sum(bits) + spec_bits_sum(bits.take(j)) + q < spec_stream_bits(
            rows,
            bits,
        ).len(),
        spec_stream_bits(rows, bits)[i * spec_bits_sum(bits) as int + spec_bits_sum(
            bits.take(j),
        ) as int + q] == spec_value_bits(rows[i][j], bits[j] as nat)[q],
    decreases i,
{
    let s = spec_bits_sum(bits) as int;
    lemma_stream_bits_len(rows, bits);
    lemma_row_bits_len(rows[0], bits);
    lemma_bits_sum_take_succ(bits, j);
    lemma_bits_sum_split(bits, j + 1);
    if i == 0 {
        lemma_row_bits_index(rows[0], bits, j, q);
        assert(i * s == 0) by (nonlinear_arith)
            requires
                i == 0,
        ;
        assert(s <= rows.len() * s) by (nonlinear_arith)
            requires
                rows.len() >= 1,
                s >= 0,
        ;
        assert(spec_stream_bits(rows, bits)[spec_bits_sum(bits.take(j)) as int + q]
            == spec_row_bits(rows[0], bits)[spec_bits_sum(bits.take(j)) as int + q]);
    } else {
        lemma_stream_bits_index(rows.drop_first(), bits, i - 1, j, q);
        assert(rows.drop_first()[i - 1] == rows[i]);
        assert(i * s == s + (i - 1) * s) by (nonlinear_arith);
        assert((i - 1) * s >= 0) by (nonlinear_arith)
            requires
                i >= 1,
                s >= 0,
        ;
        lemma_stream_bits_len(rows.drop_first(), bits);
        assert((i - 1) * s + spec_bits_sum(bits.take(j)) + q < (rows.len() - 1) * s) by {
            assert((i - 1 + 1) * s <= (rows.len() - 1) * s) by (nonlinear_arith)
                requires
                    i <= rows.len() - 1,
                    s >= 0,
            ;
            assert((i - 1 + 1) * s == (i - 1) * s + s) by (nonlinear_arith);
        }
    }
}

/// Incremental writer for the MSB-first bit stream.
struct BitWriter {
    out: Vec<u8>,
    acc: u8,
    nacc: u8,
    emitted: Ghost<Seq<u16>>,
}

impl BitWriter {
    /// The bytes written so far list exactly the emitted bits, and `acc`
    /// holds the not-yet-flushed tail.
    spec fn wf(self) -> bool {
        &&& self.nacc < 8
        &&& self.emitted@.len() == 8 * self.out@.len() + self.nacc
        &&& forall|b: int|
            0 <= b < 8 * self.out@.len() ==> spec_bit_at(self.out@, b) == self.emitted@[b]
        &&& forall|i: int| 0 <= i < self.emitted@.len() ==> self.emitted@[i] < 2
        &&& self.acc as int == spec_horner(self.emitted@.skip(8 * self.out@.len() as int))
    }

    fn new() -> (w: BitWriter)
        ensures
            w.wf(),
            w.emitted@ == Seq::<u16>::empty(),
            w.out@.len() == 0,
    {
        let w = BitWriter { out: Vec::new(), acc: 0, nacc: 0, emitted: Ghost(Seq::empty()) };
        proof {
            assert(w.emitted@.skip(0) =~= Seq::<u16>::empty());
        }
        w
    }

    fn push_bit(&mut self, bit: u8)
        requires
            old(self).wf(),
            bit < 2,
        ensures
            final(self).wf(),
            final(self).emitted@ == old(self).emitted@.push(bit as u16),
            final(self).out@.len() * 8 <= old(self).emitted@.len() + 1,
    {
        let ghost pre_out = self.out@;
        let ghost pre_emitted = self.emitted@;
        let ghost l = self.out@.len() as int;
        proof {
            lemma2_to64();
            let tail = pre_emitted.skip(8 * l);
            assert(forall|i: int| 0 <= i < tail.len() ==> tail[i] < 2) by {
                assert(forall|i: int|
                    0 <= i < tail.len() ==> tail[i] == pre_emitted[8 * l + i]);
            }
            lemma_horner_bound(tail);
            if (self.nacc as nat) < 7 {
                lemma_pow2_strictly_increases(self.nacc as nat, 7);
            }
            assert(self.acc < 128);
        }
        let nb: u8 = self.acc * 2 + bit;
        self.emitted = Ghost(pre_emitted.push(bit as u16));
        if self.nacc == 7 {
            self.out.push(nb);
            self.acc = 0;
            self.nacc = 0;
            proof {
                lemma2_to64();
                let bits8 = pre_emitted.push(bit as u16).skip(8 * l);
                assert(bits8.len() == 8);
                assert(bits8.drop_last() =~= pre_emitted.skip(8 * l));
                assert(bits8.last() == bit as u16);
                assert(spec_horner(bits8) == nb);
                assert(forall|i: int| 0 <= i < 8 ==> bits8[i] < 2) by {
                    assert(forall|i: int|
                        0 <= i < 8 ==> bits8[i] == pre_emitted.push(bit as u16)[8 * l + i]);
                }
                lemma_horner_extract(bits8);
                assert forall|b: int| 0 <= b < 8 * self.out@.len() implies spec_bit_at(
                    self.out@,
                    b,
                ) == self.emitted@[b] by {
                    if b < 8 * l {
                        assert((8 * l - 1) / 8 == l - 1) by {
                            lemma_fundamental_div_mod_converse(8 * l - 1, 8, l - 1, 7);
                        }
                        lemma_div_is_ordered(b, 8 * l - 1, 8);
                        assert(self.out@[b / 8] == pre_out[b / 8]);
                        assert(spec_bit_at(pre_out, b) == pre_emitted[b]);
                    } else {
                        let q = b - 8 * l;
                        lemma_fundamental_div_mod_converse(b, 8, l, q);
                        assert(self.out@[l] == nb);
                        assert((spec_horner(bits8) / (pow2((8 - 1 - q) as nat) as int)) % 2
                            == bits8[q]);
                        assert(bits8[q] == self.emitted@[8 * l + q]);
                        assert(spec_bit_at(self.out@, b) == ((nb as nat / pow2(
                            (7 - q) as nat,
                        )) % 2) as u16);
                    }
                }
                assert(self.emitted@.skip(8 * self.out@.len() as int) =~= Seq::<u16>::empty());
            }
        } else {
            self.acc = nb;
            self.nacc = self.nacc + 1;
            proof {
                let tail = pre_emitted.skip(8 * l);
                assert(self.emitted@.skip(8 * l) =~= tail.push(bit as u16));
                assert(tail.push(bit as u16).drop_last() =~= tail);
                assert(tail.push(bit as u16).last() == bit as u16);
            }
        }
    }

    /// Appends the low `width` bits of `v`, MSB first.
    fn push_value(&mut self, v: u16, width: u8)
        requires
            old(self).wf(),
            width <= 16,
        ensures
            final(self).wf(),
            final(self).emitted@ == old(self).emitted@ + spec_value_bits(v, width as nat),
    {
        let ghost pre_emitted = self.emitted@;
        if width == 0 {
            proof {
                assert(spec_value_bits(v, 0) =~= Seq::<u16>::empty());
                assert(pre_emitted + spec_value_bits(v, 0) =~= pre_emitted);
            }
            return ;
        }
        let mut q: u8 = 0;
        let mut cap: u32 = pow2_u32(width - 1);
        proof {
            assert(pre_emitted + spec_value_bits(v, width as nat).take(0) =~= pre_emitted);
        }
        while q < width
            invariant
                self.wf(),
                q <= width,
                1 <= width <= 16,
                q < width ==> cap == pow2((width - 1 - q) as nat),
                self.emitted@ == pre_emitted + spec_value_bits(v, width as nat).take(q as int),
            decreases width - q,
        {
            proof {
                lemma_pow2_pos((width - 1 - q) as nat);
            }
            let bit: u8 = ((v as u32 / cap) % 2) as u8;
            self.push_bit(bit);
            proof {
                assert(bit as u16 == spec_value_bits(v, width as nat)[q as int]);
                assert(spec_value_bits(v, width as nat).take(q as int).push(
                    spec_value_bits(v, width as nat)[q as int],
                ) =~= spec_value_bits(v, width as nat).take(q as int + 1));
                assert(self.emitted@ =~= pre_emitted + spec_value_bits(v, width as nat).take(
                    q as int + 1,
                ));
                if q + 1 < width {
                    lemma_pow2_unfold((width - 1 - q) as nat);
                }
            }
            q += 1;
            if q < width {
                cap = cap / 2;
            }
        }
        proof {
            assert(spec_value_bits(v, width as nat).take(width as int) =~= spec_value_bits(
                v,
                width as nat,
            ));
        }
    }

    /// Pads with zero bits to a whole number of 64-bit words and returns the
    /// bytes; the emitted bits are readable back at their positions.
    fn finish(self) -> (r: Vec<u8>)
        requires
            self.wf(),
        ensures
            r@.len() == spec_basic_len(self.emitted@.len() as int),
            forall|b: int|
                0 <= b < self.emitted@.len() ==> spec_bit_at(r@, b) == self.emitted@[b],
    {
        let ghost lbits = self.emitted@.len() as int;
        let mut w = self;
        proof {
            lemma_fundamental_div_mod_converse(
                lbits,
                8,
                w.out@.len() as int,
                w.nacc as int,
            );
        }
        if w.nacc != 0 {
            let pad = 8 - w.nacc;
            let mut p: u8 = 0;
            while p < pad
                invariant
                    w.wf(),
                    p <= pad,
                    0 < pad < 8,
                    pad == 8 - lbits % 8,
                    lbits % 8 != 0,
                    w.emitted@.len() == lbits + p,
                    forall|b: int| 0 <= b < lbits ==> w.emitted@[b] == self.emitted@[b],
                decreases pad - p,
            {
                w.push_bit(0);
                p += 1;
            }
            proof {
                lemma_fundamental_div_mod(lbits, 8);
                assert((lbits + pad) % 8 == 0) by {
                    lemma_fundamental_div_mod_converse(
                        lbits + pad,
                        8,
                        lbits / 8 + 1,
                        0,
                    );
                }
                lemma_fundamental_div_mod_converse(
                    lbits + pad,
                    8,
                    w.out@.len() as int,
                    w.nacc as int,
                );
            }
        }
        // Now the tail is flushed: the emitted length is a whole number of bytes.
        assert(w.nacc == 0);
        assert(w.emitted@.len() == 8 * w.out@.len());
        assert(lbits <= 8 * w.out@.len() <= lbits + 7);
        let ghost mid_out = w.out@;
        let mut out = w.out;
        let rem = out.len() % 8;
        if rem != 0 {
            let pad = 8 - rem;
            let mut p: usize = 0;
            while p < pad
                invariant
                    p <= pad,
                    pad == 8 - mid_out.len() % 8,
                    mid_out.len() % 8 != 0,
                    out@.len() == mid_out.len() + p,
                    forall|i: int| 0 <= i < mid_out.len() ==> out@[i] == mid_out[i],
                decreases pad - p,
            {
                out.push(0);
                p += 1;
            }
        }
        proof {
            // every emitted bit is readable from the final bytes
            assert forall|b: int| 0 <= b < lbits implies spec_bit_at(out@, b)
                == self.emitted@[b] by {
                assert((8 * mid_out.len() - 1) / 8 == mid_out.len() - 1) by {
                    lemma_fundamental_div_mod_converse(
                        8 * mid_out.len() - 1,
                        8,
                        mid_out.len() - 1,
                        7,
                    );
                }
                lemma_div_is_ordered(b, 8 * mid_out.len() - 1, 8);
                assert(out@[b / 8] == mid_out[b / 8]);
                assert(spec_bit_at(mid_out, b) == w.emitted@[b]);
            }
            // the final length is the bit length rounded up to 64-bit words
            let m = mid_out.len() as int;
            assert(m == (lbits + 7) / 8) by {
                lemma_fundamental_div_mod_converse(lbits + 7, 8, m, lbits + 7 - 8 * m);
            }
            assert(out@.len() == ((m + 7) / 8) * 8) by {
                if m % 8 == 0 {
                    lemma_fundamental_div_mod(m, 8);
                    lemma_fundamental_div_mod_converse(m + 7, 8, m / 8, 7);
                } else {
                    lemma_fundamental_div_mod(m, 8);
                    lemma_fundamental_div_mod_converse(
                        m + 7,
                        8,
                        m / 8 + 1,
                        m % 8 - 1,
                    );
                }
            }
            assert((m + 7) / 8 == (lbits + 63) / 64) by {
                lemma_hoist_over_denominator(lbits + 7, 7, 8);
                assert(m + 7 == (lbits + 63) / 8);
                lemma_div_denominator(lbits + 63, 8, 8);
            }
        }
        out
    }
}

/// Encodes interned rows with the bit-packed codec: each value contributes
/// the low `bit_sizes[j]` bits of its column, MSB first, and the stream is
/// zero-padded to whole 64-bit words.
pub fn encode_basic(rows: &Vec<Vec<u16>>, bit_sizes: &Vec<u8>) -> (r: Vec<u8>)
    requires
        forall|i: int| 0 <= i < rows@.len() ==> #[trigger] rows@[i]@.len() == bit_sizes@.len(),
        forall|j: int| 0 <= j < bit_sizes@.len() ==> bit_sizes@[j] <= 16,
    ensures
        r@.len() == spec_basic_len(rows@.len() * spec_bits_sum(bit_sizes@) as int),
        forall|b: int|
            0 <= b < rows@.len() * spec_bits_sum(bit_sizes@) ==> spec_bit_at(r@, b)
                == spec_stream_bits(rows.deep_view(), bit_sizes@)[b],
{
    let ghost rowsv = rows.deep_view();
    proof {
        assert(rowsv.len() == rows@.len());
        assert(forall|i: int| 0 <= i < rowsv.len() ==> rowsv[i] == #[trigger] rows@[i]@);
        assert(rowsv.take(0) =~= Seq::<Seq<u16>>::empty());
    }
    let mut wtr = BitWriter::new();
    let mut i: usize = 0;
    while i < rows.len()
        invariant
            wtr.wf(),
            i <= rows@.len(),
            rowsv == rows.deep_view(),
            rowsv.len() == rows@.len(),
            forall|m: int| 0 <= m < rowsv.len() ==> rowsv[m] == #[trigger] rows@[m]@,
            forall|m: int| 0 <= m < rows@.len() ==> #[trigger] rows@[m]@.len() == bit_sizes@.len(),
            forall|j: int| 0 <= j < bit_sizes@.len() ==> bit_sizes@[j] <= 16,
            wtr.emitted@ == spec_stream_bits(rowsv.take(i as int), bit_sizes@),
        decreases rows@.len() - i,
    {
        let row = &rows[i];
        let ghost row_start = wtr.emitted@;
        proof {
            assert(row@.take(0) =~= Seq::<u16>::empty());
            assert(bit_sizes@.take(0) =~= Seq::<u8>::empty());
            assert(row_start + spec_row_bits(row@.take(0), bit_sizes@.take(0)) =~= row_start);
        }
        let mut j: usize = 0;
        while j < row.len()
            invariant
                wtr.wf(),
                j <= row@.len(),
                row@ == rows@[i as int]@,
                row@.len() == bit_sizes@.len(),
                forall|j2: int| 0 <= j2 < bit_sizes@.len() ==> bit_sizes@[j2] <= 16,
                wtr.emitted@ == row_start + spec_row_bits(
                    row@.take(j as int),
                    bit_sizes@.take(j as int),
                ),
            decreases row@.len() - j,
        {
            wtr.push_value(row[j], bit_sizes[j]);
            proof {
                lemma_row_bits_snoc(
                    row@.take(j as int),
                    bit_sizes@.take(j as int),
                    row@[j as int],
                    bit_sizes@[j as int],
                );
                assert(row@.take(j as int).push(row@[j as int]) =~= row@.take(j as int + 1));
                assert(bit_sizes@.take(j as int).push(bit_sizes@[j as int]) =~= bit_sizes@.take(
                    j as int + 1,
                ));
                assert(wtr.emitted@ =~= row_start + spec_row_bits(
                    row@.take(j as int + 1),
                    bit_sizes@.take(j as int + 1),
                ));
            }
            j += 1;
        }
        proof {
            assert(row@.take(row@.len() as int) =~= row@);
            assert(bit_sizes@.take(row@.len() as int) =~= bit_sizes@);
            lemma_stream_bits_snoc(rowsv.take(i as int), bit_sizes@, rowsv[i as int]);
            assert(rowsv.take(i as int).push(rowsv[i as int]) =~= rowsv.take(i as int + 1));
            assert(wtr.emitted@ =~= spec_stream_bits(rowsv.take(i as int + 1), bit_sizes@));
        }
        i += 1;
    }
    proof {
        assert(rowsv.take(rowsv.len() as int) =~= rowsv);
        lemma_stream_bits_len(rowsv, bit_sizes@);
    }
    wtr.finish()
}

/// Encodes interned rows for the entropy-coded format: every value becomes a
/// two-byte big-endian word, row after row, ready for the outer compressor.
pub fn encode_u16_stream(rows: &Vec<Vec<u16>>, k: usize) -> (r: Vec<u8>)
    requires
        forall|i: int| 0 <= i < rows@.len() ==> #[trigger] rows@[i]@.len() == k,
    ensures
        r@.len() == rows@.len() * k * 2,
        forall|i: int, j: int|
            0 <= i < rows@.len() && 0 <= j < k ==> spec_u16_of_bytes(
                #[trigger] r@[(i * k + j) * 2],
                r@[(i * k + j) * 2 + 1],
            ) == rows@[i]@[j],
{
    let mut out: Vec<u8> = Vec::new();
    let mut i: usize = 0;
    while i < rows.len()
        invariant
            i <= rows@.len(),
            forall|m: int| 0 <= m < rows@.len() ==> #[trigger] rows@[m]@.len() == k,
            out@.len() == i * k * 2,
            forall|m: int, j: int|
                0 <= m < i && 0 <= j < k ==> spec_u16_of_bytes(
                    #[trigger] out@[(m * k + j) * 2],
                    out@[(m * k + j) * 2 + 1],
                ) == rows@[m]@[j],
        decreases rows@.len() - i,
    {
        let row = &rows[i];
        let mut j: usize = 0;
        while j < k
            invariant
                j <= k,
                row@ == rows@[i as int]@,
                i < rows@.len(),
                forall|m: int| 0 <= m < rows@.len() ==> #[trigger] rows@[m]@.len() == k,
                out@.len() == i * k * 2 + j * 2,
                forall|m: int, j2: int|
                    0 <= m < i && 0 <= j2 < k ==> spec_u16_of_bytes(
                        #[trigger] out@[(m * k + j2) * 2],
                        out@[(m * k + j2) * 2 + 1],
                    ) == rows@[m]@[j2],
                forall|j2: int|
                    0 <= j2 < j ==> spec_u16_of_bytes(
                        #[trigger] out@[(i * k + j2) * 2],
                        out@[(i * k + j2) * 2 + 1],
                    ) == rows@[i as int]@[j2],
            decreases k - j,
        {
            proof {
                assert((i * k + j) * 2 == i * k * 2 + j * 2) by (nonlinear_arith);
            }
            u16_to_be(row[j], &mut out);
            proof {
                crate::wire::lemma_u16_be_roundtrip(row@[j as int]);
                assert forall|m: int, j2: int| 0 <= m < i && 0 <= j2 < k implies spec_u16_of_bytes(
                    #[trigger] out@[(m * k + j2) * 2],
                    out@[(m * k + j2) * 2 + 1],
                ) == rows@[m]@[j2] by {
                    assert((m * k + j2) * 2 + 1 < i * k * 2 + j * 2) by (nonlinear_arith)
                        requires
                            0 <= m < i,
                            0 <= j2 < k,
                            0 <= j,
                    ;
                }
                assert forall|j2: int| 0 <= j2 < j + 1 implies spec_u16_of_bytes(
                    #[trigger] out@[(i * k + j2) * 2],
                    out@[(i * k + j2) * 2 + 1],
                ) == rows@[i as int]@[j2] by {
                    assert((i * k + j2) * 2 + 1 < i * k * 2 + j * 2 + 2) by (nonlinear_arith)
                        requires
                            0 <= j2 <= j,
                            0 <= i,
                            j2 < k,
                    ;
                }
            }
            j += 1;
        }
        proof {
            assert(i * k * 2 + k * 2 == (i + 1) * k * 2) by (nonlinear_arith);
        }
        i += 1;
    }
    out
}

/// The `i`-th row denoted by a bit-packed payload.
pub open spec fn spec_basic_row(data: Seq<u8>, bits: Seq<u8>, i: int) -> Seq<u16> {
    Seq::new(
        bits.len(),
        |j: int|
            spec_bits_value(
                data,
                i * spec_bits_sum(bits) as int + spec_bits_sum(bits.take(j)) as int,
                bits[j] as int,
            ) as u16,
    )
}

/// The `i`-th row denoted by a fixed-width two-byte stream with `k` columns.
pub open spec fn spec_bzip2_row(data: Seq<u8>, k: nat, i: int) -> Seq<u16> {
    Seq::new(
        k as nat,
        |j: int| spec_u16_of_bytes(data[(i * k + j) * 2], data[(i * k + j) * 2 + 1]),
    )
}

/// An iterator over the rows of one compressed payload, dispatching on the
/// codec version; for the entropy-coded version it reads the already
/// decompressed stream.
pub struct CompressedCA {
    data: Vec<u8>,
    rows_total: u64,
    row_current: u64,
    bit_sizes: Vec<u8>,
    ca2_version: CA2Version,
}

/// Mathematical model of a `CompressedCA`.
#[verifier::ext_equal]
pub struct CompressedCAView {
    pub data: Seq<u8>,
    pub rows_total: u64,
    pub row_current: u64,
    pub bit_sizes: Seq<u8>,
    pub ca2_version: CA2Version,
}

impl View for CompressedCA {
    type V = CompressedCAView;

    closed spec fn view(&self) -> CompressedCAView {
        CompressedCAView {
            data: self.data@,
            rows_total: self.rows_total,
            row_current: self.row_current,
            bit_sizes: self.bit_sizes@,
            ca2_version: self.ca2_version,
        }
    }
}

impl CompressedCAView {
    /// Machine limit of the bit-packed decoder: no column wider than 16 bits.
    pub open spec fn wf(self) -> bool {
        forall|j: int| 0 <= j < self.bit_sizes.len() ==> self.bit_sizes[j] <= 16
    }

    /// The `i`-th row denoted by the payload under this codec version.
    pub open spec fn row(self, i: int) -> Seq<u16> {
        match self.ca2_version {
            CA2Version::Basic => spec_basic_row(self.data, self.bit_sizes, i),
            CA2Version::Bzip2 => spec_bzip2_row(self.data, self.bit_sizes.len(), i),
        }
    }

    /// Whether the payload holds every byte the decoder reads for row `i`:
    /// whole 64-bit words up to the row's last bit, or the row's two-byte
    /// words.
    pub open spec fn avail(self, i: int) -> bool {
        match self.ca2_version {
            CA2Version::Basic => spec_basic_len(
                (i + 1) * spec_bits_sum(self.bit_sizes) as int,
            ) <= self.data.len(),
            CA2Version::Bzip2 => (i + 1) * self.bit_sizes.len() * 2 <= self.data.len(),
        }
    }
}

/// What one step of the row iterator guarantees: within the row count and
/// with the bytes present, the denoted row comes back and the cursor
/// advances; at the end, `None`; on truncated data, `None` and the iterator
/// is exhausted for good.
pub open spec fn spec_next_ensures(
    pre: CompressedCAView,
    post: CompressedCAView,
    r: Option<Vec<u16>>,
) -> bool {
    &&& post.data == pre.data
    &&& post.bit_sizes == pre.bit_sizes
    &&& post.ca2_version == pre.ca2_version
    &&& if pre.row_current >= pre.rows_total {
        r is None && post == pre
    } else if pre.avail(pre.row_current as int) {
        &&& r matches Some(row) && row@ == pre.row(pre.row_current as int)
        &&& post.rows_total == pre.rows_total
        &&& post.row_current == pre.row_current + 1
    } else {
        r is None && post.rows_total == 0 && post.row_current == pre.row_current
    }
}

/// `a * b <= c` exactly when `a <= c / b`.
proof fn lemma_mul_le_div_iff(a: int, b: int, c: int)
    requires
        0 < b,
        0 <= a,
        0 <= c,
    ensures
        (a * b <= c) <==> (a <= c / b),
{
    if a * b <= c {
        lemma_div_is_ordered(a * b, c, b);
        lemma_div_multiples_vanish(a, b);
        assert(b * a == a * b) by (nonlinear_arith);
    }
    if a <= c / b {
        lemma_mul_inequality(a, c / b, b);
        lemma_fundamental_div_mod(c, b);
        assert((c / b) * b <= c) by {
            assert(b * (c / b) == (c / b) * b) by (nonlinear_arith);
        }
    }
}

/// `ceil(n / 64) <= w` exactly when `n <= 64 * w`.
proof fn lemma_ceil64_le_iff(n: int, w: int)
    requires
        0 <= n,
        0 <= w,
    ensures
        ((n + 63) / 64 <= w) <==> (n <= 64 * w),
{
    if n <= 64 * w {
        lemma_div_is_ordered(n + 63, 64 * w + 63, 64);
        lemma_fundamental_div_mod_converse(64 * w + 63, 64, w, 63);
    }
    if (n + 63) / 64 <= w {
        lemma_fundamental_div_mod(n + 63, 64);
        assert(64 * ((n + 63) / 64) <= 64 * w) by {
            lemma_mul_inequality((n + 63) / 64, w, 64);
            assert(((n + 63) / 64) * 64 == 64 * ((n + 63) / 64)) by (nonlinear_arith);
            assert(w * 64 == 64 * w) by (nonlinear_arith);
        }
    }
}

/// Sum of the per-column widths, as a machine integer.
fn sum_bit_sizes(bits: &Vec<u8>) -> (s: u128)
    ensures
        s == spec_bits_sum(bits@),
{
    let mut s: u128 = 0;
    let mut i: usize = 0;
    proof {
        assert(bits@.take(0) =~= Seq::<u8>::empty());
    }
    while i < bits.len()
        invariant
            i <= bits@.len(),
            s == spec_bits_sum(bits@.take(i as int)),
            s <= 255 * i,
        decreases bits@.len() - i,
    {
        proof {
            lemma_bits_sum_take_succ(bits@, i as int);
            assert(bits@.take(i as int + 1).take(i as int) =~= bits@.take(i as int));
        }
        s = s + bits[i] as u128;
        i += 1;
    }
    proof {
        assert(bits@.take(bits@.len() as int) =~= bits@);
    }
    s
}

impl CompressedCA {
    /// Creates a row iterator over `data` holding `rows_total` rows encoded
    /// with the given per-column widths and codec version.
    pub fn new(
        data: Vec<u8>,
        bit_sizes: Vec<u8>,
        rows_total: u64,
        ca2_version: CA2Version,
    ) -> (r: CompressedCA)
        requires
            forall|j: int| 0 <= j < bit_sizes@.len() ==> bit_sizes@[j] <= 16,
        ensures
            r@.wf(),
            r@.data == data@,
            r@.bit_sizes == bit_sizes@,
            r@.rows_total == rows_total,
            r@.row_current == 0,
            r@.ca2_version == ca2_version,
    {
        CompressedCA { data, rows_total, row_current: 0, bit_sizes, ca2_version }
    }

    /// Decoder for the entropy-coded format: reads the next `2 * k` bytes of
    /// the decompressed stream as `k` big-endian words.
    pub fn next_bzip2(&mut self) -> (r: Option<Vec<u16>>)
        requires
            old(self)@.wf(),
            old(self)@.ca2_version == CA2Version::Bzip2,
        ensures
            final(self)@.wf(),
            spec_next_ensures(old(self)@, final(self)@, r),
    {
        if self.row_current >= self.rows_total {
            return None;
        }
        let ghost cur = self.row_current as int;
        let k = self.bit_sizes.len();
        let len = self.data.len();
        if k == 0 {
            proof {
                assert((cur + 1) * 0 * 2 == 0) by (nonlinear_arith);
                assert(self@.avail(cur));
            }
            self.row_current = self.row_current + 1;
            let out: Vec<u16> = Vec::new();
            proof {
                assert(out@ =~= spec_bzip2_row(self.data@, 0, cur));
            }
            return Some(out);
        }
        let cur1: u128 = self.row_current as u128 + 1;
        let two_k: u128 = 2 * (k as u128);
        proof {
            lemma_mul_le_div_iff(cur + 1, 2 * k as int, len as int);
            assert((cur + 1) * (2 * k as int) == (cur + 1) * k as int * 2) by (nonlinear_arith);
        }
        if cur1 > (len as u128) / two_k {
            self.rows_total = 0;
            proof {
                assert(self@.bit_sizes == old(self)@.bit_sizes);
                assert(self@.wf());
            }
            return None;
        }
        proof {
            assert(self@.avail(cur));
            assert(cur * (2 * k as int) == cur * k as int * 2) by (nonlinear_arith);
            assert(cur * (2 * k as int) + 2 * k as int == (cur + 1) * (2 * k as int))
                by (nonlinear_arith);
            assert(cur * (2 * k as int) >= 0) by (nonlinear_arith)
                requires
                    cur >= 0,
                    k >= 1,
            ;
        }
        let base128: u128 = (cur1 - 1) * two_k;
        let base: usize = base128 as usize;
        proof {
            assert(base128 == cur * (2 * k as int));
            assert(base128 + two_k <= len);
            assert(base == cur * k as int * 2);
            assert(base + 2 * k <= self.data@.len());
        }
        let mut out: Vec<u16> = Vec::new();
        let mut j: usize = 0;
        while j < k
            invariant
                j <= k,
                k == self.bit_sizes@.len(),
                out@.len() == j,
                base == cur * k as int * 2,
                len == self.data@.len(),
                base + 2 * k <= self.data@.len(),
                cur == self.row_current as int,
                forall|j2: int|
                    0 <= j2 < j ==> out@[j2] == spec_u16_of_bytes(
                        self.data@[(cur * k as int + j2) * 2],
                        self.data@[(cur * k as int + j2) * 2 + 1],
                    ),
            decreases k - j,
        {
            proof {
                assert((cur * k as int + j) * 2 == cur * k as int * 2 + j * 2)
                    by (nonlinear_arith);
            }
            let v = u16_be_at(self.data.as_slice(), base + 2 * j);
            out.push(v);
            j += 1;
        }
        self.row_current = self.row_current + 1;
        proof {
            assert(out@ =~= spec_bzip2_row(self.data@, self.bit_sizes@.len(), cur));
        }
        Some(out)
    }

    /// Decoder for the bit-packed format: extracts each column's width of
    /// bits, MSB first, from the stream of 64-bit words.
    pub fn next_old(&mut self) -> (r: Option<Vec<u16>>)
        requires
            old(self)@.wf(),
            old(self)@.ca2_version == CA2Version::Basic,
        ensures
            final(self)@.wf(),
            spec_next_ensures(old(self)@, final(self)@, r),
    {
        if self.row_current >= self.rows_total {
            return None;
        }
        let ghost cur = self.row_current as int;
        let ghost sv = spec_bits_sum(self.bit_sizes@) as int;
        let k = self.bit_sizes.len();
        let len = self.data.len();
        let s = sum_bit_sizes(&self.bit_sizes);
        let cap: u128 = 64 * ((len as u128) / 8);
        proof {
            lemma_ceil64_le_iff((cur + 1) * sv, (len as int) / 8);
            lemma_mul_le_div_iff((spec_basic_len((cur + 1) * sv) / 8), 8, len as int);
            lemma_mul_le_div_iff((cur + 1) * sv + 63, 64, 64 * ((len as int) / 8));
        }
        let avail: bool = if s == 0 {
            true
        } else {
            proof {
                lemma_mul_le_div_iff(cur + 1, sv, cap as int);
            }
            (self.row_current as u128 + 1) <= cap / s
        };
        proof {
            // spec_basic_len((cur+1)*S) <= len  <==>  (cur+1)*S <= 64*(len/8)
            let b = (cur + 1) * sv;
            assert(b >= 0) by (nonlinear_arith)
                requires
                    cur >= 0,
                    sv >= 0,
                    b == (cur + 1) * sv,
            ;
            assert(spec_basic_len(b) <= len as int <==> (b + 63) / 64 <= (len as int) / 8) by {
                lemma_mul_le_div_iff((b + 63) / 64, 8, len as int);
            }
            assert((b + 63) / 64 <= (len as int) / 8 <==> b <= 64 * ((len as int) / 8)) by {
                lemma_ceil64_le_iff(b, (len as int) / 8);
            }
            if s == 0 {
                assert((cur + 1) * sv == 0) by (nonlinear_arith)
                    requires
                        sv == 0,
                ;
            } else {
                lemma_mul_le_div_iff(cur + 1, sv, cap as int);
            }
        }
        if !avail {
            self.rows_total = 0;
            proof {
                assert(self@.bit_sizes == old(self)@.bit_sizes);
                assert(self@.wf());
            }
            return None;
        }
        proof {
            assert(self@.avail(cur));
            assert(cur * sv >= 0 && cur * sv + sv == (cur + 1) * sv) by (nonlinear_arith)
                requires
                    cur >= 0,
                    sv >= 0,
            ;
            if s != 0 {
                assert((cur + 1) * sv <= cap as int);
            } else {
                assert((cur + 1) * sv == 0) by (nonlinear_arith)
                    requires
                        sv == 0,
                ;
            }
            lemma_bits_sum_split(self.bit_sizes@, 0);
            assert(self.bit_sizes@.take(0) =~= Seq::<u8>::empty());
        }
        let mut bitpos: u128 = self.row_current as u128 * s;
        let mut out: Vec<u16> = Vec::new();
        let mut j: usize = 0;
        while j < k
            invariant
                j <= k,
                k == self.bit_sizes@.len(),
                out@.len() == j,
                len == self.data@.len(),
                self@.wf(),
                self@.ca2_version == CA2Version::Basic,
                cur == self.row_current as int,
                cur < self.rows_total,
                sv == spec_bits_sum(self.bit_sizes@) as int,
                bitpos == cur * sv + spec_bits_sum(self.bit_sizes@.take(j as int)),
                (cur + 1) * sv <= 64 * ((self.data@.len() as int) / 8),
                forall|j2: int|
                    0 <= j2 < j ==> out@[j2] == spec_bits_value(
                        self.data@,
                        cur * sv + spec_bits_sum(self.bit_sizes@.take(j2)) as int,
                        self.bit_sizes@[j2] as int,
                    ) as u16,
            decreases k - j,
        {
            let w = self.bit_sizes[j];
            let ghost start_j = bitpos as int;
            proof {
                assert(self@.bit_sizes == self.bit_sizes@);
                assert(w <= 16);
                lemma_bits_sum_take_succ(self.bit_sizes@, j as int);
                lemma_bits_sum_split(self.bit_sizes@, j as int + 1);
                assert(cur * sv + sv == (cur + 1) * sv) by (nonlinear_arith);
                assert(start_j + w <= (cur + 1) * sv);
                assert(64 * ((self.data@.len() as int) / 8) <= 8 * self.data@.len() as int) by {
                    lemma_fundamental_div_mod(self.data@.len() as int, 8);
                }
            }
            let mut v: u16 = 0;
            let mut b: u8 = 0;
            while b < w
                invariant
                    b <= w,
                    w <= 16,
                    bitpos == start_j + b,
                    len == self.data@.len(),
                    start_j + w <= 8 * self.data@.len() as int,
                    0 <= start_j,
                    v as int == spec_bits_value(self.data@, start_j, b as int),
                decreases w - b,
            {
                proof {
                    assert(bitpos as int / 8 < self.data@.len() as int) by {
                        lemma_div_is_ordered(bitpos as int, 8 * self.data@.len() - 1, 8);
                        lemma_fundamental_div_mod_converse(
                            8 * self.data@.len() - 1,
                            8,
                            self.data@.len() as int - 1,
                            7,
                        );
                    }
                }
                let byte = self.data[(bitpos / 8) as usize];
                let rem = (bitpos % 8) as u8;
                proof {
                    lemma_pow2_pos((7 - rem) as nat);
                }
                let bit = ((byte as u32 / pow2_u32(7 - rem)) % 2) as u16;
                proof {
                    assert(byte == self.data@[bitpos as int / 8]);
                    assert(rem as int == bitpos as int % 8);
                    assert(bit == spec_bit_at(self.data@, bitpos as int));
                    crate::bits::lemma_bits_value_bound(self.data@, start_j, b as int + 1);
                    lemma2_to64();
                    if (b as nat) + 1 < 16 {
                        lemma_pow2_strictly_increases((b + 1) as nat, 16);
                    }
                }
                v = v * 2 + bit;
                bitpos = bitpos + 1;
                b += 1;
            }
            out.push(v);
            j += 1;
        }
        self.row_current = self.row_current + 1;
        proof {
            assert(out@ =~= spec_basic_row(self.data@, self.bit_sizes@, cur));
        }
        Some(out)
    }

    /// Returns the next decoded row, or `None` at the end of the iteration
    /// or on truncated data.
    pub fn next(&mut self) -> (r: Option<Vec<u16>>)
        requires
            old(self)@.wf(),
        ensures
            final(self)@.wf(),
            spec_next_ensures(old(self)@, final(self)@, r),
    {
        match self.ca2_version {
            CA2Version::Basic => self.next_old(),
            CA2Version::Bzip2 => self.next_bzip2(),
        }
    }
}

/// Round trip of the bit-packed codec: every row decoded from an encoded
/// payload equals the row that went in, provided each value fits its
/// column's width.
pub proof fn lemma_basic_roundtrip(rows: Seq<Seq<u16>>, bits: Seq<u8>, data: Seq<u8>)
    requires
        forall|m: int| 0 <= m < rows.len() ==> #[trigger] rows[m].len() == bits.len(),
        forall|j: int| 0 <= j < bits.len() ==> bits[j] <= 16,
        forall|m: int, j: int|
            0 <= m < rows.len() && 0 <= j < bits.len() ==> #[trigger] rows[m][j] < pow2(
                bits[j] as nat,
            ),
        forall|b: int|
            0 <= b < rows.len() * spec_bits_sum(bits) ==> spec_bit_at(data, b)
                == spec_stream_bits(rows, bits)[b],
    ensures
        forall|i: int| 0 <= i < rows.len() ==> spec_basic_row(data, bits, i) == rows[i],
{
    let s = spec_bits_sum(bits) as int;
    lemma_stream_bits_len(rows, bits);
    assert forall|i: int| 0 <= i < rows.len() implies spec_basic_row(data, bits, i)
        == rows[i] by {
        assert forall|j: int| 0 <= j < bits.len() implies spec_basic_row(data, bits, i)[j]
            == rows[i][j] by {
            let pos = i * s + spec_bits_sum(bits.take(j)) as int;
            let w = bits[j] as nat;
            assert forall|q: int| 0 <= q < w implies spec_bit_at(data, pos + q)
                == spec_value_bits(rows[i][j], w)[q] by {
                lemma_stream_bits_index(rows, bits, i, j, q);
            }
            crate::bits::lemma_bits_value_decode(data, pos, w, rows[i][j]);
            vstd::arithmetic::div_mod::lemma_small_mod(rows[i][j] as nat, pow2(w));
        }
        assert(spec_basic_row(data, bits, i) =~= rows[i]);
    }
}

/// A whole encoded bit-packed payload holds the bytes of each of its rows.
pub proof fn lemma_basic_len_avail(nrows: int, bits: Seq<u8>, data_len: int, i: int)
    requires
        0 <= i < nrows,
        data_len == spec_basic_len(nrows * spec_bits_sum(bits) as int),
    ensures
        spec_basic_len((i + 1) * spec_bits_sum(bits) as int) <= data_len,
{
    let s = spec_bits_sum(bits) as int;
    lemma_mul_inequality(i + 1, nrows, s);
    lemma_div_is_ordered((i + 1) * s + 63, nrows * s + 63, 64);
    lemma_mul_inequality(((i + 1) * s + 63) / 64, (nrows * s + 63) / 64, 8);
}

/// The fixed-width two-byte stream of all rows, as one byte sequence.
pub open spec fn spec_u16_stream(rows: Seq<Seq<u16>>, k: nat) -> Seq<u8> {
    Seq::new(
        rows.len() * k * 2,
        |b: int|
            {
                let v = rows[b / 2 / k as int][(b / 2) % k as int];
                if b % 2 == 0 {
                    (v / 0x100) as u8
                } else {
                    (v % 0x100) as u8
                }
            },
    )
}

/// Bytes with the two-byte words of all rows at their positions are exactly
/// the fixed-width stream.
pub proof fn lemma_u16_stream_bytes(rows: Seq<Seq<u16>>, k: nat, data: Seq<u8>)
    requires
        data.len() == rows.len() * k * 2,
        forall|i: int, j: int|
            0 <= i < rows.len() && 0 <= j < k ==> spec_u16_of_bytes(
                #[trigger] data[(i * k + j) * 2],
                data[(i * k + j) * 2 + 1],
            ) == rows[i][j],
    ensures
        data == spec_u16_stream(rows, k),
{
    let stream = spec_u16_stream(rows, k);
    assert forall|b: int| 0 <= b < data.len() implies data[b] == stream[b] by {
        assert(k > 0 && rows.len() > 0) by (nonlinear_arith)
            requires
                rows.len() * k * 2 > b,
                b >= 0,
        ;
        let p2 = b / 2;
        let i = p2 / k as int;
        let j = p2 % k as int;
        assert(0 <= j < k) by {
            vstd::arithmetic::div_mod::lemma_mod_bound(p2, k as int);
        }
        assert(p2 < rows.len() * k) by {
            assert(b <= rows.len() * k * 2 - 1);
            lemma_div_is_ordered(b, rows.len() * k * 2 - 1, 2);
            assert((rows.len() * k * 2 - 1) / 2 == rows.len() * k - 1) by {
                lemma_fundamental_div_mod_converse(
                    rows.len() * k * 2 - 1,
                    2,
                    rows.len() * k - 1,
                    1,
                );
            }
        }
        assert(i < rows.len()) by {
            assert(p2 < k as int * rows.len() as int) by (nonlinear_arith)
                requires
                    p2 < rows.len() * k,
            ;
            vstd::arithmetic::div_mod::lemma_multiply_divide_lt(p2, k as int, rows.len() as int);
        }
        assert(0 <= i) by {
            vstd::arithmetic::div_mod::lemma_div_pos_is_pos(p2, k as int);
        }
        let v = rows[i][j];
        assert(p2 == i * k + j) by {
            lemma_fundamental_div_mod(p2, k as int);
            assert(k as int * (p2 / k as int) == (p2 / k as int) * k) by (nonlinear_arith);
        }
        assert(spec_u16_of_bytes(data[(i * k + j) * 2], data[(i * k + j) * 2 + 1]) == v);
        assert(b == 2 * p2 + b % 2) by {
            lemma_fundamental_div_mod(b, 2);
        }
        assert((i * k + j) * 2 == 2 * p2) by (nonlinear_arith)
            requires
                p2 == i * k + j,
        ;
        let b0 = data[2 * p2];
        let b1 = data[2 * p2 + 1];
        assert(b0 as int == v as int / 0x100 && b1 as int == v as int % 0x100) by {
            lemma_fundamental_div_mod_converse(v as int, 0x100, b0 as int, b1 as int);
        }
    }
    assert(data =~= stream);
}

/// Reading the fixed-width stream back row by row yields the rows that were
/// written.
pub proof fn lemma_u16_stream_rows(rows: Seq<Seq<u16>>, k: nat)
    requires
        forall|m: int| 0 <= m < rows.len() ==> #[trigger] rows[m].len() == k,
    ensures
        forall|i: int|
            0 <= i < rows.len() ==> spec_bzip2_row(spec_u16_stream(rows, k), k, i) == rows[i],
{
    let stream = spec_u16_stream(rows, k);
    assert forall|i: int| 0 <= i < rows.len() implies spec_bzip2_row(stream, k, i)
        == rows[i] by {
        assert forall|j: int| 0 <= j < k implies spec_bzip2_row(stream, k, i)[j]
            == rows[i][j] by {
            let w = i * k + j;
            let v = rows[i][j];
            assert(0 <= w && w + 1 <= rows.len() * k) by (nonlinear_arith)
                requires
                    0 <= i < rows.len(),
                    0 <= j < k,
                    w == i * k + j,
            ;
            assert(w * 2 + 1 < rows.len() * k * 2) by (nonlinear_arith)
                requires
                    w + 1 <= rows.len() * k,
            ;
            assert((w * 2) / 2 == w && (w * 2) % 2 == 0) by {
                lemma_fundamental_div_mod_converse(w * 2, 2, w, 0);
            }
            assert((w * 2 + 1) / 2 == w && (w * 2 + 1) % 2 == 1) by {
                lemma_fundamental_div_mod_converse(w * 2 + 1, 2, w, 1);
            }
            assert(w / k as int == i && w % k as int == j) by {
                lemma_fundamental_div_mod_converse(w, k as int, i, j);
                assert(w == i * k + j);
            }
            assert(stream[w * 2] == (v / 0x100) as u8);
            assert(stream[w * 2 + 1] == (v % 0x100) as u8);
            assert(spec_u16_of_bytes((v / 0x100) as u8, (v % 0x100) as u8) == v) by {
                lemma_fundamental_div_mod(v as int, 0x100);
            }
        }
        assert(spec_bzip2_row(stream, k, i) =~= rows[i]);
    }
}

/// Round trip of the whole bit-packed pipeline: rows whose values stay
/// below their column's declared count decode back unchanged from a
/// payload encoded with the widths of those counts.
pub proof fn lemma_pipeline_roundtrip_basic(rows: Seq<Seq<u16>>, vs: Seq<u16>, data: Seq<u8>)
    requires
        forall|m: int| 0 <= m < rows.len() ==> #[trigger] rows[m].len() == vs.len(),
        forall|m: int, j: int|
            0 <= m < rows.len() && 0 <= j < vs.len() ==> #[trigger] rows[m][j] < vs[j],
        forall|b: int|
            0 <= b < rows.len() * spec_bits_sum(crate::compress::spec_bit_sizes(vs))
                ==> spec_bit_at(data, b) == spec_stream_bits(
                rows,
                crate::compress::spec_bit_sizes(vs),
            )[b],
    ensures
        forall|i: int|
            0 <= i < rows.len() ==> spec_basic_row(
                data,
                crate::compress::spec_bit_sizes(vs),
                i,
            ) == rows[i],
{
    let bits = crate::compress::spec_bit_sizes(vs);
    assert forall|j: int| 0 <= j < bits.len() implies bits[j] <= 16 by {
        lemma2_to64();
        if vs[j] as int >= 1 {
            crate::bits::lemma_clog2_le(vs[j] as int, 16);
        }
    }
    assert forall|m: int, j: int|
        0 <= m < rows.len() && 0 <= j < bits.len() implies #[trigger] rows[m][j] < pow2(
        bits[j] as nat,
    ) by {
        lemma2_to64();
        assert(rows[m][j] < vs[j]);
        crate::bits::lemma_clog2_bounds(vs[j] as int);
        if vs[j] as int >= 1 {
            crate::bits::lemma_clog2_le(vs[j] as int, 16);
        }
        if crate::bits::spec_clog2(vs[j] as int) == 0 {
            assert(vs[j] <= 1);
            assert(pow2(1) == 2);
        } else {
            assert(vs[j] <= pow2(crate::bits::spec_clog2(vs[j] as int)));
        }
    }
    lemma_basic_roundtrip(rows, bits, data);
}

} // verus!

//! The compressor pipeline: sorts the declared value counts, maps stored
//! columns to input columns, interns the records and encodes the payload.

use vstd::prelude::*;
use crate::bits::{generate_bit_sizes, spec_bit_width, spec_bits_sum, spec_bit_at};
use crate::bzip::{bzip2_compress, spec_bzip2_compressed};
use crate::caspec::{CA2Version, CASpec};
use crate::codec::{
    encode_basic, encode_u16_stream, spec_basic_len, spec_stream_bits, spec_u16_stream,
    lemma_u16_stream_bytes,
};
use crate::intern::{
    generate_column_map, intern_rows, sort_desc, spec_alphabet, spec_column, spec_column_map,
    spec_index_in, spec_sorted_desc,
};

verus! {

/// Why a compression run was refused.
#[derive(Debug, Clone, Copy, PartialEq, Eq, Structural)]
pub enum CompressError {
    /// The sorted counts cannot be matched one-to-one to the declared ones.
    ConflictingColumns,
    /// Some column needs more than 65536 distinct values.
    AlphabetOverflow,
    /// The bit-packed codec cannot hold a column wider than eight bits.
    WidthUnsupported,
}

/// The per-column bit widths of a count vector.
pub open spec fn spec_bit_sizes(vs: Seq<u16>) -> Seq<u8> {
    Seq::new(vs.len(), |j: int| spec_bit_width(vs[j]) as u8)
}

/// Everything the compressor produces for one covering array.
pub struct CompressorOutput {
    /// Descriptor of the stored array: codec version, row count, strength
    /// and the value counts sorted descending.
    pub ca_spec: CASpec,
    /// The encoded payload bytes.
    pub payload: Vec<u8>,
    /// The interned rows, in stored-column order.
    pub rows: Vec<Vec<u16>>,
    /// Per input column, the value alphabet in first-occurrence order.
    pub alphabets: Vec<Vec<String>>,
    /// The map from stored columns to input columns.
    pub column_map: Vec<usize>,
}

/// Compresses a covering array: the declared per-column counts `vs_in` are
/// sorted descending, each stored column reads the leftmost unused input
/// column with the same count, values are interned per column in order of
/// first occurrence, and the rows are encoded with the chosen codec.
pub fn compress_ca(
    records: &Vec<Vec<String>>,
    t: u8,
    vs_in: &Vec<u16>,
    version: CA2Version,
) -> (r: Result<CompressorOutput, CompressError>)
    requires
        forall|r2: int| 0 <= r2 < records@.len() ==> #[trigger] records@[r2]@.len()
            >= vs_in@.len(),
        records@.len() <= u64::MAX,
    ensures
        match r {
            Ok(out) => {
                let k = vs_in@.len() as int;
                let recsv = records.deep_view();
                let vs = out.ca_spec@.vs;
                &&& out.ca_spec@.version == version
                &&& out.ca_spec@.t == t
                &&& out.ca_spec@.n == records@.len()
                &&& vs.len() == k
                &&& spec_sorted_desc(vs)
                &&& vs.to_multiset() == vs_in@.to_multiset()
                &&& spec_column_map(vs_in@, vs) == Some(out.column_map@)
                &&& out.rows@.len() == recsv.len()
                &&& forall|r2: int|
                    0 <= r2 < out.rows@.len() ==> #[trigger] out.rows@[r2]@.len() == k
                &&& out.alphabets@.len() == k
                &&& forall|i: int|
                    0 <= i < k ==> #[trigger] out.alphabets.deep_view()[out.column_map@[i] as int]
                        == spec_alphabet(spec_column(recsv, out.column_map@[i] as int))
                &&& forall|r2: int, i: int|
                    0 <= r2 < recsv.len() && 0 <= i < k ==> #[trigger] out.rows@[r2]@[i]
                        == spec_index_in(
                        spec_alphabet(spec_column(recsv, out.column_map@[i] as int)),
                        recsv[r2][out.column_map@[i] as int],
                    ) as u16
                &&& (version == CA2Version::Basic ==> {
                    let bits = spec_bit_sizes(vs);
                    &&& out.payload@.len() == spec_basic_len(
                        out.rows@.len() * spec_bits_sum(bits) as int,
                    )
                    &&& forall|b: int|
                        0 <= b < out.rows@.len() * spec_bits_sum(bits) ==> spec_bit_at(
                            out.payload@,
                            b,
                        ) == spec_stream_bits(out.rows.deep_view(), bits)[b]
                })
                &&& (version == CA2Version::Bzip2 ==> out.payload@ == spec_bzip2_compressed(
                    spec_u16_stream(out.rows.deep_view(), vs_in@.len()),
                ))
            },
            Err(e) => {
                let recsv = records.deep_view();
                match e {
                    CompressError::ConflictingColumns => exists|sorted: Seq<u16>|
                        spec_sorted_desc(sorted) && sorted.to_multiset()
                            == vs_in@.to_multiset() && #[trigger] spec_column_map(
                            vs_in@,
                            sorted,
                        ) is None,
                    CompressError::AlphabetOverflow => exists|m: Seq<usize>, i: int|
                        #![all_triggers]
                        {
                            &&& exists|sorted: Seq<u16>|
                                spec_sorted_desc(sorted) && sorted.to_multiset()
                                    == vs_in@.to_multiset() && #[trigger] spec_column_map(
                                    vs_in@,
                                    sorted,
                                ) == Some(m)
                            &&& 0 <= i < m.len()
                            &&& spec_alphabet(spec_column(recsv, m[i] as int)).len() > 0x10000
                        },
                    CompressError::WidthUnsupported => version == CA2Version::Basic
                        && exists|j: int|
                        0 <= j < vs_in@.len() && spec_bit_width(#[trigger] vs_in@[j]) > 8,
                }
            },
        },
{
    let vs_out = sort_desc(vs_in);
    let column_map = match generate_column_map(vs_in, &vs_out) {
        Some(m) => m,
        None => {
            return Err(CompressError::ConflictingColumns);
        },
    };
    let bit_sizes = generate_bit_sizes(&vs_out);
    let basic = match version {
        CA2Version::Basic => true,
        CA2Version::Bzip2 => false,
    };
    if basic {
        let mut j: usize = 0;
        while j < bit_sizes.len()
            invariant
                j <= bit_sizes@.len(),
                bit_sizes@.len() == vs_out@.len(),
                forall|j2: int|
                    0 <= j2 < bit_sizes@.len() ==> bit_sizes@[j2] == spec_bit_width(
                        vs_out@[j2],
                    ),
                vs_out@.to_multiset() == vs_in@.to_multiset(),
                version == CA2Version::Basic,
                forall|j2: int| 0 <= j2 < j ==> bit_sizes@[j2] <= 8,
            decreases bit_sizes@.len() - j,
        {
            if bit_sizes[j] > 8 {
                proof {
                    broadcast use vstd::seq_lib::group_to_multiset_ensures;

                    assert(vs_out@.contains(vs_out@[j as int]));
                    assert(vs_out@.to_multiset().count(vs_out@[j as int]) > 0);
                    assert(vs_in@.to_multiset().count(vs_out@[j as int]) > 0);
                    assert(vs_in@.contains(vs_out@[j as int]));
                    let w = choose|w: int|
                        0 <= w < vs_in@.len() && vs_in@[w] == vs_out@[j as int];
                    assert(spec_bit_width(vs_in@[w]) > 8);
                }
                return Err(CompressError::WidthUnsupported);
            }
            j += 1;
        }
    }
    proof {
        lemma_column_map_props(vs_in@, vs_out@, Seq::empty(), 0, column_map@);
    }
    let interned = match intern_rows(records, &column_map) {
        Some(p) => p,
        None => {
            return Err(CompressError::AlphabetOverflow);
        },
    };
    let rows = interned.0;
    let alphabets = interned.1;
    let payload: Vec<u8> = if basic {
        encode_basic(&rows, &bit_sizes)
    } else {
        let stream = encode_u16_stream(&rows, column_map.len());
        proof {
            lemma_u16_stream_bytes(rows.deep_view(), column_map@.len(), stream@);
            assert(forall|r2: int|
                0 <= r2 < rows@.len() ==> rows.deep_view()[r2] == #[trigger] rows@[r2]@);
        }
        bzip2_compress(&stream)
    };
    let ca_spec = CASpec { version, n: records.len() as u64, t, vs: vs_out };
    proof {
        assert(spec_bit_sizes(ca_spec@.vs) =~= bit_sizes@);
        assert(forall|r2: int|
            0 <= r2 < rows@.len() ==> rows.deep_view()[r2] == #[trigger] rows@[r2]@);
    }
    Ok(CompressorOutput { ca_spec, payload, rows, alphabets, column_map })
}

/// The greedy column map covers every stored column and every placed index
/// points into the inputs.
proof fn lemma_column_map_props(
    vs_in: Seq<u16>,
    vs_out: Seq<u16>,
    acc: Seq<usize>,
    i0: int,
    m: Seq<usize>,
)
    requires
        crate::intern::spec_column_map_rec(vs_in, vs_out, acc, i0) == Some(m),
        acc.len() == i0,
        0 <= i0 <= vs_out.len(),
        forall|i2: int| 0 <= i2 < acc.len() ==> #[trigger] acc[i2] < vs_in.len(),
    ensures
        m.len() == vs_out.len(),
        forall|i: int| 0 <= i < m.len() ==> #[trigger] m[i] < vs_in.len(),
    decreases vs_out.len() - i0,
{
    if i0 == vs_out.len() {
        assert(m == acc);
    } else {
        match crate::intern::spec_find_slot(vs_in, acc, vs_out[i0], 0) {
            None => {},
            Some(p) => {
                lemma_find_slot_bounds(vs_in, acc, vs_out[i0], 0);
                lemma_column_map_props(vs_in, vs_out, acc.push(p), i0 + 1, m);
            },
        }
    }
}

/// Round trip of the whole bit-packed pipeline at the string level: when
/// every column draws from an alphabet no larger than its declared count,
/// each value decoded from the encoded payload and projected through the
/// column's own interned alphabet is the very string that was read.
pub proof fn lemma_compress_extract_strings_basic(
    recsv: Seq<Seq<Seq<char>>>,
    cm: Seq<usize>,
    rows: Seq<Seq<u16>>,
    vs: Seq<u16>,
    data: Seq<u8>,
)
    requires
        cm.len() == vs.len(),
        rows.len() == recsv.len(),
        forall|m: int| 0 <= m < rows.len() ==> #[trigger] rows[m].len() == vs.len(),
        forall|m: int, i: int|
            0 <= m < recsv.len() && 0 <= i < vs.len() ==> #[trigger] rows[m][i]
                == crate::intern::spec_index_in(
                spec_alphabet(spec_column(recsv, cm[i] as int)),
                recsv[m][cm[i] as int],
            ) as u16,
        forall|m: int, i: int|
            0 <= m < recsv.len() && 0 <= i < vs.len() ==> spec_alphabet(
                spec_column(recsv, #[trigger] cm[i] as int),
            ).contains(#[trigger] recsv[m][cm[i] as int]),
        forall|i: int|
            0 <= i < vs.len() ==> spec_alphabet(
                spec_column(recsv, #[trigger] cm[i] as int),
            ).len() <= vs[i],
        forall|b: int|
            0 <= b < rows.len() * spec_bits_sum(spec_bit_sizes(vs)) ==> crate::bits::spec_bit_at(
                data,
                b,
            ) == crate::codec::spec_stream_bits(rows, spec_bit_sizes(vs))[b],
    ensures
        forall|m: int, i: int|
            0 <= m < recsv.len() && 0 <= i < vs.len() ==> spec_alphabet(
                spec_column(recsv, #[trigger] cm[i] as int),
            )[(crate::codec::spec_basic_row(data, spec_bit_sizes(vs), m)[i] as int) % (
            vs[i] as int)] == #[trigger] recsv[m][cm[i] as int],
{
    assert forall|m: int, i: int| 0 <= m < recsv.len() && 0 <= i < vs.len() implies #[trigger] rows[
        m
    ][i] < vs[i] by {
        let alpha = spec_alphabet(spec_column(recsv, cm[i] as int));
        crate::intern::lemma_index_in_bounds(alpha, recsv[m][cm[i] as int]);
    }
    crate::codec::lemma_pipeline_roundtrip_basic(rows, vs, data);
    assert forall|m: int, i: int| 0 <= m < recsv.len() && 0 <= i < vs.len() implies spec_alphabet(
        spec_column(recsv, #[trigger] cm[i] as int),
    )[(crate::codec::spec_basic_row(data, spec_bit_sizes(vs), m)[i] as int) % (vs[i] as int)]
        == #[trigger] recsv[m][cm[i] as int] by {
        let alpha = spec_alphabet(spec_column(recsv, cm[i] as int));
        let v = recsv[m][cm[i] as int];
        crate::intern::lemma_intern_project_roundtrip(alpha, v, vs[i]);
        assert(crate::codec::spec_basic_row(data, spec_bit_sizes(vs), m) == rows[m]);
    }
}

/// Round trip of the whole entropy-coded pipeline at the string level: each
/// value read back from the fixed-width stream and projected through the
/// column's own interned alphabet is the very string that was read. The
/// outer compressor inverts itself by its own contract.
pub proof fn lemma_compress_extract_strings_bzip2(
    recsv: Seq<Seq<Seq<char>>>,
    cm: Seq<usize>,
    rows: Seq<Seq<u16>>,
    vs: Seq<u16>,
)
    requires
        cm.len() == vs.len(),
        rows.len() == recsv.len(),
        forall|m: int| 0 <= m < rows.len() ==> #[trigger] rows[m].len() == vs.len(),
        forall|m: int, i: int|
            0 <= m < recsv.len() && 0 <= i < vs.len() ==> #[trigger] rows[m][i]
                == crate::intern::spec_index_in(
                spec_alphabet(spec_column(recsv, cm[i] as int)),
                recsv[m][cm[i] as int],
            ) as u16,
        forall|m: int, i: int|
            0 <= m < recsv.len() && 0 <= i < vs.len() ==> spec_alphabet(
                spec_column(recsv, #[trigger] cm[i] as int),
            ).contains(#[trigger] recsv[m][cm[i] as int]),
        forall|i: int|
            0 <= i < vs.len() ==> spec_alphabet(
                spec_column(recsv, #[trigger] cm[i] as int),
            ).len() <= vs[i],
    ensures
        forall|m: int, i: int|
            0 <= m < recsv.len() && 0 <= i < vs.len() ==> spec_alphabet(
                spec_column(recsv, #[trigger] cm[i] as int),
            )[(crate::codec::spec_bzip2_row(
                spec_u16_stream(rows, vs.len()),
                vs.len(),
                m,
            )[i] as int) % (vs[i] as int)] == #[trigger] recsv[m][cm[i] as int],
{
    crate::codec::lemma_u16_stream_rows(rows, vs.len());
    assert forall|m: int, i: int| 0 <= m < recsv.len() && 0 <= i < vs.len() implies spec_alphabet(
        spec_column(recsv, #[trigger] cm[i] as int),
    )[(crate::codec::spec_bzip2_row(spec_u16_stream(rows, vs.len()), vs.len(), m)[i] as int) % (
    vs[i] as int)] == #[trigger] recsv[m][cm[i] as int] by {
        let alpha = spec_alphabet(spec_column(recsv, cm[i] as int));
        let v = recsv[m][cm[i] as int];
        crate::intern::lemma_intern_project_roundtrip(alpha, v, vs[i]);
        assert(crate::codec::spec_bzip2_row(spec_u16_stream(rows, vs.len()), vs.len(), m)
            == rows[m]);
    }
}

/// A found slot lies inside the inputs.
proof fn lemma_find_slot_bounds(vs_in: Seq<u16>, used: Seq<usize>, v: u16, from: int)
    requires
        crate::intern::spec_find_slot(vs_in, used, v, from) is Some,
    ensures
        crate::intern::spec_find_slot(vs_in, used, v, from)->Some_0 < vs_in.len(),
    decreases vs_in.len() - from,
{
    if !(from < 0 || from >= vs_in.len()) {
        if !(vs_in[from] == v && !used.contains(from as usize)) {
            lemma_find_slot_bounds(vs_in, used, v, from + 1);
        }
    }
}

} // verus!

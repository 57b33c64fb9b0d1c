//! Covering-array descriptors: the codec version tag, the `CASpec` metadata
//! record with its big-endian serialisation, and the compatibility predicate
//! used to select a stored array for a request.

use vstd::prelude::*;
use crate::wire::{
    lemma_u16_be_roundtrip, lemma_u64_be_roundtrip, spec_u16_be, spec_u16_of_bytes, spec_u64_be,
    spec_u64_of_bytes_at, u16_be_at, u16_to_be, u64_be_at, u64_to_be,
};

verus! {

/// Prefix byte of the archive index magic.
pub const MAGIC_BYTES_CA2_PRE: u8 = 0x5f;

/// Terminator for the serialised list of per-column value counts.
pub const VS_TERMINATOR: u16 = 0;

/// Known payload codec versions.
#[derive(Debug, Clone, Copy, PartialEq, Eq, Structural)]
pub enum CA2Version {
    Basic,
    Bzip2,
}

/// The version given to newly compressed arrays.
pub const CA2_DEFAULT_VERSION: CA2Version = CA2Version::Bzip2;

/// The on-wire code of a codec version.
pub open spec fn spec_version_code(v: CA2Version) -> u16 {
    match v {
        CA2Version::Basic => 1,
        CA2Version::Bzip2 => 2,
    }
}

/// The codec version denoted by an on-wire code, if any.
pub open spec fn spec_version_of_code(c: u16) -> Option<CA2Version> {
    if c == 1 {
        Some(CA2Version::Basic)
    } else if c == 2 {
        Some(CA2Version::Bzip2)
    } else {
        None
    }
}

impl CA2Version {
    /// The on-wire code of this version.
    pub fn to_u16(self) -> (c: u16)
        ensures
            c == spec_version_code(self),
    {
        match self {
            CA2Version::Basic => 1,
            CA2Version::Bzip2 => 2,
        }
    }

    /// The version denoted by an on-wire code; `None` for an unknown code.
    pub fn try_from_u16(c: u16) -> (r: Option<CA2Version>)
        ensures
            r == spec_version_of_code(c),
    {
        if c == 1 {
            Some(CA2Version::Basic)
        } else if c == 2 {
            Some(CA2Version::Bzip2)
        } else {
            None
        }
    }
}

impl core::default::Default for CA2Version {
    fn default() -> (r: Self)
        ensures
            r == CA2_DEFAULT_VERSION,
    {
        CA2_DEFAULT_VERSION
    }
}

/// Metadata required to decode one stored covering array.
#[derive(Debug, Clone)]
pub struct CASpec {
    /// Payload codec version.
    pub version: CA2Version,
    /// Number of rows.
    pub n: u64,
    /// Strength.
    pub t: u8,
    /// Per-column value counts, sorted descending.
    pub vs: Vec<u16>,
}

/// Mathematical model of a `CASpec`.
#[verifier::ext_equal]
pub struct CASpecView {
    pub version: CA2Version,
    pub n: u64,
    pub t: u8,
    pub vs: Seq<u16>,
}

impl View for CASpec {
    type V = CASpecView;

    open spec fn view(&self) -> CASpecView {
        CASpecView { version: self.version, n: self.n, t: self.t, vs: self.vs@ }
    }
}

impl CASpecView {
    /// No value count equals the reserved terminator; needed for the
    /// serialisation to be invertible.
    pub open spec fn wf(self) -> bool {
        forall|i: int| 0 <= i < self.vs.len() ==> self.vs[i] != 0
    }
}

/// A stored spec is usable for a request when its strength, column count and
/// positionally compared (descending) value counts dominate the request's.
pub open spec fn spec_compatible(req: CASpecView, stored: CASpecView) -> bool {
    &&& stored.t >= req.t
    &&& stored.vs.len() >= req.vs.len()
    &&& forall|i: int| 0 <= i < req.vs.len() ==> stored.vs[i] >= req.vs[i]
}

/// The serialised bytes of a list of value counts (terminator excluded).
pub open spec fn spec_vs_bytes(vs: Seq<u16>) -> Seq<u8>
    decreases vs.len(),
{
    if vs.len() == 0 {
        Seq::empty()
    } else {
        spec_u16_be(vs[0]) + spec_vs_bytes(vs.drop_first())
    }
}

/// The serialised bytes of a whole descriptor.
pub open spec fn spec_serialize(s: CASpecView) -> Seq<u8> {
    spec_u16_be(spec_version_code(s.version)) + spec_u64_be(s.n) + seq![s.t] + spec_vs_bytes(s.vs)
        + spec_u16_be(VS_TERMINATOR)
}

/// Parses value counts from `buf` starting at `i` up to and including the
/// terminator; `None` on a missing terminator or a truncated count.
pub open spec fn spec_parse_vs(buf: Seq<u8>, i: int) -> Option<(Seq<u16>, int)>
    decreases buf.len() - i,
{
    if i < 0 || i + 2 > buf.len() {
        None
    } else {
        let v = spec_u16_of_bytes(buf[i], buf[i + 1]);
        if v == VS_TERMINATOR {
            Some((Seq::empty(), i + 2))
        } else {
            match spec_parse_vs(buf, i + 2) {
                None => None,
                Some((vs, end)) => Some((seq![v] + vs, end)),
            }
        }
    }
}

/// Parses one descriptor from the start of `buf`: `None` for a buffer too
/// short for the fixed prefix, an unknown version code, or a malformed value
/// count list; otherwise the descriptor and the number of bytes consumed.
pub open spec fn spec_unserialize(buf: Seq<u8>) -> Option<(CASpecView, int)> {
    if buf.len() < 11 {
        None
    } else {
        match spec_version_of_code(spec_u16_of_bytes(buf[0], buf[1])) {
            None => None,
            Some(version) => match spec_parse_vs(buf, 11) {
                None => None,
                Some((vs, end)) => Some(
                    (
                        CASpecView {
                            version,
                            n: spec_u64_of_bytes_at(buf, 2) as u64,
                            t: buf[10],
                            vs,
                        },
                        end,
                    ),
                ),
            },
        }
    }
}

/// Prefixing the parsed tail with already-read counts.
spec fn compose_vs(prefix: Seq<u16>, rest: Option<(Seq<u16>, int)>) -> Option<(Seq<u16>, int)> {
    match rest {
        None => None,
        Some((tail, end)) => Some((prefix + tail, end)),
    }
}

/// Reading one nonzero count commutes with moving it into the prefix.
proof fn lemma_parse_vs_step(buf: Seq<u8>, i: int, v: u16, prefix: Seq<u16>)
    requires
        0 <= i,
        i + 2 <= buf.len(),
        v == spec_u16_of_bytes(buf[i], buf[i + 1]),
        v != VS_TERMINATOR,
    ensures
        compose_vs(prefix, spec_parse_vs(buf, i)) == compose_vs(
            prefix.push(v),
            spec_parse_vs(buf, i + 2),
        ),
{
    match spec_parse_vs(buf, i + 2) {
        None => {
            assert(spec_parse_vs(buf, i) is None);
        },
        Some((tail, end)) => {
            assert(spec_parse_vs(buf, i) == Some((seq![v] + tail, end)));
            assert(prefix + (seq![v] + tail) =~= prefix.push(v) + tail);
        },
    }
}

impl CASpec {
    /// Serialises the descriptor: version code, row count, strength, value
    /// counts and the terminator, all big-endian.
    pub fn serialize(&self) -> (out: Vec<u8>)
        ensures
            out@ == spec_serialize(self@),
    {
        let mut out: Vec<u8> = Vec::new();
        u16_to_be(self.version.to_u16(), &mut out);
        u64_to_be(self.n, &mut out);
        out.push(self.t);
        let ghost header = out@;
        proof {
            assert(self.vs@.take(0) =~= Seq::<u16>::empty());
            assert(header + spec_vs_bytes(self.vs@.take(0)) =~= header);
        }
        let mut j: usize = 0;
        while j < self.vs.len()
            invariant
                j <= self.vs@.len(),
                out@ == header + spec_vs_bytes(self.vs@.take(j as int)),
            decreases self.vs@.len() - j,
        {
            let ghost prefix = self.vs@.take(j as int);
            u16_to_be(self.vs[j], &mut out);
            proof {
                lemma_vs_bytes_snoc(prefix, self.vs@[j as int]);
                assert(prefix.push(self.vs@[j as int]) =~= self.vs@.take(j as int + 1));
                assert(out@ =~= header + spec_vs_bytes(self.vs@.take(j as int + 1)));
            }
            j += 1;
        }
        u16_to_be(VS_TERMINATOR, &mut out);
        proof {
            assert(self.vs@.take(self.vs@.len() as int) =~= self.vs@);
            assert(out@ =~= spec_serialize(self@));
        }
        out
    }

    /// Parses one descriptor from the start of `buf`, returning it together
    /// with the number of bytes consumed, or `None` as `spec_unserialize`
    /// describes.
    pub fn unserialize(buf: &[u8]) -> (r: Option<(CASpec, usize)>)
        ensures
            match spec_unserialize(buf@) {
                Some(p) => r matches Some(q) && q.0@ == p.0 && q.1 == p.1,
                None => r is None,
            },
    {
        if buf.len() < 11 {
            return None;
        }
        let code = u16_be_at(buf, 0);
        let version = match CA2Version::try_from_u16(code) {
            Some(v) => v,
            None => {
                return None;
            },
        };
        let n = u64_be_at(buf, 2);
        let t = buf[10];
        let mut vs: Vec<u16> = Vec::new();
        let mut i: usize = 11;
        proof {
            assert(vs@ + Seq::<u16>::empty() =~= vs@);
        }
        loop
            invariant_except_break
                spec_parse_vs(buf@, 11) == compose_vs(vs@, spec_parse_vs(buf@, i as int)),
            invariant
                11 <= i <= buf@.len(),
            ensures
                spec_parse_vs(buf@, 11) == Some((vs@, i as int)),
            decreases buf@.len() - i,
        {
            if buf.len() - i < 2 {
                proof {
                    assert(spec_parse_vs(buf@, i as int) is None);
                }
                return None;
            }
            let v = u16_be_at(buf, i);
            if v == VS_TERMINATOR {
                proof {
                    assert(spec_parse_vs(buf@, i as int) == Some(
                        (Seq::<u16>::empty(), i + 2),
                    ));
                    assert(vs@ + Seq::<u16>::empty() =~= vs@);
                }
                i += 2;
                break;
            }
            proof {
                lemma_parse_vs_step(buf@, i as int, v, vs@);
            }
            vs.push(v);
            i += 2;
        }
        Some((CASpec { version, n, t, vs }, i))
    }

    /// Whether the stored spec can serve a request for `self`.
    pub fn is_compatible(&self, stored_spec: &CASpec) -> (r: bool)
        ensures
            r == spec_compatible(self@, stored_spec@),
    {
        if stored_spec.t < self.t {
            return false;
        }
        if stored_spec.vs.len() < self.vs.len() {
            return false;
        }
        let mut i: usize = 0;
        while i < self.vs.len()
            invariant
                i <= self.vs@.len(),
                self.vs@.len() <= stored_spec.vs@.len(),
                forall|j: int| 0 <= j < i ==> stored_spec.vs@[j] >= self.vs@[j],
            decreases self.vs@.len() - i,
        {
            if stored_spec.vs[i] < self.vs[i] {
                return false;
            }
            i += 1;
        }
        true
    }
}

/// Appending one count appends its two bytes.
pub proof fn lemma_vs_bytes_snoc(vs: Seq<u16>, v: u16)
    ensures
        spec_vs_bytes(vs.push(v)) == spec_vs_bytes(vs) + spec_u16_be(v),
    decreases vs.len(),
{
    if vs.len() == 0 {
        assert(vs.push(v).drop_first() =~= vs);
        assert(vs.push(v)[0] == v);
        assert(spec_vs_bytes(vs.push(v)) =~= spec_vs_bytes(vs) + spec_u16_be(v));
    } else {
        assert(vs.push(v)[0] == vs[0]);
        assert(vs.push(v).drop_first() =~= vs.drop_first().push(v));
        lemma_vs_bytes_snoc(vs.drop_first(), v);
        assert(spec_vs_bytes(vs.push(v)) == spec_u16_be(vs[0]) + (spec_vs_bytes(vs.drop_first())
            + spec_u16_be(v)));
        assert(spec_u16_be(vs[0]) + (spec_vs_bytes(vs.drop_first()) + spec_u16_be(v)) =~= (
        spec_u16_be(vs[0]) + spec_vs_bytes(vs.drop_first())) + spec_u16_be(v));
    }
}

/// The serialised counts followed by the terminator parse back to the counts.
proof fn lemma_parse_vs_serialized(buf: Seq<u8>, i: int, vs: Seq<u16>)
    requires
        0 <= i,
        i + 2 * vs.len() + 2 <= buf.len(),
        forall|j: int| 0 <= j < vs.len() ==> vs[j] != 0,
        buf.subrange(i, i + 2 * vs.len() + 2) == spec_vs_bytes(vs) + spec_u16_be(VS_TERMINATOR),
    ensures
        spec_parse_vs(buf, i) == Some((vs, i + 2 * vs.len() + 2)),
    decreases vs.len(),
{
    let tail = buf.subrange(i, i + 2 * vs.len() + 2);
    if vs.len() == 0 {
        assert(buf[i] == tail[0]);
        assert(buf[i + 1] == tail[1]);
        assert(spec_u16_of_bytes(buf[i], buf[i + 1]) == VS_TERMINATOR);
        assert(vs =~= Seq::<u16>::empty());
    } else {
        let v0 = vs[0];
        lemma_u16_be_roundtrip(v0);
        assert(spec_vs_bytes(vs) == spec_u16_be(v0) + spec_vs_bytes(vs.drop_first()));
        assert(buf[i] == tail[0]);
        assert(buf[i + 1] == tail[1]);
        assert(spec_u16_of_bytes(buf[i], buf[i + 1]) == v0);
        lemma_vs_bytes_len(vs);
        lemma_vs_bytes_len(vs.drop_first());
        let rest = spec_vs_bytes(vs.drop_first()) + spec_u16_be(VS_TERMINATOR);
        assert(tail =~= spec_u16_be(v0) + rest);
        assert(buf.subrange(i + 2, i + 2 + 2 * (vs.len() - 1) + 2) =~= rest) by {
            assert forall|j: int| 0 <= j < rest.len() implies buf[i + 2 + j] == rest[j] by {
                assert(buf[i + 2 + j] == tail[j + 2]);
                assert(tail[j + 2] == rest[j]);
            }
        }
        lemma_parse_vs_serialized(buf, i + 2, vs.drop_first());
        assert(seq![v0] + vs.drop_first() =~= vs);
    }
}

/// Serialising a well-formed descriptor and parsing the bytes yields the same
/// descriptor back, consuming exactly the serialised length.
pub proof fn lemma_serialize_unserialize(s: CASpecView)
    requires
        s.wf(),
    ensures
        spec_unserialize(spec_serialize(s)) == Some((s, spec_serialize(s).len() as int)),
{
    lemma_unserialize_of_serialized(s, Seq::empty());
    assert(spec_serialize(s) + Seq::<u8>::empty() =~= spec_serialize(s));
}

/// Parsing a buffer that starts with a serialised well-formed descriptor
/// yields that descriptor, whatever follows it.
pub proof fn lemma_unserialize_of_serialized(s: CASpecView, rest: Seq<u8>)
    requires
        s.wf(),
    ensures
        spec_unserialize(spec_serialize(s) + rest) == Some(
            (s, spec_serialize(s).len() as int),
        ),
{
    let buf = spec_serialize(s) + rest;
    let ser = spec_serialize(s);
    let code = spec_version_code(s.version);
    lemma_u16_be_roundtrip(code);
    lemma_u64_be_roundtrip(s.n);
    lemma_vs_bytes_len(s.vs);
    assert(ser.len() == 13 + 2 * s.vs.len());
    assert(forall|m: int| 0 <= m < ser.len() ==> buf[m] == #[trigger] ser[m]);
    assert(buf[0] == spec_u16_be(code)[0]);
    assert(buf[1] == spec_u16_be(code)[1]);
    assert(spec_u16_of_bytes(buf[0], buf[1]) == code);
    assert(spec_version_of_code(code) == Some(s.version));
    assert forall|j: int| 0 <= j < 8 implies buf[2 + j] == spec_u64_be(s.n)[j] by {
        assert(buf[2 + j] == ser[2 + j]);
    }
    assert(spec_u64_of_bytes_at(buf, 2) == spec_u64_of_bytes_at(spec_u64_be(s.n), 0));
    assert(buf[10] == s.t);
    assert(buf.subrange(11, 11 + 2 * s.vs.len() as int + 2) =~= spec_vs_bytes(s.vs) + spec_u16_be(
        VS_TERMINATOR,
    ));
    lemma_parse_vs_serialized(buf, 11, s.vs);
    assert(spec_unserialize(buf) matches Some(p) && p.0 =~= s && p.1 == ser.len());
}

/// A parsed count list ends past its first word and within the buffer.
pub proof fn lemma_parse_vs_range(buf: Seq<u8>, i: int)
    requires
        spec_parse_vs(buf, i) is Some,
    ensures
        i + 2 <= spec_parse_vs(buf, i)->Some_0.1 <= buf.len(),
    decreases buf.len() - i,
{
    if !(i < 0 || i + 2 > buf.len()) {
        let v = spec_u16_of_bytes(buf[i], buf[i + 1]);
        if v != VS_TERMINATOR {
            lemma_parse_vs_range(buf, i + 2);
        }
    }
}

/// A parsed descriptor consumes at least 13 bytes and at most the buffer.
pub proof fn lemma_unserialize_range(buf: Seq<u8>)
    requires
        spec_unserialize(buf) is Some,
    ensures
        13 <= spec_unserialize(buf)->Some_0.1 <= buf.len(),
{
    lemma_parse_vs_range(buf, 11);
}

/// The serialised counts take two bytes each.
pub proof fn lemma_vs_bytes_len(vs: Seq<u16>)
    ensures
        spec_vs_bytes(vs).len() == 2 * vs.len(),
    decreases vs.len(),
{
    if vs.len() > 0 {
        lemma_vs_bytes_len(vs.drop_first());
    }
}

/// A request derived from an input parameter model plus a strength.
pub struct RequestedCA {
    /// Column labels, in the model's declared order.
    pub parameter_names: Vec<String>,
    /// Per-column value alphabets, in declared order.
    pub parameter_values: Vec<Vec<String>>,
    /// Per-column alphabet sizes, in declared order.
    pub parameter_sizes: Vec<u16>,
    /// The embedded spec: `vs` is `parameter_sizes` sorted descending.
    pub ca_spec: CASpec,
}

/// Mathematical model of a `RequestedCA`.
#[verifier::ext_equal]
pub struct RequestedCAView {
    pub parameter_names: Seq<Seq<char>>,
    pub parameter_values: Seq<Seq<Seq<char>>>,
    pub parameter_sizes: Seq<u16>,
    pub ca_spec: CASpecView,
}

impl View for RequestedCA {
    type V = RequestedCAView;

    open spec fn view(&self) -> RequestedCAView {
        RequestedCAView {
            parameter_names: self.parameter_names.deep_view(),
            parameter_values: self.parameter_values.deep_view(),
            parameter_sizes: self.parameter_sizes@,
            ca_spec: self.ca_spec@,
        }
    }
}

impl RequestedCAView {
    /// The parsed result shape handed to the extractor: aligned lengths,
    /// alphabets matching their declared sizes, and the embedded spec over
    /// the sizes sorted descending, with no rows and the asked strength.
    pub open spec fn req_wf(self, strength: u8) -> bool {
        &&& self.parameter_names.len() == self.parameter_sizes.len()
        &&& self.parameter_values.len() == self.parameter_sizes.len()
        &&& forall|i: int|
            0 <= i < self.parameter_sizes.len() ==> #[trigger] self.parameter_values[i].len()
                == self.parameter_sizes[i]
        &&& forall|i: int|
            0 <= i < self.parameter_sizes.len() ==> #[trigger] self.parameter_sizes[i] > 0
        &&& self.ca_spec.n == 0
        &&& self.ca_spec.t == strength
        &&& self.ca_spec.version == CA2_DEFAULT_VERSION
        &&& self.ca_spec.vs.len() == self.parameter_sizes.len()
        &&& crate::intern::spec_sorted_desc(self.ca_spec.vs)
        &&& self.ca_spec.vs.to_multiset() == self.parameter_sizes.to_multiset()
    }
}

/// Builds a request from parsed parameters and the asked strength: the
/// embedded spec carries the sizes sorted descending, no rows, and the
/// default codec version.
pub fn build_request(
    parameter_names: Vec<String>,
    parameter_values: Vec<Vec<String>>,
    parameter_sizes: Vec<u16>,
    strength: u8,
) -> (r: RequestedCA)
    requires
        parameter_names@.len() == parameter_sizes@.len(),
        parameter_values@.len() == parameter_sizes@.len(),
        forall|i: int|
            0 <= i < parameter_sizes@.len() ==> #[trigger] parameter_values@[i]@.len()
                == parameter_sizes@[i],
        forall|i: int| 0 <= i < parameter_sizes@.len() ==> #[trigger] parameter_sizes@[i] > 0,
    ensures
        r@.req_wf(strength),
        r@.parameter_names == parameter_names.deep_view(),
        r@.parameter_values == parameter_values.deep_view(),
        r@.parameter_sizes == parameter_sizes@,
{
    let vs = crate::intern::sort_desc(&parameter_sizes);
    let r = RequestedCA {
        parameter_names,
        parameter_values,
        parameter_sizes,
        ca_spec: CASpec { version: CA2_DEFAULT_VERSION, n: 0, t: strength, vs },
    };
    proof {
        assert forall|i: int| 0 <= i < r@.parameter_sizes.len() implies #[trigger] r@
            .parameter_values[i].len() == r@.parameter_sizes[i] by {
            assert(r@.parameter_values[i] == r.parameter_values@[i].deep_view());
        }
    }
    r
}

} // verus!

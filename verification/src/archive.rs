//! The archive container: payloads concatenated behind an optional
//! prepended blob, followed by a trailing index that readers find by
//! scanning backward from the end of the file.

use vstd::prelude::*;
use crate::caspec::{
    CASpec, CASpecView, spec_serialize, spec_unserialize, lemma_unserialize_of_serialized,
};
use crate::wire::{
    lemma_u64_be_roundtrip, spec_u64_be, spec_u64_of_bytes_at, u64_be_at, u64_to_be,
};

verus! {

/// The index magic: the prefix byte `'_'` then `"CCAA_INDEX_FILE\n"`.
pub open spec fn spec_index_magic() -> Seq<u8> {
    seq![
        0x5fu8,
        0x43,
        0x43,
        0x41,
        0x41,
        0x5f,
        0x49,
        0x4e,
        0x44,
        0x45,
        0x58,
        0x5f,
        0x46,
        0x49,
        0x4c,
        0x45,
        0x0a,
    ]
}

/// The magic of a `.ccmeta` sidecar file (note the leading space).
pub open spec fn spec_ccmeta_magic() -> Seq<u8> {
    seq![0x20u8, 0x43, 0x43, 0x41]
}

/// Whether the index magic stands at position `p` of `data`.
pub open spec fn spec_magic_at(data: Seq<u8>, p: int) -> bool {
    &&& 0 <= p
    &&& p + 17 <= data.len()
    &&& data.subrange(p, p + 17) == spec_index_magic()
}

/// The 17 index magic bytes.
pub fn index_magic() -> (r: Vec<u8>)
    ensures
        r@ == spec_index_magic(),
{
    let mut r: Vec<u8> = Vec::new();
    r.push(0x5f);
    r.push(0x43);
    r.push(0x43);
    r.push(0x41);
    r.push(0x41);
    r.push(0x5f);
    r.push(0x49);
    r.push(0x4e);
    r.push(0x44);
    r.push(0x45);
    r.push(0x58);
    r.push(0x5f);
    r.push(0x46);
    r.push(0x49);
    r.push(0x4c);
    r.push(0x45);
    r.push(0x0a);
    proof {
        assert(r@ =~= spec_index_magic());
    }
    r
}

/// Whether the index magic stands at position `p` of `data`.
fn magic_matches(data: &Vec<u8>, p: usize) -> (r: bool)
    ensures
        r == spec_magic_at(data@, p as int),
{
    let n = data.len();
    if n < 17 || p > n - 17 {
        return false;
    }
    let magic = index_magic();
    let mut m: usize = 0;
    while m < 17
        invariant
            m <= 17,
            n == data@.len(),
            p + 17 <= n,
            magic@ == spec_index_magic(),
            forall|m2: int| 0 <= m2 < m ==> data@[p + m2] == spec_index_magic()[m2],
        decreases 17 - m,
    {
        if data[p + m] != magic[m] {
            proof {
                assert(data@.subrange(p as int, p as int + 17)[m as int] != spec_index_magic()[
                    m as int
                ]);
            }
            return false;
        }
        m += 1;
    }
    proof {
        assert(data@.subrange(p as int, p as int + 17) =~= spec_index_magic());
    }
    true
}

/// Finds the byte position just past the last occurrence of the index
/// magic, scanning backward from the end of the archive.
pub fn find_index(data: &Vec<u8>) -> (r: Option<usize>)
    ensures
        match r {
            Some(pos) => {
                &&& 17 <= pos <= data@.len()
                &&& spec_magic_at(data@, pos - 17)
                &&& forall|q: int| pos - 17 < q ==> !spec_magic_at(data@, q)
            },
            None => forall|q: int| !spec_magic_at(data@, q),
        },
{
    let n = data.len();
    if n < 17 {
        return None;
    }
    let mut p: usize = n - 17;
    loop
        invariant
            n == data@.len(),
            p <= n - 17,
            n >= 17,
            forall|q: int| p < q ==> !spec_magic_at(data@, q),
        decreases p + 1,
    {
        if magic_matches(data, p) {
            return Some(p + 17);
        }
        if p == 0 {
            return None;
        }
        p -= 1;
    }
}

/// One descriptor with its payload, as handed to the packager.
pub struct ArchiveEntry {
    /// The descriptor from the `.ccmeta` sidecar.
    pub ca_spec: CASpec,
    /// The raw payload bytes from the `.cca` sidecar.
    pub payload: Vec<u8>,
}

/// Mathematical model of an `ArchiveEntry`.
#[verifier::ext_equal]
pub struct ArchiveEntryView {
    pub ca_spec: CASpecView,
    pub payload: Seq<u8>,
}

impl View for ArchiveEntry {
    type V = ArchiveEntryView;

    open spec fn view(&self) -> ArchiveEntryView {
        ArchiveEntryView { ca_spec: self.ca_spec@, payload: self.payload@ }
    }
}

/// The views of a sequence of entries.
pub open spec fn spec_entry_views(s: Seq<ArchiveEntry>) -> Seq<ArchiveEntryView> {
    Seq::new(s.len(), |i: int| s[i]@)
}

/// Stable insertion of an entry behind all entries with a row count not
/// above its own.
pub open spec fn spec_insert_entry(s: Seq<ArchiveEntryView>, e: ArchiveEntryView) -> Seq<
    ArchiveEntryView,
>
    decreases s.len(),
{
    if s.len() == 0 {
        seq![e]
    } else if s.last().ca_spec.n <= e.ca_spec.n {
        s.push(e)
    } else {
        spec_insert_entry(s.drop_last(), e).push(s.last())
    }
}

/// The entries sorted by row count ascending, stable on ties.
pub open spec fn spec_sort_entries(s: Seq<ArchiveEntryView>) -> Seq<ArchiveEntryView>
    decreases s.len(),
{
    if s.len() == 0 {
        Seq::empty()
    } else {
        spec_insert_entry(spec_sort_entries(s.drop_last()), s.last())
    }
}

/// The concatenated payload bytes of the entries, in order.
pub open spec fn spec_payloads(s: Seq<ArchiveEntryView>) -> Seq<u8>
    decreases s.len(),
{
    if s.len() == 0 {
        Seq::empty()
    } else {
        s[0].payload + spec_payloads(s.drop_first())
    }
}

/// The summed payload length of the entries.
pub open spec fn spec_payload_len(s: Seq<ArchiveEntryView>) -> int
    decreases s.len(),
{
    if s.len() == 0 {
        0
    } else {
        s[0].payload.len() + spec_payload_len(s.drop_first())
    }
}

/// The index record bytes of the entries, with payload offsets running
/// from `off0`.
pub open spec fn spec_index_bytes(off0: int, s: Seq<ArchiveEntryView>) -> Seq<u8>
    decreases s.len(),
{
    if s.len() == 0 {
        Seq::empty()
    } else {
        spec_u64_be(off0 as u64) + spec_serialize(s[0].ca_spec) + spec_index_bytes(
            off0 + s[0].payload.len(),
            s.drop_first(),
        )
    }
}

/// The offset and descriptor pairs the index denotes, with payload offsets
/// running from `off0`.
pub open spec fn spec_index_list(off0: int, s: Seq<ArchiveEntryView>) -> Seq<(u64, CASpecView)>
    decreases s.len(),
{
    if s.len() == 0 {
        Seq::empty()
    } else {
        seq![((off0 as u64), s[0].ca_spec)] + spec_index_list(
            off0 + s[0].payload.len(),
            s.drop_first(),
        )
    }
}

/// The whole archive: prepended blob, payloads of the sorted entries, then
/// the magic and the index records.
pub open spec fn spec_archive(prepend: Seq<u8>, sorted: Seq<ArchiveEntryView>) -> Seq<u8> {
    prepend + spec_payloads(sorted) + spec_index_magic() + spec_index_bytes(
        prepend.len() as int,
        sorted,
    )
}

/// The payload bytes take the summed payload length.
pub proof fn lemma_payloads_len(s: Seq<ArchiveEntryView>)
    ensures
        spec_payloads(s).len() == spec_payload_len(s),
        spec_payload_len(s) >= 0,
    decreases s.len(),
{
    if s.len() > 0 {
        lemma_payloads_len(s.drop_first());
    }
}

/// Appending one entry appends its payload.
proof fn lemma_payloads_snoc(s: Seq<ArchiveEntryView>, e: ArchiveEntryView)
    ensures
        spec_payloads(s.push(e)) == spec_payloads(s) + e.payload,
        spec_payload_len(s.push(e)) == spec_payload_len(s) + e.payload.len(),
    decreases s.len(),
{
    if s.len() == 0 {
        assert(s.push(e).drop_first() =~= s);
        assert(s.push(e)[0] == e);
        assert(spec_payloads(s.push(e)) =~= spec_payloads(s) + e.payload);
    } else {
        assert(s.push(e).drop_first() =~= s.drop_first().push(e));
        assert(s.push(e)[0] == s[0]);
        lemma_payloads_snoc(s.drop_first(), e);
        assert(s[0].payload + (spec_payloads(s.drop_first()) + e.payload) =~= (s[0].payload
            + spec_payloads(s.drop_first())) + e.payload);
    }
}

/// Appending one entry appends its index record bytes, at the running
/// offset.
#[verifier::rlimit(100)]
#[verifier::spinoff_prover]
proof fn lemma_index_bytes_snoc(off0: int, s: Seq<ArchiveEntryView>, e: ArchiveEntryView)
    ensures
        spec_index_bytes(off0, s.push(e)) == spec_index_bytes(off0, s) + spec_u64_be(
            (off0 + spec_payload_len(s)) as u64,
        ) + spec_serialize(e.ca_spec),
    decreases s.len(),
{
    let tail = spec_u64_be((off0 + spec_payload_len(s)) as u64) + spec_serialize(e.ca_spec);
    if s.len() == 0 {
        assert(s.push(e).drop_first() =~= s);
        assert(s.push(e)[0] == e);
        let rec_tail = spec_index_bytes(off0 + e.payload.len(), s);
        assert(rec_tail == Seq::<u8>::empty());
        assert(spec_index_bytes(off0, s.push(e)) == tail + rec_tail) by {
            assert((off0 + spec_payload_len(s)) as u64 == off0 as u64);
        }
        Seq::add_empty_right(tail, rec_tail);
        assert(spec_index_bytes(off0, s) == Seq::<u8>::empty());
        Seq::add_empty_left(spec_index_bytes(off0, s), tail);
    } else {
        assert(s.push(e).drop_first() =~= s.drop_first().push(e));
        assert(s.push(e)[0] == s[0]);
        let off1 = off0 + s[0].payload.len();
        lemma_index_bytes_snoc(off1, s.drop_first(), e);
        assert(off1 + spec_payload_len(s.drop_first()) == off0 + spec_payload_len(s));
        let h = spec_u64_be(off0 as u64) + spec_serialize(s[0].ca_spec);
        assert(spec_index_bytes(off0, s.push(e)) == h + spec_index_bytes(
            off1,
            s.drop_first().push(e),
        ));
        assert(spec_index_bytes(off0, s.push(e)) == h + (spec_index_bytes(
            off1,
            s.drop_first(),
        ) + tail));
        vstd::seq_lib::lemma_concat_associative(
            h,
            spec_index_bytes(off1, s.drop_first()),
            tail,
        );
    }
}

/// Appending one entry appends its offset and descriptor pair, at the
/// running offset.
#[verifier::rlimit(100)]
#[verifier::spinoff_prover]
proof fn lemma_index_list_snoc(off0: int, s: Seq<ArchiveEntryView>, e: ArchiveEntryView)
    ensures
        spec_index_list(off0, s.push(e)) == spec_index_list(off0, s) + seq![
            (((off0 + spec_payload_len(s)) as u64), e.ca_spec),
        ],
    decreases s.len(),
{
    let tail_l = seq![(((off0 + spec_payload_len(s)) as u64), e.ca_spec)];
    if s.len() == 0 {
        assert(s.push(e).drop_first() =~= s);
        assert(s.push(e)[0] == e);
        let rec_tail = spec_index_list(off0 + e.payload.len(), s);
        assert(rec_tail == Seq::<(u64, CASpecView)>::empty());
        assert(spec_index_list(off0, s.push(e)) == tail_l + rec_tail) by {
            assert((off0 + spec_payload_len(s)) as u64 == off0 as u64);
        }
        Seq::add_empty_right(tail_l, rec_tail);
        assert(spec_index_list(off0, s) == Seq::<(u64, CASpecView)>::empty());
        Seq::add_empty_left(spec_index_list(off0, s), tail_l);
    } else {
        assert(s.push(e).drop_first() =~= s.drop_first().push(e));
        assert(s.push(e)[0] == s[0]);
        let off1 = off0 + s[0].payload.len();
        lemma_index_list_snoc(off1, s.drop_first(), e);
        assert(off1 + spec_payload_len(s.drop_first()) == off0 + spec_payload_len(s));
        let h_l = seq![((off0 as u64), s[0].ca_spec)];
        assert(spec_index_list(off0, s.push(e)) == h_l + (spec_index_list(
            off1,
            s.drop_first(),
        ) + tail_l));
        vstd::seq_lib::lemma_concat_associative(
            h_l,
            spec_index_list(off1, s.drop_first()),
            tail_l,
        );
    }
}

/// Appends the bytes of `src` to `out`.
fn append_bytes(out: &mut Vec<u8>, src: &Vec<u8>)
    ensures
        final(out)@ == old(out)@ + src@,
{
    let mut i: usize = 0;
    while i < src.len()
        invariant
            i <= src@.len(),
            out@ == old(out)@ + src@.take(i as int),
        decreases src@.len() - i,
    {
        out.push(src[i]);
        proof {
            assert(old(out)@ + src@.take(i as int + 1) =~= (old(out)@ + src@.take(i as int)).push(
                src@[i as int],
            ));
        }
        i += 1;
    }
    proof {
        assert(src@.take(src@.len() as int) =~= src@);
    }
}

/// Places `e` behind every held entry whose row count is not above its own.
fn insert_entry_sorted(out: &mut Vec<ArchiveEntry>, e: ArchiveEntry)
    ensures
        spec_entry_views(final(out)@) == spec_insert_entry(spec_entry_views(old(out)@), e@),
{
    let mut p: usize = out.len();
    while p > 0 && out[p - 1].ca_spec.n > e.ca_spec.n
        invariant
            p <= out@.len(),
            forall|q: int| p <= q < out@.len() ==> out@[q].ca_spec@.n > e@.ca_spec.n,
        decreases p,
    {
        p -= 1;
    }
    let ghost pre = spec_entry_views(out@);
    let ghost pos = p as int;
    out.insert(p, e);
    proof {
        assert(p == 0 || pre[pos - 1].ca_spec.n <= e@.ca_spec.n);
        lemma_insert_entry_at(pre, e@, pos);
        assert(spec_entry_views(out@) =~= pre.insert(pos, e@));
    }
}

/// The stable insertion point found by scanning from the back.
proof fn lemma_insert_entry_at(s: Seq<ArchiveEntryView>, e: ArchiveEntryView, p: int)
    requires
        0 <= p <= s.len(),
        forall|q: int| p <= q < s.len() ==> s[q].ca_spec.n > e.ca_spec.n,
        p > 0 ==> s[p - 1].ca_spec.n <= e.ca_spec.n,
    ensures
        spec_insert_entry(s, e) == s.insert(p, e),
    decreases s.len() - p,
{
    if p == s.len() {
        if s.len() == 0 {
            assert(spec_insert_entry(s, e) =~= s.insert(p, e));
        } else {
            assert(spec_insert_entry(s, e) == s.push(e));
            assert(s.push(e) =~= s.insert(p, e));
        }
    } else {
        assert(s.last().ca_spec.n > e.ca_spec.n);
        lemma_insert_entry_at(s.drop_last(), e, p);
        assert(spec_insert_entry(s, e) == spec_insert_entry(s.drop_last(), e).push(s.last()));
        assert(s.drop_last().insert(p, e).push(s.last()) =~= s.insert(p, e));
    }
}

/// Builds one archive: the prepended blob, then the payloads sorted by row
/// count ascending (stable), then the trailing index whose offsets point at
/// each payload's first byte.
pub fn build_archive(prepend: &Vec<u8>, entries: Vec<ArchiveEntry>) -> (r: Vec<u8>)
    ensures
        r@ == spec_archive(prepend@, spec_sort_entries(spec_entry_views(entries@))),
{
    let ghost entriesv = spec_entry_views(entries@);
    let mut pending = entries;
    let mut sorted: Vec<ArchiveEntry> = Vec::new();
    proof {
        assert(spec_entry_views(Seq::<ArchiveEntry>::empty()) =~= Seq::<
            ArchiveEntryView,
        >::empty());
        assert(entriesv.take(0) =~= Seq::<ArchiveEntryView>::empty());
        assert(spec_sort_entries(entriesv.take(0)) =~= spec_entry_views(sorted@));
    }
    let ghost done: int = 0;
    while pending.len() > 0
        invariant
            0 <= done <= entriesv.len(),
            pending@.len() == entriesv.len() - done,
            forall|q: int|
                0 <= q < pending@.len() ==> #[trigger] pending@[q]@ == entriesv[done + q],
            spec_entry_views(sorted@) == spec_sort_entries(entriesv.take(done)),
        decreases pending@.len(),
    {
        let e = pending.remove(0);
        proof {
            assert(e@ == entriesv[done]);
            assert(entriesv.take(done + 1).drop_last() =~= entriesv.take(done));
            assert(entriesv.take(done + 1).last() == entriesv[done]);
        }
        insert_entry_sorted(&mut sorted, e);
        proof {
            done = done + 1;
        }
    }
    proof {
        assert(entriesv.take(entriesv.len() as int) =~= entriesv);
    }
    let ghost sortedv = spec_entry_views(sorted@);
    // payload section
    let mut out: Vec<u8> = Vec::new();
    append_bytes(&mut out, prepend);
    proof {
        assert(out@ =~= prepend@ + spec_payloads(sortedv.take(0)));
        assert(sortedv.take(0) =~= Seq::<ArchiveEntryView>::empty());
        assert(spec_index_list(prepend@.len() as int, sortedv.take(0)) =~= Seq::<
            (u64, CASpecView),
        >::empty());
    }
    let mut offsets: Vec<u64> = Vec::new();
    let mut i: usize = 0;
    while i < sorted.len()
        invariant
            i <= sorted@.len(),
            sortedv == spec_entry_views(sorted@),
            out@ == prepend@ + spec_payloads(sortedv.take(i as int)),
            offsets@.len() == i,
            forall|m: int|
                0 <= m < i ==> #[trigger] offsets@[m] as int == prepend@.len()
                    + spec_payload_len(sortedv.take(m)),
        decreases sorted@.len() - i,
    {
        proof {
            lemma_payloads_len(sortedv.take(i as int));
        }
        offsets.push(out.len() as u64);
        append_bytes(&mut out, &sorted[i].payload);
        proof {
            lemma_payloads_snoc(sortedv.take(i as int), sortedv[i as int]);
            assert(sortedv.take(i as int).push(sortedv[i as int]) =~= sortedv.take(i as int + 1));
            assert(out@ =~= prepend@ + spec_payloads(sortedv.take(i as int + 1)));
        }
        i += 1;
    }
    proof {
        assert(sortedv.take(sorted@.len() as int) =~= sortedv);
        lemma_payloads_len(sortedv);
    }
    // trailing index
    let magic = index_magic();
    append_bytes(&mut out, &magic);
    let ghost p0 = prepend@.len() as int;
    let ghost head = prepend@ + spec_payloads(sortedv) + spec_index_magic();
    proof {
        assert(out@ =~= head + spec_index_bytes(p0, sortedv.take(0)));
    }
    let mut i2: usize = 0;
    while i2 < sorted.len()
        invariant
            i2 <= sorted@.len(),
            sortedv == spec_entry_views(sorted@),
            head == prepend@ + spec_payloads(sortedv) + spec_index_magic(),
            p0 == prepend@.len() as int,
            offsets@.len() == sorted@.len(),
            forall|m: int|
                0 <= m < offsets@.len() ==> #[trigger] offsets@[m] as int == prepend@.len()
                    + spec_payload_len(sortedv.take(m)),
            out@ == head + spec_index_bytes(p0, sortedv.take(i2 as int)),
        decreases sorted@.len() - i2,
    {
        u64_to_be(offsets[i2], &mut out);
        let mut ser = sorted[i2].ca_spec.serialize();
        out.append(&mut ser);
        proof {
            lemma_index_bytes_snoc(p0, sortedv.take(i2 as int), sortedv[i2 as int]);
            assert(sortedv.take(i2 as int).push(sortedv[i2 as int]) =~= sortedv.take(
                i2 as int + 1,
            ));
            assert(sortedv[i2 as int].ca_spec == sorted@[i2 as int].ca_spec@);
            assert(out@ =~= head + spec_index_bytes(p0, sortedv.take(i2 as int + 1)));
        }
        i2 += 1;
    }
    proof {
        assert(sortedv.take(sorted@.len() as int) =~= sortedv);
        assert(out@ =~= spec_archive(prepend@, spec_sort_entries(entriesv)));
    }
    out
}

/// Parses index records from `i` to the end of the archive: each record is
/// an eight-byte big-endian payload offset followed by one serialised
/// descriptor. `None` on any partial or malformed record.
pub open spec fn spec_parse_index(data: Seq<u8>, i: int) -> Option<Seq<(u64, CASpecView)>>
    decreases data.len() - i,
    via spec_parse_index_dec
{
    if i < 0 || i > data.len() {
        None
    } else if i == data.len() {
        Some(Seq::empty())
    } else if i + 8 > data.len() {
        None
    } else {
        let off = spec_u64_of_bytes_at(data, i) as u64;
        match spec_unserialize(data.skip(i + 8)) {
            None => None,
            Some((sp, len)) => match spec_parse_index(data, i + 8 + len) {
                None => None,
                Some(rest) => Some(seq![(off, sp)] + rest),
            },
        }
    }
}

#[via_fn]
proof fn spec_parse_index_dec(data: Seq<u8>, i: int) {
    if 0 <= i && i < data.len() && i + 8 <= data.len() {
        if spec_unserialize(data.skip(i + 8)) is Some {
            crate::caspec::lemma_unserialize_range(data.skip(i + 8));
        }
    }
}

/// Prefixing already-read records onto the parsed tail.
spec fn compose_index(
    prefix: Seq<(u64, CASpecView)>,
    rest: Option<Seq<(u64, CASpecView)>>,
) -> Option<Seq<(u64, CASpecView)>> {
    match rest {
        None => None,
        Some(t) => Some(prefix + t),
    }
}

/// The views of parsed offset and descriptor pairs.
pub open spec fn spec_pair_views(s: Seq<(u64, CASpec)>) -> Seq<(u64, CASpecView)> {
    Seq::new(s.len(), |m: int| (s[m].0, s[m].1@))
}

/// Reads the index records from `start` to the end of the archive.
pub fn parse_index(data: &Vec<u8>, start: usize) -> (r: Option<Vec<(u64, CASpec)>>)
    ensures
        match spec_parse_index(data@, start as int) {
            Some(list) => r matches Some(v) && spec_pair_views(v@) == list,
            None => r is None,
        },
{
    let n = data.len();
    if start > n {
        return None;
    }
    let mut out: Vec<(u64, CASpec)> = Vec::new();
    let mut i: usize = start;
    proof {
        assert(spec_pair_views(out@) =~= Seq::<(u64, CASpecView)>::empty());
    }
    loop
        invariant
            start <= i <= n,
            n == data@.len(),
            spec_parse_index(data@, start as int) == compose_index(
                spec_pair_views(out@),
                spec_parse_index(data@, i as int),
            ),
        decreases n - i,
    {
        if i == n {
            proof {
                assert(spec_parse_index(data@, i as int) == Some(Seq::<
                    (u64, CASpecView),
                >::empty()));
                assert(spec_pair_views(out@) + Seq::<(u64, CASpecView)>::empty()
                    =~= spec_pair_views(out@));
            }
            return Some(out);
        }
        if n - i < 8 {
            proof {
                assert(spec_parse_index(data@, i as int) is None);
            }
            return None;
        }
        let off = u64_be_at(data.as_slice(), i);
        let sub = &data.as_slice()[i + 8..n];
        proof {
            assert(sub@ =~= data@.skip(i as int + 8));
        }
        match CASpec::unserialize(sub) {
            None => {
                proof {
                    assert(spec_parse_index(data@, i as int) is None);
                }
                return None;
            },
            Some(p) => {
                let sp = p.0;
                let len = p.1;
                let ghost pre = spec_pair_views(out@);
                proof {
                    crate::caspec::lemma_unserialize_range(data@.skip(i as int + 8));
                    match spec_parse_index(data@, i as int + 8 + len as int) {
                        None => {
                            assert(spec_parse_index(data@, i as int) is None);
                        },
                        Some(rest) => {
                            assert(spec_parse_index(data@, i as int) == Some(
                                seq![((off), sp@)] + rest,
                            ));
                            assert(pre + (seq![((off), sp@)] + rest) =~= pre.push(((off), sp@))
                                + rest);
                        },
                    }
                }
                out.push((off, sp));
                proof {
                    assert(spec_pair_views(out@) =~= pre.push(((off), sp@)));
                }
                i = i + 8 + len;
            },
        }
    }
}

/// What a `.ccmeta` sidecar denotes: the magic then one serialised
/// descriptor; bytes after the descriptor are ignored.
pub open spec fn spec_parse_ccmeta(data: Seq<u8>) -> Option<CASpecView> {
    if data.len() < 4 || data.subrange(0, 4) != spec_ccmeta_magic() {
        None
    } else {
        match spec_unserialize(data.skip(4)) {
            None => None,
            Some((sp, len)) => Some(sp),
        }
    }
}

/// Parses a `.ccmeta` sidecar into a descriptor.
pub fn parse_ccmeta(data: &Vec<u8>) -> (r: Option<CASpec>)
    ensures
        match spec_parse_ccmeta(data@) {
            Some(sp) => r matches Some(c) && c@ == sp,
            None => r is None,
        },
{
    if data.len() < 4 {
        return None;
    }
    proof {
        assert(data@.subrange(0, 4)[0] == data@[0]);
        assert(data@.subrange(0, 4)[1] == data@[1]);
        assert(data@.subrange(0, 4)[2] == data@[2]);
        assert(data@.subrange(0, 4)[3] == data@[3]);
    }
    if !(data[0] == 0x20 && data[1] == 0x43 && data[2] == 0x43 && data[3] == 0x41) {
        return None;
    }
    proof {
        assert(data@.subrange(0, 4) =~= spec_ccmeta_magic());
    }
    let sub = &data.as_slice()[4..data.len()];
    proof {
        assert(sub@ =~= data@.skip(4));
    }
    match CASpec::unserialize(sub) {
        Some(p) => Some(p.0),
        None => None,
    }
}

/// The `.ccmeta` sidecar bytes for a descriptor.
pub fn ccmeta_bytes(ca_spec: &CASpec) -> (r: Vec<u8>)
    ensures
        r@ == spec_ccmeta_magic() + spec_serialize(ca_spec@),
{
    let mut r: Vec<u8> = Vec::new();
    r.push(0x20);
    r.push(0x43);
    r.push(0x43);
    r.push(0x41);
    let mut ser = ca_spec.serialize();
    r.append(&mut ser);
    proof {
        assert(r@ =~= spec_ccmeta_magic() + spec_serialize(ca_spec@));
    }
    r
}

/// A written `.ccmeta` sidecar parses back to the same descriptor.
pub proof fn lemma_ccmeta_roundtrip(s: CASpecView)
    requires
        s.wf(),
    ensures
        spec_parse_ccmeta(spec_ccmeta_magic() + spec_serialize(s)) == Some(s),
{
    let data = spec_ccmeta_magic() + spec_serialize(s);
    assert(data.subrange(0, 4) =~= spec_ccmeta_magic());
    assert(data.skip(4) =~= spec_serialize(s));
    crate::caspec::lemma_serialize_unserialize(s);
}

/// An index region holding exactly the records of `s` parses back to their
/// offsets and descriptors.
#[verifier::rlimit(100)]
#[verifier::spinoff_prover]
proof fn lemma_parse_index_of_bytes(data: Seq<u8>, i: int, off0: int, s: Seq<ArchiveEntryView>)
    requires
        0 <= i <= data.len(),
        data.subrange(i, data.len() as int) == spec_index_bytes(off0, s),
        forall|m: int| 0 <= m < s.len() ==> (#[trigger] s[m]).ca_spec.wf(),
    ensures
        spec_parse_index(data, i) == Some(spec_index_list(off0, s)),
    decreases s.len(),
{
    let tail = data.subrange(i, data.len() as int);
    if s.len() == 0 {
        assert(i == data.len());
        assert(spec_index_list(off0, s) =~= Seq::<(u64, CASpecView)>::empty());
    } else {
        let ser = spec_serialize(s[0].ca_spec);
        let rest_bytes = spec_index_bytes(off0 + s[0].payload.len(), s.drop_first());
        assert(tail == spec_u64_be(off0 as u64) + ser + rest_bytes);
        assert(tail.len() == 8 + ser.len() + rest_bytes.len());
        lemma_u64_be_roundtrip(off0 as u64);
        let be = spec_u64_be(off0 as u64);
        assert(tail[0] == be[0] && tail[0] == data[i]);
        assert(tail[1] == be[1] && tail[1] == data[i + 1]);
        assert(tail[2] == be[2] && tail[2] == data[i + 2]);
        assert(tail[3] == be[3] && tail[3] == data[i + 3]);
        assert(tail[4] == be[4] && tail[4] == data[i + 4]);
        assert(tail[5] == be[5] && tail[5] == data[i + 5]);
        assert(tail[6] == be[6] && tail[6] == data[i + 6]);
        assert(tail[7] == be[7] && tail[7] == data[i + 7]);
        assert(spec_u64_of_bytes_at(data, i) == spec_u64_of_bytes_at(be, 0));
        assert(data.skip(i + 8) =~= ser + (rest_bytes)) by {
            assert forall|m: int| 0 <= m < ser.len() + rest_bytes.len() implies data.skip(
                i + 8,
            )[m] == (ser + rest_bytes)[m] by {
                assert(data[i + 8 + m] == tail[8 + m]);
            }
        }
        lemma_unserialize_of_serialized(s[0].ca_spec, rest_bytes);
        assert(spec_unserialize(data.skip(i + 8)) == Some((s[0].ca_spec, ser.len() as int)));
        let i2 = i + 8 + ser.len();
        assert(data.subrange(i2 as int, data.len() as int) =~= rest_bytes) by {
            assert forall|m: int| 0 <= m < rest_bytes.len() implies data[i2 + m]
                == rest_bytes[m] by {
                assert(data[i2 + m] == tail[8 + ser.len() + m]);
            }
        }
        lemma_parse_index_of_bytes(data, i2 as int, off0 + s[0].payload.len(), s.drop_first());
        assert(spec_parse_index(data, i) == Some(
            seq![((off0 as u64), s[0].ca_spec)] + spec_index_list(
                off0 + s[0].payload.len(),
                s.drop_first(),
            ),
        ));
    }
}

/// The trailing index of a built archive stands right after its payloads,
/// wears the magic, and parses back to the sorted entries' offsets and
/// descriptors — whatever bytes the payloads hold.
pub proof fn lemma_archive_roundtrip(prepend: Seq<u8>, sorted: Seq<ArchiveEntryView>)
    requires
        forall|m: int| 0 <= m < sorted.len() ==> (#[trigger] sorted[m]).ca_spec.wf(),
    ensures
        ({
            let archive = spec_archive(prepend, sorted);
            let m = prepend.len() + spec_payload_len(sorted);
            &&& spec_magic_at(archive, m as int)
            &&& spec_parse_index(archive, m + 17) == Some(
                spec_index_list(prepend.len() as int, sorted),
            )
        }),
{
    let archive = spec_archive(prepend, sorted);
    let m = prepend.len() + spec_payload_len(sorted);
    lemma_payloads_len(sorted);
    let head = prepend + spec_payloads(sorted);
    assert(head.len() == m);
    assert(archive.len() == m + 17 + spec_index_bytes(prepend.len() as int, sorted).len());
    assert(archive.subrange(m as int, m + 17) =~= spec_index_magic()) by {
        assert forall|q: int| 0 <= q < 17 implies archive[m + q] == spec_index_magic()[q] by {
            assert(archive[m + q] == (spec_index_magic() + spec_index_bytes(
                prepend.len() as int,
                sorted,
            ))[q]);
        }
    }
    assert(archive.subrange(m + 17, archive.len() as int) =~= spec_index_bytes(
        prepend.len() as int,
        sorted,
    )) by {
        assert forall|q: int|
            0 <= q < spec_index_bytes(prepend.len() as int, sorted).len() implies archive[m + 17
            + q] == spec_index_bytes(prepend.len() as int, sorted)[q] by {
            assert(archive[m + 17 + q] == (spec_index_magic() + spec_index_bytes(
                prepend.len() as int,
                sorted,
            ))[17 + q]);
        }
    }
    lemma_parse_index_of_bytes(archive, m + 17, prepend.len() as int, sorted);
}

} // verus!

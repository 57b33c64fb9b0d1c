//! Extractor-side logic: picking the smallest compatible stored array,
//! mapping requested columns onto stored ones, decoding the rows and
//! projecting them into the requested alphabets.

use vstd::prelude::*;
use crate::bits::generate_bit_sizes;
use crate::caspec::{CASpec, RequestedCA, spec_compatible};
use crate::codec::{CompressedCA, CompressedCAView};
use crate::compress::spec_bit_sizes;
verus! {

/// One stored array found while scanning the archives: which archive it
/// came from, its payload offset there, and its descriptor.
pub struct AvailableCA {
    /// Position of the archive in the caller's input order.
    pub archive: usize,
    /// Payload offset within that archive.
    pub offset: u64,
    /// The stored descriptor.
    pub ca_spec: CASpec,
}

/// Picks the stored array with the smallest row count among those
/// compatible with the request; ties go to the earliest entry. `None` when
/// nothing is compatible.
pub fn select_best(available: &Vec<AvailableCA>, requested: &CASpec) -> (r: Option<usize>)
    ensures
        match r {
            Some(w) => {
                &&& (w as int) < available@.len()
                &&& spec_compatible(requested@, available@[w as int].ca_spec@)
                &&& forall|m: int|
                    0 <= m < available@.len() && spec_compatible(
                        requested@,
                        (#[trigger] available@[m]).ca_spec@,
                    ) ==> available@[w as int].ca_spec@.n <= available@[m].ca_spec@.n
                &&& forall|m: int|
                    0 <= m < w && spec_compatible(
                        requested@,
                        (#[trigger] available@[m]).ca_spec@,
                    ) ==> available@[w as int].ca_spec@.n < available@[m].ca_spec@.n
            },
            None => forall|m: int|
                0 <= m < available@.len() ==> !spec_compatible(
                    requested@,
                    (#[trigger] available@[m]).ca_spec@,
                ),
        },
{
    let mut best: Option<usize> = None;
    let mut m: usize = 0;
    while m < available.len()
        invariant
            m <= available@.len(),
            match best {
                Some(w) => {
                    &&& (w as int) < m
                    &&& spec_compatible(requested@, available@[w as int].ca_spec@)
                    &&& forall|m2: int|
                        0 <= m2 < m && spec_compatible(
                            requested@,
                            (#[trigger] available@[m2]).ca_spec@,
                        ) ==> available@[w as int].ca_spec@.n <= available@[m2].ca_spec@.n
                    &&& forall|m2: int|
                        0 <= m2 < w && spec_compatible(
                            requested@,
                            (#[trigger] available@[m2]).ca_spec@,
                        ) ==> available@[w as int].ca_spec@.n < available@[m2].ca_spec@.n
                },
                None => forall|m2: int|
                    0 <= m2 < m ==> !spec_compatible(
                        requested@,
                        (#[trigger] available@[m2]).ca_spec@,
                    ),
            },
        decreases available@.len() - m,
    {
        if requested.is_compatible(&available[m].ca_spec) {
            match best {
                None => {
                    best = Some(m);
                },
                Some(w) => {
                    if available[m].ca_spec.n < available[w].ca_spec.n {
                        best = Some(m);
                    }
                },
            }
        }
        m += 1;
    }
    best
}

/// Leftmost stored column at or after `from` that is not yet taken and can
/// hold a requested column of `req` values.
pub open spec fn spec_find_reorder_slot(
    vs: Seq<u16>,
    used: Seq<usize>,
    req: u16,
    from: int,
) -> Option<usize>
    decreases vs.len() - from,
{
    if from < 0 || from >= vs.len() {
        None
    } else if req <= vs[from] && !used.contains(from as usize) {
        Some(from as usize)
    } else {
        spec_find_reorder_slot(vs, used, req, from + 1)
    }
}

/// The greedy reorder map: for each requested column in declared order, the
/// leftmost untaken stored column whose count is large enough.
pub open spec fn spec_reorder_map_rec(
    sizes: Seq<u16>,
    vs: Seq<u16>,
    acc: Seq<usize>,
    i: int,
) -> Option<Seq<usize>>
    decreases sizes.len() - i,
{
    if i < 0 || i > sizes.len() {
        None
    } else if i == sizes.len() {
        Some(acc)
    } else {
        match spec_find_reorder_slot(vs, acc, sizes[i], 0) {
            None => None,
            Some(p) => spec_reorder_map_rec(sizes, vs, acc.push(p), i + 1),
        }
    }
}

/// The map from requested columns to stored columns, or `None` when some
/// requested column cannot be placed.
pub open spec fn spec_reorder_map(sizes: Seq<u16>, vs: Seq<u16>) -> Option<Seq<usize>> {
    spec_reorder_map_rec(sizes, vs, Seq::empty(), 0)
}

/// Whether the vector holds `x`.
fn contains_usize(v: &Vec<usize>, x: usize) -> (r: bool)
    ensures
        r == v@.contains(x),
{
    let mut i: usize = 0;
    while i < v.len()
        invariant
            i <= v@.len(),
            forall|m: int| 0 <= m < i ==> v@[m] != x,
        decreases v@.len() - i,
    {
        if v[i] == x {
            return true;
        }
        i += 1;
    }
    proof {
        if v@.contains(x) {
            let w = choose|m: int| 0 <= m < v@.len() && v@[m] == x;
            assert(v@[w] != x);
        }
    }
    false
}

/// Builds the greedy mapping from requested columns (declared order) to
/// stored columns: `r[i]` is the stored column read for requested column `i`.
pub fn generate_reorder_map(
    requested_parameter_sizes: &Vec<u16>,
    stored_ca_spec: &CASpec,
) -> (r: Option<Vec<usize>>)
    ensures
        match spec_reorder_map(requested_parameter_sizes@, stored_ca_spec@.vs) {
            Some(m) => r matches Some(mv) && mv@ == m,
            None => r is None,
        },
{
    let mut acc: Vec<usize> = Vec::new();
    let mut i: usize = 0;
    while i < requested_parameter_sizes.len()
        invariant
            i <= requested_parameter_sizes@.len(),
            acc@.len() == i,
            spec_reorder_map(requested_parameter_sizes@, stored_ca_spec@.vs)
                == spec_reorder_map_rec(
                requested_parameter_sizes@,
                stored_ca_spec@.vs,
                acc@,
                i as int,
            ),
        decreases requested_parameter_sizes@.len() - i,
    {
        let req = requested_parameter_sizes[i];
        let mut p: usize = 0;
        let mut found: Option<usize> = None;
        while found.is_none() && p < stored_ca_spec.vs.len()
            invariant
                p <= stored_ca_spec@.vs.len(),
                found matches Some(q) ==> spec_find_reorder_slot(
                    stored_ca_spec@.vs,
                    acc@,
                    req,
                    0,
                ) == Some(q),
                found is None ==> spec_find_reorder_slot(stored_ca_spec@.vs, acc@, req, 0)
                    == spec_find_reorder_slot(stored_ca_spec@.vs, acc@, req, p as int),
            decreases stored_ca_spec@.vs.len() - p + (if found is None {
                1int
            } else {
                0int
            }),
        {
            if req <= stored_ca_spec.vs[p] && !contains_usize(&acc, p) {
                found = Some(p);
            } else {
                p += 1;
            }
        }
        match found {
            Some(p2) => {
                acc.push(p2);
            },
            None => {
                proof {
                    assert(spec_find_reorder_slot(stored_ca_spec@.vs, acc@, req, 0) is None);
                }
                return None;
            },
        }
        i += 1;
    }
    Some(acc)
}

/// Every placed slot points into the stored columns, and the map covers
/// every requested column.
pub proof fn lemma_reorder_map_props(sizes: Seq<u16>, vs: Seq<u16>, m: Seq<usize>)
    requires
        spec_reorder_map(sizes, vs) == Some(m),
    ensures
        m.len() == sizes.len(),
        forall|i: int| 0 <= i < m.len() ==> #[trigger] m[i] < vs.len(),
{
    lemma_reorder_map_rec_props(sizes, vs, Seq::empty(), 0, m);
}

/// Helper for `lemma_reorder_map_props` over the greedy recursion.
proof fn lemma_reorder_map_rec_props(
    sizes: Seq<u16>,
    vs: Seq<u16>,
    acc: Seq<usize>,
    i0: int,
    m: Seq<usize>,
)
    requires
        spec_reorder_map_rec(sizes, vs, acc, i0) == Some(m),
        acc.len() == i0,
        0 <= i0 <= sizes.len(),
        forall|i2: int| 0 <= i2 < acc.len() ==> #[trigger] acc[i2] < vs.len(),
    ensures
        m.len() == sizes.len(),
        forall|i: int| 0 <= i < m.len() ==> #[trigger] m[i] < vs.len(),
    decreases sizes.len() - i0,
{
    if i0 == sizes.len() {
        assert(m == acc);
    } else {
        match spec_find_reorder_slot(vs, acc, sizes[i0], 0) {
            None => {},
            Some(p) => {
                lemma_find_reorder_slot_bounds(vs, acc, sizes[i0], 0);
                lemma_reorder_map_rec_props(sizes, vs, acc.push(p), i0 + 1, m);
            },
        }
    }
}

/// A found slot lies inside the stored columns.
proof fn lemma_find_reorder_slot_bounds(vs: Seq<u16>, used: Seq<usize>, req: u16, from: int)
    requires
        spec_find_reorder_slot(vs, used, req, from) is Some,
    ensures
        spec_find_reorder_slot(vs, used, req, from)->Some_0 < vs.len(),
    decreases vs.len() - from,
{
    if !(from < 0 || from >= vs.len()) {
        if !(req <= vs[from] && !used.contains(from as usize)) {
            lemma_find_reorder_slot_bounds(vs, used, req, from + 1);
        }
    }
}

/// When the stored value is already within the requested range, the modular
/// projection keeps it unchanged.
pub proof fn lemma_modular_projection(w: u16, r: u16)
    requires
        w < r,
    ensures
        (w as int) % (r as int) == w as int,
{
    vstd::arithmetic::div_mod::lemma_small_mod(w as nat, r as nat);
}

/// Projects one decoded row into the requested column order and alphabets:
/// field `i` is the requested value list of column `i`, indexed by the
/// stored value modulo the requested size.
pub fn project_row(row: &Vec<u16>, reorder_map: &Vec<usize>, requested: &RequestedCA) -> (r: Vec<
    String,
>)
    requires
        requested@.parameter_values.len() == reorder_map@.len(),
        requested@.parameter_sizes.len() == reorder_map@.len(),
        forall|i: int| 0 <= i < reorder_map@.len() ==> #[trigger] reorder_map@[i] < row@.len(),
        forall|i: int|
            0 <= i < reorder_map@.len() ==> #[trigger] requested@.parameter_sizes[i] > 0,
        forall|i: int|
            0 <= i < reorder_map@.len() ==> #[trigger] requested@.parameter_values[i].len()
                == requested@.parameter_sizes[i],
    ensures
        r.deep_view().len() == reorder_map@.len(),
        forall|i: int|
            0 <= i < reorder_map@.len() ==> #[trigger] r.deep_view()[i]
                == requested@.parameter_values[i][(row@[reorder_map@[i] as int] as int) % (
            requested@.parameter_sizes[i] as int)],
{
    let mut r: Vec<String> = Vec::new();
    let mut i: usize = 0;
    while i < reorder_map.len()
        invariant
            i <= reorder_map@.len(),
            r@.len() == i,
            requested@.parameter_values.len() == reorder_map@.len(),
            requested@.parameter_sizes.len() == reorder_map@.len(),
            forall|i2: int|
                0 <= i2 < reorder_map@.len() ==> #[trigger] reorder_map@[i2] < row@.len(),
            forall|i2: int|
                0 <= i2 < reorder_map@.len() ==> #[trigger] requested@.parameter_sizes[i2] > 0,
            forall|i2: int|
                0 <= i2 < reorder_map@.len() ==> #[trigger] requested@.parameter_values[i2].len()
                    == requested@.parameter_sizes[i2],
            forall|i2: int|
                0 <= i2 < i ==> #[trigger] r.deep_view()[i2]
                    == requested@.parameter_values[i2][(row@[reorder_map@[i2] as int] as int) % (
                requested@.parameter_sizes[i2] as int)],
        decreases reorder_map@.len() - i,
    {
        let j = reorder_map[i];
        let w = row[j];
        let size = requested.parameter_sizes[i];
        proof {
            assert(requested@.parameter_sizes[i as int] == requested.parameter_sizes@[i as int]);
        }
        let idx = (w % size) as usize;
        proof {
            assert(requested@.parameter_values[i as int] == requested.parameter_values@[
                i as int
            ].deep_view());
            assert(idx < requested.parameter_values@[i as int]@.len());
        }
        let field = requested.parameter_values[i][idx].clone();
        let ghost pre = r.deep_view();
        r.push(field);
        proof {
            assert(requested.parameter_values@[i as int].deep_view()[idx as int]
                == requested.parameter_values@[i as int]@[idx as int]@);
            assert forall|i2: int| 0 <= i2 < i + 1 implies #[trigger] r.deep_view()[i2]
                == requested@.parameter_values[i2][(row@[reorder_map@[i2] as int] as int) % (
            requested@.parameter_sizes[i2] as int)] by {
                assert(r.deep_view()[i2] == r@[i2]@);
                if i2 < i {
                    assert(pre[i2] == r@[i2]@);
                }
            }
        }
        i += 1;
    }
    r
}

/// The fields joined with commas.
pub open spec fn spec_join_comma(fields: Seq<Seq<char>>) -> Seq<char>
    decreases fields.len(),
{
    if fields.len() == 0 {
        Seq::empty()
    } else if fields.len() == 1 {
        fields[0]
    } else {
        spec_join_comma(fields.drop_last()) + seq![','] + fields.last()
    }
}

/// Joins the fields with commas and appends a line break.
pub fn render_csv_line(fields: &Vec<String>) -> (r: String)
    ensures
        r@ == spec_join_comma(fields.deep_view()) + seq!['\n'],
{
    let mut s = String::new();
    let mut i: usize = 0;
    proof {
        reveal_strlit(",");
        reveal_strlit("\n");
        assert(s@ =~= spec_join_comma(fields.deep_view().take(0)));
    }
    while i < fields.len()
        invariant
            i <= fields@.len(),
            fields.deep_view().len() == fields@.len(),
            s@ == spec_join_comma(fields.deep_view().take(i as int)),
        decreases fields@.len() - i,
    {
        if i > 0 {
            s.append(",");
            proof {
                reveal_strlit(",");
                assert(","@ =~= seq![',']);
            }
        }
        s.append(fields[i].as_str());
        proof {
            let dv = fields.deep_view();
            assert(dv[i as int] == fields@[i as int]@);
            assert(dv.take(i as int + 1).drop_last() =~= dv.take(i as int));
            assert(dv.take(i as int + 1).last() == dv[i as int]);
            if i == 0 {
                assert(s@ =~= spec_join_comma(dv.take(1)));
            } else {
                assert(s@ =~= spec_join_comma(dv.take(i as int + 1)));
            }
        }
        i += 1;
    }
    s.append("\n");
    proof {
        reveal_strlit("\n");
        assert("\n"@ =~= seq!['\n']);
        assert(fields.deep_view().take(fields@.len() as int) =~= fields.deep_view());
        assert(s@ =~= spec_join_comma(fields.deep_view()) + seq!['\n']);
    }
    s
}

/// Turns the stored payload bytes into the stream the row decoder reads:
/// the bit-packed format is read as it stands; the entropy-coded format is
/// run through the general-purpose decompressor first, and malformed input
/// is reported as `None`.
pub fn decode_payload(version: crate::caspec::CA2Version, payload: Vec<u8>) -> (r: Option<
    Vec<u8>,
>)
    ensures
        version == crate::caspec::CA2Version::Basic ==> (r matches Some(d) && d@ == payload@),
        version == crate::caspec::CA2Version::Bzip2 ==> {
            &&& r is Some <== exists|orig: Seq<u8>|
                payload@ == crate::bzip::spec_bzip2_compressed(orig)
            &&& r matches Some(d) ==> forall|orig: Seq<u8>|
                payload@ == crate::bzip::spec_bzip2_compressed(orig) ==> d@ == orig
        },
{
    match version {
        crate::caspec::CA2Version::Basic => Some(payload),
        crate::caspec::CA2Version::Bzip2 => crate::bzip::bzip2_decompress(&payload),
    }
}

/// Parses an input model in either supported format, trying the ACTS
/// reader first and the CTWedge reader second; `None` when neither format
/// applies.
pub fn parse_request(contents: &str, strength: u8) -> (r: Option<RequestedCA>)
    ensures
        r matches Some(req) ==> req@.req_wf(strength),
{
    match crate::acts::try_parse_acts(contents, strength) {
        Some(req) => Some(req),
        None => crate::ctwedge::try_parse_ctwedge(contents, strength),
    }
}

/// The decoder view over a payload for a stored descriptor.
pub open spec fn spec_decoder_view(data: Seq<u8>, ca_spec: crate::caspec::CASpecView) -> CompressedCAView {
    CompressedCAView {
        data: data,
        rows_total: ca_spec.n,
        row_current: 0,
        bit_sizes: spec_bit_sizes(ca_spec.vs),
        ca2_version: ca_spec.version,
    }
}

/// Decodes the rows of one payload and projects each into the requested
/// order and alphabets. On truncated data the iteration ends early, as the
/// row count then reported shows.
pub fn decode_rows(
    data: Vec<u8>,
    ca_spec: &CASpec,
    requested: &RequestedCA,
    reorder_map: &Vec<usize>,
) -> (r: Vec<Vec<String>>)
    requires
        spec_reorder_map(requested@.parameter_sizes, ca_spec@.vs) == Some(reorder_map@),
        requested@.parameter_values.len() == reorder_map@.len(),
        forall|i: int|
            0 <= i < reorder_map@.len() ==> #[trigger] requested@.parameter_sizes[i] > 0,
        forall|i: int|
            0 <= i < reorder_map@.len() ==> #[trigger] requested@.parameter_values[i].len()
                == requested@.parameter_sizes[i],
    ensures
        ({
            let view = spec_decoder_view(data@, ca_spec@);
            &&& r@.len() <= ca_spec@.n
            &&& (r@.len() < ca_spec@.n ==> !view.avail(r@.len() as int))
            &&& forall|m: int|
                0 <= m < r@.len() ==> (#[trigger] r@[m]).deep_view().len()
                    == reorder_map@.len()
            &&& forall|m: int, i: int|
                #![trigger r@[m].deep_view()[i]]
                0 <= m < r@.len() && 0 <= i < reorder_map@.len() ==> r@[m].deep_view()[i]
                    == requested@.parameter_values[i][(view.row(m)[
                    reorder_map@[i] as int
                ] as int) % (requested@.parameter_sizes[i] as int)]
        }),
{
    proof {
        lemma_reorder_map_props(requested@.parameter_sizes, ca_spec@.vs, reorder_map@);
    }
    let bit_sizes = generate_bit_sizes(&ca_spec.vs);
    proof {
        assert(bit_sizes@ =~= spec_bit_sizes(ca_spec@.vs));
    }
    let mut cca = CompressedCA::new(data, bit_sizes, ca_spec.n, ca_spec.version);
    let ghost view = spec_decoder_view(cca@.data, ca_spec@);
    let mut out: Vec<Vec<String>> = Vec::new();
    loop
        invariant_except_break
            cca@.wf(),
            cca@.data == view.data,
            cca@.bit_sizes == view.bit_sizes,
            cca@.ca2_version == view.ca2_version,
            cca@.rows_total == ca_spec@.n,
            cca@.row_current == out@.len(),
            out@.len() <= ca_spec@.n,
            view == spec_decoder_view(view.data, ca_spec@),
            spec_reorder_map(requested@.parameter_sizes, ca_spec@.vs) == Some(reorder_map@),
            requested@.parameter_values.len() == reorder_map@.len(),
            requested@.parameter_sizes.len() == reorder_map@.len(),
            forall|i: int| 0 <= i < reorder_map@.len() ==> #[trigger] reorder_map@[i]
                < ca_spec@.vs.len(),
            forall|i: int|
                0 <= i < reorder_map@.len() ==> #[trigger] requested@.parameter_sizes[i] > 0,
            forall|i: int|
                0 <= i < reorder_map@.len() ==> #[trigger] requested@.parameter_values[i].len()
                    == requested@.parameter_sizes[i],
            forall|m: int|
                0 <= m < out@.len() ==> (#[trigger] out@[m]).deep_view().len()
                    == reorder_map@.len(),
            forall|m: int, i: int|
                #![trigger out@[m].deep_view()[i]]
                0 <= m < out@.len() && 0 <= i < reorder_map@.len() ==> out@[m].deep_view()[i]
                    == requested@.parameter_values[i][(view.row(m)[
                    reorder_map@[i] as int
                ] as int) % (requested@.parameter_sizes[i] as int)],
        ensures
            out@.len() <= ca_spec@.n,
            out@.len() < ca_spec@.n ==> !view.avail(out@.len() as int),
            forall|m: int|
                0 <= m < out@.len() ==> (#[trigger] out@[m]).deep_view().len()
                    == reorder_map@.len(),
            forall|m: int, i: int|
                #![trigger out@[m].deep_view()[i]]
                0 <= m < out@.len() && 0 <= i < reorder_map@.len() ==> out@[m].deep_view()[i]
                    == requested@.parameter_values[i][(view.row(m)[
                    reorder_map@[i] as int
                ] as int) % (requested@.parameter_sizes[i] as int)],
        decreases ca_spec@.n - out@.len(),
    {
        let ghost pre = cca@;
        let next = cca.next();
        match next {
            None => {
                proof {
                    if pre.row_current < pre.rows_total {
                        assert(!pre.avail(pre.row_current as int));
                        assert(pre.data == view.data && pre.bit_sizes == view.bit_sizes
                            && pre.ca2_version == view.ca2_version);
                        assert(!view.avail(out@.len() as int));
                    }
                }
                break ;
            },
            Some(row) => {
                proof {
                    assert(row@ == pre.row(pre.row_current as int));
                    assert(row@.len() == ca_spec@.vs.len());
                    assert(pre.row(pre.row_current as int) == view.row(out@.len() as int));
                }
                let fields = project_row(&row, reorder_map, requested);
                let ghost m0 = out@.len() as int;
                let ghost pre_out = out@;
                out.push(fields);
                proof {
                    assert forall|m: int, i: int|
                        #![trigger out@[m].deep_view()[i]]
                        0 <= m < out@.len() && 0 <= i < reorder_map@.len() implies out@[
                        m
                    ].deep_view()[i] == requested@.parameter_values[i][(
                    view.row(m)[reorder_map@[i] as int] as int) % (requested@.parameter_sizes[
                        i
                    ] as int)] by {
                        if m < m0 {
                            assert(out@[m] == pre_out[m]);
                        } else {
                            assert(out@[m] == fields);
                        }
                    }
                }
            },
        }
    }
    out
}

} // verus!

//! Trusted boundary to the general-purpose bzip2 codec used by the
//! entropy-coded payload format.

use vstd::prelude::*;

verus! {

/// The bzip2 compression of a byte stream at the fast level; a function of
/// the input bytes alone.
pub uninterp spec fn spec_bzip2_compressed(data: Seq<u8>) -> Seq<u8>;

/// Relies on bzip2::write::BzEncoder (level "fast"): `write_all` feeds the
/// whole buffer into the compressor and `finish` flushes it; writing into a
/// `Vec` sink cannot fail, and the output depends on the input bytes and the
/// level alone.
#[verifier::external_body]
pub(crate) fn bzip2_compress(data: &Vec<u8>) -> (r: Vec<u8>)
    ensures
        r@ == spec_bzip2_compressed(data@),
{
    let mut enc = bzip2::write::BzEncoder::new(Vec::new(), bzip2::Compression::fast());
    std::io::Write::write_all(&mut enc, data.as_slice())
        .expect("compressing into memory cannot fail");
    enc.finish().expect("compressing into memory cannot fail")
}

/// Relies on bzip2::read::BzDecoder: reading a stream produced by the
/// encoder to its end yields back exactly the bytes that were compressed;
/// on malformed input `read_to_end` reports an error.
#[verifier::external_body]
pub(crate) fn bzip2_decompress(data: &Vec<u8>) -> (r: Option<Vec<u8>>)
    ensures
        r is Some <== exists|orig: Seq<u8>| data@ == spec_bzip2_compressed(orig),
        r matches Some(d) ==> forall|orig: Seq<u8>|
            data@ == spec_bzip2_compressed(orig) ==> d@ == orig,
{
    let mut dec = bzip2::read::BzDecoder::new(data.as_slice());
    let mut out = Vec::new();
    match std::io::Read::read_to_end(&mut dec, &mut out) {
        Ok(_) => Some(out),
        Err(_) => None,
    }
}

} // verus!

use ca2::CA2Version;
use ca2::CompressedCA;
use ca2::decode_payload;
use ca2::compress_ca;
use ca2::encode_basic;
use ca2::encode_u16_stream;
use ca2::generate_bit_sizes;

fn records(rows: &[&[&str]]) -> Vec<Vec<String>> {
    rows.iter().map(|r| r.iter().map(|s| s.to_string()).collect()).collect()
}

#[test]
fn bit_width_table() {
    let vs: Vec<u16> = vec![2, 3, 4, 5, 8, 9, 16, 17, 256];
    let expected: Vec<u8> = vec![1, 2, 2, 3, 3, 4, 4, 5, 8];
    assert_eq!(generate_bit_sizes(&vs), expected);
}

#[test]
fn interned_rows_and_packed_payload() {
    // t=2, declared counts [2,3]; stored counts sorted descending are [3,2]
    let recs = records(&[&["a", "x"], &["b", "y"], &["a", "z"], &["b", "x"]]);
    let vs_in: Vec<u16> = vec![2, 3];
    let out = compress_ca(&recs, 2, &vs_in, CA2Version::Basic).unwrap();
    assert_eq!(out.ca_spec.n, 4);
    assert_eq!(out.ca_spec.t, 2);
    assert_eq!(out.ca_spec.vs, vec![3, 2]);
    assert_eq!(out.column_map, vec![1, 0]);
    let expected_rows: Vec<Vec<u16>> =
        vec![vec![0, 0], vec![1, 1], vec![2, 0], vec![0, 1]];
    assert_eq!(out.rows, expected_rows);
    // twelve stream bits, zero-padded to one 64-bit word
    assert_eq!(out.payload.len(), 8);
    // the stream bits are 000 011 100 001, MSB first
    assert_eq!(out.payload[0], 0b0000_1110);
    assert_eq!(out.payload[1], 0b0001_0000);
    for b in 2..8 {
        assert_eq!(out.payload[b], 0);
    }
}

#[test]
fn packed_payload_decodes_back() {
    let rows: Vec<Vec<u16>> = vec![vec![0, 0], vec![1, 1], vec![2, 0], vec![0, 1]];
    let bits: Vec<u8> = vec![2, 1];
    let payload = encode_basic(&rows, &bits);
    let mut it = CompressedCA::new(payload, bits, 4, CA2Version::Basic);
    let mut got: Vec<Vec<u16>> = Vec::new();
    while let Some(row) = it.next() {
        got.push(row);
    }
    assert_eq!(got, rows);
}

#[test]
fn truncated_packed_payload_stops_early() {
    let rows: Vec<Vec<u16>> = vec![vec![3, 1], vec![2, 0]];
    let bits: Vec<u8> = vec![2, 1];
    let payload = encode_basic(&rows, &bits);
    assert_eq!(payload.len(), 8);
    let truncated: Vec<u8> = payload[..7].to_vec();
    let mut it = CompressedCA::new(truncated, bits, 2, CA2Version::Basic);
    assert!(it.next().is_none());
    assert!(it.next().is_none());
}

#[test]
fn wide_values_roundtrip_in_word_stream() {
    let rows: Vec<Vec<u16>> = vec![vec![65535, 0, 7], vec![256, 99, 1]];
    let stream = encode_u16_stream(&rows, 3);
    assert_eq!(stream.len(), 12);
    assert_eq!(&stream[0..2], &[0xff, 0xff]);
    let mut it = CompressedCA::new(stream, vec![16, 1, 3], 2, CA2Version::Bzip2);
    assert_eq!(it.next().unwrap(), rows[0]);
    assert_eq!(it.next().unwrap(), rows[1]);
    assert!(it.next().is_none());
}

#[test]
fn entropy_coder_roundtrips_and_compresses() {
    let recs: Vec<Vec<String>> =
        (0..2000).map(|_| vec!["a".to_string(), "b".to_string()]).collect();
    let vs_in: Vec<u16> = vec![2, 2];
    let out = compress_ca(&recs, 2, &vs_in, CA2Version::Bzip2).unwrap();
    let stream = encode_u16_stream(&out.rows, 2);
    assert_eq!(stream.len(), 8000);
    // a repetitive stream must come out smaller: the codec is no identity
    assert!(out.payload.len() < stream.len());
    let unpacked = decode_payload(CA2Version::Bzip2, out.payload).unwrap();
    assert_eq!(unpacked, stream);
}

#[test]
fn entropy_coder_rejects_garbage() {
    let garbage: Vec<u8> = vec![1, 2, 3, 4, 5];
    assert!(decode_payload(CA2Version::Bzip2, garbage).is_none());
}

#[test]
fn both_versions_decode_to_the_same_rows() {
    // the same logical rows through both codecs
    let recs = records(&[
        &["p", "q"],
        &["r", "s"],
        &["t", "u"],
    ]);
    let vs_in: Vec<u16> = vec![4, 4];
    let basic = compress_ca(&recs, 2, &vs_in, CA2Version::Basic).unwrap();
    let bz = compress_ca(&recs, 2, &vs_in, CA2Version::Bzip2).unwrap();
    assert_eq!(basic.rows, bz.rows);
    let mut it1 = CompressedCA::new(
        basic.payload,
        generate_bit_sizes(&basic.ca_spec.vs),
        3,
        CA2Version::Basic,
    );
    let decompressed = decode_payload(CA2Version::Bzip2, bz.payload.clone()).unwrap();
    let mut it2 = CompressedCA::new(
        decompressed,
        generate_bit_sizes(&bz.ca_spec.vs),
        3,
        CA2Version::Bzip2,
    );
    for _ in 0..3 {
        assert_eq!(it1.next().unwrap(), it2.next().unwrap());
    }
    assert!(it1.next().is_none());
    assert!(it2.next().is_none());
}

#[test]
fn width_above_eight_bits_is_refused_by_the_packed_codec() {
    let recs = records(&[&["a", "b"]]);
    let vs_in: Vec<u16> = vec![300, 2];
    let err = match compress_ca(&recs, 2, &vs_in, CA2Version::Basic) {
        Ok(_) => panic!("a nine-bit column must be refused"),
        Err(e) => e,
    };
    assert_eq!(err, ca2::CompressError::WidthUnsupported);
    // the entropy-coded version takes the same counts
    assert!(compress_ca(&recs, 2, &vs_in, CA2Version::Bzip2).is_ok());
}

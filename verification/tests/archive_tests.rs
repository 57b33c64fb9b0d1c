use ca2::ArchiveEntry;
use ca2::CA2Version;
use ca2::CASpec;
use ca2::build_archive;
use ca2::ccmeta_bytes;
use ca2::find_index;
use ca2::parse_ccmeta;
use ca2::parse_index;

fn spec(version: CA2Version, n: u64, t: u8, vs: &[u16]) -> CASpec {
    CASpec { version, n, t, vs: vs.to_vec() }
}

fn assert_spec_eq(a: &CASpec, n: u64, t: u8, vs: &[u16]) {
    assert_eq!(a.n, n);
    assert_eq!(a.t, t);
    assert_eq!(a.vs, vs.to_vec());
}

#[test]
fn serialization_is_idempotent() {
    let s = spec(CA2Version::Bzip2, 7, 3, &[9, 4, 2]);
    let bytes = s.serialize();
    assert_eq!(bytes.len(), 13 + 2 * 3);
    let (back, used) = CASpec::unserialize(&bytes).unwrap();
    assert_eq!(used, bytes.len());
    assert_spec_eq(&back, 7, 3, &[9, 4, 2]);
    assert_eq!(back.version, CA2Version::Bzip2);
}

#[test]
fn unserialize_rejects_malformed_bytes() {
    // unknown version code
    let mut bytes = spec(CA2Version::Basic, 1, 2, &[2, 2]).serialize();
    bytes[1] = 9;
    assert!(CASpec::unserialize(&bytes).is_none());
    // missing terminator
    let whole = spec(CA2Version::Basic, 1, 2, &[2, 2]).serialize();
    assert!(CASpec::unserialize(&whole[..whole.len() - 2]).is_none());
    // too short for the fixed prefix
    assert!(CASpec::unserialize(&whole[..10]).is_none());
}

#[test]
fn compatibility_is_positional() {
    let req = spec(CA2Version::Basic, 0, 2, &[3, 3]);
    let small = spec(CA2Version::Basic, 12, 2, &[3, 3, 2]);
    let tight = spec(CA2Version::Basic, 9, 2, &[3, 3, 3]);
    assert!(req.is_compatible(&small));
    assert!(req.is_compatible(&tight));
    // stored strength below the request is refused
    let low = spec(CA2Version::Basic, 9, 1, &[3, 3]);
    let req3 = spec(CA2Version::Basic, 0, 2, &[3, 3]);
    assert!(!req3.is_compatible(&low));
    // a stored column count below the requested one is refused
    let short = spec(CA2Version::Basic, 9, 2, &[3, 2]);
    assert!(!req3.is_compatible(&short));
}

#[test]
fn archive_offsets_start_after_the_prepended_blob() {
    let prepend: Vec<u8> = vec![0xAA; 100];
    let entries = vec![
        ArchiveEntry {
            ca_spec: spec(CA2Version::Basic, 5, 2, &[2, 2]),
            payload: vec![1, 2, 3, 4],
        },
    ];
    let archive = build_archive(&prepend, entries);
    let pos = find_index(&archive).unwrap();
    assert_eq!(pos, 100 + 4 + 17);
    let listing = parse_index(&archive, pos).unwrap();
    assert_eq!(listing.len(), 1);
    assert_eq!(listing[0].0, 100);
    assert_spec_eq(&listing[0].1, 5, 2, &[2, 2]);
}

#[test]
fn archive_entries_are_sorted_by_row_count() {
    let prepend: Vec<u8> = Vec::new();
    let entries = vec![
        ArchiveEntry {
            ca_spec: spec(CA2Version::Basic, 12, 2, &[3, 3, 2]),
            payload: vec![7; 10],
        },
        ArchiveEntry {
            ca_spec: spec(CA2Version::Bzip2, 9, 2, &[3, 3, 3]),
            payload: vec![8; 6],
        },
    ];
    let archive = build_archive(&prepend, entries);
    let pos = find_index(&archive).unwrap();
    let listing = parse_index(&archive, pos).unwrap();
    assert_eq!(listing.len(), 2);
    // the 9-row array now comes first, at offset 0
    assert_eq!(listing[0].0, 0);
    assert_spec_eq(&listing[0].1, 9, 2, &[3, 3, 3]);
    assert_eq!(listing[1].0, 6);
    assert_spec_eq(&listing[1].1, 12, 2, &[3, 3, 2]);
    assert_eq!(listing[1].1.version, CA2Version::Basic);
}

#[test]
fn index_scan_survives_magic_bytes_in_payloads() {
    // the payload holds every byte value, the prefix byte included
    let mut payload: Vec<u8> = Vec::new();
    for b in 0..512u32 {
        payload.push((b % 256) as u8);
    }
    let prepend: Vec<u8> = vec![b'_'; 64];
    let entries = vec![
        ArchiveEntry { ca_spec: spec(CA2Version::Basic, 1, 2, &[2, 2]), payload },
    ];
    let archive = build_archive(&prepend, entries);
    let pos = find_index(&archive).unwrap();
    assert_eq!(pos, 64 + 512 + 17);
    let listing = parse_index(&archive, pos).unwrap();
    assert_eq!(listing.len(), 1);
    assert_eq!(listing[0].0, 64);
}

#[test]
fn index_scan_survives_payloads_of_underscores() {
    let payload: Vec<u8> = vec![b'_'; 3000];
    let entries = vec![
        ArchiveEntry { ca_spec: spec(CA2Version::Basic, 2, 2, &[2, 2]), payload },
    ];
    let archive = build_archive(&Vec::new(), entries);
    let pos = find_index(&archive).unwrap();
    assert_eq!(pos, 3000 + 17);
    assert!(parse_index(&archive, pos).is_some());
}

#[test]
fn missing_index_is_reported() {
    let data: Vec<u8> = vec![0x11; 500];
    assert!(find_index(&data).is_none());
}

#[test]
fn truncated_index_record_is_fatal() {
    let entries = vec![
        ArchiveEntry { ca_spec: spec(CA2Version::Basic, 2, 2, &[2, 2]), payload: vec![9; 8] },
    ];
    let mut archive = build_archive(&Vec::new(), entries);
    let pos = find_index(&archive).unwrap();
    archive.pop();
    assert!(parse_index(&archive, pos).is_none());
}

#[test]
fn ccmeta_files_roundtrip() {
    let s = spec(CA2Version::Bzip2, 42, 2, &[5, 4, 3]);
    let bytes = ccmeta_bytes(&s);
    assert_eq!(&bytes[0..4], b" CCA");
    let back = parse_ccmeta(&bytes).unwrap();
    assert_spec_eq(&back, 42, 2, &[5, 4, 3]);
    // wrong magic
    let mut bad = bytes.clone();
    bad[0] = b'X';
    assert!(parse_ccmeta(&bad).is_none());
    // too short
    assert!(parse_ccmeta(&bytes[..3].to_vec()).is_none());
}

#[test]
fn extreme_descriptor_values_roundtrip() {
    let s = spec(CA2Version::Basic, u64::MAX, u8::MAX, &[65535]);
    let bytes = s.serialize();
    let (back, used) = CASpec::unserialize(&bytes).unwrap();
    assert_eq!(used, bytes.len());
    assert_eq!(back.n, u64::MAX);
    assert_eq!(back.t, u8::MAX);
    assert_eq!(back.vs, vec![65535]);
}

#[test]
fn an_empty_count_list_serializes_to_the_fixed_prefix() {
    let s = spec(CA2Version::Basic, 3, 2, &[]);
    let bytes = s.serialize();
    assert_eq!(bytes.len(), 13);
    let (back, used) = CASpec::unserialize(&bytes).unwrap();
    assert_eq!(used, 13);
    assert!(back.vs.is_empty());
}

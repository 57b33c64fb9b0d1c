use ca2::AvailableCA;
use ca2::CA2Version;
use ca2::CASpec;
use ca2::RequestedCA;
use ca2::decode_payload;
use ca2::compress_ca;
use ca2::decode_rows;
use ca2::generate_column_map;
use ca2::generate_reorder_map;
use ca2::project_row;
use ca2::render_csv_line;
use ca2::select_best;
use ca2::sort_desc;

fn spec(version: CA2Version, n: u64, t: u8, vs: &[u16]) -> CASpec {
    CASpec { version, n, t, vs: vs.to_vec() }
}

fn strings(v: &[&str]) -> Vec<String> {
    v.iter().map(|s| s.to_string()).collect()
}

fn request(names: &[&str], values: &[&[&str]], t: u8) -> RequestedCA {
    let parameter_names = strings(names);
    let parameter_values: Vec<Vec<String>> = values.iter().map(|v| strings(v)).collect();
    let parameter_sizes: Vec<u16> = values.iter().map(|v| v.len() as u16).collect();
    let vs = sort_desc(&parameter_sizes);
    RequestedCA {
        parameter_names,
        parameter_values,
        parameter_sizes,
        ca_spec: CASpec { version: CA2Version::Bzip2, n: 0, t, vs },
    }
}

#[test]
fn smallest_compatible_array_wins() {
    let available = vec![
        AvailableCA { archive: 0, offset: 0, ca_spec: spec(CA2Version::Basic, 12, 2, &[3, 3, 2]) },
        AvailableCA { archive: 1, offset: 64, ca_spec: spec(CA2Version::Bzip2, 9, 2, &[3, 3, 3]) },
    ];
    let req = spec(CA2Version::Bzip2, 0, 2, &[3, 3]);
    assert_eq!(select_best(&available, &req), Some(1));
}

#[test]
fn first_of_equal_row_counts_wins() {
    let available = vec![
        AvailableCA { archive: 0, offset: 0, ca_spec: spec(CA2Version::Basic, 9, 2, &[3, 3]) },
        AvailableCA { archive: 0, offset: 9, ca_spec: spec(CA2Version::Basic, 9, 2, &[4, 4]) },
    ];
    let req = spec(CA2Version::Basic, 0, 2, &[3, 3]);
    assert_eq!(select_best(&available, &req), Some(0));
}

#[test]
fn incompatible_archives_yield_nothing() {
    let available = vec![
        AvailableCA { archive: 0, offset: 0, ca_spec: spec(CA2Version::Basic, 9, 2, &[2, 2]) },
    ];
    let req = spec(CA2Version::Basic, 0, 3, &[2, 2]);
    assert_eq!(select_best(&available, &req), None);
}

#[test]
fn reorder_map_takes_the_leftmost_wide_enough_column() {
    let sizes: Vec<u16> = vec![2, 3];
    let stored = spec(CA2Version::Basic, 5, 2, &[5, 4, 3]);
    assert_eq!(generate_reorder_map(&sizes, &stored), Some(vec![0, 1]));
}

#[test]
fn reorder_map_can_fail_on_unsorted_requests() {
    // both requested columns need the one stored column wide enough for 3
    let sizes: Vec<u16> = vec![2, 3];
    let stored = spec(CA2Version::Basic, 5, 2, &[3, 2]);
    assert_eq!(generate_reorder_map(&sizes, &stored), None);
}

#[test]
fn column_map_fails_without_a_matching_count() {
    let vs_in: Vec<u16> = vec![2, 3];
    let vs_out: Vec<u16> = vec![3, 3];
    assert!(generate_column_map(&vs_in, &vs_out).is_none());
    let ok_out: Vec<u16> = vec![3, 2];
    assert_eq!(generate_column_map(&vs_in, &ok_out), Some(vec![1, 0]));
}

#[test]
fn projection_folds_values_modulo_the_requested_size() {
    let req = request(&["p", "q"], &[&["a", "b"], &["x", "y", "z"]], 2);
    let reorder: Vec<usize> = vec![0, 1];
    // stored value 3 with requested size 2 folds to index 1
    let row: Vec<u16> = vec![3, 2];
    let fields = project_row(&row, &reorder, &req);
    assert_eq!(fields, strings(&["b", "z"]));
    // values already in range stay themselves
    let row2: Vec<u16> = vec![1, 0];
    assert_eq!(project_row(&row2, &reorder, &req), strings(&["b", "x"]));
}

#[test]
fn csv_lines_join_fields_with_commas() {
    assert_eq!(render_csv_line(&strings(&["a", "b", "c"])), "a,b,c\n");
    assert_eq!(render_csv_line(&strings(&["solo"])), "solo\n");
    assert_eq!(render_csv_line(&Vec::new()), "\n");
}

#[test]
fn compressing_and_extracting_returns_the_input() {
    let rows_in: Vec<Vec<String>> = vec![
        strings(&["a", "x"]),
        strings(&["b", "y"]),
        strings(&["a", "z"]),
        strings(&["b", "x"]),
    ];
    let vs_in: Vec<u16> = vec![2, 3];
    let out = compress_ca(&rows_in, 2, &vs_in, CA2Version::Bzip2).unwrap();
    // request exactly the compressor's spec: names and alphabets follow the
    // stored column order, which reads input columns through the map
    let names = strings(&["c1", "c0"]);
    let values: Vec<Vec<String>> = out
        .column_map
        .iter()
        .map(|j| out.alphabets[*j].clone())
        .collect();
    let sizes: Vec<u16> = values.iter().map(|v| v.len() as u16).collect();
    let requested = RequestedCA {
        parameter_names: names,
        parameter_values: values,
        parameter_sizes: sizes.clone(),
        ca_spec: CASpec { version: CA2Version::Bzip2, n: 0, t: 2, vs: sort_desc(&sizes) },
    };
    let reorder = generate_reorder_map(&sizes, &out.ca_spec).unwrap();
    let data = decode_payload(CA2Version::Bzip2, out.payload.clone()).unwrap();
    let decoded = decode_rows(data, &out.ca_spec, &requested, &reorder);
    // stored column order is [input column 1, input column 0]
    let expected: Vec<Vec<String>> = vec![
        strings(&["x", "a"]),
        strings(&["y", "b"]),
        strings(&["z", "a"]),
        strings(&["x", "b"]),
    ];
    assert_eq!(decoded, expected);
}

#[test]
fn packed_version_extracts_identically() {
    let rows_in: Vec<Vec<String>> = vec![
        strings(&["m", "n"]),
        strings(&["o", "n"]),
        strings(&["m", "p"]),
    ];
    let vs_in: Vec<u16> = vec![4, 4];
    let basic = compress_ca(&rows_in, 2, &vs_in, CA2Version::Basic).unwrap();
    let bz = compress_ca(&rows_in, 2, &vs_in, CA2Version::Bzip2).unwrap();
    let values: Vec<Vec<String>> = basic
        .column_map
        .iter()
        .map(|j| basic.alphabets[*j].clone())
        .collect();
    let sizes: Vec<u16> = vec![2, 2];
    let requested = RequestedCA {
        parameter_names: strings(&["a", "b"]),
        parameter_values: values,
        parameter_sizes: sizes.clone(),
        ca_spec: CASpec { version: CA2Version::Basic, n: 0, t: 2, vs: sizes.clone() },
    };
    let reorder = generate_reorder_map(&sizes, &basic.ca_spec).unwrap();
    let d1 = decode_rows(basic.payload, &basic.ca_spec, &requested, &reorder);
    let reorder2 = generate_reorder_map(&sizes, &bz.ca_spec).unwrap();
    let data2 = decode_payload(CA2Version::Bzip2, bz.payload.clone()).unwrap();
    let d2 = decode_rows(data2, &bz.ca_spec, &requested, &reorder2);
    assert_eq!(d1, d2);
    assert_eq!(d1, rows_in);
}

#[test]
fn nothing_is_selected_from_empty_archives() {
    let available: Vec<AvailableCA> = Vec::new();
    let req = spec(CA2Version::Basic, 0, 2, &[2, 2]);
    assert_eq!(select_best(&available, &req), None);
}

#[test]
fn truncated_word_stream_yields_fewer_rows() {
    let rows_in: Vec<Vec<String>> = vec![
        strings(&["a", "b"]),
        strings(&["c", "d"]),
    ];
    let vs_in: Vec<u16> = vec![2, 2];
    let out = compress_ca(&rows_in, 2, &vs_in, CA2Version::Bzip2).unwrap();
    let stream = decode_payload(CA2Version::Bzip2, out.payload.clone()).unwrap();
    // drop the last byte of the decompressed stream: the second row is gone
    let cut: Vec<u8> = stream[..stream.len() - 1].to_vec();
    let values: Vec<Vec<String>> = out
        .column_map
        .iter()
        .map(|j| out.alphabets[*j].clone())
        .collect();
    let sizes: Vec<u16> = vec![2, 2];
    let requested = RequestedCA {
        parameter_names: strings(&["p", "q"]),
        parameter_values: values,
        parameter_sizes: sizes.clone(),
        ca_spec: CASpec { version: CA2Version::Bzip2, n: 0, t: 2, vs: sizes.clone() },
    };
    let reorder = generate_reorder_map(&sizes, &out.ca_spec).unwrap();
    let decoded = decode_rows(cut, &out.ca_spec, &requested, &reorder);
    assert_eq!(decoded.len(), 1);
    assert_eq!(decoded[0], strings(&["a", "b"]));
}

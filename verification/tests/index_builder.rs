use circuit_records::circuit::Circuit;
use circuit_records::codec::{
    ascii_entry_to_bytes, u8_entry_to_bytes, u16_entry_to_bytes, unique_entry_to_bytes,
};
use circuit_records::error::ConversionError;
use circuit_records::fixedstr::fixedascii_from_str;
use circuit_records::indices::{Indices, build_indices, label_path_component};

fn record(uuid: &str, domain: &str, suffix: &str, day: u8, port: u16, len: u16) -> Circuit {
    let mut c = Circuit::empty();
    c.uuid = fixedascii_from_str(&uuid.as_bytes().to_vec(), 32).unwrap();
    c.domain = fixedascii_from_str(&domain.as_bytes().to_vec(), 44).unwrap();
    c.shortest_private_suffix = fixedascii_from_str(&suffix.as_bytes().to_vec(), 44).unwrap();
    c.day = day;
    c.port = port;
    c.len = len;
    c
}

fn sample_records() -> Vec<Circuit> {
    vec![
        record("id-c", "one.example", "", 2, 443, 10),
        record("id-a", "two.example", "example.net", 1, 80, 10),
        record("id-b", "one.example", "", 2, 443, 7),
        record("id-d", "three.example", "example.net", 1, 8080, 10),
    ]
}

#[test]
fn identifier_index_is_sorted_and_total() {
    let records = sample_records();
    let ix = build_indices(&records).unwrap();
    assert_eq!(ix.id.len(), 4);
    let keys: Vec<Vec<u8>> = ix.id.iter().map(|e| e.value.decode()).collect();
    assert_eq!(
        keys,
        vec![
            b"id-a".to_vec(),
            b"id-b".to_vec(),
            b"id-c".to_vec(),
            b"id-d".to_vec()
        ]
    );
    let positions: Vec<u32> = ix.id.iter().map(|e| e.index).collect();
    assert_eq!(positions, vec![1, 2, 0, 3]);
}

#[test]
fn label_index_groups_by_resolved_label() {
    let records = sample_records();
    let ix = build_indices(&records).unwrap();
    let labels: Vec<Vec<u8>> = ix.label.iter().map(|e| e.value.decode()).collect();
    assert_eq!(
        labels,
        vec![b"example.net".to_vec(), b"one.example".to_vec()]
    );
    assert_eq!(ix.label[0].indexarr, vec![1, 3]);
    assert_eq!(ix.label[1].indexarr, vec![0, 2]);
}

#[test]
fn day_port_len_indices_group_and_sort() {
    let records = sample_records();
    let ix = build_indices(&records).unwrap();
    let days: Vec<u8> = ix.day.iter().map(|e| e.value).collect();
    assert_eq!(days, vec![1, 2]);
    assert_eq!(ix.day[0].indexarr, vec![1, 3]);
    assert_eq!(ix.day[1].indexarr, vec![0, 2]);
    let ports: Vec<u16> = ix.port.iter().map(|e| e.value).collect();
    assert_eq!(ports, vec![80, 443, 8080]);
    assert_eq!(ix.port[1].indexarr, vec![0, 2]);
    let lens: Vec<u16> = ix.len.iter().map(|e| e.value).collect();
    assert_eq!(lens, vec![7, 10]);
    assert_eq!(ix.len[1].indexarr, vec![0, 1, 3]);
}

fn assert_partition(groups: &[Vec<u32>], n: u32) {
    let mut seen = vec![false; n as usize];
    for g in groups {
        for &p in g {
            assert!(p < n);
            assert!(!seen[p as usize], "position listed twice");
            seen[p as usize] = true;
        }
    }
    assert!(seen.iter().all(|&b| b), "position missing from index");
}

#[test]
fn every_index_partitions_the_positions() {
    let records = sample_records();
    let n = records.len() as u32;
    let ix = build_indices(&records).unwrap();
    assert_partition(
        &ix.id.iter().map(|e| vec![e.index]).collect::<Vec<_>>(),
        n,
    );
    assert_partition(
        &ix.label.iter().map(|e| e.indexarr.clone()).collect::<Vec<_>>(),
        n,
    );
    assert_partition(
        &ix.day.iter().map(|e| e.indexarr.clone()).collect::<Vec<_>>(),
        n,
    );
    assert_partition(
        &ix.port.iter().map(|e| e.indexarr.clone()).collect::<Vec<_>>(),
        n,
    );
    assert_partition(
        &ix.len.iter().map(|e| e.indexarr.clone()).collect::<Vec<_>>(),
        n,
    );
}

#[test]
fn duplicate_identifier_fails() {
    let records = vec![
        record("same-id", "one.example", "", 1, 80, 1),
        record("other-id", "two.example", "", 1, 80, 1),
        record("same-id", "three.example", "", 2, 443, 2),
    ];
    let r = build_indices(&records);
    match r {
        Err(ConversionError::DuplicateIdentifier { key }) => {
            let mut want = b"same-id".to_vec();
            want.resize(32, 0);
            assert_eq!(key, want);
        }
        _ => panic!("expected DuplicateIdentifier"),
    }
}

#[test]
fn empty_record_sequence_builds_empty_indices() {
    let ix = build_indices(&Vec::new()).unwrap();
    assert!(ix.id.is_empty());
    assert!(ix.label.is_empty());
    assert!(ix.day.is_empty());
    assert!(ix.port.is_empty());
    assert!(ix.len.is_empty());
}

fn indices_bytes(ix: &Indices) -> Vec<u8> {
    let mut out = Vec::new();
    for e in &ix.id {
        out.extend_from_slice(&unique_entry_to_bytes(e));
    }
    for e in &ix.label {
        out.extend_from_slice(&ascii_entry_to_bytes(e));
    }
    for e in &ix.day {
        out.extend_from_slice(&u8_entry_to_bytes(e));
    }
    for e in &ix.port {
        out.extend_from_slice(&u16_entry_to_bytes(e));
    }
    for e in &ix.len {
        out.extend_from_slice(&u16_entry_to_bytes(e));
    }
    out
}

#[test]
fn rebuilding_yields_byte_identical_indices() {
    let ix1 = build_indices(&sample_records()).unwrap();
    let ix2 = build_indices(&sample_records()).unwrap();
    assert_eq!(indices_bytes(&ix1), indices_bytes(&ix2));
}

#[test]
fn label_path_component_substitutes_separators() {
    let f = fixedascii_from_str(&b"a/b/c.example".to_vec(), 16).unwrap();
    let mut want = b"a_b_c.example".to_vec();
    want.resize(16, 0);
    assert_eq!(label_path_component(&f), want);
}

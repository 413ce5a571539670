use circuit_records::cell::Cell;
use circuit_records::circuit::Circuit;
use circuit_records::codec::{
    CIRCUIT_BYTES, ascii_entry_to_bytes, cell_from_bytes, cell_to_bytes, circuit_from_bytes,
    circuit_to_bytes, grouped_entry_from_bytes, unique_entry_from_bytes, unique_entry_to_bytes,
};
use circuit_records::codes::{CellCommand, Direction, RelayCommand};
use circuit_records::error::ConversionError;
use circuit_records::fixedstr::fixedascii_from_str;
use circuit_records::indices::{IndexArrayEntry, IndexEntry};

#[test]
fn cell_layout_and_round_trip() {
    let c = Cell {
        time: 0x0102030405060708,
        direction: Direction::SERVER_TO_CLIENT,
        cell_cmd: CellCommand::RELAY,
        relay_cmd: RelayCommand::DATA,
    };
    let b = cell_to_bytes(&c);
    assert_eq!(b.len(), 11);
    assert_eq!(
        b,
        vec![0x08, 0x07, 0x06, 0x05, 0x04, 0x03, 0x02, 0x01, 0xFF, 3, 2]
    );
    let back = cell_from_bytes(&b, 0).unwrap();
    assert_eq!(back, c);
}

#[test]
fn cell_decode_rejects_bad_codes() {
    let c = Cell::empty();
    let mut b = cell_to_bytes(&c);
    b[9] = 50;
    assert!(matches!(
        cell_from_bytes(&b, 0),
        Err(ConversionError::UnrecognizedCode { .. })
    ));
}

#[test]
fn circuit_round_trip() {
    let mut c = Circuit::empty();
    c.uuid = fixedascii_from_str(&b"circuit-42".to_vec(), 32).unwrap();
    c.domain = fixedascii_from_str(&b"example.com".to_vec(), 44).unwrap();
    c.shortest_private_suffix = fixedascii_from_str(&b"example.com".to_vec(), 44).unwrap();
    c.day = 9;
    c.port = 443;
    c.len = 2;
    c.cells[0] = Cell {
        time: 120_000_000,
        direction: Direction::CLIENT_TO_SERVER,
        cell_cmd: CellCommand::RELAY,
        relay_cmd: RelayCommand::DATA,
    };
    c.cells[1] = Cell {
        time: 340_000_000,
        direction: Direction::SERVER_TO_CLIENT,
        cell_cmd: CellCommand::RELAY,
        relay_cmd: RelayCommand::END,
    };
    let b = circuit_to_bytes(&c);
    assert_eq!(b.len(), CIRCUIT_BYTES);
    let back = circuit_from_bytes(&b).unwrap();
    assert_eq!(back.uuid.raw_bytes(), c.uuid.raw_bytes());
    assert_eq!(back.domain.raw_bytes(), c.domain.raw_bytes());
    assert_eq!(
        back.shortest_private_suffix.raw_bytes(),
        c.shortest_private_suffix.raw_bytes()
    );
    assert_eq!(back.day, c.day);
    assert_eq!(back.port, c.port);
    assert_eq!(back.len, c.len);
    assert_eq!(back.cells, c.cells);
}

#[test]
fn circuit_decode_rejects_bad_length() {
    let c = Circuit::empty();
    let mut b = circuit_to_bytes(&c);
    b[123] = 0xFF;
    b[124] = 0xFF;
    assert!(matches!(
        circuit_from_bytes(&b),
        Err(ConversionError::MalformedInput)
    ));
}

#[test]
fn circuit_decode_rejects_stray_cell_beyond_length() {
    let c = Circuit::empty();
    let mut b = circuit_to_bytes(&c);
    b[125] = 1;
    assert!(matches!(
        circuit_from_bytes(&b),
        Err(ConversionError::MalformedInput)
    ));
}

#[test]
fn unique_entry_round_trip() {
    let e = IndexEntry {
        value: fixedascii_from_str(&b"some-identifier".to_vec(), 32).unwrap(),
        index: 0xDEADBEEF,
    };
    let b = unique_entry_to_bytes(&e);
    assert_eq!(b.len(), 36);
    let (value, pos) = unique_entry_from_bytes(&b, 32);
    assert_eq!(value, e.value.raw_bytes());
    assert_eq!(pos, 0xDEADBEEF);
}

#[test]
fn grouped_entry_round_trip() {
    let e = IndexArrayEntry {
        value: fixedascii_from_str(&b"example.net".to_vec(), 44).unwrap(),
        indexarr: vec![3, 14, 159],
    };
    let b = ascii_entry_to_bytes(&e);
    assert_eq!(b.len(), 44 + 4 + 12);
    let (value, positions) = grouped_entry_from_bytes(&b, 44).unwrap();
    assert_eq!(value, e.value.raw_bytes());
    assert_eq!(positions, vec![3, 14, 159]);
}

#[test]
fn grouped_entry_rejects_wrong_count() {
    let e = IndexArrayEntry {
        value: fixedascii_from_str(&b"k".to_vec(), 44).unwrap(),
        indexarr: vec![1, 2],
    };
    let mut b = ascii_entry_to_bytes(&e);
    b[44] = 9;
    assert!(matches!(
        grouped_entry_from_bytes(&b, 44),
        Err(ConversionError::MalformedInput)
    ));
}

use circuit_records::cell::Cell;
use circuit_records::circuit::{AugmentedCircuit, CIRCUIT_CELLS, Circuit};
use circuit_records::codes::{CellCommand, Direction, RelayCommand};
use circuit_records::decode::{CellArity, decode_line};
use circuit_records::error::ConversionError;
use circuit_records::fixedstr::fixedascii_from_str;

#[test]
fn empty_cell_is_all_padding() {
    let c = Cell::empty();
    assert_eq!(c.time, 0);
    assert_eq!(c.direction, Direction::PADDING);
    assert_eq!(c.cell_cmd, CellCommand::PADDING);
    assert_eq!(c.relay_cmd, RelayCommand::NOT_PRESENT);
}

#[test]
fn empty_circuit_is_zeroed() {
    let c = Circuit::empty();
    assert!(c.uuid.is_empty());
    assert!(c.domain.is_empty());
    assert!(c.shortest_private_suffix.is_empty());
    assert_eq!(c.day, 0);
    assert_eq!(c.port, 0);
    assert_eq!(c.len, 0);
    assert_eq!(c.cells.len(), CIRCUIT_CELLS);
    assert!(c.cells.iter().all(|&x| x == Cell::empty()));
}

#[test]
fn empty_augmented_circuit_is_zeroed() {
    let a = AugmentedCircuit::empty();
    assert!(a.uuid.is_empty());
    assert!(a.uuid_source.is_empty());
    assert_eq!(a.aug_index, 0);
    assert_eq!(a.len, 0);
    assert_eq!(a.cells.len(), CIRCUIT_CELLS);
}

#[test]
fn label_prefers_suffix_over_domain() {
    let mut c = Circuit::empty();
    c.domain = fixedascii_from_str(&b"www.example.org".to_vec(), 44).unwrap();
    assert_eq!(c.label().decode(), b"www.example.org".to_vec());
    c.shortest_private_suffix = fixedascii_from_str(&b"example.org".to_vec(), 44).unwrap();
    assert_eq!(c.label().decode(), b"example.org".to_vec());
}

#[test]
fn empty_object_lacks_required_fields() {
    let id = fixedascii_from_str(&b"some-id".to_vec(), 32).unwrap();
    let r = decode_line(&b"{}".to_vec(), CellArity::Four, None, &id);
    assert!(matches!(r, Err(ConversionError::MalformedInput)));
}

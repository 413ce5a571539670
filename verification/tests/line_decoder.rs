use circuit_records::cell::Cell;
use circuit_records::circuit::{CIRCUIT_CELLS, Circuit};
use circuit_records::codes::{CellCommand, Direction, RelayCommand};
use circuit_records::decode::{CellArity, decode_line};
use circuit_records::error::{CodeField, ConversionError};
use circuit_records::fixedstr::{FixedAscii, fixedascii_from_str};

fn test_id() -> FixedAscii {
    fixedascii_from_str(&b"circuit-0001".to_vec(), 32).unwrap()
}

fn decode(line: &str) -> Result<Option<Circuit>, ConversionError> {
    decode_line(&line.as_bytes().to_vec(), CellArity::Four, None, &test_id())
}

fn decode_windowed(
    line: &str,
    window: (u64, u64),
) -> Result<Option<Circuit>, ConversionError> {
    decode_line(
        &line.as_bytes().to_vec(),
        CellArity::Four,
        Some(window),
        &test_id(),
    )
}

const EXAMPLE: &str = r#"{"day":3,"domain":"example.com","shortest_private_suffix":null,"port":443,"cells":[[0.12,0,3,2]]}"#;

#[test]
fn end_to_end_example() {
    let c = decode(EXAMPLE).unwrap().unwrap();
    let mut want_domain = b"example.com".to_vec();
    want_domain.resize(44, 0);
    assert_eq!(c.domain.raw_bytes(), want_domain);
    assert_eq!(c.shortest_private_suffix.raw_bytes(), vec![0u8; 44]);
    assert!(c.shortest_private_suffix.is_empty());
    assert_eq!(c.day, 3);
    assert_eq!(c.port, 443);
    assert_eq!(c.len, 1);
    assert_eq!(c.cells.len(), CIRCUIT_CELLS);
    let first = c.cells[0];
    assert_eq!(first.time, 120_000_000);
    assert_eq!(first.direction, Direction::CLIENT_TO_SERVER);
    assert_eq!(first.cell_cmd, CellCommand::RELAY);
    assert_eq!(first.relay_cmd, RelayCommand::DATA);
    for k in 1..CIRCUIT_CELLS {
        assert_eq!(c.cells[k], Cell::empty());
    }
    assert_eq!(c.label().decode(), b"example.com".to_vec());
    assert_eq!(c.uuid.raw_bytes(), test_id().raw_bytes());
}

#[test]
fn prefixed_line_decodes_the_same() {
    let mut line = String::from("650 GWF ");
    line.push_str(EXAMPLE);
    let c = decode(&line).unwrap().unwrap();
    assert_eq!(c.day, 3);
    assert_eq!(c.port, 443);
}

#[test]
fn suffix_string_becomes_label() {
    let line = r#"{"domain":"www.example.co.uk","shortest_private_suffix":"example.co.uk","port":80,"cells":[]}"#;
    let c = decode(line).unwrap().unwrap();
    assert_eq!(c.label().decode(), b"example.co.uk".to_vec());
    assert_eq!(c.len, 0);
    assert_eq!(c.day, 0);
}

#[test]
fn empty_and_whitespace_lines_skip() {
    assert!(decode("").unwrap().is_none());
    assert!(decode("   \t  ").unwrap().is_none());
    assert!(decode("650 GWF    ").unwrap().is_none());
}

#[test]
fn time_filter_keeps_and_buckets() {
    const T0: u64 = 1_000_000_000_000_000_000;
    const DAY: u64 = 86_400_000_000_000;
    let window = (T0, T0 + DAY - 1);
    let kept = r#"{"domain":"a.example","shortest_private_suffix":null,"port":443,"time_created":1000003600,"cells":[]}"#;
    let c = decode_windowed(kept, window).unwrap().unwrap();
    assert_eq!(c.day, 1);
}

#[test]
fn time_filter_drops_outside_window() {
    const T0: u64 = 1_000_000_000_000_000_000;
    const DAY: u64 = 86_400_000_000_000;
    let window = (T0, T0 + DAY - 1);
    let dropped = r#"{"domain":"a.example","shortest_private_suffix":null,"port":443,"time_created":1000090000,"cells":[]}"#;
    assert!(decode_windowed(dropped, window).unwrap().is_none());
    let before = r#"{"domain":"a.example","shortest_private_suffix":null,"port":443,"time_created":999999999,"cells":[]}"#;
    assert!(decode_windowed(before, window).unwrap().is_none());
}

#[test]
fn window_requires_time_created() {
    let line = r#"{"domain":"a.example","shortest_private_suffix":null,"port":443,"cells":[]}"#;
    let r = decode_windowed(line, (0, u64::MAX));
    assert!(matches!(r, Err(ConversionError::MalformedInput)));
}

#[test]
fn five_element_arity() {
    let line = r#"{"domain":"a.example","shortest_private_suffix":null,"port":443,"cells":[[1.5,7,1,3,2]]}"#;
    let c = decode_line(
        &line.as_bytes().to_vec(),
        CellArity::Five,
        None,
        &test_id(),
    )
    .unwrap()
    .unwrap();
    assert_eq!(c.len, 1);
    let first = c.cells[0];
    assert_eq!(first.time, 1_500_000_000);
    assert_eq!(first.direction, Direction::SERVER_TO_CLIENT);
    assert_eq!(first.cell_cmd, CellCommand::RELAY);
    assert_eq!(first.relay_cmd, RelayCommand::DATA);
}

#[test]
fn wrong_arity_is_malformed() {
    let line = r#"{"domain":"a.example","shortest_private_suffix":null,"port":443,"cells":[[1.5,0,3,2,5]]}"#;
    let r = decode(line);
    assert!(matches!(r, Err(ConversionError::MalformedInput)));
}

#[test]
fn unrecognized_net_op() {
    let line = r#"{"domain":"a.example","shortest_private_suffix":null,"port":443,"cells":[[0.5,2,3,2]]}"#;
    assert!(matches!(
        decode(line),
        Err(ConversionError::UnrecognizedCode { field: CodeField::Direction, code: 2 })
    ));
}

#[test]
fn unrecognized_cell_command() {
    let line = r#"{"domain":"a.example","shortest_private_suffix":null,"port":443,"cells":[[0.5,0,50,2]]}"#;
    assert!(matches!(
        decode(line),
        Err(ConversionError::UnrecognizedCode { field: CodeField::CellCommand, code: 50 })
    ));
}

#[test]
fn unrecognized_relay_command() {
    let line = r#"{"domain":"a.example","shortest_private_suffix":null,"port":443,"cells":[[0.5,0,3,99]]}"#;
    assert!(matches!(
        decode(line),
        Err(ConversionError::UnrecognizedCode { field: CodeField::RelayCommand, code: 99 })
    ));
}

#[test]
fn missing_required_fields() {
    assert!(matches!(
        decode(r#"{"shortest_private_suffix":null,"port":443,"cells":[]}"#),
        Err(ConversionError::MalformedInput)
    ));
    assert!(matches!(
        decode(r#"{"domain":"a.example","port":443,"cells":[]}"#),
        Err(ConversionError::MalformedInput)
    ));
    assert!(matches!(
        decode(r#"{"domain":"a.example","shortest_private_suffix":null,"cells":[]}"#),
        Err(ConversionError::MalformedInput)
    ));
    assert!(matches!(
        decode(r#"{"domain":"a.example","shortest_private_suffix":null,"port":443}"#),
        Err(ConversionError::MalformedInput)
    ));
}

#[test]
fn oversized_port_and_day() {
    assert!(matches!(
        decode(r#"{"domain":"a.example","shortest_private_suffix":null,"port":70000,"cells":[]}"#),
        Err(ConversionError::MalformedInput)
    ));
    assert!(matches!(
        decode(
            r#"{"day":300,"domain":"a.example","shortest_private_suffix":null,"port":443,"cells":[]}"#
        ),
        Err(ConversionError::MalformedInput)
    ));
}

#[test]
fn duplicate_member_is_malformed() {
    let line = r#"{"port":1,"port":2,"domain":"a.example","shortest_private_suffix":null,"cells":[]}"#;
    assert!(matches!(decode(line), Err(ConversionError::MalformedInput)));
}

#[test]
fn unknown_member_is_malformed() {
    let line = r#"{"domain":"a.example","shortest_private_suffix":null,"port":443,"cells":[],"extra":1}"#;
    assert!(matches!(decode(line), Err(ConversionError::MalformedInput)));
}

#[test]
fn trailing_garbage_is_malformed() {
    let mut line = String::from(EXAMPLE);
    line.push_str(" x");
    assert!(matches!(decode(&line), Err(ConversionError::MalformedInput)));
}

#[test]
fn non_ascii_string_is_encoding_error() {
    let mut line = br#"{"domain":""#.to_vec();
    line.push(0xC3);
    line.push(0xA9);
    line.extend_from_slice(br#"","shortest_private_suffix":null,"port":1,"cells":[]}"#);
    let r = decode_line(&line, CellArity::Four, None, &test_id());
    assert!(matches!(r, Err(ConversionError::EncodingError)));
}

#[test]
fn too_many_cells_is_rejected() {
    let mut line = String::from(
        r#"{"domain":"a.example","shortest_private_suffix":null,"port":443,"cells":["#,
    );
    for k in 0..=CIRCUIT_CELLS {
        if k > 0 {
            line.push(',');
        }
        line.push_str("[0.1,0,3,2]");
    }
    line.push_str("]}");
    assert!(matches!(decode(&line), Err(ConversionError::MalformedInput)));
}

#[test]
fn exactly_full_arena_is_accepted() {
    let mut line = String::from(
        r#"{"domain":"a.example","shortest_private_suffix":null,"port":443,"cells":["#,
    );
    for k in 0..CIRCUIT_CELLS {
        if k > 0 {
            line.push(',');
        }
        line.push_str("[0.1,0,3,2]");
    }
    line.push_str("]}");
    let c = decode(&line).unwrap().unwrap();
    assert_eq!(c.len as usize, CIRCUIT_CELLS);
}

#[test]
fn long_domain_is_truncated() {
    let long = "a".repeat(60);
    let line = format!(
        r#"{{"domain":"{}","shortest_private_suffix":null,"port":1,"cells":[]}}"#,
        long
    );
    let c = decode(&line).unwrap().unwrap();
    assert_eq!(c.domain.raw_bytes(), vec![b'a'; 44]);
}

#[test]
fn whitespace_between_tokens_is_accepted() {
    let line = "{ \"domain\" : \"a.example\" , \"shortest_private_suffix\" : null , \"port\" : 7 , \"cells\" : [ [ 1.25 , 0 , 3 , 2 ] ] }";
    let c = decode(line).unwrap().unwrap();
    assert_eq!(c.port, 7);
    assert_eq!(c.cells[0].time, 1_250_000_000);
}

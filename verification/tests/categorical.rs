use circuit_records::codes::{CellCommand, Direction, RelayCommand};
use circuit_records::error::{CodeField, ConversionError};

#[test]
fn direction_closed_set() {
    assert_eq!(Direction::try_from(1).unwrap(), Direction::CLIENT_TO_SERVER);
    assert_eq!(Direction::try_from(-1).unwrap(), Direction::SERVER_TO_CLIENT);
    assert_eq!(Direction::try_from(0).unwrap(), Direction::PADDING);
    for v in i8::MIN..=i8::MAX {
        let r = Direction::try_from(v);
        if v == 1 || v == -1 || v == 0 {
            assert!(r.is_ok());
            assert_eq!(r.unwrap().code(), v);
        } else {
            assert!(matches!(
                r,
                Err(ConversionError::UnrecognizedCode {
                    field: CodeField::Direction,
                    code,
                }) if code == v as i64
            ));
        }
    }
}

#[test]
fn cell_command_totality() {
    for v in 0u16..=255 {
        let b = v as u8;
        let r = CellCommand::try_from(b);
        if b <= 12 || (128..=132).contains(&b) {
            let c = r.unwrap();
            assert_eq!(c.code(), b);
        } else {
            assert!(matches!(
                r,
                Err(ConversionError::UnrecognizedCode {
                    field: CodeField::CellCommand,
                    code,
                }) if code == b as i64
            ));
        }
    }
}

#[test]
fn cell_command_known_values() {
    assert_eq!(CellCommand::try_from(0).unwrap(), CellCommand::PADDING);
    assert_eq!(CellCommand::try_from(3).unwrap(), CellCommand::RELAY);
    assert_eq!(CellCommand::try_from(12).unwrap(), CellCommand::PADDING_NEGOTIATE);
    assert_eq!(CellCommand::try_from(128).unwrap(), CellCommand::VPADDING);
    assert_eq!(CellCommand::try_from(132).unwrap(), CellCommand::AUTHORIZE);
    assert!(CellCommand::try_from(13).is_err());
    assert!(CellCommand::try_from(127).is_err());
    assert!(CellCommand::try_from(133).is_err());
}

#[test]
fn relay_command_totality() {
    for v in 0u16..=255 {
        let b = v as u8;
        let r = RelayCommand::try_from(b);
        if b <= 16 || (32..=44).contains(&b) {
            let c = r.unwrap();
            assert_eq!(c.code(), b);
        } else {
            assert!(matches!(
                r,
                Err(ConversionError::UnrecognizedCode {
                    field: CodeField::RelayCommand,
                    code,
                }) if code == b as i64
            ));
        }
    }
}

#[test]
fn relay_command_known_values() {
    assert_eq!(RelayCommand::try_from(0).unwrap(), RelayCommand::NOT_PRESENT);
    assert_eq!(RelayCommand::try_from(2).unwrap(), RelayCommand::DATA);
    assert_eq!(RelayCommand::try_from(16).unwrap(), RelayCommand::SIGNAL);
    assert_eq!(RelayCommand::try_from(32).unwrap(), RelayCommand::ESTABLISH_INTRO);
    assert_eq!(RelayCommand::try_from(44).unwrap(), RelayCommand::XON);
    assert!(RelayCommand::try_from(17).is_err());
    assert!(RelayCommand::try_from(31).is_err());
    assert!(RelayCommand::try_from(45).is_err());
}

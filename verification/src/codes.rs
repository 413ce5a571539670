use vstd::prelude::*;

use crate::error::{CodeField, ConversionError};

verus! {

/// The direction that a cell was traveling.
#[allow(non_camel_case_types)]
#[derive(Clone, Copy, Debug, PartialEq, Eq, Structural)]
pub enum Direction {
    CLIENT_TO_SERVER,
    SERVER_TO_CLIENT,
    PADDING,
}

/// The protocol constant each direction stands for.
pub open spec fn spec_direction_code(d: Direction) -> i8 {
    match d {
        Direction::CLIENT_TO_SERVER => 1i8,
        Direction::SERVER_TO_CLIENT => -1i8,
        Direction::PADDING => 0i8,
    }
}

/// The direction a raw code decodes to, if it is one of the closed set.
pub open spec fn spec_direction_from(v: i8) -> Option<Direction> {
    if v == 1 {
        Some(Direction::CLIENT_TO_SERVER)
    } else if v == -1 {
        Some(Direction::SERVER_TO_CLIENT)
    } else if v == 0 {
        Some(Direction::PADDING)
    } else {
        None
    }
}

impl Direction {
    /// The raw protocol code of this direction.
    pub fn code(self) -> (r: i8)
        ensures
            r == spec_direction_code(self),
    {
        match self {
            Direction::CLIENT_TO_SERVER => 1i8,
            Direction::SERVER_TO_CLIENT => -1i8,
            Direction::PADDING => 0i8,
        }
    }

    /// Decodes a raw code, failing on any value outside the closed set
    /// `{1, -1, 0}`: no code is ever mapped to a default.
    pub fn try_from(v: i8) -> (r: Result<Direction, ConversionError>)
        ensures
            r is Ok <==> spec_direction_from(v) is Some,
            r matches Ok(d) ==> spec_direction_from(v) == Some(d) && spec_direction_code(d) == v,
            r matches Err(e) ==> e == (ConversionError::UnrecognizedCode {
                field: CodeField::Direction,
                code: v as i64,
            }),
    {
        if v == 1 {
            Ok(Direction::CLIENT_TO_SERVER)
        } else if v == -1 {
            Ok(Direction::SERVER_TO_CLIENT)
        } else if v == 0 {
            Ok(Direction::PADDING)
        } else {
            Err(ConversionError::UnrecognizedCode { field: CodeField::Direction, code: v as i64 })
        }
    }
}

/// The control command of a cell; a closed set of eighteen protocol values.
#[allow(non_camel_case_types)]
#[derive(Clone, Copy, Debug, PartialEq, Eq, Structural)]
pub enum CellCommand {
    PADDING,
    CREATE,
    CREATED,
    RELAY,
    DESTROY,
    CREATE_FAST,
    CREATED_FAST,
    VERSIONS,
    NETINFO,
    RELAY_EARLY,
    CREATE2,
    CREATED2,
    PADDING_NEGOTIATE,
    VPADDING,
    CERTS,
    AUTH_CHALLENGE,
    AUTHENTICATE,
    AUTHORIZE,
}

/// The protocol constant each cell command stands for.
pub open spec fn spec_cell_command_code(c: CellCommand) -> u8 {
    match c {
        CellCommand::PADDING => 0,
        CellCommand::CREATE => 1,
        CellCommand::CREATED => 2,
        CellCommand::RELAY => 3,
        CellCommand::DESTROY => 4,
        CellCommand::CREATE_FAST => 5,
        CellCommand::CREATED_FAST => 6,
        CellCommand::VERSIONS => 7,
        CellCommand::NETINFO => 8,
        CellCommand::RELAY_EARLY => 9,
        CellCommand::CREATE2 => 10,
        CellCommand::CREATED2 => 11,
        CellCommand::PADDING_NEGOTIATE => 12,
        CellCommand::VPADDING => 128,
        CellCommand::CERTS => 129,
        CellCommand::AUTH_CHALLENGE => 130,
        CellCommand::AUTHENTICATE => 131,
        CellCommand::AUTHORIZE => 132,
    }
}

/// The cell command a raw code decodes to, if it is one of the closed set.
pub open spec fn spec_cell_command_from(v: u8) -> Option<CellCommand> {
    if v == 0 {
        Some(CellCommand::PADDING)
    } else if v == 1 {
        Some(CellCommand::CREATE)
    } else if v == 2 {
        Some(CellCommand::CREATED)
    } else if v == 3 {
        Some(CellCommand::RELAY)
    } else if v == 4 {
        Some(CellCommand::DESTROY)
    } else if v == 5 {
        Some(CellCommand::CREATE_FAST)
    } else if v == 6 {
        Some(CellCommand::CREATED_FAST)
    } else if v == 7 {
        Some(CellCommand::VERSIONS)
    } else if v == 8 {
        Some(CellCommand::NETINFO)
    } else if v == 9 {
        Some(CellCommand::RELAY_EARLY)
    } else if v == 10 {
        Some(CellCommand::CREATE2)
    } else if v == 11 {
        Some(CellCommand::CREATED2)
    } else if v == 12 {
        Some(CellCommand::PADDING_NEGOTIATE)
    } else if v == 128 {
        Some(CellCommand::VPADDING)
    } else if v == 129 {
        Some(CellCommand::CERTS)
    } else if v == 130 {
        Some(CellCommand::AUTH_CHALLENGE)
    } else if v == 131 {
        Some(CellCommand::AUTHENTICATE)
    } else if v == 132 {
        Some(CellCommand::AUTHORIZE)
    } else {
        None
    }
}

impl CellCommand {
    /// The raw protocol code of this cell command.
    pub fn code(self) -> (r: u8)
        ensures
            r == spec_cell_command_code(self),
    {
        match self {
            CellCommand::PADDING => 0,
            CellCommand::CREATE => 1,
            CellCommand::CREATED => 2,
            CellCommand::RELAY => 3,
            CellCommand::DESTROY => 4,
            CellCommand::CREATE_FAST => 5,
            CellCommand::CREATED_FAST => 6,
            CellCommand::VERSIONS => 7,
            CellCommand::NETINFO => 8,
            CellCommand::RELAY_EARLY => 9,
            CellCommand::CREATE2 => 10,
            CellCommand::CREATED2 => 11,
            CellCommand::PADDING_NEGOTIATE => 12,
            CellCommand::VPADDING => 128,
            CellCommand::CERTS => 129,
            CellCommand::AUTH_CHALLENGE => 130,
            CellCommand::AUTHENTICATE => 131,
            CellCommand::AUTHORIZE => 132,
        }
    }

    /// Decodes a raw code. Succeeds exactly on the closed set
    /// `{0..12, 128..132}`; any other byte fails with `UnrecognizedCode`.
    pub fn try_from(v: u8) -> (r: Result<CellCommand, ConversionError>)
        ensures
            r is Ok <==> (v <= 12 || (128 <= v && v <= 132)),
            r matches Ok(c) ==> spec_cell_command_from(v) == Some(c) && spec_cell_command_code(c)
                == v,
            r matches Err(e) ==> e == (ConversionError::UnrecognizedCode {
                field: CodeField::CellCommand,
                code: v as i64,
            }),
    {
        match cell_command_lookup(v) {
            Some(c) => Ok(c),
            None => Err(
                ConversionError::UnrecognizedCode { field: CodeField::CellCommand, code: v as i64 },
            ),
        }
    }
}

/// Looks a raw code up in the closed cell-command set.
fn cell_command_lookup(v: u8) -> (r: Option<CellCommand>)
    ensures
        r == spec_cell_command_from(v),
{
    match v {
        0 => Some(CellCommand::PADDING),
        1 => Some(CellCommand::CREATE),
        2 => Some(CellCommand::CREATED),
        3 => Some(CellCommand::RELAY),
        4 => Some(CellCommand::DESTROY),
        5 => Some(CellCommand::CREATE_FAST),
        6 => Some(CellCommand::CREATED_FAST),
        7 => Some(CellCommand::VERSIONS),
        8 => Some(CellCommand::NETINFO),
        9 => Some(CellCommand::RELAY_EARLY),
        10 => Some(CellCommand::CREATE2),
        11 => Some(CellCommand::CREATED2),
        12 => Some(CellCommand::PADDING_NEGOTIATE),
        128 => Some(CellCommand::VPADDING),
        129 => Some(CellCommand::CERTS),
        130 => Some(CellCommand::AUTH_CHALLENGE),
        131 => Some(CellCommand::AUTHENTICATE),
        132 => Some(CellCommand::AUTHORIZE),
        _ => None,
    }
}

/// The control subcommand of a relay-type cell; a closed set of thirty
/// protocol values.
#[allow(non_camel_case_types)]
#[derive(Clone, Copy, Debug, PartialEq, Eq, Structural)]
pub enum RelayCommand {
    NOT_PRESENT,
    BEGIN,
    DATA,
    END,
    CONNECTED,
    SENDME,
    EXTEND,
    EXTENDED,
    TRUNCATE,
    TRUNCATED,
    DROP,
    RESOLVE,
    RESOLVED,
    BEGIN_DIR,
    EXTEND2,
    EXTENDED2,
    SIGNAL,
    ESTABLISH_INTRO,
    ESTABLISH_RENDEZVOUS,
    INTRODUCE1,
    INTRODUCE2,
    RENDEZVOUS1,
    RENDEZVOUS2,
    INTRO_ESTABLISHED,
    RENDEZVOUS_ESTABLISHED,
    INTRODUCE_ACK,
    PADDING_NEGOTIATE,
    PADDING_NEGOTIATED,
    XOFF,
    XON,
}

/// The protocol constant each relay command stands for.
pub open spec fn spec_relay_command_code(c: RelayCommand) -> u8 {
    match c {
        RelayCommand::NOT_PRESENT => 0,
        RelayCommand::BEGIN => 1,
        RelayCommand::DATA => 2,
        RelayCommand::END => 3,
        RelayCommand::CONNECTED => 4,
        RelayCommand::SENDME => 5,
        RelayCommand::EXTEND => 6,
        RelayCommand::EXTENDED => 7,
        RelayCommand::TRUNCATE => 8,
        RelayCommand::TRUNCATED => 9,
        RelayCommand::DROP => 10,
        RelayCommand::RESOLVE => 11,
        RelayCommand::RESOLVED => 12,
        RelayCommand::BEGIN_DIR => 13,
        RelayCommand::EXTEND2 => 14,
        RelayCommand::EXTENDED2 => 15,
        RelayCommand::SIGNAL => 16,
        RelayCommand::ESTABLISH_INTRO => 32,
        RelayCommand::ESTABLISH_RENDEZVOUS => 33,
        RelayCommand::INTRODUCE1 => 34,
        RelayCommand::INTRODUCE2 => 35,
        RelayCommand::RENDEZVOUS1 => 36,
        RelayCommand::RENDEZVOUS2 => 37,
        RelayCommand::INTRO_ESTABLISHED => 38,
        RelayCommand::RENDEZVOUS_ESTABLISHED => 39,
        RelayCommand::INTRODUCE_ACK => 40,
        RelayCommand::PADDING_NEGOTIATE => 41,
        RelayCommand::PADDING_NEGOTIATED => 42,
        RelayCommand::XOFF => 43,
        RelayCommand::XON => 44,
    }
}

/// The relay command a raw code decodes to, if it is one of the closed set.
pub open spec fn spec_relay_command_from(v: u8) -> Option<RelayCommand> {
    if v == 0 {
        Some(RelayCommand::NOT_PRESENT)
    } else if v == 1 {
        Some(RelayCommand::BEGIN)
    } else if v == 2 {
        Some(RelayCommand::DATA)
    } else if v == 3 {
        Some(RelayCommand::END)
    } else if v == 4 {
        Some(RelayCommand::CONNECTED)
    } else if v == 5 {
        Some(RelayCommand::SENDME)
    } else if v == 6 {
        Some(RelayCommand::EXTEND)
    } else if v == 7 {
        Some(RelayCommand::EXTENDED)
    } else if v == 8 {
        Some(RelayCommand::TRUNCATE)
    } else if v == 9 {
        Some(RelayCommand::TRUNCATED)
    } else if v == 10 {
        Some(RelayCommand::DROP)
    } else if v == 11 {
        Some(RelayCommand::RESOLVE)
    } else if v == 12 {
        Some(RelayCommand::RESOLVED)
    } else if v == 13 {
        Some(RelayCommand::BEGIN_DIR)
    } else if v == 14 {
        Some(RelayCommand::EXTEND2)
    } else if v == 15 {
        Some(RelayCommand::EXTENDED2)
    } else if v == 16 {
        Some(RelayCommand::SIGNAL)
    } else if v == 32 {
        Some(RelayCommand::ESTABLISH_INTRO)
    } else if v == 33 {
        Some(RelayCommand::ESTABLISH_RENDEZVOUS)
    } else if v == 34 {
        Some(RelayCommand::INTRODUCE1)
    } else if v == 35 {
        Some(RelayCommand::INTRODUCE2)
    } else if v == 36 {
        Some(RelayCommand::RENDEZVOUS1)
    } else if v == 37 {
        Some(RelayCommand::RENDEZVOUS2)
    } else if v == 38 {
        Some(RelayCommand::INTRO_ESTABLISHED)
    } else if v == 39 {
        Some(RelayCommand::RENDEZVOUS_ESTABLISHED)
    } else if v == 40 {
        Some(RelayCommand::INTRODUCE_ACK)
    } else if v == 41 {
        Some(RelayCommand::PADDING_NEGOTIATE)
    } else if v == 42 {
        Some(RelayCommand::PADDING_NEGOTIATED)
    } else if v == 43 {
        Some(RelayCommand::XOFF)
    } else if v == 44 {
        Some(RelayCommand::XON)
    } else {
        None
    }
}

impl RelayCommand {
    /// The raw protocol code of this relay command.
    pub fn code(self) -> (r: u8)
        ensures
            r == spec_relay_command_code(self),
    {
        match self {
            RelayCommand::NOT_PRESENT => 0,
            RelayCommand::BEGIN => 1,
            RelayCommand::DATA => 2,
            RelayCommand::END => 3,
            RelayCommand::CONNECTED => 4,
            RelayCommand::SENDME => 5,
            RelayCommand::EXTEND => 6,
            RelayCommand::EXTENDED => 7,
            RelayCommand::TRUNCATE => 8,
            RelayCommand::TRUNCATED => 9,
            RelayCommand::DROP => 10,
            RelayCommand::RESOLVE => 11,
            RelayCommand::RESOLVED => 12,
            RelayCommand::BEGIN_DIR => 13,
            RelayCommand::EXTEND2 => 14,
            RelayCommand::EXTENDED2 => 15,
            RelayCommand::SIGNAL => 16,
            RelayCommand::ESTABLISH_INTRO => 32,
            RelayCommand::ESTABLISH_RENDEZVOUS => 33,
            RelayCommand::INTRODUCE1 => 34,
            RelayCommand::INTRODUCE2 => 35,
            RelayCommand::RENDEZVOUS1 => 36,
            RelayCommand::RENDEZVOUS2 => 37,
            RelayCommand::INTRO_ESTABLISHED => 38,
            RelayCommand::RENDEZVOUS_ESTABLISHED => 39,
            RelayCommand::INTRODUCE_ACK => 40,
            RelayCommand::PADDING_NEGOTIATE => 41,
            RelayCommand::PADDING_NEGOTIATED => 42,
            RelayCommand::XOFF => 43,
            RelayCommand::XON => 44,
        }
    }

    /// Decodes a raw code. Succeeds exactly on the closed set
    /// `{0..16, 32..44}`; any other byte fails with `UnrecognizedCode`.
    pub fn try_from(v: u8) -> (r: Result<RelayCommand, ConversionError>)
        ensures
            r is Ok <==> (v <= 16 || (32 <= v && v <= 44)),
            r matches Ok(c) ==> spec_relay_command_from(v) == Some(c) && spec_relay_command_code(c)
                == v,
            r matches Err(e) ==> e == (ConversionError::UnrecognizedCode {
                field: CodeField::RelayCommand,
                code: v as i64,
            }),
    {
        match relay_command_lookup(v) {
            Some(c) => Ok(c),
            None => Err(
                ConversionError::UnrecognizedCode {
                    field: CodeField::RelayCommand,
                    code: v as i64,
                },
            ),
        }
    }
}

/// Looks a raw code up in the closed relay-command set.
fn relay_command_lookup(v: u8) -> (r: Option<RelayCommand>)
    ensures
        r == spec_relay_command_from(v),
{
    match v {
        0 => Some(RelayCommand::NOT_PRESENT),
        1 => Some(RelayCommand::BEGIN),
        2 => Some(RelayCommand::DATA),
        3 => Some(RelayCommand::END),
        4 => Some(RelayCommand::CONNECTED),
        5 => Some(RelayCommand::SENDME),
        6 => Some(RelayCommand::EXTEND),
        7 => Some(RelayCommand::EXTENDED),
        8 => Some(RelayCommand::TRUNCATE),
        9 => Some(RelayCommand::TRUNCATED),
        10 => Some(RelayCommand::DROP),
        11 => Some(RelayCommand::RESOLVE),
        12 => Some(RelayCommand::RESOLVED),
        13 => Some(RelayCommand::BEGIN_DIR),
        14 => Some(RelayCommand::EXTEND2),
        15 => Some(RelayCommand::EXTENDED2),
        16 => Some(RelayCommand::SIGNAL),
        32 => Some(RelayCommand::ESTABLISH_INTRO),
        33 => Some(RelayCommand::ESTABLISH_RENDEZVOUS),
        34 => Some(RelayCommand::INTRODUCE1),
        35 => Some(RelayCommand::INTRODUCE2),
        36 => Some(RelayCommand::RENDEZVOUS1),
        37 => Some(RelayCommand::RENDEZVOUS2),
        38 => Some(RelayCommand::INTRO_ESTABLISHED),
        39 => Some(RelayCommand::RENDEZVOUS_ESTABLISHED),
        40 => Some(RelayCommand::INTRODUCE_ACK),
        41 => Some(RelayCommand::PADDING_NEGOTIATE),
        42 => Some(RelayCommand::PADDING_NEGOTIATED),
        43 => Some(RelayCommand::XOFF),
        44 => Some(RelayCommand::XON),
        _ => None,
    }
}

/// Decoding is the left inverse of encoding: every direction comes back
/// from its own code.
pub proof fn lemma_direction_round_trip(d: Direction)
    ensures
        spec_direction_from(spec_direction_code(d)) == Some(d),
{
}

/// Every cell command comes back from its own code.
pub proof fn lemma_cell_command_round_trip(c: CellCommand)
    ensures
        spec_cell_command_from(spec_cell_command_code(c)) == Some(c),
{
}

/// Every relay command comes back from its own code.
pub proof fn lemma_relay_command_round_trip(c: RelayCommand)
    ensures
        spec_relay_command_from(spec_relay_command_code(c)) == Some(c),
{
}

} // verus!

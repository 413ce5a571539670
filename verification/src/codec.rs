use vstd::prelude::*;

use crate::cell::Cell;
use crate::circuit::{CIRCUIT_CELLS, Circuit, CircuitV, DOMAIN_WIDTH, UUID_WIDTH};
use crate::fixedstr::{FixedAscii, fixedascii_from_raw, is_ascii_seq};
use crate::indices::{IndexArrayEntry, IndexEntry};
use crate::codes::{
    CellCommand, Direction, RelayCommand, spec_cell_command_code, spec_cell_command_from,
    spec_direction_code, spec_direction_from, spec_relay_command_code, spec_relay_command_from,
};
use crate::error::ConversionError;

verus! {

/// The number of bytes of one encoded cell.
pub const CELL_BYTES: usize = 11;

/// A `u16` as two little-endian bytes.
pub open spec fn spec_u16_le(v: u16) -> Seq<u8> {
    seq![(v & 0xff) as u8, ((v >> 8) & 0xff) as u8]
}

/// The `u16` two little-endian bytes stand for.
pub open spec fn spec_le_u16(b0: u8, b1: u8) -> u16 {
    (b0 as u16) | ((b1 as u16) << 8)
}

/// Decoding two little-endian bytes undoes encoding.
pub proof fn lemma_u16_le_round_trip(v: u16)
    ensures
        spec_le_u16(spec_u16_le(v)[0], spec_u16_le(v)[1]) == v,
{
    assert(((v & 0xff) as u8 as u16) | ((((v >> 8) & 0xff) as u8 as u16) << 8) == v)
        by (bit_vector);
}

/// A `u32` as four little-endian bytes.
pub open spec fn spec_u32_le(v: u32) -> Seq<u8> {
    seq![
        (v & 0xff) as u8,
        ((v >> 8) & 0xff) as u8,
        ((v >> 16) & 0xff) as u8,
        ((v >> 24) & 0xff) as u8,
    ]
}

/// The `u32` four little-endian bytes stand for.
pub open spec fn spec_le_u32(b0: u8, b1: u8, b2: u8, b3: u8) -> u32 {
    (b0 as u32) | ((b1 as u32) << 8) | ((b2 as u32) << 16) | ((b3 as u32) << 24)
}

/// Decoding four little-endian bytes undoes encoding.
pub proof fn lemma_u32_le_round_trip(v: u32)
    ensures
        spec_le_u32(
            spec_u32_le(v)[0],
            spec_u32_le(v)[1],
            spec_u32_le(v)[2],
            spec_u32_le(v)[3],
        ) == v,
{
    assert(((v & 0xff) as u8 as u32) | ((((v >> 8) & 0xff) as u8 as u32) << 8) | ((((v >> 16)
        & 0xff) as u8 as u32) << 16) | ((((v >> 24) & 0xff) as u8 as u32) << 24) == v)
        by (bit_vector);
}

/// A `u64` as eight little-endian bytes.
pub open spec fn spec_u64_le(v: u64) -> Seq<u8> {
    seq![
        (v & 0xff) as u8,
        ((v >> 8) & 0xff) as u8,
        ((v >> 16) & 0xff) as u8,
        ((v >> 24) & 0xff) as u8,
        ((v >> 32) & 0xff) as u8,
        ((v >> 40) & 0xff) as u8,
        ((v >> 48) & 0xff) as u8,
        ((v >> 56) & 0xff) as u8,
    ]
}

/// The `u64` eight little-endian bytes stand for.
pub open spec fn spec_le_u64(b: Seq<u8>) -> u64
    recommends
        b.len() == 8,
{
    (b[0] as u64) | ((b[1] as u64) << 8) | ((b[2] as u64) << 16) | ((b[3] as u64) << 24) | ((
    b[4] as u64) << 32) | ((b[5] as u64) << 40) | ((b[6] as u64) << 48) | ((b[7] as u64) << 56)
}

/// Decoding eight little-endian bytes undoes encoding.
pub proof fn lemma_u64_le_round_trip(v: u64)
    ensures
        spec_le_u64(spec_u64_le(v)) == v,
{
    assert(((v & 0xff) as u8 as u64) | ((((v >> 8) & 0xff) as u8 as u64) << 8) | ((((v >> 16)
        & 0xff) as u8 as u64) << 16) | ((((v >> 24) & 0xff) as u8 as u64) << 24) | ((((v >> 32)
        & 0xff) as u8 as u64) << 32) | ((((v >> 40) & 0xff) as u8 as u64) << 40) | ((((v >> 48)
        & 0xff) as u8 as u64) << 48) | ((((v >> 56) & 0xff) as u8 as u64) << 56) == v)
        by (bit_vector);
}

/// One cell in the fixed on-disk layout: its time as eight little-endian
/// bytes, then its direction, cell-command and relay-command codes, one
/// byte each, eleven bytes in all.
pub open spec fn spec_cell_bytes(c: Cell) -> Seq<u8> {
    spec_u64_le(c.time) + seq![
        spec_direction_code(c.direction) as u8,
        spec_cell_command_code(c.cell_cmd),
        spec_relay_command_code(c.relay_cmd),
    ]
}

/// The cell that eleven bytes decode to, if the three code bytes are in
/// their closed sets.
pub open spec fn spec_cell_from_bytes(b: Seq<u8>) -> Result<Cell, ConversionError>
    recommends
        b.len() == CELL_BYTES,
{
    match spec_direction_from(b[8] as i8) {
        None => Err(
            ConversionError::UnrecognizedCode {
                field: crate::error::CodeField::Direction,
                code: b[8] as i8 as i64,
            },
        ),
        Some(d) => match spec_cell_command_from(b[9]) {
            None => Err(
                ConversionError::UnrecognizedCode {
                    field: crate::error::CodeField::CellCommand,
                    code: b[9] as i64,
                },
            ),
            Some(cc) => match spec_relay_command_from(b[10]) {
                None => Err(
                    ConversionError::UnrecognizedCode {
                        field: crate::error::CodeField::RelayCommand,
                        code: b[10] as i64,
                    },
                ),
                Some(rc) => Ok(
                    Cell {
                        time: spec_le_u64(b.subrange(0, 8)),
                        direction: d,
                        cell_cmd: cc,
                        relay_cmd: rc,
                    },
                ),
            },
        },
    }
}

/// Cell round trip: every cell decodes back from its own encoding.
pub proof fn lemma_cell_round_trip(c: Cell)
    ensures
        spec_cell_from_bytes(spec_cell_bytes(c)) == Ok::<Cell, ConversionError>(c),
{
    let b = spec_cell_bytes(c);
    assert(b.subrange(0, 8) =~= spec_u64_le(c.time));
    lemma_u64_le_round_trip(c.time);
    let dc = spec_direction_code(c.direction);
    assert(dc as u8 as i8 == dc) by (bit_vector)
        requires
            dc == 1i8 || dc == -1i8 || dc == 0i8,
    ;
}

/// Appends the encoding of one cell.
pub fn push_cell_bytes(out: &mut Vec<u8>, c: &Cell)
    ensures
        final(out)@ == old(out)@ + spec_cell_bytes(*c),
{
    let t = c.time;
    out.push((t & 0xff) as u8);
    out.push(((t >> 8) & 0xff) as u8);
    out.push(((t >> 16) & 0xff) as u8);
    out.push(((t >> 24) & 0xff) as u8);
    out.push(((t >> 32) & 0xff) as u8);
    out.push(((t >> 40) & 0xff) as u8);
    out.push(((t >> 48) & 0xff) as u8);
    out.push(((t >> 56) & 0xff) as u8);
    out.push(c.direction.code() as u8);
    out.push(c.cell_cmd.code());
    out.push(c.relay_cmd.code());
    proof {
        assert(out@ =~= old(out)@ + spec_cell_bytes(*c));
    }
}

/// Encodes one cell into its eleven-byte layout.
pub fn cell_to_bytes(c: &Cell) -> (r: Vec<u8>)
    ensures
        r@ == spec_cell_bytes(*c),
{
    let mut out: Vec<u8> = Vec::new();
    push_cell_bytes(&mut out, c);
    proof {
        assert(Seq::<u8>::empty() + spec_cell_bytes(*c) =~= spec_cell_bytes(*c));
    }
    out
}

/// Decodes one cell from eleven bytes at offset `i`.
pub fn cell_from_bytes(b: &Vec<u8>, i: usize) -> (r: Result<Cell, ConversionError>)
    requires
        i + CELL_BYTES <= b@.len(),
    ensures
        r == spec_cell_from_bytes(b@.subrange(i as int, i + CELL_BYTES)),
{
    let ghost chunk = b@.subrange(i as int, i + CELL_BYTES);
    let n = b.len();
    proof {
        assert(i + CELL_BYTES <= n);
    }
    let d = match Direction::try_from(b[i + 8] as i8) {
        Ok(v) => v,
        Err(e) => {
            proof {
                assert(chunk[8] == b@[i + 8]);
            }
            return Err(e);
        },
    };
    let cc = match CellCommand::try_from(b[i + 9]) {
        Ok(v) => v,
        Err(e) => {
            proof {
                assert(chunk[8] == b@[i + 8] && chunk[9] == b@[i + 9]);
            }
            return Err(e);
        },
    };
    let rc = match RelayCommand::try_from(b[i + 10]) {
        Ok(v) => v,
        Err(e) => {
            proof {
                assert(chunk[8] == b@[i + 8] && chunk[9] == b@[i + 9] && chunk[10] == b@[i + 10]);
            }
            return Err(e);
        },
    };
    let t: u64 = (b[i] as u64) | ((b[i + 1] as u64) << 8) | ((b[i + 2] as u64) << 16) | ((b[i
        + 3] as u64) << 24) | ((b[i + 4] as u64) << 32) | ((b[i + 5] as u64) << 40) | ((b[i
        + 6] as u64) << 48) | ((b[i + 7] as u64) << 56);
    proof {
        assert(chunk.subrange(0, 8) =~= b@.subrange(i as int, i + 8));
        assert forall|q: int| 0 <= q < 11 implies chunk[q] == b@[i + q] by {}
        assert(chunk.subrange(0, 8)[0] == b@[i as int]);
        assert(chunk.subrange(0, 8)[1] == b@[i + 1]);
        assert(chunk.subrange(0, 8)[2] == b@[i + 2]);
        assert(chunk.subrange(0, 8)[3] == b@[i + 3]);
        assert(chunk.subrange(0, 8)[4] == b@[i + 4]);
        assert(chunk.subrange(0, 8)[5] == b@[i + 5]);
        assert(chunk.subrange(0, 8)[6] == b@[i + 6]);
        assert(chunk.subrange(0, 8)[7] == b@[i + 7]);
    }
    Ok(Cell { time: t, direction: d, cell_cmd: cc, relay_cmd: rc })
}


/// The number of bytes of one encoded circuit.
pub const CIRCUIT_BYTES: usize = 55125;

/// A cell sequence as the concatenation of its cells' encodings.
pub open spec fn spec_cells_block(cs: Seq<Cell>) -> Seq<u8>
    decreases cs.len(),
{
    if cs.len() == 0 {
        Seq::empty()
    } else {
        spec_cells_block(cs.drop_last()) + spec_cell_bytes(cs.last())
    }
}

proof fn lemma_cells_block_len(cs: Seq<Cell>)
    ensures
        spec_cells_block(cs).len() == 11 * cs.len(),
    decreases cs.len(),
{
    if cs.len() > 0 {
        lemma_cells_block_len(cs.drop_last());
    }
}

/// The encoding of cell `k` sits at offset `11 * k` of the block.
proof fn lemma_cells_block_index(cs: Seq<Cell>, k: int)
    requires
        0 <= k < cs.len(),
    ensures
        spec_cells_block(cs).subrange(11 * k, 11 * k + 11) == spec_cell_bytes(cs[k]),
    decreases cs.len(),
{
    lemma_cells_block_len(cs);
    lemma_cells_block_len(cs.drop_last());
    if k == cs.len() - 1 {
        assert(spec_cells_block(cs).subrange(11 * k, 11 * k + 11) =~= spec_cell_bytes(cs.last()));
    } else {
        lemma_cells_block_index(cs.drop_last(), k);
        assert(spec_cells_block(cs).subrange(11 * k, 11 * k + 11) =~= spec_cells_block(
            cs.drop_last(),
        ).subrange(11 * k, 11 * k + 11));
    }
}

/// A circuit in the fixed on-disk layout: the three fixed-width strings,
/// the day byte, the port and valid-length as little-endian pairs, then
/// the full cell arena, cell by cell.
pub open spec fn spec_circuit_bytes(c: CircuitV) -> Seq<u8> {
    c.uuid + c.domain + c.shortest_private_suffix + seq![c.day] + spec_u16_le(c.port)
        + spec_u16_le(c.len) + spec_cells_block(c.cells)
}

/// Appends a byte string.
fn push_bytes(out: &mut Vec<u8>, v: &Vec<u8>)
    ensures
        final(out)@ == old(out)@ + v@,
{
    let mut i: usize = 0;
    while i < v.len()
        invariant
            i <= v@.len(),
            out@ == old(out)@ + v@.take(i as int),
        decreases v@.len() - i,
    {
        out.push(v[i]);
        proof {
            assert((old(out)@ + v@.take(i as int)).push(v@[i as int]) =~= old(out)@ + v@.take(
                i + 1,
            ));
        }
        i += 1;
    }
    proof {
        assert(old(out)@ + v@.take(v@.len() as int) =~= old(out)@ + v@);
    }
}

/// Encodes one circuit into its fixed-width layout.
pub fn circuit_to_bytes(c: &Circuit) -> (r: Vec<u8>)
    requires
        c.wf(),
    ensures
        r@ == spec_circuit_bytes(c@),
        r@.len() == CIRCUIT_BYTES,
{
    let mut out: Vec<u8> = Vec::new();
    push_bytes(&mut out, &c.uuid.bytes);
    push_bytes(&mut out, &c.domain.bytes);
    push_bytes(&mut out, &c.shortest_private_suffix.bytes);
    out.push(c.day);
    out.push((c.port & 0xff) as u8);
    out.push(((c.port >> 8) & 0xff) as u8);
    out.push((c.len & 0xff) as u8);
    out.push(((c.len >> 8) & 0xff) as u8);
    let ghost head = c@.uuid + c@.domain + c@.shortest_private_suffix + seq![c@.day] + spec_u16_le(
        c@.port,
    ) + spec_u16_le(c@.len);
    proof {
        assert(out@ =~= head + spec_cells_block(c@.cells.take(0)));
    }
    let mut k: usize = 0;
    while k < CIRCUIT_CELLS
        invariant
            k <= CIRCUIT_CELLS,
            c@.cells.len() == CIRCUIT_CELLS,
            out@ == head + spec_cells_block(c@.cells.take(k as int)),
            head == c@.uuid + c@.domain + c@.shortest_private_suffix + seq![c@.day] + spec_u16_le(
                c@.port,
            ) + spec_u16_le(c@.len),
        decreases CIRCUIT_CELLS - k,
    {
        let cell = c.cells[k];
        push_cell_bytes(&mut out, &cell);
        proof {
            assert(c@.cells.take(k + 1).drop_last() =~= c@.cells.take(k as int));
            assert(c@.cells.take(k + 1).last() == c@.cells[k as int]);
            assert(out@ =~= head + spec_cells_block(c@.cells.take(k + 1)));
        }
        k += 1;
    }
    proof {
        assert(c@.cells.take(CIRCUIT_CELLS as int) =~= c@.cells);
        assert(out@ =~= spec_circuit_bytes(c@));
        lemma_cells_block_len(c@.cells);
    }
    out
}

/// The first `k` cells decoded from a cell block, failing on the first
/// cell whose code bytes fall outside the closed sets.
pub open spec fn spec_cells_from(b: Seq<u8>, k: nat) -> Result<Seq<Cell>, ConversionError>
    decreases k,
{
    if k == 0 {
        Ok(Seq::empty())
    } else {
        match spec_cells_from(b, (k - 1) as nat) {
            Err(e) => Err(e),
            Ok(cs) => match spec_cell_from_bytes(b.subrange(11 * (k - 1), 11 * (k as int))) {
                Err(e) => Err(e),
                Ok(c) => Ok(cs.push(c)),
            },
        }
    }
}

/// The circuit that a fixed-width encoding decodes to: the string fields
/// must be ASCII, the valid-length must fit the arena, every cell must
/// decode, and the arena beyond the valid length must be all padding.
pub open spec fn spec_circuit_from_bytes(b: Seq<u8>) -> Result<CircuitV, ConversionError>
    recommends
        b.len() == CIRCUIT_BYTES,
{
    let uuid = b.subrange(0, 32);
    let domain = b.subrange(32, 76);
    let sps = b.subrange(76, 120);
    let day = b[120];
    let port = spec_le_u16(b[121], b[122]);
    let len = spec_le_u16(b[123], b[124]);
    if !(is_ascii_seq(uuid) && is_ascii_seq(domain) && is_ascii_seq(sps)) {
        Err(ConversionError::EncodingError)
    } else if len > CIRCUIT_CELLS {
        Err(ConversionError::MalformedInput)
    } else {
        match spec_cells_from(b.subrange(125, CIRCUIT_BYTES as int), CIRCUIT_CELLS as nat) {
            Err(e) => Err(e),
            Ok(cs) => if forall|q: int| len <= q < CIRCUIT_CELLS ==> cs[q] == Cell::spec_empty() {
                Ok(
                    CircuitV {
                        uuid: uuid,
                        domain: domain,
                        shortest_private_suffix: sps,
                        day: day,
                        port: port,
                        len: len,
                        cells: cs,
                    },
                )
            } else {
                Err(ConversionError::MalformedInput)
            },
        }
    }
}

/// Copies `b[i..j]` into a fresh vector.
fn bytes_range(b: &Vec<u8>, i: usize, j: usize) -> (r: Vec<u8>)
    requires
        i <= j <= b@.len(),
    ensures
        r@ == b@.subrange(i as int, j as int),
{
    let mut r: Vec<u8> = Vec::new();
    let mut k = i;
    while k < j
        invariant
            i <= k <= j <= b@.len(),
            r@ == b@.subrange(i as int, k as int),
        decreases j - k,
    {
        r.push(b[k]);
        proof {
            assert(b@.subrange(i as int, k as int).push(b@[k as int]) =~= b@.subrange(
                i as int,
                k + 1,
            ));
        }
        k += 1;
    }
    r
}

/// Decodes one circuit from its fixed-width encoding. The result is
/// well-formed by construction: decoding validates everything that
/// well-formedness asks.
pub fn circuit_from_bytes(b: &Vec<u8>) -> (r: Result<Circuit, ConversionError>)
    requires
        b@.len() == CIRCUIT_BYTES,
    ensures
        r matches Ok(c) ==> spec_circuit_from_bytes(b@) == Ok::<CircuitV, ConversionError>(c@)
            && c.wf(),
        r matches Err(e) ==> spec_circuit_from_bytes(b@) == Err::<CircuitV, ConversionError>(e),
{
    let uuid_b = bytes_range(b, 0, 32);
    let domain_b = bytes_range(b, 32, 76);
    let sps_b = bytes_range(b, 76, 120);
    let day = b[120];
    let port: u16 = (b[121] as u16) | ((b[122] as u16) << 8);
    let len: u16 = (b[123] as u16) | ((b[124] as u16) << 8);
    let uuid = match fixedascii_from_raw(&uuid_b, UUID_WIDTH) {
        Ok(f) => f,
        Err(e) => {
            return Err(e);
        },
    };
    let domain = match fixedascii_from_raw(&domain_b, DOMAIN_WIDTH) {
        Ok(f) => f,
        Err(e) => {
            return Err(e);
        },
    };
    let sps = match fixedascii_from_raw(&sps_b, DOMAIN_WIDTH) {
        Ok(f) => f,
        Err(e) => {
            return Err(e);
        },
    };
    if len as usize > CIRCUIT_CELLS {
        return Err(ConversionError::MalformedInput);
    }
    let ghost block = b@.subrange(125, CIRCUIT_BYTES as int);
    let mut cells: Vec<Cell> = Vec::new();
    let mut k: usize = 0;
    while k < CIRCUIT_CELLS
        invariant
            k <= CIRCUIT_CELLS,
            b@.len() == CIRCUIT_BYTES,
            block == b@.subrange(125, CIRCUIT_BYTES as int),
            cells@.len() == k,
            spec_cells_from(block, k as nat) == Ok::<Seq<Cell>, ConversionError>(cells@),
            is_ascii_seq(b@.subrange(0, 32)),
            is_ascii_seq(b@.subrange(32, 76)),
            is_ascii_seq(b@.subrange(76, 120)),
            len == spec_le_u16(b@[123], b@[124]),
            len <= CIRCUIT_CELLS,
        decreases CIRCUIT_CELLS - k,
    {
        let c = match cell_from_bytes(b, 125 + 11 * k) {
            Ok(c) => c,
            Err(e) => {
                proof {
                    assert(block.subrange(
                        11 * ((k + 1) - 1),
                        11 * ((k + 1) as int),
                    ) =~= b@.subrange(125 + 11 * k, 125 + 11 * k + 11));
                    assert(spec_cells_from(block, (k + 1) as nat) == Err::<
                        Seq<Cell>,
                        ConversionError,
                    >(e));
                    lemma_cells_from_err(block, (k + 1) as nat, CIRCUIT_CELLS as nat, e);
                }
                return Err(e);
            },
        };
        proof {
            assert(block.subrange(11 * ((k + 1) - 1), 11 * ((k + 1) as int)) =~= b@.subrange(
                125 + 11 * k,
                125 + 11 * k + 11,
            ));
        }
        cells.push(c);
        k += 1;
    }
    let mut q: usize = len as usize;
    while q < CIRCUIT_CELLS
        invariant
            len as usize <= q <= CIRCUIT_CELLS,
            cells@.len() == CIRCUIT_CELLS,
            spec_cells_from(block, CIRCUIT_CELLS as nat) == Ok::<Seq<Cell>, ConversionError>(
                cells@,
            ),
            block == b@.subrange(125, CIRCUIT_BYTES as int),
            b@.len() == CIRCUIT_BYTES,
            forall|x: int| len <= x < q ==> cells@[x] == Cell::spec_empty(),
            is_ascii_seq(b@.subrange(0, 32)),
            is_ascii_seq(b@.subrange(32, 76)),
            is_ascii_seq(b@.subrange(76, 120)),
            len == spec_le_u16(b@[123], b@[124]),
            len <= CIRCUIT_CELLS,
        decreases CIRCUIT_CELLS - q,
    {
        let c = cells[q];
        let e = Cell::empty();
        if !(c.time == e.time && c.direction.code() == e.direction.code() && c.cell_cmd.code()
            == e.cell_cmd.code() && c.relay_cmd.code() == e.relay_cmd.code()) {
            proof {
                if c.direction != Cell::spec_empty().direction {
                } else if c.cell_cmd != Cell::spec_empty().cell_cmd {
                } else if c.relay_cmd != Cell::spec_empty().relay_cmd {
                }
                assert(cells@[q as int] != Cell::spec_empty());
            }
            return Err(ConversionError::MalformedInput);
        }
        proof {
            assert(cells@[q as int] == Cell::spec_empty());
        }
        q += 1;
    }
    Ok(
        Circuit {
            uuid,
            domain,
            shortest_private_suffix: sps,
            day,
            port,
            len,
            cells,
        },
    )
}

/// An error among the first `k` cells is the error of any longer prefix.
proof fn lemma_cells_from_err(b: Seq<u8>, k: nat, n: nat, e: ConversionError)
    requires
        k <= n,
        spec_cells_from(b, k) == Err::<Seq<Cell>, ConversionError>(e),
    ensures
        spec_cells_from(b, n) == Err::<Seq<Cell>, ConversionError>(e),
    decreases n - k,
{
    if k < n {
        lemma_cells_from_err(b, (k + 1) as nat, n, e);
    }
}

/// Circuit round trip: every well-formed circuit decodes back from its
/// own encoding.
pub proof fn lemma_circuit_round_trip(c: CircuitV)
    requires
        c.wf(),
    ensures
        spec_circuit_from_bytes(spec_circuit_bytes(c)) == Ok::<CircuitV, ConversionError>(c),
{
    let b = spec_circuit_bytes(c);
    lemma_cells_block_len(c.cells);
    assert(b.subrange(0, 32) =~= c.uuid);
    assert(b.subrange(32, 76) =~= c.domain);
    assert(b.subrange(76, 120) =~= c.shortest_private_suffix);
    assert(b[120] == c.day);
    assert(b[121] == spec_u16_le(c.port)[0] && b[122] == spec_u16_le(c.port)[1]);
    assert(b[123] == spec_u16_le(c.len)[0] && b[124] == spec_u16_le(c.len)[1]);
    lemma_u16_le_round_trip(c.port);
    lemma_u16_le_round_trip(c.len);
    let block = b.subrange(125, CIRCUIT_BYTES as int);
    assert(block =~= spec_cells_block(c.cells));
    lemma_cells_from_block(c.cells, CIRCUIT_CELLS as nat);
    assert(c.cells.take(CIRCUIT_CELLS as int) =~= c.cells);
}

/// Decoding the block of an encoded cell sequence yields the cells back,
/// prefix by prefix.
proof fn lemma_cells_from_block(cs: Seq<Cell>, k: nat)
    requires
        k <= cs.len(),
    ensures
        spec_cells_from(spec_cells_block(cs), k) == Ok::<Seq<Cell>, ConversionError>(
            cs.take(k as int),
        ),
    decreases k,
{
    if k == 0 {
        assert(cs.take(0) =~= Seq::<Cell>::empty());
    } else {
        lemma_cells_from_block(cs, (k - 1) as nat);
        lemma_cells_block_index(cs, k - 1);
        lemma_cell_round_trip(cs[k - 1]);
        assert(cs.take(k - 1).push(cs[k - 1]) =~= cs.take(k as int));
    }
}


/// A position list as the concatenation of little-endian `u32` encodings.
pub open spec fn spec_positions_block(ps: Seq<u32>) -> Seq<u8>
    decreases ps.len(),
{
    if ps.len() == 0 {
        Seq::empty()
    } else {
        spec_positions_block(ps.drop_last()) + spec_u32_le(ps.last())
    }
}

proof fn lemma_positions_block_len(ps: Seq<u32>)
    ensures
        spec_positions_block(ps).len() == 4 * ps.len(),
    decreases ps.len(),
{
    if ps.len() > 0 {
        lemma_positions_block_len(ps.drop_last());
    }
}

/// The encoding of position `k` sits at offset `4 * k` of the block.
proof fn lemma_positions_block_index(ps: Seq<u32>, k: int)
    requires
        0 <= k < ps.len(),
    ensures
        spec_positions_block(ps).subrange(4 * k, 4 * k + 4) == spec_u32_le(ps[k]),
    decreases ps.len(),
{
    lemma_positions_block_len(ps);
    lemma_positions_block_len(ps.drop_last());
    if k == ps.len() - 1 {
        assert(spec_positions_block(ps).subrange(4 * k, 4 * k + 4) =~= spec_u32_le(ps.last()));
    } else {
        lemma_positions_block_index(ps.drop_last(), k);
        assert(spec_positions_block(ps).subrange(4 * k, 4 * k + 4) =~= spec_positions_block(
            ps.drop_last(),
        ).subrange(4 * k, 4 * k + 4));
    }
}

/// A unique index entry on disk: its fixed-width key, then its one
/// position as four little-endian bytes.
pub open spec fn spec_unique_entry_bytes(value: Seq<u8>, pos: u32) -> Seq<u8> {
    value + spec_u32_le(pos)
}

/// A grouped index entry on disk: its key, the position count as four
/// little-endian bytes, then the positions.
pub open spec fn spec_grouped_entry_bytes(value: Seq<u8>, ps: Seq<u32>) -> Seq<u8>
    recommends
        ps.len() <= u32::MAX,
{
    value + spec_u32_le(ps.len() as u32) + spec_positions_block(ps)
}

/// Appends four little-endian bytes of a `u32`.
fn push_u32_le(out: &mut Vec<u8>, v: u32)
    ensures
        final(out)@ == old(out)@ + spec_u32_le(v),
{
    out.push((v & 0xff) as u8);
    out.push(((v >> 8) & 0xff) as u8);
    out.push(((v >> 16) & 0xff) as u8);
    out.push(((v >> 24) & 0xff) as u8);
    proof {
        assert(out@ =~= old(out)@ + spec_u32_le(v));
    }
}

/// Appends a position count and the positions themselves.
fn push_grouped_tail(out: &mut Vec<u8>, ps: &Vec<u32>)
    requires
        ps@.len() <= u32::MAX,
    ensures
        final(out)@ == old(out)@ + spec_u32_le(ps@.len() as u32) + spec_positions_block(ps@),
{
    push_u32_le(out, ps.len() as u32);
    let ghost head = old(out)@ + spec_u32_le(ps@.len() as u32);
    let mut k: usize = 0;
    proof {
        assert(out@ =~= head + spec_positions_block(ps@.take(0)));
    }
    while k < ps.len()
        invariant
            k <= ps@.len(),
            out@ == head + spec_positions_block(ps@.take(k as int)),
        decreases ps@.len() - k,
    {
        push_u32_le(out, ps[k]);
        proof {
            assert(ps@.take(k + 1).drop_last() =~= ps@.take(k as int));
            assert(ps@.take(k + 1).last() == ps@[k as int]);
            assert(out@ =~= head + spec_positions_block(ps@.take(k + 1)));
        }
        k += 1;
    }
    proof {
        assert(ps@.take(ps@.len() as int) =~= ps@);
    }
}

/// Encodes one unique identifier-index entry.
pub fn unique_entry_to_bytes(e: &IndexEntry<FixedAscii>) -> (r: Vec<u8>)
    ensures
        r@ == spec_unique_entry_bytes(e.value@, e.index),
{
    let mut out: Vec<u8> = Vec::new();
    push_bytes(&mut out, &e.value.bytes);
    push_u32_le(&mut out, e.index);
    proof {
        assert(out@ =~= spec_unique_entry_bytes(e.value@, e.index));
    }
    out
}

/// Encodes one grouped entry keyed by a fixed-width string.
pub fn ascii_entry_to_bytes(e: &IndexArrayEntry<FixedAscii>) -> (r: Vec<u8>)
    requires
        e.indexarr@.len() <= u32::MAX,
    ensures
        r@ == spec_grouped_entry_bytes(e.value@, e.indexarr@),
{
    let mut out: Vec<u8> = Vec::new();
    push_bytes(&mut out, &e.value.bytes);
    push_grouped_tail(&mut out, &e.indexarr);
    proof {
        assert(out@ =~= spec_grouped_entry_bytes(e.value@, e.indexarr@));
    }
    out
}

/// Encodes one grouped entry keyed by a day byte.
pub fn u8_entry_to_bytes(e: &IndexArrayEntry<u8>) -> (r: Vec<u8>)
    requires
        e.indexarr@.len() <= u32::MAX,
    ensures
        r@ == spec_grouped_entry_bytes(seq![e.value], e.indexarr@),
{
    let mut out: Vec<u8> = Vec::new();
    out.push(e.value);
    push_grouped_tail(&mut out, &e.indexarr);
    proof {
        assert(out@ =~= spec_grouped_entry_bytes(seq![e.value], e.indexarr@));
    }
    out
}

/// Encodes one grouped entry keyed by a sixteen-bit value.
pub fn u16_entry_to_bytes(e: &IndexArrayEntry<u16>) -> (r: Vec<u8>)
    requires
        e.indexarr@.len() <= u32::MAX,
    ensures
        r@ == spec_grouped_entry_bytes(spec_u16_le(e.value), e.indexarr@),
{
    let mut out: Vec<u8> = Vec::new();
    out.push((e.value & 0xff) as u8);
    out.push(((e.value >> 8) & 0xff) as u8);
    push_grouped_tail(&mut out, &e.indexarr);
    proof {
        assert(out@ =~= spec_grouped_entry_bytes(spec_u16_le(e.value), e.indexarr@));
    }
    out
}

/// The key and position a unique entry's bytes stand for, the key being
/// the first `w` bytes.
pub open spec fn spec_unique_entry_from(b: Seq<u8>, w: nat) -> (Seq<u8>, u32)
    recommends
        b.len() == w + 4,
{
    (
        b.subrange(0, w as int),
        spec_le_u32(b[w as int], b[w as int + 1], b[w as int + 2], b[w as int + 3]),
    )
}

/// Decodes a unique entry with a key of width `w`.
pub fn unique_entry_from_bytes(b: &Vec<u8>, w: usize) -> (r: (Vec<u8>, u32))
    requires
        b@.len() == w + 4,
    ensures
        (r.0@, r.1) == spec_unique_entry_from(b@, w as nat),
{
    let n = b.len();
    proof {
        assert(w + 4 <= n);
    }
    let value = bytes_range(b, 0, w);
    let pos: u32 = (b[w] as u32) | ((b[w + 1] as u32) << 8) | ((b[w + 2] as u32) << 16) | ((b[w
        + 3] as u32) << 24);
    (value, pos)
}

/// Unique-entry round trip: the key and position come back from the
/// encoding.
pub proof fn lemma_unique_entry_round_trip(value: Seq<u8>, pos: u32)
    ensures
        spec_unique_entry_from(spec_unique_entry_bytes(value, pos), value.len()) == (value, pos),
{
    let b = spec_unique_entry_bytes(value, pos);
    let w: int = value.len() as int;
    assert(b.subrange(0, w) =~= value);
    assert(b[w] == spec_u32_le(pos)[0]);
    assert(b[w + 1] == spec_u32_le(pos)[1]);
    assert(b[w + 2] == spec_u32_le(pos)[2]);
    assert(b[w + 3] == spec_u32_le(pos)[3]);
    lemma_u32_le_round_trip(pos);
}

/// The first `k` positions decoded from a position block at offset `off`.
pub open spec fn spec_positions_from(b: Seq<u8>, off: int, k: nat) -> Seq<u32>
    decreases k,
{
    if k == 0 {
        Seq::empty()
    } else {
        spec_positions_from(b, off, (k - 1) as nat).push(
            spec_le_u32(
                b[off + 4 * ((k - 1) as int)],
                b[off + 4 * ((k - 1) as int) + 1],
                b[off + 4 * ((k - 1) as int) + 2],
                b[off + 4 * ((k - 1) as int) + 3],
            ),
        )
    }
}

/// The key and positions a grouped entry's bytes stand for, the key
/// being the first `w` bytes; fails when the length does not match the
/// stored count.
pub open spec fn spec_grouped_entry_from(b: Seq<u8>, w: nat) -> Result<
    (Seq<u8>, Seq<u32>),
    ConversionError,
>
    recommends
        b.len() >= w + 4,
{
    let count = spec_le_u32(b[w as int], b[w as int + 1], b[w as int + 2], b[w as int + 3]);
    if b.len() == w + 4 + 4 * count {
        Ok((b.subrange(0, w as int), spec_positions_from(b, w as int + 4, count as nat)))
    } else {
        Err(ConversionError::MalformedInput)
    }
}

/// Decodes a grouped entry with a key of width `w`.
pub fn grouped_entry_from_bytes(b: &Vec<u8>, w: usize) -> (r: Result<
    (Vec<u8>, Vec<u32>),
    ConversionError,
>)
    requires
        b@.len() >= w + 4,
    ensures
        r matches Ok((v, ps)) ==> spec_grouped_entry_from(b@, w as nat) == Ok::<
            _,
            ConversionError,
        >((v@, ps@)),
        r matches Err(e) ==> spec_grouped_entry_from(b@, w as nat) == Err::<
            (Seq<u8>, Seq<u32>),
            _,
        >(e),
{
    let n = b.len();
    let count: u32 = (b[w] as u32) | ((b[w + 1] as u32) << 8) | ((b[w + 2] as u32) << 16) | ((b[w
        + 3] as u32) << 24);
    if !(count as usize <= (n - w - 4) / 4 && n == w + 4 + 4 * (count as usize)) {
        proof {
            assert(b@.len() != w + 4 + 4 * count);
        }
        return Err(ConversionError::MalformedInput);
    }
    let value = bytes_range(b, 0, w);
    let mut ps: Vec<u32> = Vec::new();
    let mut k: usize = 0;
    while k < count as usize
        invariant
            k <= count,
            b@.len() == w + 4 + 4 * count,
            n == b@.len(),
            w + 4 + 4 * (count as int) == n,
            ps@ == spec_positions_from(b@, w + 4, k as nat),
            ps@.len() == k,
        decreases count - k,
    {
        let off = w + 4 + 4 * k;
        let p: u32 = (b[off] as u32) | ((b[off + 1] as u32) << 8) | ((b[off + 2] as u32) << 16) | ((
        b[off + 3] as u32) << 24);
        ps.push(p);
        proof {
            assert(ps@ =~= spec_positions_from(b@, w + 4, (k + 1) as nat));
        }
        k += 1;
    }
    Ok((value, ps))
}

/// Grouped-entry round trip: the key and positions come back from the
/// encoding.
pub proof fn lemma_grouped_entry_round_trip(value: Seq<u8>, ps: Seq<u32>)
    requires
        ps.len() <= u32::MAX,
    ensures
        spec_grouped_entry_from(spec_grouped_entry_bytes(value, ps), value.len()) == Ok::<
            _,
            ConversionError,
        >((value, ps)),
{
    let b = spec_grouped_entry_bytes(value, ps);
    let w: int = value.len() as int;
    lemma_positions_block_len(ps);
    assert(b[w] == spec_u32_le(ps.len() as u32)[0]);
    assert(b[w + 1] == spec_u32_le(ps.len() as u32)[1]);
    assert(b[w + 2] == spec_u32_le(ps.len() as u32)[2]);
    assert(b[w + 3] == spec_u32_le(ps.len() as u32)[3]);
    lemma_u32_le_round_trip(ps.len() as u32);
    assert(b.subrange(0, w) =~= value);
    lemma_positions_from_block(value, ps, ps.len());
    assert(ps.take(ps.len() as int) =~= ps);
}

/// Decoding the block of encoded positions yields them back, prefix by
/// prefix.
proof fn lemma_positions_from_block(value: Seq<u8>, ps: Seq<u32>, k: nat)
    requires
        k <= ps.len(),
    ensures
        spec_positions_from(
            spec_grouped_entry_bytes(value, ps),
            value.len() as int + 4,
            k,
        ) == ps.take(k as int),
    decreases k,
{
    let b = spec_grouped_entry_bytes(value, ps);
    let off: int = value.len() as int + 4;
    if k == 0 {
        assert(ps.take(0) =~= Seq::<u32>::empty());
    } else {
        lemma_positions_from_block(value, ps, (k - 1) as nat);
        lemma_positions_block_index(ps, k - 1);
        lemma_positions_block_len(ps);
        let pb = spec_positions_block(ps);
        assert(b[off + 4 * ((k - 1) as int)] == pb[4 * (k - 1)]);
        assert(b[off + 4 * ((k - 1) as int) + 1] == pb[4 * (k - 1) + 1]);
        assert(b[off + 4 * ((k - 1) as int) + 2] == pb[4 * (k - 1) + 2]);
        assert(b[off + 4 * ((k - 1) as int) + 3] == pb[4 * (k - 1) + 3]);
        assert(pb[4 * (k - 1)] == pb.subrange(4 * (k - 1), 4 * (k - 1) + 4)[0]);
        assert(pb[4 * (k - 1) + 1] == pb.subrange(4 * (k - 1), 4 * (k - 1) + 4)[1]);
        assert(pb[4 * (k - 1) + 2] == pb.subrange(4 * (k - 1), 4 * (k - 1) + 4)[2]);
        assert(pb[4 * (k - 1) + 3] == pb.subrange(4 * (k - 1), 4 * (k - 1) + 4)[3]);
        lemma_u32_le_round_trip(ps[k - 1]);
        assert(ps.take((k - 1) as int).push(ps[k - 1]) =~= ps.take(k as int));
    }
}

} // verus!

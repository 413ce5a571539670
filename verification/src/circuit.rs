use vstd::prelude::*;

use crate::cell::Cell;
use crate::fixedstr::FixedAscii;
use crate::fixedstr::is_ascii_seq;
use crate::fixedstr::is_null_seq;

verus! {

/// The fixed capacity of the per-circuit cell array.
pub const CIRCUIT_CELLS: usize = 5000;

/// The fixed width of the identifier field.
pub const UUID_WIDTH: usize = 32;

/// The fixed width of the domain and suffix fields.
pub const DOMAIN_WIDTH: usize = 44;

/// The mathematical model of a `Circuit`: each fixed-width buffer as its
/// byte sequence, the cell arena as a sequence.
pub ghost struct CircuitV {
    pub uuid: Seq<u8>,
    pub domain: Seq<u8>,
    pub shortest_private_suffix: Seq<u8>,
    pub day: u8,
    pub port: u16,
    pub len: u16,
    pub cells: Seq<Cell>,
}

impl CircuitV {
    /// Structural well-formedness: fixed field widths, ASCII contents, a
    /// full-capacity cell arena whose tail beyond `len` is all padding.
    pub open spec fn wf(self) -> bool {
        &&& self.uuid.len() == UUID_WIDTH && is_ascii_seq(self.uuid)
        &&& self.domain.len() == DOMAIN_WIDTH && is_ascii_seq(self.domain)
        &&& self.shortest_private_suffix.len() == DOMAIN_WIDTH && is_ascii_seq(
            self.shortest_private_suffix,
        )
        &&& self.cells.len() == CIRCUIT_CELLS
        &&& self.len <= CIRCUIT_CELLS
        &&& forall|i: int| self.len <= i < CIRCUIT_CELLS ==> self.cells[i] == Cell::spec_empty()
    }

    /// The resolved grouping key: the shortest private suffix, or the
    /// domain whenever the suffix is the null sentinel.
    pub open spec fn label(self) -> Seq<u8> {
        if is_null_seq(self.shortest_private_suffix) {
            self.domain
        } else {
            self.shortest_private_suffix
        }
    }
}

/// One measured circuit: fixed metadata plus a fixed-capacity arena of
/// cells, of which `cells[0..len]` are valid and the rest padding.
#[derive(Debug)]
pub struct Circuit {
    /// A unique identifier, assigned at decode time; never the null
    /// sentinel for a decoded record.
    pub uuid: FixedAscii,
    /// The initial first-party domain looked up on the circuit.
    pub domain: FixedAscii,
    /// The domain's shortest private suffix; may be the null sentinel.
    pub shortest_private_suffix: FixedAscii,
    /// The day bucket of the measurement.
    pub day: u8,
    /// The port used to connect to the external server.
    pub port: u16,
    /// The number of valid cells at the front of `cells`.
    pub len: u16,
    /// The cell arena, always exactly `CIRCUIT_CELLS` entries long.
    pub cells: Vec<Cell>,
}

impl View for Circuit {
    type V = CircuitV;

    open spec fn view(&self) -> CircuitV {
        CircuitV {
            uuid: self.uuid@,
            domain: self.domain@,
            shortest_private_suffix: self.shortest_private_suffix@,
            day: self.day,
            port: self.port,
            len: self.len,
            cells: self.cells@,
        }
    }
}

impl Circuit {
    /// The circuit is structurally well-formed.
    pub open spec fn wf(&self) -> bool {
        self@.wf()
    }

    /// Creates an empty `Circuit` with all meta-data zeroed out.
    pub fn empty() -> (r: Circuit)
        ensures
            r.wf(),
            r@.uuid == crate::fixedstr::null_seq(UUID_WIDTH as nat),
            r@.domain == crate::fixedstr::null_seq(DOMAIN_WIDTH as nat),
            r@.shortest_private_suffix == crate::fixedstr::null_seq(DOMAIN_WIDTH as nat),
            r@.day == 0 && r@.port == 0 && r@.len == 0,
            forall|i: int| 0 <= i < CIRCUIT_CELLS ==> r@.cells[i] == Cell::spec_empty(),
    {
        Circuit {
            uuid: crate::fixedstr::fixedascii_null(UUID_WIDTH),
            domain: crate::fixedstr::fixedascii_null(DOMAIN_WIDTH),
            shortest_private_suffix: crate::fixedstr::fixedascii_null(DOMAIN_WIDTH),
            day: 0,
            port: 0,
            len: 0,
            cells: empty_cell_arena(),
        }
    }

    /// The string used as the grouping label for this circuit: the
    /// shortest private suffix, or the domain whenever the suffix is the
    /// null sentinel.
    pub fn label(&self) -> (r: &FixedAscii)
        ensures
            r@ == self@.label(),
    {
        if self.shortest_private_suffix.is_empty() {
            &self.domain
        } else {
            &self.shortest_private_suffix
        }
    }
}

/// A full-capacity arena of padding cells.
pub fn empty_cell_arena() -> (r: Vec<Cell>)
    ensures
        r@.len() == CIRCUIT_CELLS,
        forall|i: int| 0 <= i < CIRCUIT_CELLS ==> r@[i] == Cell::spec_empty(),
{
    let mut cells: Vec<Cell> = Vec::new();
    let mut k: usize = 0;
    while k < CIRCUIT_CELLS
        invariant
            k <= CIRCUIT_CELLS,
            cells@.len() == k,
            forall|i: int| 0 <= i < k ==> cells@[i] == Cell::spec_empty(),
        decreases CIRCUIT_CELLS - k,
    {
        cells.push(Cell::empty());
        k += 1;
    }
    cells
}

/// An integer index into an array of circuits; valid while the backing
/// array holds fewer than 2^32 records and is neither reordered nor
/// truncated below the position.
pub type CircuitIndex = u32;

/// A modified version of a circuit used for augmentation purposes.
#[derive(Debug)]
pub struct AugmentedCircuit {
    /// A unique identifier of the augmented circuit.
    pub uuid: FixedAscii,
    /// The identifier of the `Circuit` from which this one was created.
    pub uuid_source: FixedAscii,
    /// Links many augmented circuits to the same source circuit.
    pub aug_index: u16,
    /// The same meaning as `Circuit::len`.
    pub len: u16,
    /// The same meaning as `Circuit::cells`.
    pub cells: Vec<Cell>,
}

impl AugmentedCircuit {
    /// Structural well-formedness, as for `Circuit`.
    pub open spec fn wf(&self) -> bool {
        &&& self.uuid@.len() == UUID_WIDTH && is_ascii_seq(self.uuid@)
        &&& self.uuid_source@.len() == UUID_WIDTH && is_ascii_seq(self.uuid_source@)
        &&& self.cells@.len() == CIRCUIT_CELLS
        &&& self.len <= CIRCUIT_CELLS
        &&& forall|i: int|
            self.len <= i < CIRCUIT_CELLS ==> self.cells@[i] == Cell::spec_empty()
    }

    /// Creates an empty `AugmentedCircuit` with all meta-data zeroed out.
    pub fn empty() -> (r: AugmentedCircuit)
        ensures
            r.wf(),
            is_null_seq(r.uuid@) && is_null_seq(r.uuid_source@),
            r.aug_index == 0 && r.len == 0,
    {
        AugmentedCircuit {
            uuid: crate::fixedstr::fixedascii_null(UUID_WIDTH),
            uuid_source: crate::fixedstr::fixedascii_null(UUID_WIDTH),
            aug_index: 0,
            len: 0,
            cells: empty_cell_arena(),
        }
    }
}

} // verus!

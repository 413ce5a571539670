use vstd::prelude::*;

use crate::circuit::{Circuit, CircuitIndex, CircuitV};
use crate::error::ConversionError;
use crate::fixedstr::FixedAscii;
use crate::fixedstr::copy_bytes;
use crate::index::{
    RawEntry, build_grouped, bytes_view, entry_matches_keys, grouped_index_ok, lex_lt, lex_lt_fn,
    raw_view,
};

verus! {

/// One entry of an index over a key guaranteed unique: the key and the
/// single position of the record that carries it.
#[derive(Debug)]
pub struct IndexEntry<T> {
    /// The value being indexed.
    pub value: T,
    /// The position, in the record array, of the one record with this
    /// value.
    pub index: CircuitIndex,
}

/// One entry of an index over a one-to-many key: the key and the ascending
/// positions of every record that carries it.
#[derive(Debug)]
pub struct IndexArrayEntry<T> {
    /// The value being indexed.
    pub value: T,
    /// The positions, in the record array, of all records with this value,
    /// ascending and without duplicates.
    pub indexarr: Vec<CircuitIndex>,
}

/// The numeric order on `u8` keys.
pub open spec fn u8_lt_fn() -> spec_fn(u8, u8) -> bool {
    |a: u8, b: u8| a < b
}

/// The numeric order on `u16` keys.
pub open spec fn u16_lt_fn() -> spec_fn(u16, u16) -> bool {
    |a: u16, b: u16| a < b
}

/// Unique-entry index entries as (key, position) pairs.
pub open spec fn id_entries_view(v: Seq<IndexEntry<FixedAscii>>) -> Seq<(Seq<u8>, u32)> {
    Seq::new(v.len(), |i: int| (v[i].value@, v[i].index))
}

/// Grouped fixed-ASCII entries as (key, positions) pairs.
pub open spec fn ascii_entries_view(v: Seq<IndexArrayEntry<FixedAscii>>) -> Seq<
    (Seq<u8>, Seq<u32>),
> {
    Seq::new(v.len(), |i: int| (v[i].value@, v[i].indexarr@))
}

/// Grouped `u8` entries as (key, positions) pairs.
pub open spec fn u8_entries_view(v: Seq<IndexArrayEntry<u8>>) -> Seq<(u8, Seq<u32>)> {
    Seq::new(v.len(), |i: int| (v[i].value, v[i].indexarr@))
}

/// Grouped `u16` entries as (key, positions) pairs.
pub open spec fn u16_entries_view(v: Seq<IndexArrayEntry<u16>>) -> Seq<(u16, Seq<u32>)> {
    Seq::new(v.len(), |i: int| (v[i].value, v[i].indexarr@))
}

/// The record sequence as its mathematical views.
pub open spec fn circuits_view(rs: Seq<Circuit>) -> Seq<CircuitV> {
    Seq::new(rs.len(), |i: int| rs[i]@)
}

/// The identifier of each record, in record order.
pub open spec fn uuid_keys(rs: Seq<CircuitV>) -> Seq<Seq<u8>> {
    Seq::new(rs.len(), |i: int| rs[i].uuid)
}

/// The resolved label of each record, in record order.
pub open spec fn label_keys(rs: Seq<CircuitV>) -> Seq<Seq<u8>> {
    Seq::new(rs.len(), |i: int| rs[i].label())
}

/// The day bucket of each record, in record order.
pub open spec fn day_keys(rs: Seq<CircuitV>) -> Seq<u8> {
    Seq::new(rs.len(), |i: int| rs[i].day)
}

/// The port of each record, in record order.
pub open spec fn port_keys(rs: Seq<CircuitV>) -> Seq<u16> {
    Seq::new(rs.len(), |i: int| rs[i].port)
}

/// The valid-cell count of each record, in record order.
pub open spec fn len_keys(rs: Seq<CircuitV>) -> Seq<u16> {
    Seq::new(rs.len(), |i: int| rs[i].len)
}

/// A `u16` as its two big-endian bytes, so that byte-lexicographic and
/// numeric order agree.
pub open spec fn u16_be(v: u16) -> Seq<u8> {
    seq![(v / 256) as u8, (v % 256) as u8]
}

/// Position `p` is the target of some unique entry carrying its key.
pub open spec fn unique_found_in(keys: Seq<Seq<u8>>, idx: Seq<(Seq<u8>, u32)>, p: int) -> bool {
    exists|e: int| 0 <= e < idx.len() && (#[trigger] idx[e]).1 == p && idx[e].0 == keys[p]
}

/// The unique-key index contract: keys strictly ascending, every entry
/// pointing at a record that carries its key, and every record position
/// listed by an entry with that record's key.
pub open spec fn unique_index_ok(keys: Seq<Seq<u8>>, idx: Seq<(Seq<u8>, u32)>) -> bool {
    &&& forall|i: int, j: int| 0 <= i < j < idx.len() ==> lex_lt(
        (#[trigger] idx[i]).0,
        (#[trigger] idx[j]).0,
    )
    &&& forall|e: int| 0 <= e < idx.len() ==> (#[trigger] idx[e]).1 < keys.len() && keys[idx[e].1
        as int] == idx[e].0
    &&& forall|p: int| 0 <= p < keys.len() ==> #[trigger] unique_found_in(keys, idx, p)
}

/// No two records share an identifier.
pub open spec fn uuids_distinct(rs: Seq<CircuitV>) -> bool {
    forall|i: int, j: int| 0 <= i < j < rs.len() ==> (#[trigger] rs[i]).uuid != (
    #[trigger] rs[j]).uuid
}

/// The five secondary indices over one record sequence, each sorted
/// ascending by key.
#[derive(Debug)]
pub struct Indices {
    /// By unique identifier: one position per key.
    pub id: Vec<IndexEntry<FixedAscii>>,
    /// By resolved label.
    pub label: Vec<IndexArrayEntry<FixedAscii>>,
    /// By day bucket.
    pub day: Vec<IndexArrayEntry<u8>>,
    /// By destination port.
    pub port: Vec<IndexArrayEntry<u16>>,
    /// By valid-cell count.
    pub len: Vec<IndexArrayEntry<u16>>,
}

/// All five indices are sound, sorted and complete for `rs`.
pub open spec fn indices_ok(rs: Seq<CircuitV>, ix: Indices) -> bool {
    &&& unique_index_ok(uuid_keys(rs), id_entries_view(ix.id@))
    &&& grouped_index_ok(label_keys(rs), ascii_entries_view(ix.label@), lex_lt_fn())
    &&& grouped_index_ok(day_keys(rs), u8_entries_view(ix.day@), u8_lt_fn())
    &&& grouped_index_ok(port_keys(rs), u16_entries_view(ix.port@), u16_lt_fn())
    &&& grouped_index_ok(len_keys(rs), u16_entries_view(ix.len@), u16_lt_fn())
}

/// Copies a position list.
fn copy_positions(v: &Vec<u32>) -> (r: Vec<u32>)
    ensures
        r@ == v@,
{
    let mut r: Vec<u32> = Vec::new();
    let mut i: usize = 0;
    while i < v.len()
        invariant
            i <= v.len(),
            r@ == v@.take(i as int),
        decreases v.len() - i,
    {
        r.push(v[i]);
        proof {
            assert(v@.take(i as int).push(v@[i as int]) =~= v@.take(i + 1));
        }
        i += 1;
    }
    proof {
        assert(v@.take(v@.len() as int) =~= v@);
    }
    r
}

/// Repackages raw grouped entries as fixed-ASCII entries, byte for byte.
fn to_ascii_entries(raw: &Vec<RawEntry>) -> (r: Vec<IndexArrayEntry<FixedAscii>>)
    ensures
        ascii_entries_view(r@) == raw_view(raw@),
{
    let mut r: Vec<IndexArrayEntry<FixedAscii>> = Vec::new();
    let mut i: usize = 0;
    while i < raw.len()
        invariant
            i <= raw@.len(),
            ascii_entries_view(r@) == raw_view(raw@).take(i as int),
        decreases raw@.len() - i,
    {
        let ghost old_r = r@;
        let e = &raw[i];
        r.push(
            IndexArrayEntry {
                value: FixedAscii { bytes: copy_bytes(&e.key) },
                indexarr: copy_positions(&e.positions),
            },
        );
        proof {
            assert(ascii_entries_view(old_r).len() == i);
            assert(old_r.len() == i);
            assert(r@ == old_r.push(r@[i as int]));
            assert forall|k: int| 0 <= k < i + 1 implies ascii_entries_view(r@)[k] == raw_view(
                raw@,
            ).take(i + 1)[k] by {
                if k < i {
                    assert(r@[k] == old_r[k]);
                    assert(ascii_entries_view(old_r)[k] == raw_view(raw@).take(i as int)[k]);
                }
            }
            assert(ascii_entries_view(r@) =~= raw_view(raw@).take(i + 1));
        }
        i += 1;
    }
    proof {
        assert(raw_view(raw@).take(raw@.len() as int) =~= raw_view(raw@));
    }
    r
}

/// Repackages raw grouped entries whose keys are single bytes as `u8`
/// entries.
fn to_u8_entries(raw: &Vec<RawEntry>) -> (r: Vec<IndexArrayEntry<u8>>)
    requires
        forall|e: int| 0 <= e < raw@.len() ==> (#[trigger] raw_view(raw@)[e]).0.len() == 1,
    ensures
        u8_entries_view(r@).len() == raw@.len(),
        forall|e: int| 0 <= e < raw@.len() ==> (#[trigger] u8_entries_view(r@)[e]).0 == raw_view(
            raw@,
        )[e].0[0] && u8_entries_view(r@)[e].1 == raw_view(raw@)[e].1,
{
    let mut r: Vec<IndexArrayEntry<u8>> = Vec::new();
    let mut i: usize = 0;
    while i < raw.len()
        invariant
            i <= raw@.len(),
            r@.len() == i,
            forall|e: int| 0 <= e < raw@.len() ==> (#[trigger] raw_view(raw@)[e]).0.len() == 1,
            forall|e: int| 0 <= e < i ==> (#[trigger] u8_entries_view(r@)[e]).0 == raw_view(
                raw@,
            )[e].0[0] && u8_entries_view(r@)[e].1 == raw_view(raw@)[e].1,
        decreases raw@.len() - i,
    {
        let ghost old_r = r@;
        let e = &raw[i];
        proof {
            assert(raw_view(raw@)[i as int].0.len() == 1);
        }
        r.push(IndexArrayEntry { value: e.key[0], indexarr: copy_positions(&e.positions) });
        proof {
            assert forall|k: int| 0 <= k < i + 1 implies (#[trigger] u8_entries_view(r@)[k]).0
                == raw_view(raw@)[k].0[0] && u8_entries_view(r@)[k].1 == raw_view(raw@)[k].1 by {
                if k < i {
                    assert(r@[k] == old_r[k]);
                    assert((#[trigger] u8_entries_view(old_r)[k]).0 == raw_view(raw@)[k].0[0]
                        && u8_entries_view(old_r)[k].1 == raw_view(raw@)[k].1);
                }
            }
        }
        i += 1;
    }
    r
}

/// Repackages raw grouped entries whose keys are two big-endian bytes as
/// `u16` entries.
fn to_u16_entries(raw: &Vec<RawEntry>) -> (r: Vec<IndexArrayEntry<u16>>)
    requires
        forall|e: int| 0 <= e < raw@.len() ==> (#[trigger] raw_view(raw@)[e]).0.len() == 2,
    ensures
        u16_entries_view(r@).len() == raw@.len(),
        forall|e: int| 0 <= e < raw@.len() ==> (#[trigger] u16_entries_view(r@)[e]).0 == raw_view(
            raw@,
        )[e].0[0] as u16 * 256 + raw_view(raw@)[e].0[1] as u16 && u16_entries_view(r@)[e].1
            == raw_view(raw@)[e].1,
{
    let mut r: Vec<IndexArrayEntry<u16>> = Vec::new();
    let mut i: usize = 0;
    while i < raw.len()
        invariant
            i <= raw@.len(),
            r@.len() == i,
            forall|e: int| 0 <= e < raw@.len() ==> (#[trigger] raw_view(raw@)[e]).0.len() == 2,
            forall|e: int| 0 <= e < i ==> (#[trigger] u16_entries_view(r@)[e]).0 == raw_view(
                raw@,
            )[e].0[0] as u16 * 256 + raw_view(raw@)[e].0[1] as u16 && u16_entries_view(r@)[e].1
                == raw_view(raw@)[e].1,
        decreases raw@.len() - i,
    {
        let ghost old_r = r@;
        let e = &raw[i];
        proof {
            assert(raw_view(raw@)[i as int].0.len() == 2);
        }
        let value: u16 = (e.key[0] as u16) * 256 + (e.key[1] as u16);
        r.push(IndexArrayEntry { value, indexarr: copy_positions(&e.positions) });
        proof {
            assert forall|k: int| 0 <= k < i + 1 implies (#[trigger] u16_entries_view(r@)[k]).0
                == raw_view(raw@)[k].0[0] as u16 * 256 + raw_view(raw@)[k].0[1] as u16
                && u16_entries_view(r@)[k].1 == raw_view(raw@)[k].1 by {
                if k < i {
                    assert(r@[k] == old_r[k]);
                    assert((#[trigger] u16_entries_view(old_r)[k]).0 == raw_view(raw@)[k].0[0]
                        as u16 * 256 + raw_view(raw@)[k].0[1] as u16 && u16_entries_view(
                        old_r,
                    )[k].1 == raw_view(raw@)[k].1);
                }
            }
        }
        i += 1;
    }
    r
}

/// Repackages raw grouped identifier entries as unique entries, failing
/// with `DuplicateIdentifier` exactly when some key groups two or more
/// positions.
fn to_id_entries(raw: &Vec<RawEntry>) -> (r: Result<
    Vec<IndexEntry<FixedAscii>>,
    ConversionError,
>)
    requires
        forall|e: int| 0 <= e < raw@.len() ==> (#[trigger] raw_view(raw@)[e]).1.len() >= 1,
    ensures
        r is Ok <==> (forall|e: int| 0 <= e < raw@.len() ==> (#[trigger] raw_view(
            raw@,
        )[e]).1.len() == 1),
        r matches Ok(v) ==> id_entries_view(v@).len() == raw@.len() && (forall|e: int|
            0 <= e < raw@.len() ==> (#[trigger] id_entries_view(v@)[e]).0 == raw_view(raw@)[e].0
                && id_entries_view(v@)[e].1 == raw_view(raw@)[e].1[0]),
        r matches Err(er) ==> (er matches ConversionError::DuplicateIdentifier { key } && (
        exists|e: int|
            0 <= e < raw@.len() && (#[trigger] raw_view(raw@)[e]).0 == key@ && raw_view(
                raw@,
            )[e].1.len() >= 2)),
{
    let mut r: Vec<IndexEntry<FixedAscii>> = Vec::new();
    let mut i: usize = 0;
    while i < raw.len()
        invariant
            i <= raw@.len(),
            r@.len() == i,
            forall|e: int| 0 <= e < raw@.len() ==> (#[trigger] raw_view(raw@)[e]).1.len() >= 1,
            forall|e: int| 0 <= e < i ==> (#[trigger] raw_view(raw@)[e]).1.len() == 1,
            forall|e: int| 0 <= e < i ==> (#[trigger] id_entries_view(r@)[e]).0 == raw_view(
                raw@,
            )[e].0 && id_entries_view(r@)[e].1 == raw_view(raw@)[e].1[0],
        decreases raw@.len() - i,
    {
        let ghost old_r = r@;
        let e = &raw[i];
        if e.positions.len() != 1 {
            proof {
                assert((#[trigger] raw_view(raw@)[i as int]).1.len() >= 2);
                assert(raw_view(raw@)[i as int].0 == e.key@);
            }
            return Err(ConversionError::DuplicateIdentifier { key: copy_bytes(&e.key) });
        }
        r.push(IndexEntry { value: FixedAscii { bytes: copy_bytes(&e.key) }, index: e.positions[0] });
        proof {
            assert(raw_view(raw@)[i as int].1.len() == 1);
            assert forall|k: int| 0 <= k < i + 1 implies (#[trigger] id_entries_view(r@)[k]).0
                == raw_view(raw@)[k].0 && id_entries_view(r@)[k].1 == raw_view(raw@)[k].1[0] by {
                if k < i {
                    assert(r@[k] == old_r[k]);
                    assert((#[trigger] id_entries_view(old_r)[k]).0 == raw_view(raw@)[k].0
                        && id_entries_view(old_r)[k].1 == raw_view(raw@)[k].1[0]);
                }
            }
        }
        i += 1;
    }
    Ok(r)
}


/// The day of each record as a one-byte key.
pub open spec fn u8_be_keys(ks: Seq<u8>) -> Seq<Seq<u8>> {
    Seq::new(ks.len(), |i: int| seq![ks[i]])
}

/// Each `u16` key as its two big-endian bytes.
pub open spec fn u16_be_keys(ks: Seq<u16>) -> Seq<Seq<u8>> {
    Seq::new(ks.len(), |i: int| u16_be(ks[i]))
}

/// The identifier bytes of every record, in record order.
fn uuid_byte_keys(records: &Vec<Circuit>) -> (r: Vec<Vec<u8>>)
    ensures
        bytes_view(r@) == uuid_keys(circuits_view(records@)),
{
    let mut r: Vec<Vec<u8>> = Vec::new();
    let mut i: usize = 0;
    while i < records.len()
        invariant
            i <= records@.len(),
            r@.len() == i,
            forall|q: int| 0 <= q < i ==> (#[trigger] r@[q])@ == records@[q]@.uuid,
        decreases records@.len() - i,
    {
        let ghost old_r = r@;
        let rec = &records[i];
        r.push(rec.uuid.raw_bytes());
        proof {
            assert forall|q: int| 0 <= q < i + 1 implies (#[trigger] r@[q])@ == records@[q]@.uuid by {
                if q < i {
                    assert(r@[q] == old_r[q]);
                }
            }
        }
        i += 1;
    }
    proof {
        assert(bytes_view(r@) =~= uuid_keys(circuits_view(records@)));
    }
    r
}

/// The resolved label bytes of every record, in record order.
fn label_byte_keys(records: &Vec<Circuit>) -> (r: Vec<Vec<u8>>)
    ensures
        bytes_view(r@) == label_keys(circuits_view(records@)),
{
    let mut r: Vec<Vec<u8>> = Vec::new();
    let mut i: usize = 0;
    while i < records.len()
        invariant
            i <= records@.len(),
            r@.len() == i,
            forall|q: int| 0 <= q < i ==> (#[trigger] r@[q])@ == records@[q]@.label(),
        decreases records@.len() - i,
    {
        let ghost old_r = r@;
        let rec = &records[i];
        r.push(rec.label().raw_bytes());
        proof {
            assert forall|q: int| 0 <= q < i + 1 implies (#[trigger] r@[q])@ == records@[q]@.label()
                by {
                if q < i {
                    assert(r@[q] == old_r[q]);
                }
            }
        }
        i += 1;
    }
    proof {
        assert(bytes_view(r@) =~= label_keys(circuits_view(records@)));
    }
    r
}

/// The day of every record as a one-byte key, in record order.
fn day_byte_keys(records: &Vec<Circuit>) -> (r: Vec<Vec<u8>>)
    ensures
        bytes_view(r@) == u8_be_keys(day_keys(circuits_view(records@))),
{
    let mut r: Vec<Vec<u8>> = Vec::new();
    let mut i: usize = 0;
    while i < records.len()
        invariant
            i <= records@.len(),
            r@.len() == i,
            forall|q: int| 0 <= q < i ==> (#[trigger] r@[q])@ == seq![records@[q]@.day],
        decreases records@.len() - i,
    {
        let ghost old_r = r@;
        let rec = &records[i];
        let mut k: Vec<u8> = Vec::new();
        k.push(rec.day);
        proof {
            assert(k@ =~= seq![records@[i as int]@.day]);
        }
        r.push(k);
        proof {
            assert forall|q: int| 0 <= q < i + 1 implies (#[trigger] r@[q])@ == seq![
                records@[q]@.day,
            ] by {
                if q < i {
                    assert(r@[q] == old_r[q]);
                }
            }
        }
        i += 1;
    }
    proof {
        assert(bytes_view(r@) =~= u8_be_keys(day_keys(circuits_view(records@))));
    }
    r
}

/// Every record's port (or, with `use_len`, valid-cell count) as a
/// two-byte big-endian key, in record order.
fn u16_byte_keys(records: &Vec<Circuit>, use_len: bool) -> (r: Vec<Vec<u8>>)
    ensures
        !use_len ==> bytes_view(r@) == u16_be_keys(port_keys(circuits_view(records@))),
        use_len ==> bytes_view(r@) == u16_be_keys(len_keys(circuits_view(records@))),
{
    let mut r: Vec<Vec<u8>> = Vec::new();
    let mut i: usize = 0;
    while i < records.len()
        invariant
            i <= records@.len(),
            r@.len() == i,
            forall|q: int| 0 <= q < i ==> (#[trigger] r@[q])@ == u16_be(
                if use_len {
                    records@[q]@.len
                } else {
                    records@[q]@.port
                },
            ),
        decreases records@.len() - i,
    {
        let ghost old_r = r@;
        let rec = &records[i];
        let v: u16 = if use_len {
            rec.len
        } else {
            rec.port
        };
        let mut k: Vec<u8> = Vec::new();
        k.push((v / 256) as u8);
        k.push((v % 256) as u8);
        proof {
            assert(k@ =~= u16_be(v));
        }
        r.push(k);
        proof {
            assert forall|q: int| 0 <= q < i + 1 implies (#[trigger] r@[q])@ == u16_be(
                if use_len {
                    records@[q]@.len
                } else {
                    records@[q]@.port
                },
            ) by {
                if q < i {
                    assert(r@[q] == old_r[q]);
                }
            }
        }
        i += 1;
    }
    proof {
        if use_len {
            assert(bytes_view(r@) =~= u16_be_keys(len_keys(circuits_view(records@))));
        } else {
            assert(bytes_view(r@) =~= u16_be_keys(port_keys(circuits_view(records@))));
        }
    }
    r
}


/// Byte-lexicographic order never relates a key to itself.
proof fn lemma_lex_irrefl(a: Seq<u8>)
    ensures
        !lex_lt(a, a),
{
    if lex_lt(a, a) {
        crate::index::lemma_lex_asym(a, a);
    }
}

/// On one-byte keys the lexicographic order is the byte order.
proof fn lemma_lex_single(a: Seq<u8>, b: Seq<u8>)
    requires
        a.len() == 1,
        b.len() == 1,
    ensures
        lex_lt(a, b) == (a[0] < b[0]),
{
    if a[0] == b[0] {
        assert(a.drop_first().len() == 0);
        assert(b.drop_first().len() == 0);
        assert(!lex_lt(a.drop_first(), b.drop_first()));
    }
}

/// On two-byte keys the lexicographic order compares the first byte, then
/// the second.
proof fn lemma_lex_pair(a: Seq<u8>, b: Seq<u8>)
    requires
        a.len() == 2,
        b.len() == 2,
    ensures
        lex_lt(a, b) == (a[0] < b[0] || (a[0] == b[0] && a[1] < b[1])),
{
    if a[0] == b[0] {
        assert(a.drop_first().len() == 1 && b.drop_first().len() == 1);
        assert(a.drop_first()[0] == a[1] && b.drop_first()[0] == b[1]);
        lemma_lex_single(a.drop_first(), b.drop_first());
    }
}

/// Big-endian two-byte keys order exactly as their `u16` values.
proof fn lemma_u16_be_order(x: u16, y: u16)
    ensures
        lex_lt(u16_be(x), u16_be(y)) == (x < y),
{
    let a = u16_be(x);
    let b = u16_be(y);
    lemma_lex_pair(a, b);
    assert(x == x / 256 * 256 + x % 256) by (nonlinear_arith);
    assert(y == y / 256 * 256 + y % 256) by (nonlinear_arith);
    assert(x % 256 < 256 && y % 256 < 256) by (nonlinear_arith);
}

/// A big-endian two-byte key decodes back to its `u16` value.
proof fn lemma_u16_be_value(x: u16)
    ensures
        u16_be(x)[0] as u16 * 256 + u16_be(x)[1] as u16 == x,
{
    assert(x == x / 256 * 256 + x % 256) by (nonlinear_arith);
    assert(x / 256 < 256 && x % 256 < 256) by (nonlinear_arith);
}

/// Every entry of a grouped index over one-byte keys has a one-byte key.
proof fn lemma_u8_raw_keylen(ks: Seq<u8>, raw: Seq<(Seq<u8>, Seq<u32>)>)
    requires
        grouped_index_ok(u8_be_keys(ks), raw, lex_lt_fn()),
    ensures
        forall|e: int| 0 <= e < raw.len() ==> (#[trigger] raw[e]).0.len() == 1,
{
    assert forall|e: int| 0 <= e < raw.len() implies (#[trigger] raw[e]).0.len() == 1 by {
        assert(entry_matches_keys(u8_be_keys(ks), raw[e]));
        let p = raw[e].1[0];
        assert(p < u8_be_keys(ks).len() && u8_be_keys(ks)[p as int] == raw[e].0);
    }
}

/// Every entry of a grouped index over two-byte keys has a two-byte key.
proof fn lemma_u16_raw_keylen(ks: Seq<u16>, raw: Seq<(Seq<u8>, Seq<u32>)>)
    requires
        grouped_index_ok(u16_be_keys(ks), raw, lex_lt_fn()),
    ensures
        forall|e: int| 0 <= e < raw.len() ==> (#[trigger] raw[e]).0.len() == 2,
{
    assert forall|e: int| 0 <= e < raw.len() implies (#[trigger] raw[e]).0.len() == 2 by {
        assert(entry_matches_keys(u16_be_keys(ks), raw[e]));
        let p = raw[e].1[0];
        assert(p < u16_be_keys(ks).len() && u16_be_keys(ks)[p as int] == raw[e].0);
    }
}

/// A grouped index built over one-byte keys carries over, entry for entry,
/// to a grouped index over the `u8` values themselves.
proof fn lemma_u8_index_transfer(
    ks: Seq<u8>,
    raw: Seq<(Seq<u8>, Seq<u32>)>,
    typed: Seq<(u8, Seq<u32>)>,
)
    requires
        grouped_index_ok(u8_be_keys(ks), raw, lex_lt_fn()),
        typed.len() == raw.len(),
        forall|e: int| 0 <= e < typed.len() ==> (#[trigger] typed[e]).0 == raw[e].0[0]
            && typed[e].1 == raw[e].1,
    ensures
        grouped_index_ok(ks, typed, u8_lt_fn()),
{
    lemma_u8_raw_keylen(ks, raw);
    assert forall|e: int| 0 <= e < raw.len() implies #[trigger] raw[e].0 == seq![typed[e].0] by {
        assert(entry_matches_keys(u8_be_keys(ks), raw[e]));
        let p = raw[e].1[0];
        assert(u8_be_keys(ks)[p as int] == raw[e].0);
        assert(raw[e].0 =~= seq![typed[e].0]);
    }
    assert forall|i: int, j: int| 0 <= i < j < typed.len() implies u8_lt_fn()(
        (#[trigger] typed[i]).0,
        (#[trigger] typed[j]).0,
    ) by {
        assert(lex_lt_fn()(raw[i].0, raw[j].0));
        lemma_lex_single(raw[i].0, raw[j].0);
    }
    assert forall|e: int| 0 <= e < typed.len() implies entry_matches_keys(
        ks,
        #[trigger] typed[e],
    ) by {
        assert(entry_matches_keys(u8_be_keys(ks), raw[e]));
        assert forall|k: int| 0 <= k < typed[e].1.len() implies #[trigger] typed[e].1[k]
            < ks.len() && ks[typed[e].1[k] as int] == typed[e].0 by {
            assert(raw[e].1[k] < u8_be_keys(ks).len());
            assert(u8_be_keys(ks)[raw[e].1[k] as int] == raw[e].0);
        }
    }
    assert forall|p: int| 0 <= p < ks.len() implies #[trigger] crate::index::found_in(
        ks,
        typed,
        p,
    ) by {
        assert(u8_be_keys(ks)[p] == seq![ks[p]]);
        assert(crate::index::found_in(u8_be_keys(ks), raw, p));
        let e = choose|e: int|
            0 <= e < raw.len() && (#[trigger] raw[e]).0 == u8_be_keys(ks)[p] && raw[e].1.contains(
                p as u32,
            );
        assert(0 <= e < typed.len() && typed[e].0 == ks[p] && typed[e].1.contains(p as u32));
    }
}

/// A grouped index built over big-endian two-byte keys carries over, entry
/// for entry, to a grouped index over the `u16` values themselves.
proof fn lemma_u16_index_transfer(
    ks: Seq<u16>,
    raw: Seq<(Seq<u8>, Seq<u32>)>,
    typed: Seq<(u16, Seq<u32>)>,
)
    requires
        grouped_index_ok(u16_be_keys(ks), raw, lex_lt_fn()),
        typed.len() == raw.len(),
        forall|e: int| 0 <= e < typed.len() ==> (#[trigger] typed[e]).0 == raw[e].0[0] as u16 * 256
            + raw[e].0[1] as u16 && typed[e].1 == raw[e].1,
    ensures
        grouped_index_ok(ks, typed, u16_lt_fn()),
{
    lemma_u16_raw_keylen(ks, raw);
    assert forall|e: int| 0 <= e < raw.len() implies #[trigger] raw[e].0 == u16_be(typed[e].0) by {
        assert(entry_matches_keys(u16_be_keys(ks), raw[e]));
        let p = raw[e].1[0];
        assert(u16_be_keys(ks)[p as int] == raw[e].0);
        assert(raw[e].0 == u16_be(ks[p as int]));
        lemma_u16_be_value(ks[p as int]);
        assert(typed[e].0 == ks[p as int]);
    }
    assert forall|i: int, j: int| 0 <= i < j < typed.len() implies u16_lt_fn()(
        (#[trigger] typed[i]).0,
        (#[trigger] typed[j]).0,
    ) by {
        assert(lex_lt_fn()(raw[i].0, raw[j].0));
        lemma_u16_be_order(typed[i].0, typed[j].0);
    }
    assert forall|e: int| 0 <= e < typed.len() implies entry_matches_keys(
        ks,
        #[trigger] typed[e],
    ) by {
        assert(entry_matches_keys(u16_be_keys(ks), raw[e]));
        assert forall|k: int| 0 <= k < typed[e].1.len() implies #[trigger] typed[e].1[k]
            < ks.len() && ks[typed[e].1[k] as int] == typed[e].0 by {
            assert(raw[e].1[k] < u16_be_keys(ks).len());
            assert(u16_be_keys(ks)[raw[e].1[k] as int] == raw[e].0);
            assert(raw[e].0 == u16_be(ks[raw[e].1[k] as int]));
            lemma_u16_be_value(ks[raw[e].1[k] as int]);
        }
    }
    assert forall|p: int| 0 <= p < ks.len() implies #[trigger] crate::index::found_in(
        ks,
        typed,
        p,
    ) by {
        assert(u16_be_keys(ks)[p] == u16_be(ks[p]));
        assert(crate::index::found_in(u16_be_keys(ks), raw, p));
        let e = choose|e: int|
            0 <= e < raw.len() && (#[trigger] raw[e]).0 == u16_be_keys(ks)[p] && raw[e].1.contains(
                p as u32,
            );
        lemma_u16_be_value(ks[p]);
        assert(0 <= e < typed.len() && typed[e].0 == ks[p] && typed[e].1.contains(p as u32));
    }
}


/// Grouped identifier entries in which every key groups exactly one
/// position repackage into a sound, sorted, complete unique index, and
/// witness that the keys are pairwise distinct.
proof fn lemma_id_ok(keys: Seq<Seq<u8>>, raw: Seq<(Seq<u8>, Seq<u32>)>, idv: Seq<(Seq<u8>, u32)>)
    requires
        keys.len() < 0x1_0000_0000,
        grouped_index_ok(keys, raw, lex_lt_fn()),
        idv.len() == raw.len(),
        forall|e: int| 0 <= e < idv.len() ==> (#[trigger] idv[e]).0 == raw[e].0 && idv[e].1
            == raw[e].1[0],
        forall|e: int| 0 <= e < raw.len() ==> (#[trigger] raw[e]).1.len() == 1,
    ensures
        unique_index_ok(keys, idv),
        forall|i: int, j: int| 0 <= i < j < keys.len() ==> #[trigger] keys[i] != #[trigger] keys[j],
{
    assert forall|i: int, j: int| 0 <= i < j < idv.len() implies lex_lt(
        (#[trigger] idv[i]).0,
        (#[trigger] idv[j]).0,
    ) by {
        assert(lex_lt_fn()(raw[i].0, raw[j].0));
    }
    assert forall|e: int| 0 <= e < idv.len() implies (#[trigger] idv[e]).1 < keys.len()
        && keys[idv[e].1 as int] == idv[e].0 by {
        assert(entry_matches_keys(keys, raw[e]));
        assert(raw[e].1[0] < keys.len() && keys[raw[e].1[0] as int] == raw[e].0);
    }
    assert forall|p: int| 0 <= p < keys.len() implies #[trigger] unique_found_in(keys, idv, p) by {
        assert(crate::index::found_in(keys, raw, p));
        let e = choose|e: int|
            0 <= e < raw.len() && (#[trigger] raw[e]).0 == keys[p] && raw[e].1.contains(p as u32);
        let k = choose|k: int| 0 <= k < raw[e].1.len() && raw[e].1[k] == p as u32;
        assert(k == 0);
        assert(0 <= e < idv.len() && idv[e].1 == p && idv[e].0 == keys[p]);
    }
    assert forall|i: int, j: int| 0 <= i < j < keys.len() implies #[trigger] keys[i]
        != #[trigger] keys[j] by {
        if keys[i] == keys[j] {
            assert(crate::index::found_in(keys, raw, i));
            assert(crate::index::found_in(keys, raw, j));
            let e1 = choose|e: int|
                0 <= e < raw.len() && (#[trigger] raw[e]).0 == keys[i] && raw[e].1.contains(
                    i as u32,
                );
            let e2 = choose|e: int|
                0 <= e < raw.len() && (#[trigger] raw[e]).0 == keys[j] && raw[e].1.contains(
                    j as u32,
                );
            if e1 != e2 {
                if e1 < e2 {
                    assert(lex_lt_fn()(raw[e1].0, raw[e2].0));
                } else {
                    assert(lex_lt_fn()(raw[e2].0, raw[e1].0));
                }
                lemma_lex_irrefl(keys[i]);
            } else {
                let k1 = choose|k: int| 0 <= k < raw[e1].1.len() && raw[e1].1[k] == i as u32;
                let k2 = choose|k: int| 0 <= k < raw[e1].1.len() && raw[e1].1[k] == j as u32;
                assert(k1 == 0 && k2 == 0);
                assert(i as u32 == j as u32);
            }
        }
    }
}

/// A grouped identifier entry with two or more positions witnesses two
/// distinct records sharing that identifier.
proof fn lemma_id_dup(keys: Seq<Seq<u8>>, raw: Seq<(Seq<u8>, Seq<u32>)>, key: Seq<u8>)
    requires
        grouped_index_ok(keys, raw, lex_lt_fn()),
        exists|e: int| 0 <= e < raw.len() && (#[trigger] raw[e]).0 == key && raw[e].1.len() >= 2,
    ensures
        exists|i: int, j: int|
            0 <= i < j < keys.len() && #[trigger] keys[i] == #[trigger] keys[j] && keys[i] == key,
{
    let e = choose|e: int|
        0 <= e < raw.len() && (#[trigger] raw[e]).0 == key && raw[e].1.len() >= 2;
    assert(entry_matches_keys(keys, raw[e]));
    assert(raw[e].1[0] < raw[e].1[1]);
    let i = raw[e].1[0] as int;
    let j = raw[e].1[1] as int;
    assert(raw[e].1[0] < keys.len() && keys[i] == raw[e].0);
    assert(raw[e].1[1] < keys.len() && keys[j] == raw[e].0);
    assert(0 <= i < j < keys.len() && keys[i] == keys[j] && keys[i] == key);
}

/// Builds the five secondary indices over `records`, each sorted ascending
/// by key with ascending position lists, complete for every record, and
/// with the identifier index holding exactly one position per key.
/// Succeeds exactly when no two records share an identifier; a shared
/// identifier is reported as `DuplicateIdentifier` with the offending key.
pub fn build_indices(records: &Vec<Circuit>) -> (r: Result<Indices, ConversionError>)
    requires
        records@.len() < 0x1_0000_0000,
    ensures
        r is Ok <==> uuids_distinct(circuits_view(records@)),
        r matches Ok(ix) ==> indices_ok(circuits_view(records@), ix),
        r matches Err(e) ==> (e matches ConversionError::DuplicateIdentifier { key } && (
        exists|i: int, j: int|
            0 <= i < j < records@.len() && (#[trigger] circuits_view(records@)[i]).uuid == (
            #[trigger] circuits_view(records@)[j]).uuid && circuits_view(records@)[i].uuid
                == key@)),
{
    let ghost rs = circuits_view(records@);
    let ukeys = uuid_byte_keys(records);
    proof {
        assert(bytes_view(ukeys@).len() == ukeys@.len());
    }
    let uraw = build_grouped(&ukeys);
    proof {
        assert forall|e: int| 0 <= e < uraw@.len() implies (#[trigger] raw_view(uraw@)[e]).1.len()
            >= 1 by {
            assert(entry_matches_keys(uuid_keys(rs), raw_view(uraw@)[e]));
        }
    }
    let id = match to_id_entries(&uraw) {
        Ok(v) => v,
        Err(er) => {
            proof {
                let key = er->DuplicateIdentifier_key;
                lemma_id_dup(uuid_keys(rs), raw_view(uraw@), key@);
                let (i, j) = choose|i: int, j: int|
                    0 <= i < j < uuid_keys(rs).len() && #[trigger] uuid_keys(rs)[i]
                        == #[trigger] uuid_keys(rs)[j] && uuid_keys(rs)[i] == key@;
                assert(rs[i].uuid == rs[j].uuid && rs[i].uuid == key@);
                if uuids_distinct(rs) {
                    assert(rs[i].uuid != rs[j].uuid);
                }
            }
            return Err(er);
        },
    };
    proof {
        lemma_id_ok(uuid_keys(rs), raw_view(uraw@), id_entries_view(id@));
        assert forall|i: int, j: int| 0 <= i < j < rs.len() implies (#[trigger] rs[i]).uuid != (
        #[trigger] rs[j]).uuid by {
            assert(uuid_keys(rs)[i] == rs[i].uuid && uuid_keys(rs)[j] == rs[j].uuid);
        }
    }
    let lkeys = label_byte_keys(records);
    proof {
        assert(bytes_view(lkeys@).len() == lkeys@.len());
    }
    let lraw = build_grouped(&lkeys);
    let label = to_ascii_entries(&lraw);
    let dkeys = day_byte_keys(records);
    proof {
        assert(bytes_view(dkeys@).len() == dkeys@.len());
    }
    let draw = build_grouped(&dkeys);
    proof {
        lemma_u8_raw_keylen(day_keys(rs), raw_view(draw@));
    }
    let day = to_u8_entries(&draw);
    proof {
        lemma_u8_index_transfer(day_keys(rs), raw_view(draw@), u8_entries_view(day@));
    }
    let pkeys = u16_byte_keys(records, false);
    proof {
        assert(bytes_view(pkeys@).len() == pkeys@.len());
    }
    let praw = build_grouped(&pkeys);
    proof {
        lemma_u16_raw_keylen(port_keys(rs), raw_view(praw@));
    }
    let port = to_u16_entries(&praw);
    proof {
        lemma_u16_index_transfer(port_keys(rs), raw_view(praw@), u16_entries_view(port@));
    }
    let nkeys = u16_byte_keys(records, true);
    proof {
        assert(bytes_view(nkeys@).len() == nkeys@.len());
    }
    let nraw = build_grouped(&nkeys);
    proof {
        lemma_u16_raw_keylen(len_keys(rs), raw_view(nraw@));
    }
    let len = to_u16_entries(&nraw);
    proof {
        lemma_u16_index_transfer(len_keys(rs), raw_view(nraw@), u16_entries_view(len@));
    }
    Ok(Indices { id, label, day, port, len })
}


/// The unique-index contract pins the identifier index down completely:
/// any two indices meeting it for the same keys are equal.
pub proof fn lemma_unique_index_deterministic(
    keys: Seq<Seq<u8>>,
    i1: Seq<(Seq<u8>, u32)>,
    i2: Seq<(Seq<u8>, u32)>,
)
    requires
        keys.len() < 0x1_0000_0000,
        unique_index_ok(keys, i1),
        unique_index_ok(keys, i2),
    ensures
        i1 == i2,
{
    let lexf = lex_lt_fn();
    assert forall|x: Seq<u8>, y: Seq<u8>| #[trigger] lexf(x, y) implies !lexf(y, x) by {
        crate::index::lemma_lex_asym(x, y);
    }
    let k1 = Seq::new(i1.len(), |e: int| i1[e].0);
    let k2 = Seq::new(i2.len(), |e: int| i2[e].0);
    assert forall|x: Seq<u8>| (#[trigger] k1.contains(x)) implies k2.contains(x) by {
        let e = choose|e: int| 0 <= e < k1.len() && k1[e] == x;
        let p = i1[e].1;
        assert(keys[p as int] == x);
        assert(unique_found_in(keys, i2, p as int));
        let e2 = choose|e2: int|
            0 <= e2 < i2.len() && (#[trigger] i2[e2]).1 == p as int && i2[e2].0 == keys[p as int];
        assert(k2[e2] == x);
        assert(k2.contains(x));
    }
    assert forall|x: Seq<u8>| (#[trigger] k2.contains(x)) implies k1.contains(x) by {
        let e = choose|e: int| 0 <= e < k2.len() && k2[e] == x;
        let p = i2[e].1;
        assert(keys[p as int] == x);
        assert(unique_found_in(keys, i1, p as int));
        let e2 = choose|e2: int|
            0 <= e2 < i1.len() && (#[trigger] i1[e2]).1 == p as int && i1[e2].0 == keys[p as int];
        assert(k1[e2] == x);
        assert(k1.contains(x));
    }
    assert forall|i: int, j: int| 0 <= i < j < k1.len() implies lexf(
        #[trigger] k1[i],
        #[trigger] k1[j],
    ) by {
        assert(lex_lt(i1[i].0, i1[j].0));
    }
    assert forall|i: int, j: int| 0 <= i < j < k2.len() implies lexf(
        #[trigger] k2[i],
        #[trigger] k2[j],
    ) by {
        assert(lex_lt(i2[i].0, i2[j].0));
    }
    crate::index::lemma_strictly_sorted_unique(k1, k2, lexf);
    assert(k1.len() == i1.len() && k2.len() == i2.len());
    assert forall|e: int| 0 <= e < i1.len() implies i1[e] == i2[e] by {
        assert(k1[e] == k2[e]);
        assert(i1[e].0 == i2[e].0);
        let p1 = i1[e].1;
        let p2 = i2[e].1;
        if p1 != p2 {
            assert(keys[p1 as int] == i1[e].0);
            assert(unique_found_in(keys, i2, p1 as int));
            let e2 = choose|e2: int|
                0 <= e2 < i2.len() && (#[trigger] i2[e2]).1 == p1 as int && i2[e2].0 == keys[p1
                    as int];
            if e2 != e {
                if e2 < e {
                    assert(lex_lt(i2[e2].0, i2[e].0));
                } else {
                    assert(lex_lt(i2[e].0, i2[e2].0));
                }
                lemma_lex_irrefl(i2[e].0);
                assert(false);
            }
            assert(false);
        }
    }
    assert(i1 =~= i2);
}

/// Determinism law: the indices contract pins every index down, so any
/// two index sets built over the same record sequence are identical, and
/// hence serialize to identical bytes.
pub proof fn lemma_indices_deterministic(rs: Seq<CircuitV>, a: Indices, b: Indices)
    requires
        rs.len() < 0x1_0000_0000,
        indices_ok(rs, a),
        indices_ok(rs, b),
    ensures
        id_entries_view(a.id@) == id_entries_view(b.id@),
        ascii_entries_view(a.label@) == ascii_entries_view(b.label@),
        u8_entries_view(a.day@) == u8_entries_view(b.day@),
        u16_entries_view(a.port@) == u16_entries_view(b.port@),
        u16_entries_view(a.len@) == u16_entries_view(b.len@),
{
    let lexf = lex_lt_fn();
    assert forall|x: Seq<u8>, y: Seq<u8>| #[trigger] lexf(x, y) implies !lexf(y, x) by {
        crate::index::lemma_lex_asym(x, y);
    }
    let u8f = u8_lt_fn();
    assert forall|x: u8, y: u8| #[trigger] u8f(x, y) implies !u8f(y, x) by {}
    let u16f = u16_lt_fn();
    assert forall|x: u16, y: u16| #[trigger] u16f(x, y) implies !u16f(y, x) by {}
    lemma_unique_index_deterministic(uuid_keys(rs), id_entries_view(a.id@), id_entries_view(b.id@));
    crate::index::lemma_grouped_deterministic(
        label_keys(rs),
        ascii_entries_view(a.label@),
        ascii_entries_view(b.label@),
        lexf,
    );
    crate::index::lemma_grouped_deterministic(
        day_keys(rs),
        u8_entries_view(a.day@),
        u8_entries_view(b.day@),
        u8f,
    );
    crate::index::lemma_grouped_deterministic(
        port_keys(rs),
        u16_entries_view(a.port@),
        u16_entries_view(b.port@),
        u16f,
    );
    crate::index::lemma_grouped_deterministic(
        len_keys(rs),
        u16_entries_view(a.len@),
        u16_entries_view(b.len@),
        u16f,
    );
}


/// Exactly-once law: every record position appears in each of the five
/// indices, in exactly one entry and exactly once within it.
pub proof fn lemma_indices_partition(rs: Seq<CircuitV>, ix: Indices)
    requires
        indices_ok(rs, ix),
    ensures
        forall|p: int| 0 <= p < rs.len() ==> #[trigger] unique_found_in(
            uuid_keys(rs),
            id_entries_view(ix.id@),
            p,
        ),
        forall|e1: int, e2: int|
            0 <= e1 < ix.id@.len() && 0 <= e2 < ix.id@.len() && (#[trigger] id_entries_view(
                ix.id@,
            )[e1]).1 == (#[trigger] id_entries_view(ix.id@)[e2]).1 ==> e1 == e2,
        grouped_partition(label_keys(rs).len() as int, ascii_entries_view(ix.label@)),
        grouped_partition(day_keys(rs).len() as int, u8_entries_view(ix.day@)),
        grouped_partition(port_keys(rs).len() as int, u16_entries_view(ix.port@)),
        grouped_partition(len_keys(rs).len() as int, u16_entries_view(ix.len@)),
        forall|p: int| 0 <= p < rs.len() ==> #[trigger] crate::index::found_in(
            label_keys(rs),
            ascii_entries_view(ix.label@),
            p,
        ),
        forall|p: int| 0 <= p < rs.len() ==> #[trigger] crate::index::found_in(
            day_keys(rs),
            u8_entries_view(ix.day@),
            p,
        ),
        forall|p: int| 0 <= p < rs.len() ==> #[trigger] crate::index::found_in(
            port_keys(rs),
            u16_entries_view(ix.port@),
            p,
        ),
        forall|p: int| 0 <= p < rs.len() ==> #[trigger] crate::index::found_in(
            len_keys(rs),
            u16_entries_view(ix.len@),
            p,
        ),
{
    let lexf = lex_lt_fn();
    assert forall|x: Seq<u8>, y: Seq<u8>| #[trigger] lexf(x, y) implies !lexf(y, x) by {
        crate::index::lemma_lex_asym(x, y);
    }
    let u8f = u8_lt_fn();
    assert forall|x: u8, y: u8| #[trigger] u8f(x, y) implies !u8f(y, x) by {}
    let u16f = u16_lt_fn();
    assert forall|x: u16, y: u16| #[trigger] u16f(x, y) implies !u16f(y, x) by {}
    crate::index::lemma_index_partition(label_keys(rs), ascii_entries_view(ix.label@), lexf);
    crate::index::lemma_index_partition(day_keys(rs), u8_entries_view(ix.day@), u8f);
    crate::index::lemma_index_partition(port_keys(rs), u16_entries_view(ix.port@), u16f);
    crate::index::lemma_index_partition(len_keys(rs), u16_entries_view(ix.len@), u16f);
    let idv = id_entries_view(ix.id@);
    assert forall|e1: int, e2: int|
        0 <= e1 < ix.id@.len() && 0 <= e2 < ix.id@.len() && (#[trigger] idv[e1]).1 == (
        #[trigger] idv[e2]).1 implies e1 == e2 by {
        if e1 != e2 {
            assert(uuid_keys(rs)[idv[e1].1 as int] == idv[e1].0);
            assert(uuid_keys(rs)[idv[e2].1 as int] == idv[e2].0);
            if e1 < e2 {
                assert(lex_lt(idv[e1].0, idv[e2].0));
            } else {
                assert(lex_lt(idv[e2].0, idv[e1].0));
            }
            lemma_lex_irrefl(idv[e1].0);
        }
    }
}

/// A grouped index lists no position twice: distinct entry-and-slot pairs
/// hold distinct positions.
pub open spec fn grouped_partition<K>(n: int, idx: Seq<(K, Seq<u32>)>) -> bool {
    forall|e1: int, k1: int, e2: int, k2: int|
        0 <= e1 < idx.len() && 0 <= k1 < idx[e1].1.len() && 0 <= e2 < idx.len() && 0 <= k2
            < idx[e2].1.len() && (#[trigger] idx[e1].1[k1]) == (#[trigger] idx[e2].1[k2]) ==> e1
            == e2 && k1 == k2
}


/// A label with path separators substituted: what the label looks like
/// when used as a storage path component.
pub open spec fn spec_path_component(s: Seq<u8>) -> Seq<u8> {
    Seq::new(
        s.len(),
        |i: int|
            if s[i] == 47 {
                95u8
            } else {
                s[i]
            },
    )
}

/// Rewrites a label key for use as a storage path component: every path
/// separator byte `/` becomes an underscore, all else is unchanged.
pub fn label_path_component(label: &FixedAscii) -> (r: Vec<u8>)
    ensures
        r@ == spec_path_component(label@),
{
    let mut r: Vec<u8> = Vec::new();
    let mut i: usize = 0;
    while i < label.bytes.len()
        invariant
            i <= label@.len(),
            r@.len() == i,
            forall|q: int| 0 <= q < i ==> r@[q] == spec_path_component(label@)[q],
        decreases label@.len() - i,
    {
        let b = label.bytes[i];
        if b == 47 {
            r.push(95);
        } else {
            r.push(b);
        }
        i += 1;
    }
    proof {
        assert(r@ =~= spec_path_component(label@));
    }
    r
}

} // verus!

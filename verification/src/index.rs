use vstd::prelude::*;

use crate::fixedstr::copy_bytes;

verus! {

/// Strict byte-lexicographic order: a proper prefix comes first, otherwise
/// the first differing byte decides.
pub open spec fn lex_lt(a: Seq<u8>, b: Seq<u8>) -> bool
    decreases a.len(),
{
    if b.len() == 0 {
        false
    } else if a.len() == 0 {
        true
    } else if a[0] < b[0] {
        true
    } else if a[0] > b[0] {
        false
    } else {
        lex_lt(a.drop_first(), b.drop_first())
    }
}

/// `lex_lt` as a first-class order, for the generic index predicates.
pub open spec fn lex_lt_fn() -> spec_fn(Seq<u8>, Seq<u8>) -> bool {
    |a: Seq<u8>, b: Seq<u8>| lex_lt(a, b)
}

/// Byte-lexicographic order is asymmetric.
pub proof fn lemma_lex_asym(a: Seq<u8>, b: Seq<u8>)
    requires
        lex_lt(a, b),
    ensures
        !lex_lt(b, a),
    decreases a.len(),
{
    if b.len() == 0 {
    } else if a.len() == 0 {
    } else if a[0] < b[0] {
    } else if a[0] > b[0] {
    } else {
        lemma_lex_asym(a.drop_first(), b.drop_first());
    }
}

/// Byte-lexicographic order is transitive.
pub proof fn lemma_lex_trans(a: Seq<u8>, b: Seq<u8>, c: Seq<u8>)
    requires
        lex_lt(a, b),
        lex_lt(b, c),
    ensures
        lex_lt(a, c),
    decreases a.len(),
{
    if a.len() == 0 {
    } else if b.len() == 0 {
    } else if c.len() == 0 {
    } else {
        if a[0] == b[0] && b[0] == c[0] {
            lemma_lex_trans(a.drop_first(), b.drop_first(), c.drop_first());
        }
    }
}

/// Three-way byte-lexicographic comparison: `-1`, `0` or `1` exactly as
/// `a` comes before, equals, or comes after `b`.
pub fn lex_cmp(a: &Vec<u8>, b: &Vec<u8>) -> (r: i8)
    ensures
        r == -1 || r == 0 || r == 1,
        (r == 0) <==> a@ == b@,
        (r == -1) <==> lex_lt(a@, b@),
        (r == 1) <==> lex_lt(b@, a@),
{
    let mut i: usize = 0;
    proof {
        assert(a@.skip(0) =~= a@);
        assert(b@.skip(0) =~= b@);
    }
    while i < a.len() && i < b.len()
        invariant
            i <= a@.len(),
            i <= b@.len(),
            a@.take(i as int) == b@.take(i as int),
            lex_lt(a@, b@) == lex_lt(a@.skip(i as int), b@.skip(i as int)),
            lex_lt(b@, a@) == lex_lt(b@.skip(i as int), a@.skip(i as int)),
        decreases a@.len() - i,
    {
        let x = a[i];
        let y = b[i];
        if x < y {
            proof {
                lemma_lex_skip_ne(a@, b@, i as int);
            }
            return -1;
        }
        if x > y {
            proof {
                lemma_lex_skip_ne(a@, b@, i as int);
            }
            return 1;
        }
        proof {
            assert(a@.skip(i as int).drop_first() =~= a@.skip(i + 1));
            assert(b@.skip(i as int).drop_first() =~= b@.skip(i + 1));
            assert(a@.take(i as int).push(a@[i as int]) =~= a@.take(i + 1));
            assert(b@.take(i as int).push(b@[i as int]) =~= b@.take(i + 1));
        }
        i += 1;
    }
    if a.len() == b.len() {
        proof {
            assert(a@.take(i as int) =~= a@);
            assert(b@.take(i as int) =~= b@);
        }
        0
    } else if a.len() < b.len() {
        proof {
            assert(a@.skip(i as int).len() == 0);
            assert(b@.skip(i as int).len() > 0);
            assert(a@.len() != b@.len());
        }
        -1
    } else {
        proof {
            assert(b@.skip(i as int).len() == 0);
            assert(a@.skip(i as int).len() > 0);
            assert(a@.len() != b@.len());
        }
        1
    }
}

/// At a differing byte the lexicographic order is decided there, in both
/// directions, and the sequences differ.
proof fn lemma_lex_skip_ne(a: Seq<u8>, b: Seq<u8>, i: int)
    requires
        0 <= i < a.len(),
        0 <= i < b.len(),
        a.take(i) == b.take(i),
        a[i] != b[i],
    ensures
        lex_lt(a.skip(i), b.skip(i)) == (a[i] < b[i]),
        lex_lt(b.skip(i), a.skip(i)) == (b[i] < a[i]),
        a != b,
{
    assert(a.skip(i)[0] == a[i]);
    assert(b.skip(i)[0] == b[i]);
}

/// An index entry under construction: one grouping key and the ascending
/// positions of the records that carry it.
#[derive(Debug)]
pub struct RawEntry {
    /// The grouping key, as the fixed-width bytes it sorts by.
    pub key: Vec<u8>,
    /// The positions of all records with this key, ascending.
    pub positions: Vec<u32>,
}

/// A sequence of byte keys, each as its mathematical view.
pub open spec fn bytes_view(v: Seq<Vec<u8>>) -> Seq<Seq<u8>> {
    Seq::new(v.len(), |i: int| v[i]@)
}

/// A sequence of raw entries, each as a (key, positions) pair.
pub open spec fn raw_view(r: Seq<RawEntry>) -> Seq<(Seq<u8>, Seq<u32>)> {
    Seq::new(r.len(), |i: int| (r[i].key@, r[i].positions@))
}

/// Entry keys are strictly ascending under `lt`: sorted, and no key twice.
pub open spec fn entries_strictly_sorted<K>(
    idx: Seq<(K, Seq<u32>)>,
    lt: spec_fn(K, K) -> bool,
) -> bool {
    forall|i: int, j: int| 0 <= i < j < idx.len() ==> lt(#[trigger] idx[i].0, #[trigger] idx[j].0)
}

/// The positions of one list are strictly ascending: sorted, none twice.
pub open spec fn positions_ascending(ps: Seq<u32>) -> bool {
    forall|i: int, j: int| 0 <= i < j < ps.len() ==> ps[i] < ps[j]
}

/// One entry is sound for `keys`: it is never empty, its positions are
/// strictly ascending, and every listed position carries the entry's key.
pub open spec fn entry_matches_keys<K>(keys: Seq<K>, e: (K, Seq<u32>)) -> bool {
    &&& e.1.len() > 0
    &&& positions_ascending(e.1)
    &&& forall|k: int| 0 <= k < e.1.len() ==> #[trigger] e.1[k] < keys.len() && keys[e.1[k] as int]
        == e.0
}

/// Position `p` is listed by some entry carrying the key of record `p`.
pub open spec fn found_in<K>(keys: Seq<K>, idx: Seq<(K, Seq<u32>)>, p: int) -> bool {
    exists|e: int| 0 <= e < idx.len() && (#[trigger] idx[e]).0 == keys[p] && idx[e].1.contains(
        p as u32,
    )
}

/// Every record position appears in some entry carrying that record's key.
pub open spec fn index_complete<K>(keys: Seq<K>, idx: Seq<(K, Seq<u32>)>) -> bool {
    forall|p: int| 0 <= p < keys.len() ==> #[trigger] found_in(keys, idx, p)
}

/// The full grouped-index contract: entries sorted by strictly ascending
/// key, each entry sound for `keys`, and every position accounted for.
/// Together these make every position appear in exactly one group.
pub open spec fn grouped_index_ok<K>(
    keys: Seq<K>,
    idx: Seq<(K, Seq<u32>)>,
    lt: spec_fn(K, K) -> bool,
) -> bool {
    &&& entries_strictly_sorted(idx, lt)
    &&& forall|e: int| 0 <= e < idx.len() ==> entry_matches_keys(keys, #[trigger] idx[e])
    &&& index_complete(keys, idx)
}

/// Groups record positions by byte key: one entry per distinct key, keys
/// strictly ascending, each entry holding the ascending positions of the
/// records that carry it.
pub fn build_grouped(keys: &Vec<Vec<u8>>) -> (r: Vec<RawEntry>)
    requires
        keys@.len() < 0x1_0000_0000,
    ensures
        grouped_index_ok(bytes_view(keys@), raw_view(r@), lex_lt_fn()),
{
    let lt = Ghost(lex_lt_fn());
    let mut entries: Vec<RawEntry> = Vec::new();
    let mut p: usize = 0;
    while p < keys.len()
        invariant
            p <= keys@.len() < 0x1_0000_0000,
            grouped_index_ok(bytes_view(keys@).take(p as int), raw_view(entries@), lt@),
            lt@ == lex_lt_fn(),
        decreases keys@.len() - p,
    {
        let ghost old_entries = entries@;
        let ghost kv = bytes_view(keys@);
        let key = &keys[p];
        let mut j: usize = 0;
        while j < entries.len() && lex_cmp(&entries[j].key, key) == -1
            invariant
                j <= entries@.len(),
                forall|i: int| 0 <= i < j ==> lex_lt(raw_view(entries@)[i].0, key@),
                entries@ == old_entries,
            decreases entries@.len() - j,
        {
            j += 1;
        }
        let hit = j < entries.len() && lex_cmp(&entries[j].key, key) == 0;
        if hit {
            let mut e = entries.remove(j);
            e.positions.push(p as u32);
            entries.insert(j, e);
            proof {
                let new = raw_view(entries@);
                let old = raw_view(old_entries);
                assert(entries@ =~= old_entries.update(j as int, entries@[j as int]));
                assert forall|i: int| 0 <= i < new.len() implies new[i].0 == old[i].0 by {}
                assert(new[j as int].1 =~= old[j as int].1.push(p as u32));
                assert forall|i: int| 0 <= i < new.len() && i != j implies new[i] == old[i] by {}
                lemma_step_hit(kv, old, new, p as int, j as int, lt@);
            }
        } else {
            let mut positions: Vec<u32> = Vec::new();
            positions.push(p as u32);
            let fresh = RawEntry { key: copy_bytes(key), positions };
            entries.insert(j, fresh);
            proof {
                let new = raw_view(entries@);
                let old = raw_view(old_entries);
                assert(new =~= old.insert(j as int, (key@, seq![p as u32])));
                if j < old.len() {
                    assert(!lex_lt(old[j as int].0, key@) && old[j as int].0 != key@);
                }
                lemma_step_fresh(kv, old, new, p as int, j as int, lt@);
            }
        }
        p += 1;
    }
    proof {
        assert(bytes_view(keys@).take(p as int) =~= bytes_view(keys@));
    }
    entries
}

/// One builder step that appends position `p` to the existing entry `j`
/// preserves the grouped-index contract, now over one more key.
#[verifier::rlimit(60)]
proof fn lemma_step_hit(
    keys: Seq<Seq<u8>>,
    old: Seq<(Seq<u8>, Seq<u32>)>,
    new: Seq<(Seq<u8>, Seq<u32>)>,
    p: int,
    j: int,
    lt: spec_fn(Seq<u8>, Seq<u8>) -> bool,
)
    requires
        lt == lex_lt_fn(),
        keys.len() < 0x1_0000_0000,
        0 <= p < keys.len(),
        grouped_index_ok(keys.take(p), old, lt),
        0 <= j < old.len(),
        new.len() == old.len(),
        old[j].0 == keys[p],
        new[j].1 == old[j].1.push(p as u32),
        new[j].0 == old[j].0,
        forall|i: int| 0 <= i < new.len() && i != j ==> new[i] == old[i],
    ensures
        grouped_index_ok(keys.take(p + 1), new, lt),
{
    let kpre = keys.take(p);
    let know = keys.take(p + 1);
    assert(forall|q: int| 0 <= q < p + 1 ==> know[q] == keys[q]);
    assert forall|i1: int, i2: int| 0 <= i1 < i2 < new.len() implies lt(
        new[i1].0,
        new[i2].0,
    ) by {
        assert(new[i1].0 == old[i1].0 && new[i2].0 == old[i2].0);
    }
    assert forall|e: int| 0 <= e < new.len() implies entry_matches_keys(know, new[e]) by {
        if e != j {
            assert(entry_matches_keys(kpre, old[e]));
            assert forall|k: int| 0 <= k < new[e].1.len() implies #[trigger] new[e].1[k]
                < know.len() && know[new[e].1[k] as int] == new[e].0 by {
                assert(old[e].1[k] < kpre.len());
            }
        } else {
            assert(entry_matches_keys(kpre, old[j]));
            let ps = new[j].1;
            assert forall|k: int| 0 <= k < ps.len() implies #[trigger] ps[k] < know.len()
                && know[ps[k] as int] == new[j].0 by {
                if k < old[j].1.len() {
                    assert(ps[k] == old[j].1[k]);
                    assert(old[j].1[k] < kpre.len());
                } else {
                    assert(ps[k] == p as u32);
                }
            }
            assert forall|k1: int, k2: int| 0 <= k1 < k2 < ps.len() implies ps[k1] < ps[k2] by {
                if k2 < old[j].1.len() {
                } else {
                    assert(ps[k2] == p as u32);
                    assert(old[j].1[k1] < kpre.len());
                }
            }
        }
    }
    assert forall|q: int| 0 <= q < know.len() implies #[trigger] found_in(know, new, q) by {
        if q < p {
            assert(found_in(kpre, old, q));
            let e = choose|e: int|
                0 <= e < old.len() && (#[trigger] old[e]).0 == kpre[q] && old[e].1.contains(
                    q as u32,
                );
            if e == j {
                let k = choose|k: int| 0 <= k < old[j].1.len() && old[j].1[k] == q as u32;
                assert(new[j].1[k] == q as u32);
                assert(new[j].1.contains(q as u32));
            }
            assert(0 <= e < new.len() && new[e].0 == know[q] && new[e].1.contains(q as u32));
        } else {
            let ps = new[j].1;
            assert(ps[ps.len() - 1] == p as u32);
            assert(ps.contains(p as u32));
            assert(0 <= j < new.len() && new[j].0 == know[p] && new[j].1.contains(p as u32));
        }
    }
}

/// One builder step that inserts a fresh entry for a previously unseen key
/// at the sorted slot `j` preserves the grouped-index contract.
#[verifier::rlimit(60)]
proof fn lemma_step_fresh(
    keys: Seq<Seq<u8>>,
    old: Seq<(Seq<u8>, Seq<u32>)>,
    new: Seq<(Seq<u8>, Seq<u32>)>,
    p: int,
    j: int,
    lt: spec_fn(Seq<u8>, Seq<u8>) -> bool,
)
    requires
        lt == lex_lt_fn(),
        keys.len() < 0x1_0000_0000,
        0 <= p < keys.len(),
        grouped_index_ok(keys.take(p), old, lt),
        0 <= j <= old.len(),
        new == old.insert(j, (keys[p], seq![p as u32])),
        forall|i: int| 0 <= i < j ==> lt(#[trigger] old[i].0, keys[p]),
        j < old.len() ==> !lt(old[j].0, keys[p]) && old[j].0 != keys[p],
    ensures
        grouped_index_ok(keys.take(p + 1), new, lt),
{
    let kpre = keys.take(p);
    let know = keys.take(p + 1);
    assert(forall|q: int| 0 <= q < p + 1 ==> know[q] == keys[q]);
    assert(new.len() == old.len() + 1);
    assert(forall|i: int| 0 <= i < j ==> new[i] == old[i]);
    assert(forall|i: int| j < i < new.len() ==> new[i] == old[i - 1]);
    assert(new[j] == (keys[p], seq![p as u32]));
    assert forall|i1: int, i2: int| 0 <= i1 < i2 < new.len() implies lt(
        new[i1].0,
        new[i2].0,
    ) by {
        if i1 < j && i2 == j {
            assert(lt(old[i1].0, keys[p]));
        } else if i1 == j && i2 > j {
            if i2 - 1 == j {
                assert(!lt(old[j].0, keys[p]) && old[j].0 != keys[p]);
                lemma_lex_connected(keys[p], old[j].0);
            } else {
                assert(lt(old[j].0, old[i2 - 1].0));
                assert(!lt(old[j].0, keys[p]) && old[j].0 != keys[p]);
                lemma_lex_connected(keys[p], old[j].0);
                lemma_lex_trans(keys[p], old[j].0, old[i2 - 1].0);
            }
        } else if i1 < j && i2 > j {
            if i1 == i2 - 1 {
                assert(false);
            } else {
                assert(lt(old[i1].0, old[i2 - 1].0));
            }
        } else if i1 > j && i2 > j {
            assert(lt(old[i1 - 1].0, old[i2 - 1].0));
        }
    }
    assert forall|e: int| 0 <= e < new.len() implies entry_matches_keys(know, new[e]) by {
        if e == j {
            let ps = seq![p as u32];
            assert(ps[0] == p as u32 && know[p] == keys[p]);
        } else {
            let o = if e < j { e } else { e - 1 };
            assert(entry_matches_keys(kpre, old[o]));
            assert forall|k: int| 0 <= k < new[e].1.len() implies #[trigger] new[e].1[k]
                < know.len() && know[new[e].1[k] as int] == new[e].0 by {
                assert(old[o].1[k] < kpre.len());
            }
        }
    }
    assert forall|q: int| 0 <= q < know.len() implies #[trigger] found_in(know, new, q) by {
        if q < p {
            assert(found_in(kpre, old, q));
            let e = choose|e: int|
                0 <= e < old.len() && (#[trigger] old[e]).0 == kpre[q] && old[e].1.contains(
                    q as u32,
                );
            let e2 = if e < j { e } else { e + 1 };
            assert(new[e2] == old[e]);
            assert(0 <= e2 < new.len() && new[e2].0 == know[q] && new[e2].1.contains(q as u32));
        } else {
            assert(new[j].1[0] == p as u32);
            assert(new[j].1.contains(p as u32));
            assert(0 <= j < new.len() && new[j].0 == know[p] && new[j].1.contains(p as u32));
        }
    }
}

/// Of two distinct byte keys one comes lexicographically first.
proof fn lemma_lex_connected(a: Seq<u8>, b: Seq<u8>)
    requires
        !lex_lt(b, a),
        a != b,
    ensures
        lex_lt(a, b),
    decreases a.len(),
{
    if b.len() == 0 {
        if a.len() == 0 {
            assert(a =~= b);
        }
    } else if a.len() == 0 {
    } else if a[0] < b[0] {
    } else if a[0] > b[0] {
    } else {
        if a.drop_first() == b.drop_first() {
            assert(a.drop_first().len() == b.drop_first().len());
            assert(a.len() == b.len());
            assert forall|i: int| 0 <= i < a.len() implies a[i] == b[i] by {
                if i > 0 {
                    assert(a[i] == a.drop_first()[i - 1]);
                    assert(b[i] == b.drop_first()[i - 1]);
                }
            }
            assert(a =~= b);
        }
        lemma_lex_connected(a.drop_first(), b.drop_first());
    }
}


/// Exactly-once law: under a sound, sorted, complete grouped index, every
/// position is listed by exactly one entry, exactly once, besides being
/// listed at all (completeness). `lt` must be asymmetric.
pub proof fn lemma_index_partition<K>(
    keys: Seq<K>,
    idx: Seq<(K, Seq<u32>)>,
    lt: spec_fn(K, K) -> bool,
)
    requires
        grouped_index_ok(keys, idx, lt),
        forall|x: K, y: K| #[trigger] lt(x, y) ==> !lt(y, x),
    ensures
        forall|p: int| 0 <= p < keys.len() ==> #[trigger] found_in(keys, idx, p),
        forall|e1: int, k1: int, e2: int, k2: int|
            0 <= e1 < idx.len() && 0 <= k1 < idx[e1].1.len() && 0 <= e2 < idx.len() && 0 <= k2
                < idx[e2].1.len() && (#[trigger] idx[e1].1[k1]) == (#[trigger] idx[e2].1[k2])
                ==> e1 == e2 && k1 == k2,
{
    assert forall|e1: int, k1: int, e2: int, k2: int|
        0 <= e1 < idx.len() && 0 <= k1 < idx[e1].1.len() && 0 <= e2 < idx.len() && 0 <= k2
            < idx[e2].1.len() && (#[trigger] idx[e1].1[k1]) == (#[trigger] idx[e2].1[k2]) implies e1
        == e2 && k1 == k2 by {
        assert(entry_matches_keys(keys, idx[e1]));
        assert(entry_matches_keys(keys, idx[e2]));
        let v = idx[e1].1[k1];
        assert(keys[v as int] == idx[e1].0);
        assert(keys[v as int] == idx[e2].0);
        if e1 != e2 {
            if e1 < e2 {
                assert(lt(idx[e1].0, idx[e2].0));
            } else {
                assert(lt(idx[e2].0, idx[e1].0));
            }
            assert(false);
        }
        if k1 < k2 {
            assert(idx[e1].1[k1] < idx[e1].1[k2]);
        }
        if k2 < k1 {
            assert(idx[e1].1[k2] < idx[e1].1[k1]);
        }
    }
}

/// Two strictly `lt`-sorted sequences holding the same elements are the
/// same sequence. `lt` must be asymmetric.
pub proof fn lemma_strictly_sorted_unique<K>(s1: Seq<K>, s2: Seq<K>, lt: spec_fn(K, K) -> bool)
    requires
        forall|x: K, y: K| #[trigger] lt(x, y) ==> !lt(y, x),
        forall|i: int, j: int| 0 <= i < j < s1.len() ==> lt(#[trigger] s1[i], #[trigger] s1[j]),
        forall|i: int, j: int| 0 <= i < j < s2.len() ==> lt(#[trigger] s2[i], #[trigger] s2[j]),
        forall|k: K| (#[trigger] s1.contains(k)) <==> (#[trigger] s2.contains(k)),
    ensures
        s1 == s2,
    decreases s1.len(),
{
    if s1.len() == 0 {
        if s2.len() > 0 {
            assert(s2.contains(s2[0]));
            assert(s1.contains(s2[0]));
            assert(false);
        }
        assert(s1 =~= s2);
    } else if s2.len() == 0 {
        assert(s1.contains(s1[0]));
        assert(s2.contains(s1[0]));
        assert(false);
    } else {
        assert(s1.contains(s1[0]));
        assert(s2.contains(s1[0]));
        let i2 = choose|i: int| 0 <= i < s2.len() && s2[i] == s1[0];
        assert(s2.contains(s2[0]));
        assert(s1.contains(s2[0]));
        let i1 = choose|i: int| 0 <= i < s1.len() && s1[i] == s2[0];
        if i2 > 0 && i1 > 0 {
            assert(lt(s2[0], s2[i2]));
            assert(lt(s1[0], s1[i1]));
            assert(false);
        }
        assert(s1[0] == s2[0]);
        let t1 = s1.drop_first();
        let t2 = s2.drop_first();
        assert forall|i: int, j: int| 0 <= i < j < t1.len() implies lt(
            #[trigger] t1[i],
            #[trigger] t1[j],
        ) by {
            assert(t1[i] == s1[i + 1] && t1[j] == s1[j + 1]);
        }
        assert forall|i: int, j: int| 0 <= i < j < t2.len() implies lt(
            #[trigger] t2[i],
            #[trigger] t2[j],
        ) by {
            assert(t2[i] == s2[i + 1] && t2[j] == s2[j + 1]);
        }
        assert forall|k: K| (#[trigger] t1.contains(k)) implies t2.contains(k) by {
            let i = choose|i: int| 0 <= i < t1.len() && t1[i] == k;
            assert(s1[i + 1] == k);
            assert(s1.contains(k));
            assert(s2.contains(k));
            let j = choose|j: int| 0 <= j < s2.len() && s2[j] == k;
            if j == 0 {
                assert(lt(s1[0], s1[i + 1]));
                assert(false);
            }
            assert(t2[j - 1] == k);
            assert(t2.contains(k));
        }
        assert forall|k: K| (#[trigger] t2.contains(k)) implies t1.contains(k) by {
            let i = choose|i: int| 0 <= i < t2.len() && t2[i] == k;
            assert(s2[i + 1] == k);
            assert(s2.contains(k));
            assert(s1.contains(k));
            let j = choose|j: int| 0 <= j < s1.len() && s1[j] == k;
            if j == 0 {
                assert(lt(s2[0], s2[i + 1]));
                assert(false);
            }
            assert(t1[j - 1] == k);
            assert(t1.contains(k));
        }
        lemma_strictly_sorted_unique(t1, t2, lt);
        assert(s1.len() == s2.len());
        assert forall|i: int| 0 <= i < s1.len() implies s1[i] == s2[i] by {
            if i > 0 {
                assert(s1[i] == t1[i - 1] && s2[i] == t2[i - 1]);
            }
        }
        assert(s1 =~= s2);
    }
}

/// The grouped-index contract pins the index down completely: any two
/// indices meeting it for the same keys are equal. `lt` must be
/// asymmetric.
pub proof fn lemma_grouped_deterministic<K>(
    keys: Seq<K>,
    i1: Seq<(K, Seq<u32>)>,
    i2: Seq<(K, Seq<u32>)>,
    lt: spec_fn(K, K) -> bool,
)
    requires
        keys.len() < 0x1_0000_0000,
        forall|x: K, y: K| #[trigger] lt(x, y) ==> !lt(y, x),
        grouped_index_ok(keys, i1, lt),
        grouped_index_ok(keys, i2, lt),
    ensures
        i1 == i2,
{
    let k1 = Seq::new(i1.len(), |e: int| i1[e].0);
    let k2 = Seq::new(i2.len(), |e: int| i2[e].0);
    assert forall|x: K| (#[trigger] k1.contains(x)) implies k2.contains(x) by {
        let e = choose|e: int| 0 <= e < k1.len() && k1[e] == x;
        assert(entry_matches_keys(keys, i1[e]));
        let p = i1[e].1[0];
        assert(keys[p as int] == x);
        assert(found_in(keys, i2, p as int));
        let e2 = choose|e2: int|
            0 <= e2 < i2.len() && (#[trigger] i2[e2]).0 == keys[p as int] && i2[e2].1.contains(p);
        assert(k2[e2] == x);
        assert(k2.contains(x));
    }
    assert forall|x: K| (#[trigger] k2.contains(x)) implies k1.contains(x) by {
        let e = choose|e: int| 0 <= e < k2.len() && k2[e] == x;
        assert(entry_matches_keys(keys, i2[e]));
        let p = i2[e].1[0];
        assert(keys[p as int] == x);
        assert(found_in(keys, i1, p as int));
        let e2 = choose|e2: int|
            0 <= e2 < i1.len() && (#[trigger] i1[e2]).0 == keys[p as int] && i1[e2].1.contains(p);
        assert(k1[e2] == x);
        assert(k1.contains(x));
    }
    assert forall|i: int, j: int| 0 <= i < j < k1.len() implies lt(
        #[trigger] k1[i],
        #[trigger] k1[j],
    ) by {
        assert(lt(i1[i].0, i1[j].0));
    }
    assert forall|i: int, j: int| 0 <= i < j < k2.len() implies lt(
        #[trigger] k2[i],
        #[trigger] k2[j],
    ) by {
        assert(lt(i2[i].0, i2[j].0));
    }
    lemma_strictly_sorted_unique(k1, k2, lt);
    assert(k1.len() == i1.len() && k2.len() == i2.len());
    assert(i1.len() == i2.len());
    assert forall|e: int| 0 <= e < i1.len() implies i1[e] == i2[e] by {
        assert(k1[e] == k2[e]);
        assert(i1[e].0 == i2[e].0);
        let ps1 = i1[e].1;
        let ps2 = i2[e].1;
        assert forall|v: u32| (#[trigger] ps1.contains(v)) implies ps2.contains(v) by {
            lemma_positions_cross(keys, i1, i2, lt, e, v);
        }
        assert forall|v: u32| (#[trigger] ps2.contains(v)) implies ps1.contains(v) by {
            lemma_positions_cross(keys, i2, i1, lt, e, v);
        }
        let ult = |a: u32, b: u32| a < b;
        assert forall|i: int, j: int| 0 <= i < j < ps1.len() implies ult(
            #[trigger] ps1[i],
            #[trigger] ps1[j],
        ) by {
            assert(entry_matches_keys(keys, i1[e]));
            assert(ps1[i] < ps1[j]);
        }
        assert forall|i: int, j: int| 0 <= i < j < ps2.len() implies ult(
            #[trigger] ps2[i],
            #[trigger] ps2[j],
        ) by {
            assert(entry_matches_keys(keys, i2[e]));
            assert(ps2[i] < ps2[j]);
        }
        lemma_strictly_sorted_unique(ps1, ps2, ult);
    }
    assert(i1 =~= i2);
}

/// A position listed by entry `e` of one sound index is listed by entry
/// `e` of any other sound index over the same keys whose entry `e` has the
/// same key.
proof fn lemma_positions_cross<K>(
    keys: Seq<K>,
    i1: Seq<(K, Seq<u32>)>,
    i2: Seq<(K, Seq<u32>)>,
    lt: spec_fn(K, K) -> bool,
    e: int,
    v: u32,
)
    requires
        keys.len() < 0x1_0000_0000,
        forall|x: K, y: K| #[trigger] lt(x, y) ==> !lt(y, x),
        grouped_index_ok(keys, i1, lt),
        grouped_index_ok(keys, i2, lt),
        0 <= e < i1.len(),
        0 <= e < i2.len(),
        i1[e].0 == i2[e].0,
        i1[e].1.contains(v),
    ensures
        i2[e].1.contains(v),
{
    assert(entry_matches_keys(keys, i1[e]));
    let k = choose|k: int| 0 <= k < i1[e].1.len() && i1[e].1[k] == v;
    assert(keys[v as int] == i1[e].0);
    assert(found_in(keys, i2, v as int));
    let e2 = choose|e2: int|
        0 <= e2 < i2.len() && (#[trigger] i2[e2]).0 == keys[v as int] && i2[e2].1.contains(v);
    if e2 != e {
        if e2 < e {
            assert(lt(i2[e2].0, i2[e].0));
        } else {
            assert(lt(i2[e].0, i2[e2].0));
        }
        assert(false);
    }
}

} // verus!

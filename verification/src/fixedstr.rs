use vstd::prelude::*;

use crate::error::ConversionError;

verus! {

/// Every byte of `s` is 7-bit ASCII.
pub open spec fn is_ascii_seq(s: Seq<u8>) -> bool {
    forall|i: int| 0 <= i < s.len() ==> s[i] < 128
}

/// Every byte of `s` is the null byte.
pub open spec fn is_null_seq(s: Seq<u8>) -> bool {
    forall|i: int| 0 <= i < s.len() ==> s[i] == 0
}

/// The all-null sequence of length `n`.
pub open spec fn null_seq(n: nat) -> Seq<u8> {
    Seq::new(n, |i: int| 0u8)
}

/// `s` truncated to its first `n` bytes if longer, else right-padded with
/// null bytes to exactly `n` bytes.
pub open spec fn pad_trunc(s: Seq<u8>, n: nat) -> Seq<u8> {
    if s.len() >= n {
        s.take(n as int)
    } else {
        s + null_seq((n - s.len()) as nat)
    }
}

/// `s` with all trailing null bytes removed.
pub open spec fn trim_nulls(s: Seq<u8>) -> Seq<u8>
    decreases s.len(),
{
    if s.len() > 0 && s[s.len() - 1] == 0 {
        trim_nulls(s.drop_last())
    } else {
        s
    }
}

/// A fixed-capacity, null-padded ASCII buffer. The capacity is the length
/// of `bytes`, fixed when the value is made; the all-null buffer is the
/// canonical "no value" sentinel.
#[derive(Debug)]
pub struct FixedAscii {
    pub bytes: Vec<u8>,
}

impl View for FixedAscii {
    type V = Seq<u8>;

    open spec fn view(&self) -> Seq<u8> {
        self.bytes@
    }
}

impl FixedAscii {
    /// The buffer holds exactly `n` ASCII bytes.
    pub open spec fn wf(&self, n: nat) -> bool {
        self@.len() == n && is_ascii_seq(self@)
    }

    /// The buffer is the all-null sentinel.
    pub open spec fn spec_is_empty(&self) -> bool {
        is_null_seq(self@)
    }

    /// The number of bytes held, which is the fixed capacity.
    pub fn capacity(&self) -> (n: usize)
        ensures
            n == self@.len(),
    {
        self.bytes.len()
    }

    /// A copy of the raw null-padded contents.
    pub fn raw_bytes(&self) -> (r: Vec<u8>)
        ensures
            r@ == self@,
    {
        copy_bytes(&self.bytes)
    }

    /// Whether the buffer equals the all-null sentinel, which stands for
    /// "field absent".
    pub fn is_empty(&self) -> (r: bool)
        ensures
            r <==> self.spec_is_empty(),
    {
        let mut i: usize = 0;
        while i < self.bytes.len()
            invariant
                i <= self.bytes.len(),
                forall|j: int| 0 <= j < i ==> self.bytes@[j] == 0,
            decreases self.bytes.len() - i,
        {
            if self.bytes[i] != 0 {
                return false;
            }
            i += 1;
        }
        true
    }

    /// The held string with all trailing null padding stripped: the reverse
    /// direction of the fixed-width encoding.
    pub fn decode(&self) -> (r: Vec<u8>)
        ensures
            r@ == trim_nulls(self@),
    {
        let mut end: usize = self.bytes.len();
        proof {
            assert(self@.take(end as int) =~= self@);
        }
        while end > 0 && self.bytes[end - 1] == 0
            invariant
                end <= self.bytes.len(),
                trim_nulls(self@) == trim_nulls(self@.take(end as int)),
            decreases end,
        {
            proof {
                assert(self@.take(end as int).drop_last() =~= self@.take(end - 1));
            }
            end -= 1;
        }
        let mut r: Vec<u8> = Vec::new();
        let mut i: usize = 0;
        while i < end
            invariant
                i <= end <= self.bytes.len(),
                r@ == self@.take(i as int),
            decreases end - i,
        {
            r.push(self.bytes[i]);
            proof {
                assert(self@.take(i as int).push(self@[i as int]) =~= self@.take(i + 1));
            }
            i += 1;
        }
        proof {
            if end == self.bytes.len() {
                assert(self@.take(end as int) =~= self@);
            } else {
                assert(self@.take(end as int) == trim_nulls(self@.take(end as int)));
            }
            assert(self@.take(end as int) =~= r@);
        }
        r
    }
}

/// A byte-for-byte copy of `v`.
pub fn copy_bytes(v: &Vec<u8>) -> (r: Vec<u8>)
    ensures
        r@ == v@,
{
    let mut r: Vec<u8> = Vec::new();
    let mut i: usize = 0;
    while i < v.len()
        invariant
            i <= v.len(),
            r@ == v@.take(i as int),
        decreases v.len() - i,
    {
        r.push(v[i]);
        proof {
            assert(v@.take(i as int).push(v@[i as int]) =~= v@.take(i + 1));
        }
        i += 1;
    }
    proof {
        assert(v@.take(v@.len() as int) =~= v@);
    }
    r
}

/// Converts `s` to a fixed-width buffer of capacity `n`, truncating `s` or
/// right-padding with null bytes to exactly `n` bytes. Fails exactly when
/// `s` holds a non-ASCII byte.
pub fn fixedascii_from_str(s: &Vec<u8>, n: usize) -> (r: Result<FixedAscii, ConversionError>)
    ensures
        r is Ok <==> is_ascii_seq(s@),
        r matches Ok(f) ==> f@ == pad_trunc(s@, n as nat) && f.wf(n as nat),
        r matches Err(e) ==> e == ConversionError::EncodingError,
{
    let mut i: usize = 0;
    while i < s.len()
        invariant
            i <= s.len(),
            forall|j: int| 0 <= j < i ==> s@[j] < 128,
        decreases s.len() - i,
    {
        if s[i] >= 128 {
            return Err(ConversionError::EncodingError);
        }
        i += 1;
    }
    let mut bytes: Vec<u8> = Vec::new();
    let mut k: usize = 0;
    while k < n
        invariant
            k <= n,
            bytes@.len() == k,
            is_ascii_seq(s@),
            forall|j: int| 0 <= j < k ==> bytes@[j] == pad_trunc(s@, n as nat)[j],
        decreases n - k,
    {
        if k < s.len() {
            bytes.push(s[k]);
        } else {
            bytes.push(0);
        }
        k += 1;
    }
    proof {
        assert(bytes@ =~= pad_trunc(s@, n as nat));
    }
    Ok(FixedAscii { bytes })
}

/// The all-null buffer of capacity `n`: the canonical "no value" sentinel.
pub fn fixedascii_null(n: usize) -> (r: FixedAscii)
    ensures
        r@ == null_seq(n as nat),
        r.wf(n as nat),
        r.spec_is_empty(),
{
    let mut bytes: Vec<u8> = Vec::new();
    let mut k: usize = 0;
    while k < n
        invariant
            k <= n,
            bytes@.len() == k,
            forall|j: int| 0 <= j < k ==> bytes@[j] == 0,
        decreases n - k,
    {
        bytes.push(0);
        k += 1;
    }
    proof {
        assert(bytes@ =~= null_seq(n as nat));
    }
    FixedAscii { bytes }
}

/// Rebuilds a buffer from raw bytes, enforcing capacity and ASCII content.
pub fn fixedascii_from_raw(s: &Vec<u8>, n: usize) -> (r: Result<FixedAscii, ConversionError>)
    ensures
        r is Ok <==> is_ascii_seq(s@) && s@.len() == n,
        r matches Ok(f) ==> f@ == s@ && f.wf(n as nat),
        r matches Err(e) ==> e == ConversionError::EncodingError,
{
    if s.len() != n {
        return Err(ConversionError::EncodingError);
    }
    match fixedascii_from_str(s, n) {
        Ok(f) => {
            proof {
                assert(pad_trunc(s@, n as nat) =~= s@);
            }
            Ok(f)
        },
        Err(e) => Err(e),
    }
}

/// Trailing null padding never survives `trim_nulls`: stripping commutes
/// with appending nulls.
proof fn lemma_trim_nulls_append(s: Seq<u8>, k: nat)
    ensures
        trim_nulls(s + null_seq(k)) == trim_nulls(s),
    decreases k,
{
    if k == 0 {
        assert(s + null_seq(0) =~= s);
    } else {
        let t = s + null_seq(k);
        assert(t[t.len() - 1] == 0);
        assert(t.drop_last() =~= s + null_seq((k - 1) as nat));
        lemma_trim_nulls_append(s, (k - 1) as nat);
    }
}

/// Round-trip law: a string that fits the capacity and does not itself end
/// in a null byte is recovered exactly by decoding its encoding.
pub proof fn lemma_round_trip(s: Seq<u8>, n: nat)
    requires
        s.len() <= n,
        s.len() == 0 || s[s.len() - 1] != 0,
    ensures
        trim_nulls(pad_trunc(s, n)) == s,
{
    if s.len() == n {
        assert(pad_trunc(s, n) =~= s + null_seq(0));
    }
    lemma_trim_nulls_append(s, (n - s.len()) as nat);
}

/// Truncation law: encoding a string longer than the capacity keeps exactly
/// its first `n` bytes.
pub proof fn lemma_truncation(s: Seq<u8>, n: nat)
    requires
        s.len() > n,
    ensures
        pad_trunc(s, n) == s.take(n as int),
{
}

/// Null-sentinel law: encoding the empty string gives the all-null buffer.
pub proof fn lemma_null_sentinel(n: nat)
    ensures
        pad_trunc(Seq::<u8>::empty(), n) == null_seq(n),
{
    assert(pad_trunc(Seq::<u8>::empty(), n) =~= null_seq(n));
}


/// Converts a string already known to be ASCII to a fixed-width buffer;
/// the infallible form of `fixedascii_from_str`.
pub fn fixedascii_pad(s: &Vec<u8>, n: usize) -> (r: FixedAscii)
    requires
        is_ascii_seq(s@),
    ensures
        r@ == pad_trunc(s@, n as nat),
        r.wf(n as nat),
{
    match fixedascii_from_str(s, n) {
        Ok(f) => f,
        Err(_) => {
            proof {
                assert(false);
            }
            fixedascii_null(n)
        },
    }
}

} // verus!

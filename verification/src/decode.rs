use vstd::prelude::*;

use crate::cell::Cell;
use crate::circuit::{CIRCUIT_CELLS, Circuit, CircuitV, DOMAIN_WIDTH, UUID_WIDTH};
use crate::codes::{CellCommand, Direction, RelayCommand};
use crate::codes::{spec_cell_command_from, spec_relay_command_from};
use crate::error::{CodeField, ConversionError};
use crate::fixedstr::{
    FixedAscii, copy_bytes, fixedascii_null, fixedascii_pad, is_ascii_seq, null_seq, pad_trunc,
};

verus! {

/// Nanoseconds in one second: the fixed-point scale for event times.
pub const NANOS_PER_SEC: u64 = 1_000_000_000;

/// Nanoseconds in one day: the width of one day bucket.
pub const NANOS_PER_DAY: u64 = 86_400_000_000_000;

/// A decoded decimal number: an integer part, a fractional part already
/// scaled to nanoseconds, and whether the text had no fractional part.
#[derive(Clone, Copy, Debug, PartialEq, Eq, Structural)]
pub struct Number {
    /// The value before the decimal point.
    pub int_part: u64,
    /// The first nine fractional digits, as nanoseconds.
    pub frac_ns: u32,
    /// The text was a plain integer, with no decimal point.
    pub is_int: bool,
}

/// JSON insignificant whitespace.
pub open spec fn is_ws(b: u8) -> bool {
    b == 32 || b == 9 || b == 10 || b == 13
}

/// The first position at or after `i` holding a non-whitespace byte, or
/// the end of the input.
pub open spec fn spec_ws(s: Seq<u8>, i: int) -> int
    decreases s.len() - i,
{
    if 0 <= i < s.len() && is_ws(s[i]) {
        spec_ws(s, i + 1)
    } else {
        i
    }
}

proof fn lemma_ws_bounds(s: Seq<u8>, i: int)
    requires
        0 <= i <= s.len(),
    ensures
        i <= spec_ws(s, i) <= s.len(),
    decreases s.len() - i,
{
    if i < s.len() && is_ws(s[i]) {
        lemma_ws_bounds(s, i + 1);
    }
}

/// Skips insignificant whitespace.
fn skip_ws(s: &Vec<u8>, i: usize) -> (r: usize)
    requires
        i <= s@.len(),
    ensures
        r == spec_ws(s@, i as int),
        i <= r <= s@.len(),
{
    let mut j = i;
    while j < s.len() && (s[j] == 32 || s[j] == 9 || s[j] == 10 || s[j] == 13)
        invariant
            i <= j <= s@.len(),
            spec_ws(s@, i as int) == spec_ws(s@, j as int),
        decreases s@.len() - j,
    {
        j += 1;
    }
    j
}

/// An ASCII decimal digit.
pub open spec fn is_digit(b: u8) -> bool {
    48 <= b <= 57
}

/// The first position at or after `i` holding a non-digit byte, or the
/// end of the input.
pub open spec fn spec_scan_digits(s: Seq<u8>, i: int) -> int
    decreases s.len() - i,
{
    if 0 <= i < s.len() && is_digit(s[i]) {
        spec_scan_digits(s, i + 1)
    } else {
        i
    }
}

proof fn lemma_scan_digits_bounds(s: Seq<u8>, i: int)
    requires
        0 <= i <= s.len(),
    ensures
        i <= spec_scan_digits(s, i) <= s.len(),
        forall|k: int| i <= k < spec_scan_digits(s, i) ==> is_digit(#[trigger] s[k]),
    decreases s.len() - i,
{
    if i < s.len() && is_digit(s[i]) {
        lemma_scan_digits_bounds(s, i + 1);
    }
}

/// Skips decimal digits.
fn scan_digits(s: &Vec<u8>, i: usize) -> (r: usize)
    requires
        i <= s@.len(),
    ensures
        r == spec_scan_digits(s@, i as int),
        i <= r <= s@.len(),
{
    let mut j = i;
    while j < s.len() && s[j] >= 48 && s[j] <= 57
        invariant
            i <= j <= s@.len(),
            spec_scan_digits(s@, i as int) == spec_scan_digits(s@, j as int),
        decreases s@.len() - j,
    {
        j += 1;
    }
    j
}

/// The value of a run of decimal digit bytes, most significant first.
pub open spec fn digits_val(ds: Seq<u8>) -> int
    decreases ds.len(),
{
    if ds.len() == 0 {
        0
    } else {
        digits_val(ds.drop_last()) * 10 + (ds.last() - 48)
    }
}

/// Ten to the power `n`.
pub open spec fn pow10(n: nat) -> int
    decreases n,
{
    if n == 0 {
        1
    } else {
        10 * pow10((n - 1) as nat)
    }
}

proof fn lemma_digits_val_bounds(ds: Seq<u8>)
    requires
        forall|k: int| 0 <= k < ds.len() ==> is_digit(#[trigger] ds[k]),
    ensures
        0 <= digits_val(ds) < pow10(ds.len()),
    decreases ds.len(),
{
    if ds.len() > 0 {
        lemma_digits_val_bounds(ds.drop_last());
    }
}

proof fn lemma_digits_val_take_mono(ds: Seq<u8>, k: int)
    requires
        forall|q: int| 0 <= q < ds.len() ==> is_digit(#[trigger] ds[q]),
        0 <= k <= ds.len(),
    ensures
        digits_val(ds.take(k)) <= digits_val(ds),
    decreases ds.len() - k,
{
    if k == ds.len() {
        assert(ds.take(k) =~= ds);
    } else {
        lemma_digits_val_take_mono(ds, k + 1);
        let t = ds.take(k + 1);
        assert(t.drop_last() =~= ds.take(k));
        assert(t.last() == ds[k]);
        assert forall|q: int| 0 <= q < ds.take(k).len() implies is_digit(
            #[trigger] ds.take(k)[q],
        ) by {
            assert(ds.take(k)[q] == ds[q]);
        }
        lemma_digits_val_bounds(ds.take(k));
        assert(digits_val(ds.take(k)) <= digits_val(t));
    }
}

/// The fractional digits `fd`, scaled to nanoseconds: the first nine
/// digits count, shorter runs are padded with zeros on the right, and
/// digits beyond the ninth are dropped.
pub open spec fn frac_nanos(fd: Seq<u8>) -> int {
    if fd.len() >= 9 {
        digits_val(fd.take(9))
    } else {
        digits_val(fd) * pow10((9 - fd.len()) as nat)
    }
}

proof fn lemma_frac_nanos_bounds(fd: Seq<u8>)
    requires
        forall|k: int| 0 <= k < fd.len() ==> is_digit(#[trigger] fd[k]),
    ensures
        0 <= frac_nanos(fd) < 1_000_000_000,
{
    assert(pow10(9) == 1_000_000_000) by {
        reveal_with_fuel(pow10, 10);
    }
    if fd.len() >= 9 {
        assert forall|q: int| 0 <= q < fd.take(9).len() implies is_digit(
            #[trigger] fd.take(9)[q],
        ) by {
            assert(fd.take(9)[q] == fd[q]);
        }
        lemma_digits_val_bounds(fd.take(9));
    } else {
        lemma_digits_val_bounds(fd);
        lemma_pow10_pos((9 - fd.len()) as nat);
        lemma_digits_bound_scaled(fd);
        assert(digits_val(fd) * pow10((9 - fd.len()) as nat) >= 0) by (nonlinear_arith)
            requires
                digits_val(fd) >= 0,
                pow10((9 - fd.len()) as nat) >= 1,
        ;
    }
}

proof fn lemma_pow10_pos(n: nat)
    ensures
        pow10(n) >= 1,
    decreases n,
{
    if n > 0 {
        lemma_pow10_pos((n - 1) as nat);
    }
}

/// `v < 10^a` gives `v * 10^b < 10^(a+b)`.
proof fn lemma_pow10_mul(a: nat, b: nat)
    ensures
        pow10(a) * pow10(b) == pow10(a + b),
    decreases b,
{
    if b == 0 {
        assert(pow10(a) * 1 == pow10(a));
    } else {
        lemma_pow10_mul(a, (b - 1) as nat);
        assert(pow10(a) * pow10(b) == pow10(a) * (10 * pow10((b - 1) as nat)))
            by (nonlinear_arith)
            requires
                pow10(b) == 10 * pow10((b - 1) as nat),
        ;
        assert(pow10(a) * (10 * pow10((b - 1) as nat)) == 10 * (pow10(a) * pow10(
            (b - 1) as nat,
        ))) by (nonlinear_arith);
        assert(a + b == (a + (b - 1) as nat) + 1);
    }
}

/// The value of digits with zero-padding on the right scales by a power
/// of ten.
proof fn lemma_digits_bound_scaled(fd: Seq<u8>)
    requires
        forall|k: int| 0 <= k < fd.len() ==> is_digit(#[trigger] fd[k]),
        fd.len() < 9,
    ensures
        digits_val(fd) * pow10((9 - fd.len()) as nat) < 1_000_000_000,
{
    lemma_digits_val_bounds(fd);
    lemma_pow10_pos((9 - fd.len()) as nat);
    lemma_pow10_mul(fd.len(), (9 - fd.len()) as nat);
    assert(pow10(9) == 1_000_000_000) by {
        reveal_with_fuel(pow10, 10);
    }
    assert(digits_val(fd) * pow10((9 - fd.len()) as nat) <= (pow10(fd.len()) - 1) * pow10(
        (9 - fd.len()) as nat,
    )) by (nonlinear_arith)
        requires
            digits_val(fd) <= pow10(fd.len()) - 1,
            pow10((9 - fd.len()) as nat) >= 1,
    ;
    assert((pow10(fd.len()) - 1) * pow10((9 - fd.len()) as nat) == pow10(fd.len()) * pow10(
        (9 - fd.len()) as nat,
    ) - pow10((9 - fd.len()) as nat)) by (nonlinear_arith);
}

/// Decodes a run of digits into a `u64`, or fails on overflow.
fn digits_to_u64(s: &Vec<u8>, i: usize, j: usize) -> (r: Result<u64, ConversionError>)
    requires
        i <= j <= s@.len(),
        forall|k: int| i <= k < j ==> is_digit(#[trigger] s@[k]),
    ensures
        r is Ok <==> digits_val(s@.subrange(i as int, j as int)) <= u64::MAX,
        r matches Ok(v) ==> v == digits_val(s@.subrange(i as int, j as int)),
        r matches Err(e) ==> e == ConversionError::MalformedInput,
{
    let ghost ds = s@.subrange(i as int, j as int);
    proof {
        assert forall|q: int| 0 <= q < ds.len() implies is_digit(#[trigger] ds[q]) by {
            assert(ds[q] == s@[i + q]);
        }
    }
    let mut acc: u64 = 0;
    let mut k = i;
    proof {
        assert(ds.take(0) =~= Seq::<u8>::empty());
    }
    while k < j
        invariant
            i <= k <= j <= s@.len(),
            forall|q: int| 0 <= q < ds.len() ==> is_digit(#[trigger] ds[q]),
            ds == s@.subrange(i as int, j as int),
            acc == digits_val(ds.take(k - i)),
        decreases j - k,
    {
        let d = s[k];
        proof {
            assert(ds[k - i] == s@[k as int]);
            assert(ds.take(k - i + 1).drop_last() =~= ds.take(k - i));
            assert(ds.take(k - i + 1).last() == ds[k - i]);
        }
        if acc > (u64::MAX - ((d - 48) as u64)) / 10 {
            proof {
                lemma_digits_val_take_mono(ds, k - i + 1);
                assert(digits_val(ds.take(k - i + 1)) > u64::MAX);
            }
            return Err(ConversionError::MalformedInput);
        }
        acc = acc * 10 + ((d - 48) as u64);
        k += 1;
    }
    proof {
        assert(ds.take(j - i) =~= ds);
    }
    Ok(acc)
}

/// Decodes up to the first nine fractional digits into nanoseconds.
fn frac_digits_to_nanos(s: &Vec<u8>, i: usize, j: usize) -> (r: u32)
    requires
        i <= j <= s@.len(),
        forall|k: int| i <= k < j ==> is_digit(#[trigger] s@[k]),
    ensures
        r == frac_nanos(s@.subrange(i as int, j as int)),
        r < 1_000_000_000,
{
    let ghost fd = s@.subrange(i as int, j as int);
    proof {
        assert forall|q: int| 0 <= q < fd.len() implies is_digit(#[trigger] fd[q]) by {
            assert(fd[q] == s@[i + q]);
        }
        lemma_frac_nanos_bounds(fd);
    }
    let take: usize = if j - i >= 9 {
        9
    } else {
        j - i
    };
    let mut acc: u32 = 0;
    let mut k: usize = 0;
    proof {
        if fd.len() >= 9 {
            assert forall|q: int| 0 <= q < fd.take(9).len() implies is_digit(
                #[trigger] fd.take(9)[q],
            ) by {
                assert(fd.take(9)[q] == fd[q]);
            }
            lemma_digits_val_bounds(fd.take(9));
        } else {
            lemma_digits_val_bounds(fd);
        }
        assert(pow10(9) == 1_000_000_000) by {
        reveal_with_fuel(pow10, 10);
    }
    }
    while k < take
        invariant
            k <= take <= 9,
            take == if fd.len() >= 9 {
                9int
            } else {
                fd.len() as int
            },
            i + take <= j <= s@.len(),
            forall|q: int| 0 <= q < fd.len() ==> is_digit(#[trigger] fd[q]),
            fd == s@.subrange(i as int, j as int),
            acc == digits_val(fd.take(k as int)),
            acc <= 999_999_999,
        decreases take - k,
    {
        let d = s[i + k];
        proof {
            assert(fd[k as int] == s@[i + k]);
            assert(fd.take(k + 1).drop_last() =~= fd.take(k as int));
            assert(fd.take(k + 1).last() == fd[k as int]);
            assert forall|q: int| 0 <= q < fd.take(k + 1).len() implies is_digit(
                #[trigger] fd.take(k + 1)[q],
            ) by {
                assert(fd.take(k + 1)[q] == fd[q]);
            }
            assert forall|q: int| 0 <= q < fd.take(k as int).len() implies is_digit(
                #[trigger] fd.take(k as int)[q],
            ) by {
                assert(fd.take(k as int)[q] == fd[q]);
            }
            lemma_digits_val_bounds(fd.take(k as int));
            lemma_digits_val_bounds(fd.take(k + 1));
            assert(pow10(k as nat) <= pow10(8)) by {
                lemma_pow10_mono(k as nat, 8);
            }
            assert(pow10(8) == 100_000_000) by {
                reveal_with_fuel(pow10, 9);
            }
            assert(pow10((k + 1) as nat) <= pow10(9)) by {
                lemma_pow10_mono((k + 1) as nat, 9);
            }
            assert(pow10(9) == 1_000_000_000) by {
                reveal_with_fuel(pow10, 10);
            }
        }
        acc = acc * 10 + ((d - 48) as u32);
        k += 1;
    }
    let mut pad: usize = if j - i >= 9 {
        0
    } else {
        9 - (j - i)
    };
    proof {
        if fd.len() >= 9 {
            assert(fd.take(take as int) =~= fd.take(9));
        } else {
            assert(fd.take(take as int) =~= fd);
        }
    }
    let ghost done = acc;
    let ghost padded: int = pad as int;
    while pad > 0
        invariant
            0 <= pad <= padded,
            fd.len() < 9 ==> padded == 9 - fd.len(),
            fd.len() >= 9 ==> padded == 0,
            forall|q: int| 0 <= q < fd.len() ==> is_digit(#[trigger] fd[q]),
            done == digits_val(
                if fd.len() >= 9 {
                    fd.take(9)
                } else {
                    fd
                },
            ),
            acc == done * pow10((padded - pad) as nat),
            acc < 1_000_000_000,
        decreases pad,
    {
        proof {
            lemma_frac_nanos_scale_step(fd, padded - pad);
        }
        acc = acc * 10;
        pad -= 1;
    }
    proof {
        if fd.len() < 9 {
            assert(acc == digits_val(fd) * pow10((9 - fd.len()) as nat));
        } else {
            assert(pow10(0) == 1);
        }
    }
    acc
}

proof fn lemma_pow10_mono(a: nat, b: nat)
    requires
        a <= b,
    ensures
        pow10(a) <= pow10(b),
    decreases b,
{
    if a < b {
        lemma_pow10_mono(a, (b - 1) as nat);
        lemma_pow10_pos((b - 1) as nat);
    }
}

/// One padding step keeps the scaled value under one second.
proof fn lemma_frac_nanos_scale_step(fd: Seq<u8>, k: int)
    requires
        forall|q: int| 0 <= q < fd.len() ==> is_digit(#[trigger] fd[q]),
        fd.len() < 9,
        0 <= k < 9 - fd.len(),
    ensures
        digits_val(fd) * pow10(k as nat) * 10 == digits_val(fd) * pow10((k + 1) as nat),
        digits_val(fd) * pow10((k + 1) as nat) < 1_000_000_000,
{
    lemma_digits_val_bounds(fd);
    lemma_pow10_pos(k as nat);
    assert(digits_val(fd) * pow10(k as nat) * 10 == digits_val(fd) * (pow10(k as nat) * 10))
        by (nonlinear_arith);
    assert(pow10(k as nat) * 10 == pow10((k + 1) as nat));
    lemma_pow10_mono((k + 1) as nat, (9 - fd.len()) as nat);
    lemma_digits_bound_scaled(fd);
    assert(digits_val(fd) * pow10((k + 1) as nat) <= digits_val(fd) * pow10((9 - fd.len()) as nat))
        by (nonlinear_arith)
        requires
            digits_val(fd) >= 0,
            pow10((k + 1) as nat) <= pow10((9 - fd.len()) as nat),
    ;
}


/// The decimal-number grammar at position `i`: one or more digits,
/// optionally a point followed by one or more fractional digits. Fails on
/// a missing digit or on an integer part beyond `u64`.
pub open spec fn spec_number(s: Seq<u8>, i: int) -> Result<(Number, int), ConversionError> {
    let j = spec_scan_digits(s, i);
    if j == i {
        Err(ConversionError::MalformedInput)
    } else {
        let iv = digits_val(s.subrange(i, j));
        if iv > u64::MAX {
            Err(ConversionError::MalformedInput)
        } else if j < s.len() && s[j] == 46 {
            let k = spec_scan_digits(s, j + 1);
            if k == j + 1 {
                Err(ConversionError::MalformedInput)
            } else {
                Ok(
                    (
                        Number {
                            int_part: iv as u64,
                            frac_ns: frac_nanos(s.subrange(j + 1, k)) as u32,
                            is_int: false,
                        },
                        k,
                    ),
                )
            }
        } else {
            Ok((Number { int_part: iv as u64, frac_ns: 0, is_int: true }, j))
        }
    }
}

/// Parses a decimal number.
fn parse_number(s: &Vec<u8>, i: usize) -> (r: Result<(Number, usize), ConversionError>)
    requires
        i <= s@.len(),
    ensures
        r matches Ok((n, j)) ==> spec_number(s@, i as int) == Ok::<_, ConversionError>(
            (n, j as int),
        ) && i < j <= s@.len(),
        r matches Err(e) ==> spec_number(s@, i as int) == Err::<(Number, int), _>(e),
{
    proof {
        lemma_scan_digits_bounds(s@, i as int);
    }
    let j = scan_digits(s, i);
    if j == i {
        return Err(ConversionError::MalformedInput);
    }
    let iv = match digits_to_u64(s, i, j) {
        Ok(v) => v,
        Err(e) => {
            return Err(e);
        },
    };
    if j < s.len() && s[j] == 46 {
        proof {
            lemma_scan_digits_bounds(s@, j + 1);
        }
        let k = scan_digits(s, j + 1);
        if k == j + 1 {
            return Err(ConversionError::MalformedInput);
        }
        let fv = frac_digits_to_nanos(s, j + 1, k);
        Ok((Number { int_part: iv, frac_ns: fv, is_int: false }, k))
    } else {
        Ok((Number { int_part: iv, frac_ns: 0, is_int: true }, j))
    }
}

/// A nanosecond count from a decimal number, if it fits 64 bits.
pub open spec fn spec_time_nanos(n: Number) -> Option<u64> {
    let v = n.int_part * NANOS_PER_SEC + n.frac_ns;
    if v > u64::MAX {
        None
    } else {
        Some(v as u64)
    }
}

/// Scales a decoded number to nanoseconds, failing on overflow.
fn time_nanos(n: Number) -> (r: Option<u64>)
    ensures
        r == spec_time_nanos(n),
{
    let limit = (u64::MAX - (n.frac_ns as u64)) / NANOS_PER_SEC;
    proof {
        let m: int = u64::MAX - n.frac_ns;
        vstd::arithmetic::div_mod::lemma_fundamental_div_mod(m, NANOS_PER_SEC as int);
        vstd::arithmetic::div_mod::lemma_mod_bound(m, NANOS_PER_SEC as int);
        assert(m == NANOS_PER_SEC * limit + m % (NANOS_PER_SEC as int));
        if n.int_part > limit {
            assert(n.int_part * NANOS_PER_SEC >= (limit + 1) * NANOS_PER_SEC) by (nonlinear_arith)
                requires
                    n.int_part >= limit + 1,
                    NANOS_PER_SEC >= 1,
            ;
            assert((limit + 1) * NANOS_PER_SEC == NANOS_PER_SEC * limit + NANOS_PER_SEC)
                by (nonlinear_arith);
            assert(n.int_part * NANOS_PER_SEC + n.frac_ns > u64::MAX);
        } else {
            assert(n.int_part * NANOS_PER_SEC <= limit * NANOS_PER_SEC) by (nonlinear_arith)
                requires
                    n.int_part <= limit,
                    NANOS_PER_SEC >= 1,
            ;
            assert(limit * NANOS_PER_SEC == NANOS_PER_SEC * limit) by (nonlinear_arith);
            assert(n.int_part * NANOS_PER_SEC + n.frac_ns <= u64::MAX);
        }
    }
    if n.int_part > limit {
        None
    } else {
        Some(n.int_part * NANOS_PER_SEC + (n.frac_ns as u64))
    }
}

/// A byte that may stand unescaped inside a string: printable ASCII other
/// than the quote and the backslash. Escapes are not part of this
/// decoder's grammar.
pub open spec fn is_plain_char(b: u8) -> bool {
    32 <= b <= 126 && b != 34 && b != 92
}

/// The first position at or after `i` holding a byte that cannot stand
/// inside a string, or the end of the input.
pub open spec fn spec_scan_plain(s: Seq<u8>, i: int) -> int
    decreases s.len() - i,
{
    if 0 <= i < s.len() && is_plain_char(s[i]) {
        spec_scan_plain(s, i + 1)
    } else {
        i
    }
}

proof fn lemma_scan_plain_bounds(s: Seq<u8>, i: int)
    requires
        0 <= i <= s.len(),
    ensures
        i <= spec_scan_plain(s, i) <= s.len(),
        forall|k: int| i <= k < spec_scan_plain(s, i) ==> is_plain_char(#[trigger] s[k]),
    decreases s.len() - i,
{
    if i < s.len() && is_plain_char(s[i]) {
        lemma_scan_plain_bounds(s, i + 1);
    }
}

/// The string grammar at position `i`: a quote, plain characters, a
/// quote. A non-ASCII byte inside fails with `EncodingError`; any other
/// break in the grammar fails with `MalformedInput`.
pub open spec fn spec_string(s: Seq<u8>, i: int) -> Result<(Seq<u8>, int), ConversionError> {
    if 0 <= i < s.len() && s[i] == 34 {
        let j = spec_scan_plain(s, i + 1);
        if j < s.len() && s[j] == 34 {
            Ok((s.subrange(i + 1, j), j + 1))
        } else if j < s.len() && s[j] >= 128 {
            Err(ConversionError::EncodingError)
        } else {
            Err(ConversionError::MalformedInput)
        }
    } else {
        Err(ConversionError::MalformedInput)
    }
}

/// Parses a quoted string of plain characters.
fn parse_string(s: &Vec<u8>, i: usize) -> (r: Result<(Vec<u8>, usize), ConversionError>)
    requires
        i <= s@.len(),
    ensures
        r matches Ok((v, j)) ==> (spec_string(s@, i as int) matches Ok((sv, sj)) && v@ == sv && j
            == sj && i < j <= s@.len() && crate::fixedstr::is_ascii_seq(v@)),
        r matches Err(e) ==> spec_string(s@, i as int) == Err::<(Seq<u8>, int), _>(e),
{
    if !(i < s.len() && s[i] == 34) {
        return Err(ConversionError::MalformedInput);
    }
    proof {
        lemma_scan_plain_bounds(s@, i + 1);
    }
    let mut j = i + 1;
    while j < s.len() && s[j] >= 32 && s[j] <= 126 && s[j] != 34 && s[j] != 92
        invariant
            i + 1 <= j <= s@.len(),
            spec_scan_plain(s@, i + 1) == spec_scan_plain(s@, j as int),
        decreases s@.len() - j,
    {
        j += 1;
    }
    if !(j < s.len() && s[j] == 34) {
        if j < s.len() && s[j] >= 128 {
            return Err(ConversionError::EncodingError);
        }
        return Err(ConversionError::MalformedInput);
    }
    let mut v: Vec<u8> = Vec::new();
    let mut k = i + 1;
    while k < j
        invariant
            i + 1 <= k <= j <= s@.len(),
            v@ == s@.subrange(i + 1, k as int),
        decreases j - k,
    {
        v.push(s[k]);
        proof {
            assert(s@.subrange(i + 1, k as int).push(s@[k as int]) =~= s@.subrange(i + 1, k + 1));
        }
        k += 1;
    }
    proof {
        lemma_scan_plain_bounds(s@, i + 1);
        assert forall|q: int| 0 <= q < v@.len() implies v@[q] < 128 by {
            assert(v@[q] == s@[i + 1 + q]);
            assert(is_plain_char(s@[i + 1 + q]));
        }
    }
    Ok((v, j + 1))
}

/// The four bytes of the `null` literal stand at position `i`.
pub open spec fn spec_null_at(s: Seq<u8>, i: int) -> bool {
    i + 4 <= s.len() && s[i] == 110 && s[i + 1] == 117 && s[i + 2] == 108 && s[i + 3] == 108
}

/// Recognizes the `null` literal.
fn null_at(s: &Vec<u8>, i: usize) -> (r: bool)
    requires
        i <= s@.len(),
    ensures
        r == spec_null_at(s@, i as int),
{
    s.len() >= 4 && i <= s.len() - 4 && s[i] == 110 && s[i + 1] == 117 && s[i + 2] == 108 && s[i
        + 3] == 108
}

/// The optional line prefix `650 GWF ` stands at the start of the line.
pub open spec fn spec_has_prefix(s: Seq<u8>) -> bool {
    s.len() >= 8 && s[0] == 54 && s[1] == 53 && s[2] == 48 && s[3] == 32 && s[4] == 71 && s[5]
        == 87 && s[6] == 70 && s[7] == 32
}

/// Recognizes the optional line prefix.
fn has_prefix(s: &Vec<u8>) -> (r: bool)
    ensures
        r == spec_has_prefix(s@),
{
    s.len() >= 8 && s[0] == 54 && s[1] == 53 && s[2] == 48 && s[3] == 32 && s[4] == 71 && s[5]
        == 87 && s[6] == 70 && s[7] == 32
}


/// Which positional cell encoding the input uses: four elements
/// `[time, net_op, cell_cmd, relay_cmd]`, or five with an extra second
/// element that this decoder skips.
#[derive(Clone, Copy, Debug, PartialEq, Eq, Structural)]
pub enum CellArity {
    Four,
    Five,
}

/// A comma token between values: whitespace, a comma, whitespace.
pub open spec fn spec_comma(s: Seq<u8>, i: int) -> Result<int, ConversionError> {
    let j = spec_ws(s, i);
    if j < s.len() && s[j] == 44 {
        Ok(spec_ws(s, j + 1))
    } else {
        Err(ConversionError::MalformedInput)
    }
}

/// Consumes a comma between values.
fn parse_comma(s: &Vec<u8>, i: usize) -> (r: Result<usize, ConversionError>)
    requires
        i <= s@.len(),
    ensures
        r matches Ok(j) ==> spec_comma(s@, i as int) == Ok::<_, ConversionError>(j as int) && i
            <= j <= s@.len(),
        r matches Err(e) ==> spec_comma(s@, i as int) == Err::<int, _>(e),
{
    let j = skip_ws(s, i);
    if j < s.len() && s[j] == 44 {
        Ok(skip_ws(s, j + 1))
    } else {
        Err(ConversionError::MalformedInput)
    }
}

/// A number that must be a plain integer: its value, unbounded by any
/// field width here.
pub open spec fn spec_int_code(s: Seq<u8>, i: int) -> Result<(u64, int), ConversionError> {
    match spec_number(s, i) {
        Err(e) => Err(e),
        Ok((n, j)) => if n.is_int {
            Ok((n.int_part, j))
        } else {
            Err(ConversionError::MalformedInput)
        },
    }
}

/// Parses an integer-valued number.
fn parse_int_code(s: &Vec<u8>, i: usize) -> (r: Result<(u64, usize), ConversionError>)
    requires
        i <= s@.len(),
    ensures
        r matches Ok((v, j)) ==> spec_int_code(s@, i as int) == Ok::<_, ConversionError>(
            (v, j as int),
        ) && i < j <= s@.len(),
        r matches Err(e) ==> spec_int_code(s@, i as int) == Err::<(u64, int), _>(e),
{
    match parse_number(s, i) {
        Err(e) => Err(e),
        Ok((n, j)) => if n.is_int {
            Ok((n.int_part, j))
        } else {
            Err(ConversionError::MalformedInput)
        },
    }
}

/// The direction named by a cell's `net_op` element: `0` toward the
/// server, `1` toward the client, nothing else.
pub open spec fn spec_net_op(v: u64) -> Result<Direction, ConversionError> {
    if v == 0 {
        Ok(Direction::CLIENT_TO_SERVER)
    } else if v == 1 {
        Ok(Direction::SERVER_TO_CLIENT)
    } else {
        Err(ConversionError::UnrecognizedCode { field: CodeField::Direction, code: v as i64 })
    }
}

/// Decodes a `net_op` element.
fn net_op_direction(v: u64) -> (r: Result<Direction, ConversionError>)
    ensures
        r == spec_net_op(v),
{
    if v == 0 {
        Ok(Direction::CLIENT_TO_SERVER)
    } else if v == 1 {
        Ok(Direction::SERVER_TO_CLIENT)
    } else {
        Err(
            ConversionError::UnrecognizedCode {
                field: CodeField::Direction,
                code: #[verifier::truncate] (v as i64),
            },
        )
    }
}

/// The cell command named by a raw value, over the full integer range.
pub open spec fn spec_cell_code(v: u64) -> Result<CellCommand, ConversionError> {
    if v <= 255 && spec_cell_command_from(v as u8) is Some {
        Ok(spec_cell_command_from(v as u8)->Some_0)
    } else {
        Err(ConversionError::UnrecognizedCode { field: CodeField::CellCommand, code: v as i64 })
    }
}

/// Decodes a cell-command element.
fn cell_code(v: u64) -> (r: Result<CellCommand, ConversionError>)
    ensures
        r == spec_cell_code(v),
{
    if v <= 255 {
        CellCommand::try_from(v as u8)
    } else {
        Err(
            ConversionError::UnrecognizedCode {
                field: CodeField::CellCommand,
                code: #[verifier::truncate] (v as i64),
            },
        )
    }
}

/// The relay command named by a raw value, over the full integer range.
pub open spec fn spec_relay_code(v: u64) -> Result<RelayCommand, ConversionError> {
    if v <= 255 && spec_relay_command_from(v as u8) is Some {
        Ok(spec_relay_command_from(v as u8)->Some_0)
    } else {
        Err(ConversionError::UnrecognizedCode { field: CodeField::RelayCommand, code: v as i64 })
    }
}

/// Decodes a relay-command element.
fn relay_code(v: u64) -> (r: Result<RelayCommand, ConversionError>)
    ensures
        r == spec_relay_code(v),
{
    if v <= 255 {
        RelayCommand::try_from(v as u8)
    } else {
        Err(
            ConversionError::UnrecognizedCode {
                field: CodeField::RelayCommand,
                code: #[verifier::truncate] (v as i64),
            },
        )
    }
}

/// The extra second element of a five-element cell: a number this decoder
/// reads past, followed by its comma.
pub open spec fn spec_skip_side(s: Seq<u8>, i: int) -> Result<int, ConversionError> {
    match spec_number(s, i) {
        Err(e) => Err(e),
        Ok((n, j)) => spec_comma(s, j),
    }
}

/// Reads past the extra second element of a five-element cell.
fn skip_side(s: &Vec<u8>, i: usize) -> (r: Result<usize, ConversionError>)
    requires
        i <= s@.len(),
    ensures
        r matches Ok(j) ==> spec_skip_side(s@, i as int) == Ok::<_, ConversionError>(j as int) && i
            <= j <= s@.len(),
        r matches Err(e) ==> spec_skip_side(s@, i as int) == Err::<int, _>(e),
{
    match parse_number(s, i) {
        Err(e) => Err(e),
        Ok((_, j)) => parse_comma(s, j),
    }
}

/// The grammar of one cell at position `i`: a bracketed, comma-separated
/// positional array of numbers, decoded into a `Cell` with its time
/// scaled to nanoseconds and its categorical codes checked against the
/// closed sets.
pub open spec fn spec_cell(s: Seq<u8>, i: int, arity: CellArity) -> Result<
    (Cell, int),
    ConversionError,
> {
    if !(0 <= i < s.len() && s[i] == 91) {
        Err(ConversionError::MalformedInput)
    } else {
        match spec_number(s, spec_ws(s, i + 1)) {
            Err(e) => Err(e),
            Ok((tnum, a)) => match spec_time_nanos(tnum) {
                None => Err(ConversionError::MalformedInput),
                Some(tn) => match spec_comma(s, a) {
                    Err(e) => Err(e),
                    Ok(b0) => match (
                    if arity is Five {
                        spec_skip_side(s, b0)
                    } else {
                        Ok(b0)
                    }) {
                        Err(e) => Err(e),
                        Ok(b) => match spec_int_code(s, b) {
                            Err(e) => Err(e),
                            Ok((nv, c)) => match spec_net_op(nv) {
                                Err(e) => Err(e),
                                Ok(dir) => match spec_comma(s, c) {
                                    Err(e) => Err(e),
                                    Ok(d0) => match spec_int_code(s, d0) {
                                        Err(e) => Err(e),
                                        Ok((cv, d)) => match spec_cell_code(cv) {
                                            Err(e) => Err(e),
                                            Ok(cc) => match spec_comma(s, d) {
                                                Err(e) => Err(e),
                                                Ok(e0) => match spec_int_code(s, e0) {
                                                    Err(er) => Err(er),
                                                    Ok((rv, f)) => match spec_relay_code(rv) {
                                                        Err(er) => Err(er),
                                                        Ok(rc) => {
                                                            let g = spec_ws(s, f);
                                                            if g < s.len() && s[g] == 93 {
                                                                Ok(
                                                                    (
                                                                        Cell {
                                                                            time: tn,
                                                                            direction: dir,
                                                                            cell_cmd: cc,
                                                                            relay_cmd: rc,
                                                                        },
                                                                        g + 1,
                                                                    ),
                                                                )
                                                            } else {
                                                                Err(ConversionError::MalformedInput)
                                                            }
                                                        },
                                                    },
                                                },
                                            },
                                        },
                                    },
                                },
                            },
                        },
                    },
                },
            },
        }
    }
}

/// Parses one positional cell array.
fn parse_cell(s: &Vec<u8>, i: usize, arity: CellArity) -> (r: Result<
    (Cell, usize),
    ConversionError,
>)
    requires
        i <= s@.len(),
    ensures
        r matches Ok((c, j)) ==> spec_cell(s@, i as int, arity) == Ok::<_, ConversionError>(
            (c, j as int),
        ) && i < j <= s@.len(),
        r matches Err(e) ==> spec_cell(s@, i as int, arity) == Err::<(Cell, int), _>(e),
{
    if !(i < s.len() && s[i] == 91) {
        return Err(ConversionError::MalformedInput);
    }
    let a0 = skip_ws(s, i + 1);
    let (tnum, a) = match parse_number(s, a0) {
        Ok(v) => v,
        Err(e) => {
            return Err(e);
        },
    };
    let tn = match time_nanos(tnum) {
        Some(v) => v,
        None => {
            return Err(ConversionError::MalformedInput);
        },
    };
    let b0 = match parse_comma(s, a) {
        Ok(v) => v,
        Err(e) => {
            return Err(e);
        },
    };
    let b = if matches!(arity, CellArity::Five) {
        match skip_side(s, b0) {
            Ok(v) => v,
            Err(e) => {
                return Err(e);
            },
        }
    } else {
        b0
    };
    let (nv, c) = match parse_int_code(s, b) {
        Ok(v) => v,
        Err(e) => {
            return Err(e);
        },
    };
    let dir = match net_op_direction(nv) {
        Ok(v) => v,
        Err(e) => {
            return Err(e);
        },
    };
    let d0 = match parse_comma(s, c) {
        Ok(v) => v,
        Err(e) => {
            return Err(e);
        },
    };
    let (cv, d) = match parse_int_code(s, d0) {
        Ok(v) => v,
        Err(e) => {
            return Err(e);
        },
    };
    let cc = match cell_code(cv) {
        Ok(v) => v,
        Err(e) => {
            return Err(e);
        },
    };
    let e0 = match parse_comma(s, d) {
        Ok(v) => v,
        Err(e) => {
            return Err(e);
        },
    };
    let (rv, f) = match parse_int_code(s, e0) {
        Ok(v) => v,
        Err(e) => {
            return Err(e);
        },
    };
    let rc = match relay_code(rv) {
        Ok(v) => v,
        Err(e) => {
            return Err(e);
        },
    };
    let g = skip_ws(s, f);
    if g < s.len() && s[g] == 93 {
        Ok((Cell { time: tn, direction: dir, cell_cmd: cc, relay_cmd: rc }, g + 1))
    } else {
        Err(ConversionError::MalformedInput)
    }
}

/// The grammar of the cell list after its first cell: comma-separated
/// further cells up to the closing bracket, accumulated onto `acc`. The
/// fuel bounds the recursion; the decoder supplies the line length, which
/// no well-formed list can exhaust.
pub open spec fn spec_cells_rest(
    s: Seq<u8>,
    i: int,
    arity: CellArity,
    acc: Seq<Cell>,
    fuel: nat,
) -> Result<(Seq<Cell>, int), ConversionError>
    decreases fuel,
{
    let j = spec_ws(s, i);
    if j < s.len() && s[j] == 93 {
        Ok((acc, j + 1))
    } else if j < s.len() && s[j] == 44 {
        if fuel == 0 {
            Err(ConversionError::MalformedInput)
        } else {
            match spec_cell(s, spec_ws(s, j + 1), arity) {
                Err(e) => Err(e),
                Ok((c, k)) => spec_cells_rest(s, k, arity, acc.push(c), (fuel - 1) as nat),
            }
        }
    } else {
        Err(ConversionError::MalformedInput)
    }
}

/// The grammar of a whole cell list at position `i`.
pub open spec fn spec_cells(s: Seq<u8>, i: int, arity: CellArity, fuel: nat) -> Result<
    (Seq<Cell>, int),
    ConversionError,
> {
    if !(0 <= i < s.len() && s[i] == 91) {
        Err(ConversionError::MalformedInput)
    } else {
        let j = spec_ws(s, i + 1);
        if j < s.len() && s[j] == 93 {
            Ok((Seq::empty(), j + 1))
        } else {
            match spec_cell(s, j, arity) {
                Err(e) => Err(e),
                Ok((c, k)) => spec_cells_rest(s, k, arity, seq![c], fuel),
            }
        }
    }
}

/// Parses the rest of a cell list, pushing onto `acc`.
fn parse_cells_rest(
    s: &Vec<u8>,
    i: usize,
    arity: CellArity,
    acc: &mut Vec<Cell>,
    fuel: usize,
) -> (r: Result<usize, ConversionError>)
    requires
        i <= s@.len(),
    ensures
        r matches Ok(j) ==> (spec_cells_rest(s@, i as int, arity, old(acc)@, fuel as nat)
            matches Ok((cs, sj)) && final(acc)@ == cs && j == sj && j <= s@.len()),
        r matches Err(e) ==> spec_cells_rest(s@, i as int, arity, old(acc)@, fuel as nat) == Err::<
            (Seq<Cell>, int),
            _,
        >(e),
    decreases fuel,
{
    let j = skip_ws(s, i);
    if j < s.len() && s[j] == 93 {
        Ok(j + 1)
    } else if j < s.len() && s[j] == 44 {
        if fuel == 0 {
            return Err(ConversionError::MalformedInput);
        }
        let k0 = skip_ws(s, j + 1);
        match parse_cell(s, k0, arity) {
            Err(e) => Err(e),
            Ok((c, k)) => {
                acc.push(c);
                parse_cells_rest(s, k, arity, acc, fuel - 1)
            },
        }
    } else {
        Err(ConversionError::MalformedInput)
    }
}

/// Parses a whole cell list.
fn parse_cells(s: &Vec<u8>, i: usize, arity: CellArity, fuel: usize) -> (r: Result<
    (Vec<Cell>, usize),
    ConversionError,
>)
    requires
        i <= s@.len(),
    ensures
        r matches Ok((cs, j)) ==> (spec_cells(s@, i as int, arity, fuel as nat) matches Ok(
            (scs, sj),
        ) && cs@ == scs && j == sj && j <= s@.len()),
        r matches Err(e) ==> spec_cells(s@, i as int, arity, fuel as nat) == Err::<
            (Seq<Cell>, int),
            _,
        >(e),
{
    if !(i < s.len() && s[i] == 91) {
        return Err(ConversionError::MalformedInput);
    }
    let j = skip_ws(s, i + 1);
    if j < s.len() && s[j] == 93 {
        let cs: Vec<Cell> = Vec::new();
        proof {
            assert(cs@ =~= Seq::<Cell>::empty());
        }
        return Ok((cs, j + 1));
    }
    match parse_cell(s, j, arity) {
        Err(e) => Err(e),
        Ok((c, k)) => {
            let mut cs: Vec<Cell> = Vec::new();
            cs.push(c);
            proof {
                assert(cs@ =~= seq![c]);
            }
            match parse_cells_rest(s, k, arity, &mut cs, fuel) {
                Err(e) => Err(e),
                Ok(j2) => Ok((cs, j2)),
            }
        },
    }
}


/// The decoded fields of one input object, as their mathematical views.
pub ghost struct FieldsV {
    pub domain: Option<Seq<u8>>,
    pub suffix: Option<Option<Seq<u8>>>,
    pub day: Option<u64>,
    pub port: Option<u64>,
    pub time_created: Option<u64>,
    pub cells: Option<Seq<Cell>>,
}

/// No field seen yet.
pub open spec fn empty_fields() -> FieldsV {
    FieldsV { domain: None, suffix: None, day: None, port: None, time_created: None, cells: None }
}

/// String fields hold ASCII only, which the string grammar guarantees.
pub open spec fn fields_wf(f: FieldsV) -> bool {
    &&& (f.domain matches Some(d) ==> is_ascii_seq(d))
    &&& (f.suffix matches Some(o) ==> (o matches Some(x) ==> is_ascii_seq(x)))
}

/// The decoded fields of one input object, accumulating as members are
/// read.
pub struct Fields {
    pub domain: Option<Vec<u8>>,
    pub suffix: Option<Option<Vec<u8>>>,
    pub day: Option<u64>,
    pub port: Option<u64>,
    pub time_created: Option<u64>,
    pub cells: Option<Vec<Cell>>,
}

impl View for Fields {
    type V = FieldsV;

    open spec fn view(&self) -> FieldsV {
        FieldsV {
            domain: match self.domain {
                Some(v) => Some(v@),
                None => None,
            },
            suffix: match self.suffix {
                Some(o) => Some(
                    match o {
                        Some(v) => Some(v@),
                        None => None,
                    },
                ),
                None => None,
            },
            day: self.day,
            port: self.port,
            time_created: self.time_created,
            cells: match self.cells {
                Some(v) => Some(v@),
                None => None,
            },
        }
    }
}

impl Fields {
    fn new() -> (r: Fields)
        ensures
            r@ == empty_fields(),
    {
        Fields { domain: None, suffix: None, day: None, port: None, time_created: None, cells: None }
    }
}

/// The bytes of the member name `domain`.
pub open spec fn key_domain() -> Seq<u8> {
    seq![100u8, 111u8, 109u8, 97u8, 105u8, 110u8]
}

/// The bytes of the member name `shortest_private_suffix`.
pub open spec fn key_suffix() -> Seq<u8> {
    seq![
        115u8, 104u8, 111u8, 114u8, 116u8, 101u8, 115u8, 116u8, 95u8, 112u8, 114u8, 105u8, 118u8,
        97u8, 116u8, 101u8, 95u8, 115u8, 117u8, 102u8, 102u8, 105u8, 120u8,
    ]
}

/// The bytes of the member name `day`.
pub open spec fn key_day() -> Seq<u8> {
    seq![100u8, 97u8, 121u8]
}

/// The bytes of the member name `port`.
pub open spec fn key_port() -> Seq<u8> {
    seq![112u8, 111u8, 114u8, 116u8]
}

/// The bytes of the member name `time_created`.
pub open spec fn key_time_created() -> Seq<u8> {
    seq![116u8, 105u8, 109u8, 101u8, 95u8, 99u8, 114u8, 101u8, 97u8, 116u8, 101u8, 100u8]
}

/// The bytes of the member name `cells`.
pub open spec fn key_cells() -> Seq<u8> {
    seq![99u8, 101u8, 108u8, 108u8, 115u8]
}

/// Whether two byte strings are equal.
fn bytes_eq(a: &Vec<u8>, b: &Vec<u8>) -> (r: bool)
    ensures
        r == (a@ == b@),
{
    if a.len() != b.len() {
        return false;
    }
    let mut i: usize = 0;
    while i < a.len()
        invariant
            i <= a@.len(),
            a@.len() == b@.len(),
            forall|j: int| 0 <= j < i ==> a@[j] == b@[j],
        decreases a@.len() - i,
    {
        if a[i] != b[i] {
            return false;
        }
        i += 1;
    }
    proof {
        assert(a@ =~= b@);
    }
    true
}

/// The member name `domain` as a vector.
fn key_domain_vec() -> (r: Vec<u8>)
    ensures
        r@ == key_domain(),
{
    let mut v: Vec<u8> = Vec::new();
    v.push(100);
    v.push(111);
    v.push(109);
    v.push(97);
    v.push(105);
    v.push(110);
    proof {
        assert(v@ =~= key_domain());
    }
    v
}

/// The member name `shortest_private_suffix` as a vector.
fn key_suffix_vec() -> (r: Vec<u8>)
    ensures
        r@ == key_suffix(),
{
    let mut v: Vec<u8> = Vec::new();
    v.push(115);
    v.push(104);
    v.push(111);
    v.push(114);
    v.push(116);
    v.push(101);
    v.push(115);
    v.push(116);
    v.push(95);
    v.push(112);
    v.push(114);
    v.push(105);
    v.push(118);
    v.push(97);
    v.push(116);
    v.push(101);
    v.push(95);
    v.push(115);
    v.push(117);
    v.push(102);
    v.push(102);
    v.push(105);
    v.push(120);
    proof {
        assert(v@ =~= key_suffix());
    }
    v
}

/// The member name `day` as a vector.
fn key_day_vec() -> (r: Vec<u8>)
    ensures
        r@ == key_day(),
{
    let mut v: Vec<u8> = Vec::new();
    v.push(100);
    v.push(97);
    v.push(121);
    proof {
        assert(v@ =~= key_day());
    }
    v
}

/// The member name `port` as a vector.
fn key_port_vec() -> (r: Vec<u8>)
    ensures
        r@ == key_port(),
{
    let mut v: Vec<u8> = Vec::new();
    v.push(112);
    v.push(111);
    v.push(114);
    v.push(116);
    proof {
        assert(v@ =~= key_port());
    }
    v
}

/// The member name `time_created` as a vector.
fn key_time_created_vec() -> (r: Vec<u8>)
    ensures
        r@ == key_time_created(),
{
    let mut v: Vec<u8> = Vec::new();
    v.push(116);
    v.push(105);
    v.push(109);
    v.push(101);
    v.push(95);
    v.push(99);
    v.push(114);
    v.push(101);
    v.push(97);
    v.push(116);
    v.push(101);
    v.push(100);
    proof {
        assert(v@ =~= key_time_created());
    }
    v
}

/// The member name `cells` as a vector.
fn key_cells_vec() -> (r: Vec<u8>)
    ensures
        r@ == key_cells(),
{
    let mut v: Vec<u8> = Vec::new();
    v.push(99);
    v.push(101);
    v.push(108);
    v.push(108);
    v.push(115);
    proof {
        assert(v@ =~= key_cells());
    }
    v
}

/// The value grammar for one member, chosen by its name. A repeated name,
/// an unknown name, or a value of the wrong shape is malformed.
pub open spec fn spec_member_value(
    s: Seq<u8>,
    i: int,
    key: Seq<u8>,
    f: FieldsV,
    arity: CellArity,
    fuel: nat,
) -> Result<(FieldsV, int), ConversionError> {
    if key == key_domain() {
        if f.domain is Some {
            Err(ConversionError::MalformedInput)
        } else {
            match spec_string(s, i) {
                Err(e) => Err(e),
                Ok((v, j)) => Ok((FieldsV { domain: Some(v), ..f }, j)),
            }
        }
    } else if key == key_suffix() {
        if f.suffix is Some {
            Err(ConversionError::MalformedInput)
        } else if spec_null_at(s, i) {
            Ok((FieldsV { suffix: Some(None), ..f }, i + 4))
        } else {
            match spec_string(s, i) {
                Err(e) => Err(e),
                Ok((v, j)) => Ok((FieldsV { suffix: Some(Some(v)), ..f }, j)),
            }
        }
    } else if key == key_day() {
        if f.day is Some {
            Err(ConversionError::MalformedInput)
        } else {
            match spec_int_code(s, i) {
                Err(e) => Err(e),
                Ok((v, j)) => Ok((FieldsV { day: Some(v), ..f }, j)),
            }
        }
    } else if key == key_port() {
        if f.port is Some {
            Err(ConversionError::MalformedInput)
        } else {
            match spec_int_code(s, i) {
                Err(e) => Err(e),
                Ok((v, j)) => Ok((FieldsV { port: Some(v), ..f }, j)),
            }
        }
    } else if key == key_time_created() {
        if f.time_created is Some {
            Err(ConversionError::MalformedInput)
        } else {
            match spec_number(s, i) {
                Err(e) => Err(e),
                Ok((n, j)) => match spec_time_nanos(n) {
                    None => Err(ConversionError::MalformedInput),
                    Some(t) => Ok((FieldsV { time_created: Some(t), ..f }, j)),
                },
            }
        }
    } else if key == key_cells() {
        if f.cells is Some {
            Err(ConversionError::MalformedInput)
        } else {
            match spec_cells(s, i, arity, fuel) {
                Err(e) => Err(e),
                Ok((cs, j)) => Ok((FieldsV { cells: Some(cs), ..f }, j)),
            }
        }
    } else {
        Err(ConversionError::MalformedInput)
    }
}

/// Parses one member's value and records it.
fn parse_member_value(
    s: &Vec<u8>,
    i: usize,
    key: &Vec<u8>,
    f: Fields,
    arity: CellArity,
    fuel: usize,
) -> (r: Result<(Fields, usize), ConversionError>)
    requires
        i <= s@.len(),
        fields_wf(f@),
    ensures
        r matches Ok((rf, j)) ==> (spec_member_value(s@, i as int, key@, f@, arity, fuel as nat)
            matches Ok((sf, sj)) && rf@ == sf && j == sj && j <= s@.len() && fields_wf(rf@)),
        r matches Err(e) ==> spec_member_value(s@, i as int, key@, f@, arity, fuel as nat) == Err::<
            (FieldsV, int),
            _,
        >(e),
{
    if bytes_eq(key, &key_domain_vec()) {
        if f.domain.is_some() {
            return Err(ConversionError::MalformedInput);
        }
        match parse_string(s, i) {
            Err(e) => Err(e),
            Ok((v, j)) => Ok((Fields { domain: Some(v), ..f }, j)),
        }
    } else if bytes_eq(key, &key_suffix_vec()) {
        if f.suffix.is_some() {
            return Err(ConversionError::MalformedInput);
        }
        if null_at(s, i) {
            let n = s.len();
            proof {
                assert(i + 4 <= n);
            }
            return Ok((Fields { suffix: Some(None), ..f }, i + 4));
        }
        match parse_string(s, i) {
            Err(e) => Err(e),
            Ok((v, j)) => Ok((Fields { suffix: Some(Some(v)), ..f }, j)),
        }
    } else if bytes_eq(key, &key_day_vec()) {
        if f.day.is_some() {
            return Err(ConversionError::MalformedInput);
        }
        match parse_int_code(s, i) {
            Err(e) => Err(e),
            Ok((v, j)) => Ok((Fields { day: Some(v), ..f }, j)),
        }
    } else if bytes_eq(key, &key_port_vec()) {
        if f.port.is_some() {
            return Err(ConversionError::MalformedInput);
        }
        match parse_int_code(s, i) {
            Err(e) => Err(e),
            Ok((v, j)) => Ok((Fields { port: Some(v), ..f }, j)),
        }
    } else if bytes_eq(key, &key_time_created_vec()) {
        if f.time_created.is_some() {
            return Err(ConversionError::MalformedInput);
        }
        match parse_number(s, i) {
            Err(e) => Err(e),
            Ok((n, j)) => match time_nanos(n) {
                None => Err(ConversionError::MalformedInput),
                Some(t) => Ok((Fields { time_created: Some(t), ..f }, j)),
            },
        }
    } else if bytes_eq(key, &key_cells_vec()) {
        if f.cells.is_some() {
            return Err(ConversionError::MalformedInput);
        }
        match parse_cells(s, i, arity, fuel) {
            Err(e) => Err(e),
            Ok((cs, j)) => Ok((Fields { cells: Some(cs), ..f }, j)),
        }
    } else {
        Err(ConversionError::MalformedInput)
    }
}

/// The member-list grammar from the first member on: `"name": value`
/// pairs separated by commas, closed by the object's closing brace.
pub open spec fn spec_members(
    s: Seq<u8>,
    i: int,
    f: FieldsV,
    arity: CellArity,
    fuel: nat,
) -> Result<(FieldsV, int), ConversionError>
    decreases fuel,
{
    match spec_string(s, i) {
        Err(e) => Err(e),
        Ok((key, j0)) => {
            let j1 = spec_ws(s, j0);
            if !(j1 < s.len() && s[j1] == 58) {
                Err(ConversionError::MalformedInput)
            } else {
                let j2 = spec_ws(s, j1 + 1);
                match spec_member_value(s, j2, key, f, arity, fuel) {
                    Err(e) => Err(e),
                    Ok((f2, j3)) => {
                        let j4 = spec_ws(s, j3);
                        if j4 < s.len() && s[j4] == 125 {
                            Ok((f2, j4 + 1))
                        } else if j4 < s.len() && s[j4] == 44 {
                            if fuel == 0 {
                                Err(ConversionError::MalformedInput)
                            } else {
                                spec_members(s, spec_ws(s, j4 + 1), f2, arity, (fuel - 1) as nat)
                            }
                        } else {
                            Err(ConversionError::MalformedInput)
                        }
                    },
                }
            }
        },
    }
}

/// Parses the member list of the input object.
fn parse_members(s: &Vec<u8>, i: usize, f: Fields, arity: CellArity, fuel: usize) -> (r: Result<
    (Fields, usize),
    ConversionError,
>)
    requires
        i <= s@.len(),
        fields_wf(f@),
    ensures
        r matches Ok((rf, j)) ==> (spec_members(s@, i as int, f@, arity, fuel as nat) matches Ok(
            (sf, sj),
        ) && rf@ == sf && j == sj && j <= s@.len() && fields_wf(rf@)),
        r matches Err(e) ==> spec_members(s@, i as int, f@, arity, fuel as nat) == Err::<
            (FieldsV, int),
            _,
        >(e),
    decreases fuel,
{
    let (key, j0) = match parse_string(s, i) {
        Ok(v) => v,
        Err(e) => {
            return Err(e);
        },
    };
    let j1 = skip_ws(s, j0);
    if !(j1 < s.len() && s[j1] == 58) {
        return Err(ConversionError::MalformedInput);
    }
    let j2 = skip_ws(s, j1 + 1);
    let (f2, j3) = match parse_member_value(s, j2, &key, f, arity, fuel) {
        Ok(v) => v,
        Err(e) => {
            return Err(e);
        },
    };
    let j4 = skip_ws(s, j3);
    if j4 < s.len() && s[j4] == 125 {
        Ok((f2, j4 + 1))
    } else if j4 < s.len() && s[j4] == 44 {
        if fuel == 0 {
            return Err(ConversionError::MalformedInput);
        }
        let j5 = skip_ws(s, j4 + 1);
        parse_members(s, j5, f2, arity, fuel - 1)
    } else {
        Err(ConversionError::MalformedInput)
    }
}


/// The circuit a successful decode yields: fixed-width encodings of the
/// strings, the null sentinel for an absent suffix, and the cell arena
/// padded to full capacity.
pub open spec fn spec_make_circuit(
    id: Seq<u8>,
    domain: Seq<u8>,
    suffix: Option<Seq<u8>>,
    day: u8,
    port: u16,
    cells: Seq<Cell>,
) -> CircuitV {
    CircuitV {
        uuid: id,
        domain: pad_trunc(domain, DOMAIN_WIDTH as nat),
        shortest_private_suffix: match suffix {
            None => null_seq(DOMAIN_WIDTH as nat),
            Some(x) => pad_trunc(x, DOMAIN_WIDTH as nat),
        },
        day: day,
        port: port,
        len: cells.len() as u16,
        cells: Seq::new(
            CIRCUIT_CELLS as nat,
            |i: int|
                if i < cells.len() {
                    cells[i]
                } else {
                    Cell::spec_empty()
                },
        ),
    }
}

/// Checks and combines the decoded fields. `domain`,
/// `shortest_private_suffix`, `port` and `cells` are required; the port
/// must fit sixteen bits and the cell count the arena. With a time
/// window, `time_created` is required, a time outside the window drops
/// the record (no error), and the day bucket is computed from the window
/// start; without one, the day field is used as given, defaulting to
/// zero. A day bucket beyond eight bits is malformed.
pub open spec fn spec_assemble(
    f: FieldsV,
    window: Option<(u64, u64)>,
    id: Seq<u8>,
) -> Result<Option<CircuitV>, ConversionError> {
    if f.domain is None || f.suffix is None || f.port is None || f.cells is None {
        Err(ConversionError::MalformedInput)
    } else {
        let domain = f.domain->Some_0;
        let suffix = f.suffix->Some_0;
        let port = f.port->Some_0;
        let cells = f.cells->Some_0;
        if port > 65535 {
            Err(ConversionError::MalformedInput)
        } else if cells.len() > CIRCUIT_CELLS {
            Err(ConversionError::MalformedInput)
        } else {
            match window {
                Some((mn, mx)) => match f.time_created {
                    None => Err(ConversionError::MalformedInput),
                    Some(t) => if t < mn || t > mx {
                        Ok(None)
                    } else {
                        let day = (t - mn) / (NANOS_PER_DAY as int) + 1;
                        if day > 255 {
                            Err(ConversionError::MalformedInput)
                        } else {
                            Ok(
                                Some(
                                    spec_make_circuit(
                                        id,
                                        domain,
                                        suffix,
                                        day as u8,
                                        port as u16,
                                        cells,
                                    ),
                                ),
                            )
                        }
                    },
                },
                None => {
                    let day = if f.day is Some {
                        f.day->Some_0
                    } else {
                        0
                    };
                    if day > 255 {
                        Err(ConversionError::MalformedInput)
                    } else {
                        Ok(
                            Some(
                                spec_make_circuit(id, domain, suffix, day as u8, port as u16, cells),
                            ),
                        )
                    }
                },
            }
        }
    }
}

/// Builds the decoded circuit from checked parts.
fn make_circuit(
    id: &FixedAscii,
    domain: &Vec<u8>,
    suffix: &Option<Vec<u8>>,
    day: u8,
    port: u16,
    cells: Vec<Cell>,
) -> (r: Circuit)
    requires
        id.wf(UUID_WIDTH as nat),
        is_ascii_seq(domain@),
        (suffix matches Some(x) ==> is_ascii_seq(x@)),
        cells@.len() <= CIRCUIT_CELLS,
    ensures
        r@ == spec_make_circuit(
            id@,
            domain@,
            match *suffix {
                Some(x) => Some(x@),
                None => None,
            },
            day,
            port,
            cells@,
        ),
        r.wf(),
{
    let ghost cells0 = cells@;
    let suffix_fixed = match suffix {
        Some(x) => fixedascii_pad(x, DOMAIN_WIDTH),
        None => fixedascii_null(DOMAIN_WIDTH),
    };
    let n = cells.len();
    let mut arena = cells;
    while arena.len() < CIRCUIT_CELLS
        invariant
            cells0.len() <= arena@.len() <= CIRCUIT_CELLS,
            arena@.subrange(0, cells0.len() as int) == cells0,
            forall|q: int| cells0.len() <= q < arena@.len() ==> arena@[q] == Cell::spec_empty(),
        decreases CIRCUIT_CELLS - arena@.len(),
    {
        let ghost before = arena@;
        arena.push(Cell::empty());
        proof {
            assert(arena@.subrange(0, cells0.len() as int) =~= before.subrange(
                0,
                cells0.len() as int,
            ));
        }
    }
    let r = Circuit {
        uuid: FixedAscii { bytes: copy_bytes(&id.bytes) },
        domain: fixedascii_pad(domain, DOMAIN_WIDTH),
        shortest_private_suffix: suffix_fixed,
        day,
        port,
        len: n as u16,
        cells: arena,
    };
    proof {
        let sc = spec_make_circuit(
            id@,
            domain@,
            match suffix {
                Some(x) => Some(x@),
                None => None,
            },
            day,
            port,
            cells0,
        );
        assert forall|q: int| 0 <= q < CIRCUIT_CELLS implies r@.cells[q] == sc.cells[q] by {
            if q < cells0.len() {
                assert(r@.cells[q] == cells0.subrange(0, cells0.len() as int)[q]);
            }
        }
        assert(r@.cells =~= sc.cells);
        assert(r@ == sc);
    }
    r
}

/// The whole line grammar: an optional `650 GWF ` prefix, an empty or
/// whitespace-only remainder (a soft skip), or one JSON object holding
/// the record's members, with nothing but whitespace after it. The
/// decoded fields are then checked and combined by `spec_assemble`.
pub open spec fn spec_decode_line(
    s: Seq<u8>,
    arity: CellArity,
    window: Option<(u64, u64)>,
    id: Seq<u8>,
) -> Result<Option<CircuitV>, ConversionError> {
    let start: int = if spec_has_prefix(s) {
        8
    } else {
        0
    };
    let i0 = spec_ws(s, start);
    if i0 == s.len() {
        Ok(None)
    } else if s[i0] == 123 {
        let i1 = spec_ws(s, i0 + 1);
        if i1 < s.len() && s[i1] == 125 {
            if spec_ws(s, i1 + 1) == s.len() {
                spec_assemble(empty_fields(), window, id)
            } else {
                Err(ConversionError::MalformedInput)
            }
        } else {
            match spec_members(s, i1, empty_fields(), arity, s.len()) {
                Err(e) => Err(e),
                Ok((f, j)) => if spec_ws(s, j) == s.len() {
                    spec_assemble(f, window, id)
                } else {
                    Err(ConversionError::MalformedInput)
                },
            }
        }
    } else {
        Err(ConversionError::MalformedInput)
    }
}

/// Checks and combines decoded fields into a circuit.
fn assemble(f: Fields, window: Option<(u64, u64)>, id: &FixedAscii) -> (r: Result<
    Option<Circuit>,
    ConversionError,
>)
    requires
        id.wf(UUID_WIDTH as nat),
        fields_wf(f@),
    ensures
        ({
            let m = spec_assemble(f@, window, id@);
            match m {
                Ok(opt) => r matches Ok(ropt) && (match opt {
                    Some(cv) => ropt matches Some(c) && c@ == cv && c.wf(),
                    None => ropt is None,
                }),
                Err(e) => r matches Err(e2) && e2 == e,
            }
        }),
{
    let domain = match f.domain {
        Some(v) => v,
        None => {
            return Err(ConversionError::MalformedInput);
        },
    };
    let suffix = match f.suffix {
        Some(v) => v,
        None => {
            return Err(ConversionError::MalformedInput);
        },
    };
    let port = match f.port {
        Some(v) => v,
        None => {
            return Err(ConversionError::MalformedInput);
        },
    };
    let cells = match f.cells {
        Some(v) => v,
        None => {
            return Err(ConversionError::MalformedInput);
        },
    };
    if port > 65535 {
        return Err(ConversionError::MalformedInput);
    }
    if cells.len() > CIRCUIT_CELLS {
        return Err(ConversionError::MalformedInput);
    }
    match window {
        Some((mn, mx)) => {
            let t = match f.time_created {
                Some(v) => v,
                None => {
                    return Err(ConversionError::MalformedInput);
                },
            };
            if t < mn || t > mx {
                return Ok(None);
            }
            let day = (t - mn) / NANOS_PER_DAY + 1;
            if day > 255 {
                return Err(ConversionError::MalformedInput);
            }
            Ok(Some(make_circuit(id, &domain, &suffix, day as u8, port as u16, cells)))
        },
        None => {
            let day = match f.day {
                Some(v) => v,
                None => 0,
            };
            if day > 255 {
                return Err(ConversionError::MalformedInput);
            }
            Ok(Some(make_circuit(id, &domain, &suffix, day as u8, port as u16, cells)))
        },
    }
}

/// Decodes one input line into a circuit record.
///
/// The line is an optional `650 GWF ` prefix followed by one JSON object
/// with the members `domain`, `shortest_private_suffix` (a string or
/// null), `port`, `cells`, and optionally `day` and `time_created`; an
/// empty or whitespace-only line decodes to nothing. The caller supplies
/// the cell arity of the input schema, an optional closed time window in
/// nanoseconds, and the fresh unique identifier to assign. The result is
/// exactly what the line grammar `spec_decode_line` prescribes: a
/// well-formed circuit carrying the given identifier, a soft skip, or
/// the grammar's error.
pub fn decode_line(
    line: &Vec<u8>,
    arity: CellArity,
    window: Option<(u64, u64)>,
    id: &FixedAscii,
) -> (r: Result<Option<Circuit>, ConversionError>)
    requires
        id.wf(UUID_WIDTH as nat),
        !id.spec_is_empty(),
    ensures
        ({
            let m = spec_decode_line(line@, arity, window, id@);
            match m {
                Ok(opt) => r matches Ok(ropt) && (match opt {
                    Some(cv) => ropt matches Some(c) && c@ == cv && c.wf() && c@.uuid == id@,
                    None => ropt is None,
                }),
                Err(e) => r matches Err(e2) && e2 == e,
            }
        }),
{
    let start: usize = if has_prefix(line) {
        8
    } else {
        0
    };
    let i0 = skip_ws(line, start);
    if i0 == line.len() {
        return Ok(None);
    }
    if line[i0] != 123 {
        return Err(ConversionError::MalformedInput);
    }
    let i1 = skip_ws(line, i0 + 1);
    if i1 < line.len() && line[i1] == 125 {
        if skip_ws(line, i1 + 1) == line.len() {
            return assemble(Fields::new(), window, id);
        }
        return Err(ConversionError::MalformedInput);
    }
    match parse_members(line, i1, Fields::new(), arity, line.len()) {
        Err(e) => Err(e),
        Ok((f, j)) => {
            if skip_ws(line, j) == line.len() {
                assemble(f, window, id)
            } else {
                Err(ConversionError::MalformedInput)
            }
        },
    }
}

} // verus!

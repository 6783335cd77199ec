//! Wire codec: encoding a `(part, total, payload)` triple into the byte
//! string stored at one physical entry, and decoding it back.
//!
//! A frame is the ASCII header `"{part}/{total}"`, one `|` byte, then the raw
//! payload. The payload may contain any byte, `|` included: the delimiter is
//! located by its first occurrence from the left, and the header holds only
//! ASCII digits and one `/`, so the first `|` is unambiguous.

use vstd::prelude::*;

use vstd::arithmetic::div_mod::{lemma_fundamental_div_mod, lemma_mod_bound};

use crate::{Corruption, Error};

verus! {

/// The `|` byte that ends the frame header.
pub const SEPARATOR: u8 = 124;

/// The `/` byte between the part and total fields of the header.
pub const SLASH: u8 = 47;

/// The byte is an ASCII decimal digit.
pub open spec fn is_digit_byte(b: u8) -> bool {
    48 <= b <= 57
}

/// The decimal digits of `n`, most significant first, as ASCII bytes.
pub open spec fn dec_digits(n: int) -> Seq<u8>
    recommends
        n >= 0,
    decreases n,
{
    if n < 10 {
        seq![(48 + n) as u8]
    } else {
        dec_digits(n / 10).push((48 + n % 10) as u8)
    }
}

/// The value of a sequence of ASCII digit bytes, read as a base-10 number.
pub open spec fn digits_val(s: Seq<u8>) -> int
    recommends
        all_digits(s),
    decreases s.len(),
{
    if s.len() == 0 {
        0
    } else {
        digits_val(s.drop_last()) * 10 + (s.last() - 48)
    }
}

/// Every byte of `s` is an ASCII decimal digit.
pub open spec fn all_digits(s: Seq<u8>) -> bool {
    forall|i: int| 0 <= i < s.len() ==> is_digit_byte(s[i])
}

/// `s` parses as a base-10 unsigned integer that fits in `usize`: non-empty,
/// digits only, no extraneous characters.
pub open spec fn field_ok(s: Seq<u8>) -> bool {
    s.len() > 0 && all_digits(s) && digits_val(s) <= usize::MAX
}

/// Index of the first occurrence of `b` in `s`, if any.
pub open spec fn find_byte(s: Seq<u8>, b: u8) -> Option<int>
    decreases s.len(),
{
    if s.len() == 0 {
        None
    } else if s[0] == b {
        Some(0int)
    } else {
        match find_byte(s.drop_first(), b) {
            Some(i) => Some(i + 1),
            None => None,
        }
    }
}

/// The frame that encodes `payload` as part `part` of `total`.
pub open spec fn spec_encode(part: int, total: int, payload: Seq<u8>) -> Seq<u8> {
    dec_digits(part) + seq![SLASH] + dec_digits(total) + seq![SEPARATOR] + payload
}

/// What decoding a frame yields: the `(part, total, payload)` triple, or the
/// exact way in which the frame violates the wire format. Everything before
/// the first `|` is the header; everything after it is the payload. The
/// header must split at its first `/` into two base-10 unsigned fields with
/// `1 <= part <= total`.
pub open spec fn spec_decode(frame: Seq<u8>) -> Result<(int, int, Seq<u8>), Corruption> {
    match find_byte(frame, SEPARATOR) {
        None => Err(Corruption::MissingSeparator),
        Some(sep) => {
            let header = frame.subrange(0, sep);
            let payload = frame.subrange(sep + 1, frame.len() as int);
            match find_byte(header, SLASH) {
                None => Err(Corruption::MissingSlash),
                Some(slash) => {
                    let left = header.subrange(0, slash);
                    let right = header.subrange(slash + 1, header.len() as int);
                    if !field_ok(left) {
                        Err(Corruption::BadPartNumber)
                    } else if !field_ok(right) {
                        Err(Corruption::BadTotalNumber)
                    } else {
                        let part = digits_val(left);
                        let total = digits_val(right);
                        if part == 0 || part > total {
                            Err(
                                (Corruption::PartOutOfRange {
                                    part: part as usize,
                                    total: total as usize,
                                }),
                            )
                        } else {
                            Ok((part, total, payload))
                        }
                    }
                },
            }
        },
    }
}

/// Appends the decimal digits of `n` to `out`.
fn push_decimal(out: &mut Vec<u8>, n: usize)
    ensures
        final(out)@ == old(out)@ + dec_digits(n as int),
    decreases n,
{
    if n < 10 {
        out.push(48 + n as u8);
        assert(out@ =~= old(out)@ + dec_digits(n as int));
    } else {
        push_decimal(out, n / 10);
        out.push(48 + (n % 10) as u8);
        assert(out@ =~= old(out)@ + dec_digits(n as int));
    }
}

/// Encode a chunk with its part metadata.
/// Format: `"{part}/{total}|{payload}"`.
pub fn encode_part(part: usize, total: usize, data: &[u8]) -> (r: Vec<u8>)
    ensures
        r@ == spec_encode(part as int, total as int, data@),
{
    let mut result: Vec<u8> = Vec::new();
    push_decimal(&mut result, part);
    result.push(SLASH);
    push_decimal(&mut result, total);
    result.push(SEPARATOR);
    result.extend_from_slice(data);
    assert(result@ =~= spec_encode(part as int, total as int, data@));
    result
}

/// `find_byte` returns the position of the first hit.
proof fn lemma_find_byte_some(s: Seq<u8>, b: u8, i: int)
    requires
        0 <= i < s.len(),
        s[i] == b,
        forall|j: int| 0 <= j < i ==> s[j] != b,
    ensures
        find_byte(s, b) == Some(i),
    decreases i,
{
    if i > 0 {
        assert(forall|j: int| 0 <= j < i - 1 ==> s.drop_first()[j] != b);
        lemma_find_byte_some(s.drop_first(), b, i - 1);
    }
}

/// `find_byte` finds nothing in a sequence without the byte.
proof fn lemma_find_byte_none(s: Seq<u8>, b: u8)
    requires
        forall|j: int| 0 <= j < s.len() ==> s[j] != b,
    ensures
        find_byte(s, b) is None,
    decreases s.len(),
{
    if s.len() > 0 {
        lemma_find_byte_none(s.drop_first(), b);
    }
}

/// Index of the first occurrence of `b` in `data`, scanning from the left.
fn find_byte_at(data: &[u8], b: u8) -> (r: Option<usize>)
    ensures
        match r {
            Some(i) => i < data@.len() && data@[i as int] == b && find_byte(data@, b) == Some(
                i as int,
            ),
            None => find_byte(data@, b) is None,
        },
{
    let len = data.len();
    let mut i: usize = 0;
    while i < len
        invariant
            0 <= i <= len == data@.len(),
            forall|j: int| 0 <= j < i ==> data@[j] != b,
        decreases len - i,
    {
        if data[i] == b {
            proof {
                lemma_find_byte_some(data@, b, i as int);
            }
            return Some(i);
        }
        i += 1;
    }
    proof {
        lemma_find_byte_none(data@, b);
    }
    None
}

/// The value of a run of digits only grows as the run is extended.
proof fn lemma_digits_val_prefix_le(s: Seq<u8>, n: int)
    requires
        0 <= n <= s.len(),
        all_digits(s),
    ensures
        digits_val(s.subrange(0, n)) <= digits_val(s.subrange(0, s.len() as int)),
        digits_val(s.subrange(0, n)) >= 0,
    decreases s.len() - n,
{
    if n == s.len() {
        lemma_digits_val_nonneg(s.subrange(0, n));
    } else {
        lemma_digits_val_prefix_le(s, n + 1);
        assert(s.subrange(0, n + 1).drop_last() =~= s.subrange(0, n));
        lemma_digits_val_nonneg(s.subrange(0, n));
    }
}

/// A run of digits has a non-negative value.
proof fn lemma_digits_val_nonneg(s: Seq<u8>)
    requires
        all_digits(s),
    ensures
        digits_val(s) >= 0,
    decreases s.len(),
{
    if s.len() > 0 {
        assert(all_digits(s.drop_last()));
        lemma_digits_val_nonneg(s.drop_last());
    }
}

/// Parses `data[start..end]` as a base-10 unsigned integer. Returns `None`
/// exactly when the range is empty, holds a non-digit, or encodes a value
/// over `usize::MAX`.
fn parse_field(data: &[u8], start: usize, end: usize) -> (r: Option<usize>)
    requires
        start <= end <= data@.len(),
    ensures
        r is Some <==> field_ok(data@.subrange(start as int, end as int)),
        r matches Some(v) ==> v as int == digits_val(data@.subrange(start as int, end as int)),
{
    let ghost field = data@.subrange(start as int, end as int);
    if start == end {
        return None;
    }
    let mut acc: usize = 0;
    let mut i: usize = start;
    while i < end
        invariant
            start <= i <= end <= data@.len(),
            field == data@.subrange(start as int, end as int),
            all_digits(data@.subrange(start as int, i as int)),
            acc as int == digits_val(data@.subrange(start as int, i as int)),
        decreases end - i,
    {
        let b = data[i];
        if b < 48 || b > 57 {
            proof {
                assert(field[i - start] == b);
                assert(!all_digits(field));
            }
            return None;
        }
        let d = (b - 48) as usize;
        if acc > (usize::MAX - d) / 10 {
            proof {
                let upto = data@.subrange(start as int, (i + 1) as int);
                assert(upto.drop_last() =~= data@.subrange(start as int, i as int));
                assert(upto.last() == b);
                assert(digits_val(upto) == acc * 10 + d);
                assert(acc * 10 + d > usize::MAX);
                if all_digits(field) {
                    assert(upto =~= field.subrange(0, i + 1 - start));
                    lemma_digits_val_prefix_le(field, i + 1 - start);
                    assert(field.subrange(0, field.len() as int) =~= field);
                    assert(digits_val(field) > usize::MAX);
                }
            }
            return None;
        }
        proof {
            let upto = data@.subrange(start as int, (i + 1) as int);
            assert(upto.drop_last() =~= data@.subrange(start as int, i as int));
            assert(upto.last() == b);
        }
        acc = acc * 10 + d;
        i += 1;
    }
    proof {
        assert(field =~= data@.subrange(start as int, i as int));
    }
    Some(acc)
}

/// The decimal digits of a non-negative number: at least one byte, and
/// nothing but ASCII digits.
proof fn lemma_dec_digits_are_digits(n: int)
    requires
        n >= 0,
    ensures
        all_digits(dec_digits(n)),
        dec_digits(n).len() >= 1,
    decreases n,
{
    if n < 10 {
        assert(is_digit_byte(dec_digits(n)[0]));
    } else {
        lemma_dec_digits_are_digits(n / 10);
        let pre = dec_digits(n / 10);
        let s = dec_digits(n);
        assert forall|i: int| 0 <= i < s.len() implies is_digit_byte(s[i]) by {
            if i < pre.len() {
                assert(s[i] == pre[i]);
            } else {
                assert(s[i] == (48 + n % 10) as u8);
            }
        }
    }
}

/// Reading the decimal digits of `n` back as a number yields `n`.
proof fn lemma_dec_digits_val(n: int)
    requires
        n >= 0,
    ensures
        digits_val(dec_digits(n)) == n,
    decreases n,
{
    if n < 10 {
        let s = dec_digits(n);
        assert(s.len() == 1);
        assert(s.last() == (48 + n) as u8);
        assert(s.drop_last() =~= Seq::<u8>::empty());
        assert(digits_val(s.drop_last()) == 0);
    } else {
        lemma_dec_digits_val(n / 10);
        lemma_mod_bound(n, 10);
        let pre = dec_digits(n / 10);
        let s = dec_digits(n);
        assert(s == pre.push((48 + n % 10) as u8));
        assert(s.len() == pre.len() + 1);
        assert(s.drop_last() =~= pre);
        assert(s.last() == (48 + n % 10) as u8);
        assert(digits_val(s) == digits_val(pre) * 10 + (n % 10));
        lemma_fundamental_div_mod(n, 10);
    }
}

/// What decoding an encoded frame yields, for any part and total: the
/// encoded triple where `1 <= part <= total`, and a rejection where the part
/// is zero or exceeds the total.
proof fn lemma_encode_structure(part: int, total: int, payload: Seq<u8>)
    requires
        0 <= part <= usize::MAX,
        0 <= total <= usize::MAX,
    ensures
        spec_decode(spec_encode(part, total, payload)) == (if part == 0 || part > total {
            Err::<(int, int, Seq<u8>), Corruption>(
                (Corruption::PartOutOfRange { part: part as usize, total: total as usize }),
            )
        } else {
            Ok::<(int, int, Seq<u8>), Corruption>((part, total, payload))
        }),
{
    let dp = dec_digits(part);
    let dt = dec_digits(total);
    let frame = spec_encode(part, total, payload);
    lemma_dec_digits_are_digits(part);
    lemma_dec_digits_are_digits(total);
    lemma_dec_digits_val(part);
    lemma_dec_digits_val(total);
    let l1 = dp.len() as int;
    let l2 = dt.len() as int;
    let sep = l1 + 1 + l2;
    assert(frame.len() == l1 + 1 + l2 + 1 + payload.len());
    assert(frame[sep] == SEPARATOR);
    assert forall|j: int| 0 <= j < sep implies frame[j] != SEPARATOR by {
        if j < l1 {
            assert(frame[j] == dp[j]);
            assert(is_digit_byte(dp[j]));
        } else if j == l1 {
            assert(frame[j] == SLASH);
        } else {
            assert(frame[j] == dt[j - l1 - 1]);
            assert(is_digit_byte(dt[j - l1 - 1]));
        }
    }
    lemma_find_byte_some(frame, SEPARATOR, sep);
    let header = frame.subrange(0, sep);
    assert(header =~= dp + seq![SLASH] + dt);
    assert(header[l1] == SLASH);
    assert forall|j: int| 0 <= j < l1 implies header[j] != SLASH by {
        assert(header[j] == dp[j]);
        assert(is_digit_byte(dp[j]));
    }
    lemma_find_byte_some(header, SLASH, l1);
    let left = header.subrange(0, l1);
    assert(left =~= dp);
    let right = header.subrange(l1 + 1, header.len() as int);
    assert(right =~= dt);
    assert(field_ok(left));
    assert(field_ok(right));
    assert(frame.subrange(sep + 1, frame.len() as int) =~= payload);
}

/// Round-trip law of the wire codec: for every part and total with
/// `1 <= part <= total` and every payload — empty, binary, embedded `|`
/// bytes included — decoding the encoded frame yields exactly the encoded
/// triple.
pub proof fn lemma_encode_decode_round_trip(part: int, total: int, payload: Seq<u8>)
    requires
        1 <= part <= total <= usize::MAX,
    ensures
        spec_decode(spec_encode(part, total, payload)) == Ok::<(int, int, Seq<u8>), Corruption>(
            (part, total, payload),
        ),
{
    lemma_encode_structure(part, total, payload);
}

/// Decode never accepts a header whose part number lies outside
/// `1..=total`: a frame tagged with part zero, or with a part beyond its
/// total, is rejected whatever its payload.
pub proof fn lemma_decode_rejects_part_out_of_range(part: int, total: int, payload: Seq<u8>)
    requires
        0 <= part <= usize::MAX,
        0 <= total <= usize::MAX,
        part == 0 || part > total,
    ensures
        spec_decode(spec_encode(part, total, payload)) == Err::<(int, int, Seq<u8>), Corruption>(
            (Corruption::PartOutOfRange { part: part as usize, total: total as usize }),
        ),
{
    lemma_encode_structure(part, total, payload);
}

/// Decode never accepts a frame without the `|` separator.
pub proof fn lemma_decode_rejects_missing_separator(frame: Seq<u8>)
    requires
        forall|j: int| 0 <= j < frame.len() ==> frame[j] != SEPARATOR,
    ensures
        spec_decode(frame) == Err::<(int, int, Seq<u8>), Corruption>(Corruption::MissingSeparator),
{
    lemma_find_byte_none(frame, SEPARATOR);
}

/// Decode a chunk, extracting part number, total parts, and payload.
/// Returns `(part, total, payload)`, or [`Error::CorruptedSecret`] naming the
/// first violation of the wire format.
pub fn decode_part(data: &[u8]) -> (r: Result<(usize, usize, Vec<u8>), Error>)
    ensures
        match spec_decode(data@) {
            Ok((p, t, pl)) => r matches Ok(v) && v.0 as int == p && v.1 as int == t && v.2@ == pl,
            Err(c) => r matches Err(e) && e matches Error::CorruptedSecret(cc) && cc == c,
        },
{
    let sep = match find_byte_at(data, SEPARATOR) {
        Some(i) => i,
        None => {
            return Err(Error::CorruptedSecret(Corruption::MissingSeparator));
        },
    };
    let header: &[u8] = &data[0..sep];
    assert(header@ =~= data@.subrange(0, sep as int));
    let slash = match find_byte_at(header, SLASH) {
        Some(i) => i,
        None => {
            return Err(Error::CorruptedSecret(Corruption::MissingSlash));
        },
    };
    let part = match parse_field(header, 0, slash) {
        Some(v) => v,
        None => {
            return Err(Error::CorruptedSecret(Corruption::BadPartNumber));
        },
    };
    let total = match parse_field(header, slash + 1, header.len()) {
        Some(v) => v,
        None => {
            return Err(Error::CorruptedSecret(Corruption::BadTotalNumber));
        },
    };
    if part == 0 || part > total {
        return Err(Error::CorruptedSecret(Corruption::PartOutOfRange { part, total }));
    }
    let dlen = data.len();
    assert(sep < dlen);
    let mut payload: Vec<u8> = Vec::new();
    payload.extend_from_slice(&data[sep + 1..dlen]);
    assert(payload@ =~= data@.subrange(sep + 1, data@.len() as int));
    Ok((part, total, payload))
}

} // verus!

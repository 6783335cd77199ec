//! The logical entry: set, get and delete of an arbitrary-length secret over
//! a named `(service, user)` identity.
//!
//! A write splits the secret into chunks, frames each chunk with the wire
//! codec, and stores the frames in descending part order, so that part 1 —
//! the first entry a reader consults — is written last and acts as a commit
//! marker. A read decodes part 1 to learn the part count, reads the remaining
//! frames, and reassembles them with [`assemble_frames`], which validates
//! every frame against its position and the advertised total. A delete learns
//! the part count from part 1 and removes parts in descending order, so the
//! commit marker goes away first.

use vstd::prelude::*;

use vstd::arithmetic::mul::lemma_mul_inequality;
use vstd::utf8::{decode_utf8, valid_utf8};

use crate::chunk::{
    chunks_needed, lemma_chunks_needed_bounds, max_chunk_size, spec_chunks_needed,
    spec_max_chunk_size,
};
use crate::format::{
    decode_part, encode_part, lemma_encode_decode_round_trip, spec_decode, spec_encode,
};
use crate::store;
use crate::{Corruption, Error};

verus! {

/// An entry in the credential store that can hold secrets of any size.
///
/// Large secrets are automatically split across multiple underlying store
/// entries. Small secrets use a single entry with minimal overhead.
#[derive(Debug, Clone)]
pub struct Entry {
    service: String,
    user: String,
}

/// The slice of `data` carried by the 1-indexed `part` when `data` is split
/// into chunks of `chunk_size` bytes.
pub open spec fn spec_chunk(data: Seq<u8>, part: int, chunk_size: int) -> Seq<u8>
    recommends
        1 <= part,
        1 <= chunk_size,
{
    let start = (part - 1) * chunk_size;
    let end = if part * chunk_size < data.len() {
        part * chunk_size
    } else {
        data.len() as int
    };
    data.subrange(start, end)
}

/// Start offset of the chunk that follows the first `i` chunks of a payload
/// of `len` bytes, capped at the payload's end.
pub open spec fn spec_chunk_start(len: int, i: int, chunk_size: int) -> int {
    if i * chunk_size < len {
        i * chunk_size
    } else {
        len
    }
}

/// The frames that a write of `data` stores: part `i + 1` carries the `i`-th
/// chunk, tagged with its part number and the total chunk count.
pub open spec fn spec_frames_for(data: Seq<u8>) -> Seq<Seq<u8>> {
    let total = spec_chunks_needed(data.len() as int);
    Seq::new(
        total as nat,
        |i: int|
            spec_encode(i + 1, total, spec_chunk(data, i + 1, spec_max_chunk_size())),
    )
}

/// The views of the byte vectors of `frames`.
pub open spec fn seq_views(frames: Seq<Vec<u8>>) -> Seq<Seq<u8>> {
    Seq::new(frames.len(), |i: int| frames[i]@)
}

/// What reassembling the frames of parts `i + 1 ..= frames.len()` yields,
/// once the frames of parts `1..=i` were found consistent: the concatenation
/// of the remaining payloads, or the first violation. A frame is consistent
/// when it decodes, carries the part number of the position it was stored
/// under, and advertises `frames.len()` as its total.
pub open spec fn spec_assemble_from(frames: Seq<Seq<u8>>, i: int) -> Result<Seq<u8>, Corruption>
    recommends
        0 <= i <= frames.len() <= usize::MAX,
    decreases frames.len() - i,
{
    if i < 0 || i >= frames.len() {
        Ok(Seq::empty())
    } else {
        match spec_decode(frames[i]) {
            Err(c) => Err(c),
            Ok((p, t, pl)) => {
                if p != i + 1 {
                    Err(
                        (Corruption::WrongPart {
                            expected: (i + 1) as usize,
                            found: p as usize,
                        }),
                    )
                } else if t != frames.len() {
                    Err(
                        (Corruption::WrongTotal {
                            expected: frames.len() as usize,
                            found: t as usize,
                        }),
                    )
                } else {
                    match spec_assemble_from(frames, i + 1) {
                        Ok(rest) => Ok(pl + rest),
                        Err(c) => Err(c),
                    }
                }
            },
        }
    }
}

/// What reassembling a full set of frames yields: the logical secret, or the
/// first violation of the chunking protocol.
pub open spec fn spec_assemble(frames: Seq<Seq<u8>>) -> Result<Seq<u8>, Corruption> {
    spec_assemble_from(frames, 0)
}

/// Reassembling the frames of parts `i + 1 ..=total` of a written secret
/// yields the secret's bytes from the `i`-th chunk boundary on.
proof fn lemma_assemble_frames_for(data: Seq<u8>, i: int)
    requires
        data.len() <= usize::MAX,
        spec_chunks_needed(data.len() as int) <= usize::MAX,
        0 <= i <= spec_chunks_needed(data.len() as int),
    ensures
        spec_assemble_from(spec_frames_for(data), i) == Ok::<Seq<u8>, Corruption>(
            data.subrange(
                spec_chunk_start(data.len() as int, i, spec_max_chunk_size()),
                data.len() as int,
            ),
        ),
    decreases spec_chunks_needed(data.len() as int) - i,
{
    let len = data.len() as int;
    let c = spec_max_chunk_size();
    let total = spec_chunks_needed(len);
    let frames = spec_frames_for(data);
    lemma_chunks_needed_bounds(len);
    if i == total {
        assert(spec_chunk_start(len, i, c) == len);
        assert(data.subrange(len, len) =~= Seq::<u8>::empty());
    } else {
        let chunk = spec_chunk(data, i + 1, c);
        assert(frames[i] == spec_encode(i + 1, total, chunk));
        lemma_encode_decode_round_trip(i + 1, total, chunk);
        lemma_assemble_frames_for(data, i + 1);
        let s0 = spec_chunk_start(len, i, c);
        let s1 = spec_chunk_start(len, i + 1, c);
        lemma_mul_inequality(i, i + 1, c);
        if len > 0 {
            lemma_mul_inequality(i, total - 1, c);
            assert(i * c <= (total - 1) * c);
            assert((total - 1) * c < len);
            assert(i * c < len);
        } else {
            assert(total == 1 && i == 0);
            assert(i * c == 0) by (nonlinear_arith)
                requires
                    i == 0,
            ;
        }
        assert(s0 == i * c);
        assert(chunk == data.subrange(s0, s1));
        assert(data.subrange(s0, s1) + data.subrange(s1, len) =~= data.subrange(s0, len));
        assert(spec_assemble_from(frames, i) == Ok::<Seq<u8>, Corruption>(
            data.subrange(s0, len),
        ));
    }
}

/// Round trip of splitting and reassembly: encoding a secret's chunks as
/// frames and reassembling those frames yields exactly the original secret.
/// A read that finds the frames a write stored, unchanged, returns the
/// written bytes, whatever their length or content.
pub proof fn lemma_split_reassemble_round_trip(data: Seq<u8>)
    requires
        data.len() <= usize::MAX,
    ensures
        spec_assemble(spec_frames_for(data)) == Ok::<Seq<u8>, Corruption>(data),
{
    let len = data.len() as int;
    let c = spec_max_chunk_size();
    let total = spec_chunks_needed(len);
    lemma_chunks_needed_bounds(len);
    if len > 0 {
        lemma_mul_inequality(1, c, total - 1);
        assert(total <= len);
    }
    lemma_assemble_frames_for(data, 0);
    assert(spec_chunk_start(len, 0, c) == 0);
    assert(data.subrange(0, len) =~= data);
}

/// Reassemble a logical secret from the stored frames of its parts, where
/// `frames[i]` was read from part `i + 1` and the set claims to be complete.
/// Each frame is decoded and checked against its position and against the
/// part count the set was read under; the payloads are concatenated in part
/// order.
pub fn assemble_frames(frames: &Vec<Vec<u8>>) -> (r: Result<Vec<u8>, Error>)
    ensures
        match spec_assemble(seq_views(frames@)) {
            Ok(out) => r matches Ok(v) && v@ == out,
            Err(c) => r matches Err(e) && e matches Error::CorruptedSecret(cc) && cc == c,
        },
{
    let ghost views = seq_views(frames@);
    let total = frames.len();
    let mut out: Vec<u8> = Vec::new();
    let mut i: usize = 0;
    assert(spec_assemble_from(views, 0) matches Ok(rest) ==> out@ + rest =~= rest);
    while i < total
        invariant
            0 <= i <= total == frames@.len(),
            views == seq_views(frames@),
            spec_assemble(views) == (match spec_assemble_from(views, i as int) {
                Ok(rest) => Ok::<Seq<u8>, Corruption>(out@ + rest),
                Err(c) => Err::<Seq<u8>, Corruption>(c),
            }),
        decreases total - i,
    {
        let frame = &frames[i];
        assert(frame@ == views[i as int]);
        let (p, t, payload) = match decode_part(frame.as_slice()) {
            Ok(v) => v,
            Err(e) => {
                return Err(e);
            },
        };
        if p != i + 1 {
            return Err(Error::CorruptedSecret(Corruption::WrongPart { expected: i + 1, found: p }));
        }
        if t != total {
            return Err(Error::CorruptedSecret(Corruption::WrongTotal { expected: total, found: t }));
        }
        proof {
            assert(spec_assemble_from(views, i as int) == (match spec_assemble_from(
                views,
                i as int + 1,
            ) {
                Ok(rest) => Ok::<Seq<u8>, Corruption>(payload@ + rest),
                Err(c) => Err::<Seq<u8>, Corruption>(c),
            }));
        }
        let ghost out_old = out@;
        out.extend_from_slice(payload.as_slice());
        i += 1;
        proof {
            assert(out@ == out_old + payload@);
            match spec_assemble_from(views, i as int) {
                Ok(rest) => {
                    assert(spec_assemble_from(views, i as int - 1) == Ok::<Seq<u8>, Corruption>(
                        payload@ + rest,
                    ));
                    assert(out_old + (payload@ + rest) =~= out@ + rest);
                    assert(spec_assemble(views) == Ok::<Seq<u8>, Corruption>(out@ + rest));
                },
                Err(c) => {
                    assert(spec_assemble_from(views, i as int - 1) == Err::<Seq<u8>, Corruption>(c));
                    assert(spec_assemble(views) == Err::<Seq<u8>, Corruption>(c));
                },
            }
        }
    }
    proof {
        assert(spec_assemble_from(views, i as int) == Ok::<Seq<u8>, Corruption>(Seq::empty()));
        assert(out@ + Seq::<u8>::empty() =~= out@);
    }
    Ok(out)
}

/// The ASCII character of the decimal digit `d`.
pub open spec fn digit_char(d: int) -> char
    recommends
        0 <= d <= 9,
{
    if d == 0 {
        '0'
    } else if d == 1 {
        '1'
    } else if d == 2 {
        '2'
    } else if d == 3 {
        '3'
    } else if d == 4 {
        '4'
    } else if d == 5 {
        '5'
    } else if d == 6 {
        '6'
    } else if d == 7 {
        '7'
    } else if d == 8 {
        '8'
    } else {
        '9'
    }
}

/// The decimal digits of `n`, most significant first, as characters.
pub open spec fn dec_digit_chars(n: int) -> Seq<char>
    recommends
        n >= 0,
    decreases n,
{
    if n < 10 {
        seq![digit_char(n)]
    } else {
        dec_digit_chars(n / 10).push(digit_char(n % 10))
    }
}

/// The physical sub-key naming convention: part `part` of the identity
/// `(service, user)` is stored under the user field `"{user}.{part}"`, with
/// the service field unchanged.
pub open spec fn spec_sub_key(user: Seq<char>, part: int) -> Seq<char> {
    user + seq!['.'] + dec_digit_chars(part)
}

/// The one-character string of the decimal digit `d`.
fn digit_str(d: usize) -> (s: &'static str)
    requires
        d < 10,
    ensures
        s@ == seq![digit_char(d as int)],
{
    proof {
        reveal_strlit("0");
        reveal_strlit("1");
        reveal_strlit("2");
        reveal_strlit("3");
        reveal_strlit("4");
        reveal_strlit("5");
        reveal_strlit("6");
        reveal_strlit("7");
        reveal_strlit("8");
        reveal_strlit("9");
    }
    let s = match d {
        0 => "0",
        1 => "1",
        2 => "2",
        3 => "3",
        4 => "4",
        5 => "5",
        6 => "6",
        7 => "7",
        8 => "8",
        _ => "9",
    };
    assert(s@ =~= seq![digit_char(d as int)]);
    s
}

/// Appends the decimal digits of `n` to `out`.
fn append_decimal(out: &mut String, n: usize)
    ensures
        final(out)@ == old(out)@ + dec_digit_chars(n as int),
    decreases n,
{
    if n < 10 {
        out.append(digit_str(n));
        assert(out@ =~= old(out)@ + dec_digit_chars(n as int));
    } else {
        append_decimal(out, n / 10);
        out.append(digit_str(n % 10));
        assert(out@ =~= old(out)@ + dec_digit_chars(n as int));
    }
}

/// Extract the advertised total from one stored frame.
fn frame_total(data: &[u8]) -> (r: Result<usize, Error>)
    ensures
        match spec_decode(data@) {
            Ok((p, t, pl)) => r matches Ok(v) && v as int == t,
            Err(c) => r matches Err(e) && e matches Error::CorruptedSecret(cc) && cc == c,
        },
{
    match decode_part(data) {
        Ok((_part, total, _payload)) => Ok(total),
        Err(e) => Err(e),
    }
}

/// Build the frame stored for `part`: the part's chunk of `secret`, framed
/// with its part number and the total chunk count. The result is exactly the
/// frame that the split/reassemble round-trip law speaks of.
fn frame_for_part(secret: &[u8], part: usize, total: usize, chunk_size: usize) -> (r: Vec<u8>)
    requires
        chunk_size == spec_max_chunk_size(),
        total == spec_chunks_needed(secret@.len() as int),
        1 <= part <= total,
    ensures
        r@ == spec_frames_for(secret@)[part - 1],
{
    let slen = secret.len();
    let ghost len = secret@.len() as int;
    proof {
        lemma_chunks_needed_bounds(len);
        if len > 0 {
            lemma_mul_inequality(part - 1, total - 1, chunk_size as int);
            if part < total {
                lemma_mul_inequality(part as int, total - 1, chunk_size as int);
            }
        } else {
            assert(total == 1 && part == 1);
        }
        lemma_mul_inequality(part - 1, part as int, chunk_size as int);
    }
    let start = (part - 1) * chunk_size;
    let end = if part == total {
        slen
    } else {
        part * chunk_size
    };
    proof {
        if part == total {
            if len > 0 {
                assert((part - 1) * (chunk_size as int) < len);
                assert(end == slen);
                assert(start as int == (part - 1) * (chunk_size as int));
            } else {
                assert(part == 1 && slen == 0);
                assert((part - 1) * (chunk_size as int) == 0) by (nonlinear_arith)
                    requires
                        part == 1,
                ;
                assert(start == 0 && end == 0);
            }
        } else {
            assert((part - 1) * (chunk_size as int) <= (part as int) * (chunk_size as int));
            assert(start as int == (part - 1) * (chunk_size as int));
            assert(end as int == (part as int) * (chunk_size as int));
        }
    }
    let chunk = &secret[start..end];
    assert(chunk@ == spec_chunk(secret@, part as int, chunk_size as int));
    encode_part(part, total, chunk)
}

/// Relies on `String::from_utf8`: it succeeds exactly on valid UTF-8 input,
/// and the characters of the result are the decoding of the input bytes.
#[verifier::external_body]
fn string_from_utf8(bytes: Vec<u8>) -> (r: Option<String>)
    ensures
        r is Some <==> valid_utf8(bytes@),
        r matches Some(s) ==> s@ == decode_utf8(bytes@),
{
    String::from_utf8(bytes).ok()
}

impl Entry {
    /// The service field of the identity this entry names.
    pub closed spec fn spec_service(&self) -> Seq<char> {
        self.service@
    }

    /// The user field of the identity this entry names.
    pub closed spec fn spec_user(&self) -> Seq<char> {
        self.user@
    }

    /// The user field of the physical sub-key that stores the given part:
    /// `"{user}.{part}"`.
    fn sub_key(&self, part: usize) -> (s: String)
        ensures
            s@ == spec_sub_key(self.spec_user(), part as int),
    {
        let mut s = self.user.clone();
        proof {
            reveal_strlit(".");
        }
        s.append(".");
        append_decimal(&mut s, part);
        assert(s@ =~= spec_sub_key(self.spec_user(), part as int));
        s
    }

    /// Create a new entry for the given service and user. Fails with
    /// [`Error::InvalidArgument`] exactly when either field is empty.
    pub fn new(service: &str, user: &str) -> (r: Result<Self, Error>)
        ensures
            match r {
                Ok(e) => service@.len() > 0 && user@.len() > 0 && e.spec_service() == service@
                    && e.spec_user() == user@,
                Err(err) => (service@.len() == 0 || user@.len() == 0) && err is InvalidArgument,
            },
    {
        if service.is_empty() {
            return Err(Error::InvalidArgument("service cannot be empty".to_owned()));
        }
        if user.is_empty() {
            return Err(Error::InvalidArgument("user cannot be empty".to_owned()));
        }
        Ok(Entry { service: service.to_owned(), user: user.to_owned() })
    }

    /// Store a password (UTF-8 string) in the credential store.
    pub fn set_password(&self, password: &str) -> (r: Result<(), Error>)
        ensures
            r matches Err(e) ==> e is StoreFailure || e is NotFound || e is CorruptedSecret,
    {
        self.set_secret(password.as_bytes())
    }

    /// Retrieve a password (UTF-8 string) from the credential store. Fails
    /// with [`Error::BadEncoding`] when the reassembled bytes are not valid
    /// UTF-8.
    pub fn get_password(&self) -> (r: Result<String, Error>)
        ensures
            r matches Err(e) ==> e is StoreFailure || e is NotFound || e is CorruptedSecret
                || e is BadEncoding,
    {
        let secret = match self.get_secret() {
            Ok(s) => s,
            Err(e) => {
                return Err(e);
            },
        };
        match string_from_utf8(secret) {
            Some(s) => Ok(s),
            None => Err(Error::BadEncoding),
        }
    }

    /// Store binary data in the credential store.
    ///
    /// Any prior version is erased first, so no stale higher-numbered parts
    /// survive a shrink. The data is split into `chunks_needed` chunks, and
    /// the frames are written in descending part order: part 1 is written
    /// last, so an interrupted write leaves either no part 1 (a reader sees
    /// "no entry") or a part 1 consistent with every higher part.
    pub fn set_secret(&self, secret: &[u8]) -> (r: Result<(), Error>)
        ensures
            r matches Err(e) ==> e is StoreFailure || e is NotFound || e is CorruptedSecret,
    {
        // First, clean up any existing parts
        match self.delete_credential() {
            Ok(()) => {},
            Err(e) => {
                return Err(e);
            },
        }
        let chunk_size = max_chunk_size();
        let total = chunks_needed(secret.len());
        // Write parts in reverse order (total down to 1), so that part 1
        // acts as a commit marker.
        let mut part = total;
        while part >= 1
            invariant
                chunk_size == spec_max_chunk_size(),
                total == spec_chunks_needed(secret@.len() as int),
                part <= total,
            decreases part,
        {
            let encoded = frame_for_part(secret, part, total, chunk_size);
            let key = self.sub_key(part);
            match store::set_part(self.service.as_str(), key.as_str(), encoded.as_slice()) {
                Ok(()) => {},
                Err(e) => {
                    return Err(e);
                },
            }
            part -= 1;
        }
        Ok(())
    }

    /// Retrieve binary data from the credential store.
    ///
    /// Reads part 1 to learn the part count, reads the remaining parts in
    /// ascending order, and reassembles the payloads after validating every
    /// frame against its position and the advertised total.
    pub fn get_secret(&self) -> (r: Result<Vec<u8>, Error>)
        ensures
            r matches Err(e) ==> e is StoreFailure || e is NotFound || e is CorruptedSecret,
    {
        // Read part 1 to learn the total count
        let key1 = self.sub_key(1);
        let data1 = match store::get_part(self.service.as_str(), key1.as_str()) {
            Ok(d) => d,
            Err(e) => {
                return Err(e);
            },
        };
        let (part, total, _payload1) = match decode_part(data1.as_slice()) {
            Ok(v) => v,
            Err(e) => {
                return Err(e);
            },
        };
        if part != 1 {
            return Err(Error::CorruptedSecret(Corruption::WrongPart { expected: 1, found: part }));
        }
        // Read the remaining parts, then reassemble the full set of frames.
        let mut frames: Vec<Vec<u8>> = Vec::new();
        frames.push(data1);
        let mut read: usize = 1;
        while read < total
            invariant
                1 <= read <= total,
                frames@.len() == read,
            decreases total - read,
        {
            let key = self.sub_key(read + 1);
            let data = match store::get_part(self.service.as_str(), key.as_str()) {
                Ok(d) => d,
                Err(e) => {
                    return Err(e);
                },
            };
            frames.push(data);
            read += 1;
        }
        assemble_frames(&frames)
    }

    /// Delete the credential from the store.
    ///
    /// This is idempotent — calling it when no credential exists returns
    /// success. Part 1 is read solely to learn the part count; the parts are
    /// then deleted in descending order, the mirror image of the write order,
    /// so the commit marker is removed first. A part that is already gone
    /// does not abort the sweep.
    pub fn delete_credential(&self) -> (r: Result<(), Error>)
        ensures
            r matches Err(e) ==> e is StoreFailure || e is CorruptedSecret,
    {
        // Try to read part 1 to get the total; absence means already clean.
        let total = match self.read_part_total(1) {
            Ok(t) => t,
            Err(Error::NotFound) => {
                return Ok(());
            },
            Err(e) => {
                return Err(e);
            },
        };
        // Delete from back to front for safe resumption
        let mut part = total;
        while part >= 1
            invariant
                part <= total,
            decreases part,
        {
            let key = self.sub_key(part);
            match store::delete_part(self.service.as_str(), key.as_str()) {
                Ok(()) => {},
                Err(Error::NotFound) => {},  // Already deleted
                Err(e) => {
                    return Err(e);
                },
            }
            part -= 1;
        }
        Ok(())
    }

    /// Read the given part and extract just the total count of its header.
    /// The extraction itself is done by [`frame_total`], whose contract ties
    /// the returned count to the decode of the read bytes.
    fn read_part_total(&self, part: usize) -> (r: Result<usize, Error>)
        ensures
            r matches Err(e) ==> e is StoreFailure || e is NotFound || e is CorruptedSecret,
    {
        let key = self.sub_key(part);
        let data = match store::get_part(self.service.as_str(), key.as_str()) {
            Ok(d) => d,
            Err(e) => {
                return Err(e);
            },
        };
        frame_total(data.as_slice())
    }
}

} // verus!

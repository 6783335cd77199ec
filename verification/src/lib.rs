//! Storage of secrets of arbitrary size in a platform credential store whose
//! individual entries have a small, fixed capacity.
//!
//! A logical secret, keyed by a `(service, user)` identity, is transparently
//! split across multiple physical store entries and reassembled on read. Each
//! physical entry holds one wire frame: an ASCII header `"{part}/{total}"`,
//! one `|` byte, then the raw chunk payload. Physical entries are written and
//! deleted in descending part order, so that part 1 acts as a commit marker:
//! a reader either finds a fully consistent secret or no entry at all.
//!
//! The chunk sizer ([`chunk`]), the wire codec ([`format`]) and the frame
//! reassembly logic are verified; the calls into the underlying credential
//! store are trusted wrappers around the `keyring` crate ([`store`]).

use vstd::prelude::*;

pub mod chunk;
pub mod entry;
pub mod format;
mod store;

pub use entry::Entry;

verus! {

/// The way in which a stored wire frame, or a set of frames, violates the
/// chunking protocol. Carried by [`Error::CorruptedSecret`].
#[derive(Clone, Copy, Debug, PartialEq, Eq, Structural)]
pub enum Corruption {
    /// The frame holds no `|` separator byte.
    MissingSeparator,
    /// The frame header holds no `/` byte.
    MissingSlash,
    /// The part field of the header is empty, non-numeric, or too large.
    BadPartNumber,
    /// The total field of the header is empty, non-numeric, or too large.
    BadTotalNumber,
    /// The header's part number is zero or exceeds its total.
    PartOutOfRange { part: usize, total: usize },
    /// A frame's part number differs from the position it was stored under.
    WrongPart { expected: usize, found: usize },
    /// A frame's total differs from the total advertised by part 1.
    WrongTotal { expected: usize, found: usize },
}

/// Errors surfaced when working with a logical secret.
#[derive(Debug)]
pub enum Error {
    /// The credential store failed for a reason other than a missing entry.
    /// Carries the store's own description of the failure.
    StoreFailure(String),
    /// The credential store holds no entry under the consulted key.
    NotFound,
    /// A stored frame, or the set of frames, cannot be trusted.
    CorruptedSecret(Corruption),
    /// The reassembled bytes are not valid UTF-8 text.
    BadEncoding,
    /// An identity field passed at construction is empty.
    InvalidArgument(String),
}

/// Returns the maximum payload size per chunk for the current platform.
///
/// This can be useful for estimating how many parts a secret will be split
/// into.
pub fn max_chunk_size() -> (n: usize)
    ensures
        n == chunk::spec_max_chunk_size(),
{
    chunk::max_chunk_size()
}

} // verus!

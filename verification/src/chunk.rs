//! Chunk sizing: how many payload bytes fit in one physical entry, and how
//! many physical entries a payload of a given length occupies.

use vstd::prelude::*;

use vstd::arithmetic::div_mod::{
    lemma_div_multiples_vanish, lemma_div_multiples_vanish_fancy, lemma_div_plus_one,
    lemma_fundamental_div_mod, lemma_mod_bound,
};

verus! {

/// Practical capacity, in bytes, of one physical entry of the credential
/// store. A conservative value with headroom under the limits of the common
/// platform stores.
pub open spec fn spec_max_raw_size() -> int {
    8192
}

/// Fixed upper bound on the frame header `"{part}/{total}|"`: large enough
/// for `"9999/9999|"`.
pub open spec fn spec_max_header_overhead() -> int {
    10
}

/// Maximum payload bytes per chunk: the raw entry capacity less the header
/// overhead.
pub open spec fn spec_max_chunk_size() -> int {
    spec_max_raw_size() - spec_max_header_overhead()
}

/// Number of chunks a payload of `data_len` bytes occupies: one for an empty
/// payload, otherwise the ceiling of `data_len / spec_max_chunk_size()`.
pub open spec fn spec_chunks_needed(data_len: int) -> int {
    if data_len <= 0 {
        1
    } else {
        (data_len + spec_max_chunk_size() - 1) / spec_max_chunk_size()
    }
}

/// Maximum raw secret size the platform store can hold per entry.
fn max_raw_size() -> (n: usize)
    ensures
        n == spec_max_raw_size(),
{
    8192
}

/// Maximum overhead of the header format `"{part}/{total}|"`.
fn max_header_overhead() -> (n: usize)
    ensures
        n == spec_max_header_overhead(),
{
    10
}

/// Returns the maximum payload size per chunk for the current platform.
/// This accounts for the metadata header overhead.
pub fn max_chunk_size() -> (n: usize)
    ensures
        n == spec_max_chunk_size(),
{
    max_raw_size() - max_header_overhead()
}

/// Calculate how many chunks are needed for a given data size.
pub fn chunks_needed(data_len: usize) -> (n: usize)
    ensures
        n == spec_chunks_needed(data_len as int),
{
    if data_len == 0 {
        return 1;  // Even empty data needs one chunk
    }
    let chunk_size = max_chunk_size();
    // Computed as `1 + (data_len - 1) / chunk_size`, which equals the ceiling
    // of `data_len / chunk_size` but cannot overflow near `usize::MAX`.
    proof {
        lemma_div_plus_one(data_len - 1, spec_max_chunk_size());
    }
    1 + (data_len - 1) / chunk_size
}

/// A payload is covered by its chunks: the chunks together are large enough
/// to hold it, and dropping the last chunk would lose bytes.
pub proof fn lemma_chunks_needed_bounds(len: int)
    requires
        len >= 0,
    ensures
        spec_chunks_needed(len) >= 1,
        len <= spec_chunks_needed(len) * spec_max_chunk_size(),
        len > 0 ==> (spec_chunks_needed(len) - 1) * spec_max_chunk_size() < len,
{
    let c = spec_max_chunk_size();
    if len > 0 {
        let t = spec_chunks_needed(len);
        lemma_fundamental_div_mod(len + c - 1, c);
        lemma_mod_bound(len + c - 1, c);
        let r = (len + c - 1) % c;
        assert(len + c - 1 == c * t + r);
        assert(len <= c * t) by (nonlinear_arith)
            requires
                len + c - 1 == c * t + r && r < c,
        ;
        assert((t - 1) * c < len) by (nonlinear_arith)
            requires
                len + c - 1 == c * t + r && r >= 0,
        ;
        assert(t >= 1) by (nonlinear_arith)
            requires
                len <= c * t && len >= 1 && c >= 1,
        ;
        assert(len <= t * c) by (nonlinear_arith)
            requires
                len <= c * t,
        ;
    }
}

/// Chunk counting laws: an empty payload occupies one chunk, a payload of
/// exactly `k` full chunks occupies `k`, and one byte more spills into one
/// further chunk.
pub proof fn lemma_chunks_needed_laws(k: int)
    requires
        k >= 1,
    ensures
        spec_chunks_needed(0) == 1,
        spec_chunks_needed(spec_max_chunk_size()) == 1,
        spec_chunks_needed(spec_max_chunk_size() + 1) == 2,
        spec_chunks_needed(k * spec_max_chunk_size()) == k,
        spec_chunks_needed(k * spec_max_chunk_size() + 1) == k + 1,
{
    let c = spec_max_chunk_size();
    lemma_div_multiples_vanish_fancy(1, c - 1, c);
    assert(spec_chunks_needed(c) == 1);
    lemma_div_multiples_vanish(2, c);
    assert(c + 1 + c - 1 == c * 2);
    assert(spec_chunks_needed(c + 1) == 2);
    assert(k * c > 0) by (nonlinear_arith)
        requires
            k >= 1 && c > 0,
    ;
    lemma_div_multiples_vanish_fancy(k, c - 1, c);
    assert(k * c + c - 1 == c * k + (c - 1)) by (nonlinear_arith);
    lemma_div_multiples_vanish(k + 1, c);
    assert(k * c + 1 + c - 1 == c * (k + 1)) by (nonlinear_arith);
}

} // verus!

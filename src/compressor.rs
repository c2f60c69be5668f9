//! The byte compressor the distance oracle is built on.
use vstd::prelude::*;

verus! {

/// The frame that `lz4_flex::compress_prepend_size` produces for `data`:
/// the uncompressed size as a little-endian `u32`, then the LZ4 block.
pub uninterp spec fn lz4_frame(data: Seq<u8>) -> Seq<u8>;

/// The compressed length the oracle works with.
pub open spec fn compressed_len_of(data: Seq<u8>) -> nat {
    lz4_frame(data).len()
}

/// Relies on `lz4_flex::compress_prepend_size`: the result is a function of the
/// input bytes; it starts with the four-byte size prefix and is truncated to
/// at most `4 + get_maximum_output_size(len)` bytes, where that maximum is
/// `20 + floor(1.1 * len)`.
#[verifier::external_body]
fn lz4_compress(data: &[u8]) -> (r: Vec<u8>)
    ensures
        r@ == lz4_frame(data@),
        4 <= r@.len() <= 24 + 2 * data@.len(),
{
    lz4_flex::compress_prepend_size(data)
}

/// The length of the compressed frame of `data`.
pub fn compressed_length(data: &[u8]) -> (r: usize)
    ensures
        r == compressed_len_of(data@),
        4 <= r <= 24 + 2 * data@.len(),
{
    lz4_compress(data).len()
}

/// The length of the compressed frame of `a` followed by `b`.
pub fn compressed_length_of_concat(a: &[u8], b: &[u8]) -> (r: usize)
    requires
        a@.len() + b@.len() <= usize::MAX,
    ensures
        r == compressed_len_of(a@ + b@),
        4 <= r <= 24 + 2 * (a@.len() + b@.len()),
{
    let mut joined: Vec<u8> = Vec::with_capacity(a.len() + b.len());
    let mut i: usize = 0;
    while i < a.len()
        invariant
            i <= a@.len(),
            joined@ == a@.subrange(0, i as int),
        decreases a@.len() - i,
    {
        joined.push(a[i]);
        i += 1;
    }
    let mut j: usize = 0;
    while j < b.len()
        invariant
            j <= b@.len(),
            joined@ == a@ + b@.subrange(0, j as int),
        decreases b@.len() - j,
    {
        joined.push(b[j]);
        j += 1;
    }
    assert(a@.subrange(0, a@.len() as int) == a@);
    assert(b@.subrange(0, b@.len() as int) == b@);
    compressed_length(joined.as_slice())
}

} // verus!

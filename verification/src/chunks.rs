//! The chunk splitter: a source object is cut into fixed-size chunks with
//! sequential indices, every chunk of exactly `chunk_size` bytes except
//! possibly the last, which holds the remainder.

use crate::errors::DriveError;
use vstd::arithmetic::div_mod::{
    lemma_div_plus_one, lemma_div_pos_is_pos, lemma_fundamental_div_mod,
    lemma_mod_division_less_than_divisor,
};
use vstd::math::min;
use vstd::prelude::*;
use vstd::slice::{slice_subrange, slice_to_vec};

verus! {

/// How many chunks a source of `size` bytes yields at chunk size `k`:
/// the least `c` with `c * k >= size`, that is `size / k` rounded up.
pub open spec fn spec_chunk_count(size: int, k: int) -> int
    recommends
        size >= 0,
        k > 0,
{
    (size + k - 1) / k
}

/// Chunk `i` of `data`: the bytes from `k * i` up to `k * (i + 1)`,
/// cut short at the end of the source.
pub open spec fn spec_chunk_at(data: Seq<u8>, k: int, i: int) -> Seq<u8>
    recommends
        k > 0,
        0 <= i < spec_chunk_count(data.len() as int, k),
{
    data.subrange(k * i, min(data.len() as int, k * (i + 1)))
}

/// The full chunk sequence of `data` at chunk size `k`, in index order.
pub open spec fn spec_chunks(data: Seq<u8>, k: int) -> Seq<Seq<u8>>
    recommends
        k > 0,
{
    Seq::new(spec_chunk_count(data.len() as int, k) as nat, |i: int| spec_chunk_at(data, k, i))
}

/// The concatenation of a sequence of byte chunks, in order.
pub open spec fn spec_concat(cs: Seq<Seq<u8>>) -> Seq<u8>
    decreases cs.len(),
{
    if cs.len() == 0 {
        Seq::<u8>::empty()
    } else {
        spec_concat(cs.drop_last()) + cs.last()
    }
}

/// The views of a vector of chunk buffers.
pub open spec fn chunk_views(chunks: Seq<Vec<u8>>) -> Seq<Seq<u8>> {
    chunks.map_values(|c: Vec<u8>| c@)
}

/// The chunk count is the exact ceiling of `size / k`: `k * c` covers the
/// source, while one chunk fewer would fall short.
pub proof fn lemma_chunk_count_bounds(size: int, k: int)
    requires
        size >= 0,
        k > 0,
    ensures
        spec_chunk_count(size, k) >= 0,
        k * spec_chunk_count(size, k) >= size,
        k * (spec_chunk_count(size, k) - 1) < size,
        size == 0 ==> spec_chunk_count(size, k) == 0,
        size > 0 ==> spec_chunk_count(size, k) >= 1,
{
    let x = size + k - 1;
    let c = spec_chunk_count(size, k);
    lemma_fundamental_div_mod(x, k);
    lemma_mod_division_less_than_divisor(x, k);
    lemma_div_pos_is_pos(x, k);
    assert(k * c == x - x % k);
    assert(k * (c - 1) == k * c - k) by (nonlinear_arith);
    assert(size == 0 ==> c == 0) by {
        if size == 0 {
            assert(k * (c - 1) < 0);
            assert(c - 1 < 0) by (nonlinear_arith)
                requires
                    k > 0,
                    k * (c - 1) < 0,
            ;
        }
    }
    assert(size > 0 ==> c >= 1) by {
        if size > 0 {
            assert(k * c > 0);
            assert(c > 0) by (nonlinear_arith)
                requires
                    k > 0,
                    k * c > 0,
            ;
        }
    }
}

/// Every chunk except the last has length exactly `k`; the last holds
/// whatever remains of the source past the next-to-last chunk.
pub proof fn lemma_chunk_lengths(data: Seq<u8>, k: int)
    requires
        k > 0,
    ensures
        forall|i: int|
            0 <= i < spec_chunk_count(data.len() as int, k) - 1 ==> (#[trigger] spec_chunks(
                data,
                k,
            )[i]).len() == k,
        spec_chunk_count(data.len() as int, k) > 0 ==> spec_chunks(data, k).last().len()
            == data.len() - k * (spec_chunk_count(data.len() as int, k) - 1),
{
    let size = data.len() as int;
    let c = spec_chunk_count(size, k);
    lemma_chunk_count_bounds(size, k);
    assert forall|i: int| 0 <= i < c - 1 implies (#[trigger] spec_chunks(data, k)[i]).len()
        == k by {
        assert(k * (i + 1) <= k * (c - 1)) by (nonlinear_arith)
            requires
                k > 0,
                i + 1 <= c - 1,
        ;
        assert(k * (i + 1) - k * i == k) by (nonlinear_arith);
        assert(k * i >= 0) by (nonlinear_arith)
            requires
                k > 0,
                i >= 0,
        ;
    }
    if c > 0 {
        assert(k * (c - 1) >= 0) by (nonlinear_arith)
            requires
                k > 0,
                c >= 1,
        ;
        assert(spec_chunks(data, k).last() == spec_chunk_at(data, k, c - 1));
    }
}

/// Splitting and concatenation are inverse: the chunks of `data`, joined
/// back in index order, are `data` itself. In particular the chunk lengths
/// sum to the source size.
pub proof fn lemma_round_trip(data: Seq<u8>, k: int)
    requires
        k > 0,
    ensures
        spec_concat(spec_chunks(data, k)) == data,
    decreases data.len(),
{
    let size = data.len() as int;
    let c = spec_chunk_count(size, k);
    lemma_chunk_count_bounds(size, k);
    if c == 0 {
        assert(size <= 0) by (nonlinear_arith)
            requires
                k > 0,
                k * c >= size,
                c == 0,
        ;
        assert(spec_concat(spec_chunks(data, k)) =~= data);
    } else {
        let m = k * (c - 1);
        assert(m >= 0 && m < size) by (nonlinear_arith)
            requires
                k > 0,
                c >= 1,
                m == k * (c - 1),
                k * (c - 1) < size,
        ;
        let prefix = data.subrange(0, m);
        assert(spec_chunk_count(m, k) == c - 1) by {
            lemma_fundamental_div_mod(m + k - 1, k);
            lemma_mod_division_less_than_divisor(m + k - 1, k);
            let q = (m + k - 1) / k;
            assert(k * q == m + k - 1 - (m + k - 1) % k);
            assert(q == c - 1) by (nonlinear_arith)
                requires
                    k > 0,
                    m == k * (c - 1),
                    k * q == m + k - 1 - (m + k - 1) % k,
                    0 <= (m + k - 1) % k < k,
            ;
        }
        assert forall|i: int| 0 <= i < c - 1 implies spec_chunk_at(prefix, k, i) == spec_chunk_at(
            data,
            k,
            i,
        ) by {
            assert(0 <= k * i && k * (i + 1) <= m && k * i <= k * (i + 1)) by (nonlinear_arith)
                requires
                    k > 0,
                    0 <= i,
                    i + 1 <= c - 1,
                    m == k * (c - 1),
            ;
            assert(spec_chunk_at(prefix, k, i) =~= spec_chunk_at(data, k, i));
        }
        assert(spec_chunks(prefix, k) =~= spec_chunks(data, k).drop_last());
        lemma_round_trip(prefix, k);
        assert(spec_chunks(data, k).last() =~= data.subrange(m, size));
        assert(spec_concat(spec_chunks(data, k)) =~= prefix + data.subrange(m, size));
        assert(prefix + data.subrange(m, size) =~= data);
    }
}

/// Chunking sizes law: the number of chunks is the ceiling of `size / k`,
/// and the chunk lengths sum back to the source size.
pub proof fn lemma_chunking_sizes(data: Seq<u8>, k: int)
    requires
        k > 0,
    ensures
        spec_chunks(data, k).len() == spec_chunk_count(data.len() as int, k),
        spec_concat(spec_chunks(data, k)).len() == data.len(),
{
    lemma_chunk_count_bounds(data.len() as int, k);
    lemma_round_trip(data, k);
}

/// The splitter's input gate: the source bytes when the local read
/// delivered them, and `IOError` when it failed — fatal for the whole
/// store operation.
pub fn source_read_result(read: Option<Vec<u8>>) -> (r: Result<Vec<u8>, DriveError>)
    ensures
        match r {
            Ok(data) => read matches Some(b) && data == b,
            Err(err) => read is None && err == DriveError::IOError,
        },
{
    match read {
        Some(data) => Ok(data),
        None => Err(DriveError::IOError),
    }
}

/// The number of chunks a source of `size` bytes yields at chunk size `k`.
pub fn chunk_count(size: usize, k: usize) -> (c: usize)
    requires
        k > 0,
    ensures
        c == spec_chunk_count(size as int, k as int),
{
    proof {
        lemma_chunk_count_bounds(size as int, k as int);
    }
    if size == 0 {
        0
    } else {
        let q = (size - 1) / k;
        proof {
            lemma_div_plus_one(size - 1, k as int);
            assert(q <= size - 1) by (nonlinear_arith)
                requires
                    k >= 1,
                    size >= 1,
                    q == ((size - 1) as int) / (k as int),
            ;
        }
        q + 1
    }
}

/// Splits `data` into chunks of `k` bytes, the last chunk holding the
/// remainder: exactly the chunk sequence of the splitter model, in strictly
/// increasing index order starting at 0.
pub fn split_into_chunks(data: &Vec<u8>, k: usize) -> (chunks: Vec<Vec<u8>>)
    requires
        k > 0,
    ensures
        chunk_views(chunks@) == spec_chunks(data@, k as int),
        chunks@.len() == spec_chunk_count(data@.len() as int, k as int),
{
    let n = data.len();
    let mut chunks: Vec<Vec<u8>> = Vec::new();
    let mut off: usize = 0;
    proof {
        assert(chunks@.len() * (k as int) == 0) by (nonlinear_arith)
            requires
                chunks@.len() == 0,
        ;
    }
    while off < n
        invariant
            k > 0,
            n == data@.len(),
            off <= n,
            off as int == min(chunks@.len() * (k as int), n as int),
            chunks@.len() == 0 || (chunks@.len() - 1) * (k as int) < n as int,
            forall|j: int|
                0 <= j < chunks@.len() ==> (#[trigger] chunks@[j])@ == spec_chunk_at(
                    data@,
                    k as int,
                    j,
                ),
        decreases n - off,
    {
        let ghost i = chunks@.len() as int;
        proof {
            assert(off as int == i * (k as int)) by {
                assert(i * (k as int) >= 0) by (nonlinear_arith)
                    requires
                        i >= 0,
                        k > 0,
                ;
            }
        }
        let end = if n - off < k {
            n
        } else {
            off + k
        };
        let piece = slice_to_vec(slice_subrange(data.as_slice(), off, end));
        proof {
            assert((i + 1) * (k as int) == i * (k as int) + k) by (nonlinear_arith);
            assert(off as int == (k as int) * i) by (nonlinear_arith)
                requires
                    off as int == i * (k as int),
            ;
            assert((k as int) * (i + 1) == i * (k as int) + k) by (nonlinear_arith);
            assert(end as int == min(data@.len() as int, (k as int) * (i + 1)));
            assert(piece@ == spec_chunk_at(data@, k as int, i));
        }
        chunks.push(piece);
        off = end;
    }
    proof {
        let size = n as int;
        let kk = k as int;
        let i = chunks@.len() as int;
        let c = spec_chunk_count(size, kk);
        lemma_chunk_count_bounds(size, kk);
        assert(i * kk >= size);
        if i == 0 {
            assert(c == 0);
        } else {
            assert(i == c) by (nonlinear_arith)
                requires
                    kk > 0,
                    (i - 1) * kk < size,
                    i * kk >= size,
                    kk * (c - 1) < size,
                    kk * c >= size,
            ;
        }
        assert(chunk_views(chunks@) =~= spec_chunks(data@, kk));
    }
    chunks
}

} // verus!

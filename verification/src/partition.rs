//! Splitting an index range `[0, len)` into contiguous chunks, one per worker.
//!
//! Every chunk has the same size, the quotient `len / workers` rounded up,
//! except that chunks are cut off at `len`: the last non-empty chunk may be
//! shorter, and the chunks behind it are empty.

use vstd::prelude::*;

verus! {

/// A half-open range of indices `[start, end)`.
#[derive(Clone, Copy, Debug, PartialEq, Eq, Structural)]
pub struct Chunk {
    pub start: usize,
    pub end: usize,
}

/// `len / workers`, rounded up.
pub open spec fn chunk_size(len: nat, workers: nat) -> nat
    recommends
        workers >= 1,
{
    if len % workers == 0 {
        len / workers
    } else {
        len / workers + 1
    }
}

/// Where chunk `i` starts.
pub open spec fn chunk_start(len: nat, workers: nat, i: nat) -> nat {
    let at = i * chunk_size(len, workers);
    if at < len {
        at
    } else {
        len
    }
}

/// Where chunk `i` ends.
pub open spec fn chunk_end(len: nat, workers: nat, i: nat) -> nat {
    let at = (i + 1) * chunk_size(len, workers);
    if at < len {
        at
    } else {
        len
    }
}

/// Whether index `k` falls into chunk `i`.
pub open spec fn in_chunk(len: nat, workers: nat, i: nat, k: nat) -> bool {
    chunk_start(len, workers, i) <= k < chunk_end(len, workers, i)
}

/// How many chunks are not empty.
pub open spec fn chunk_count(len: nat, workers: nat) -> nat {
    if len == 0 {
        0
    } else {
        chunk_size(len, chunk_size(len, workers))
    }
}

/// `chunk_size(len, workers)` is the least `c` with `c * workers >= len`.
pub proof fn lemma_chunk_size_is_ceiling(len: nat, workers: nat)
    requires
        workers >= 1,
    ensures
        chunk_size(len, workers) * workers >= len,
        len > 0 ==> chunk_size(len, workers) >= 1,
        len > 0 ==> (chunk_size(len, workers) - 1) * workers < len,
        chunk_size(len, workers) <= len,
{
    let q = len / workers;
    let r = len % workers;
    assert(len == q * workers + r && 0 <= r < workers && 0 <= q) by (nonlinear_arith)
        requires
            workers >= 1,
            q == len / workers,
            r == len % workers,
    ;
    assert((q + 1) * workers == q * workers + workers) by (nonlinear_arith);
    assert((q - 1) * workers == q * workers - workers) by (nonlinear_arith);
    assert(q * workers >= q) by (nonlinear_arith)
        requires
            workers >= 1,
            q >= 0,
    ;
}

/// The number of non-empty chunks never exceeds the number of workers, and
/// the non-empty chunks are exactly the first `chunk_count(len, workers)`.
pub proof fn lemma_chunk_count(len: nat, workers: nat)
    requires
        workers >= 1,
    ensures
        chunk_count(len, workers) <= workers,
        forall|i: nat|
            (#[trigger] chunk_start(len, workers, i) < chunk_end(len, workers, i)) <==> i
                < chunk_count(len, workers),
{
    let cs = chunk_size(len, workers);
    let n = chunk_count(len, workers);
    lemma_chunk_size_is_ceiling(len, workers);
    if len > 0 {
        lemma_chunk_size_is_ceiling(len, cs);
        assert(n <= workers) by (nonlinear_arith)
            requires
                (n - 1) * cs < len,
                cs * workers >= len,
                cs >= 1,
        ;
    }
    assert forall|i: nat|
        (#[trigger] chunk_start(len, workers, i) < chunk_end(len, workers, i)) <==> i < n by {
        lemma_chunk_nonempty(len, workers, i);
    }
}

/// Chunk `i` holds an index exactly when `i < chunk_count(len, workers)`.
pub proof fn lemma_chunk_nonempty(len: nat, workers: nat, i: nat)
    requires
        workers >= 1,
    ensures
        chunk_start(len, workers, i) < chunk_end(len, workers, i) <==> i < chunk_count(
            len,
            workers,
        ),
        i < chunk_count(len, workers) <==> i * chunk_size(len, workers) < len,
{
    let cs = chunk_size(len, workers);
    let n = chunk_count(len, workers);
    lemma_chunk_size_is_ceiling(len, workers);
    if len > 0 {
        lemma_chunk_size_is_ceiling(len, cs);
        assert((i + 1) * cs == i * cs + cs) by (nonlinear_arith);
        if i < n {
            assert(i * cs <= (n - 1) * cs) by (nonlinear_arith)
                requires
                    i <= n - 1,
                    cs >= 1,
            ;
        } else {
            assert(i * cs >= n * cs) by (nonlinear_arith)
                requires
                    i >= n,
                    cs >= 1,
            ;
        }
    } else {
        assert(i * cs >= 0) by (nonlinear_arith)
            requires
                i >= 0,
                cs >= 0,
        ;
    }
}

/// The chunks of the workers tile `[0, len)`: the first starts at 0, each
/// ends where the next one starts, and the last ends at `len`.
pub proof fn lemma_chunks_tile(len: nat, workers: nat)
    requires
        workers >= 1,
    ensures
        chunk_start(len, workers, 0) == 0,
        chunk_end(len, workers, (workers - 1) as nat) == len,
        forall|i: nat| #[trigger]
            chunk_start(len, workers, i) <= chunk_end(len, workers, i) <= len,
        forall|i: nat| #[trigger] chunk_end(len, workers, i) == chunk_start(len, workers, i + 1),
{
    let cs = chunk_size(len, workers);
    lemma_chunk_size_is_ceiling(len, workers);
    assert(0 * cs == 0) by (nonlinear_arith);
    assert(workers * cs == cs * workers) by (nonlinear_arith);
    assert forall|i: nat| #[trigger]
        chunk_start(len, workers, i) <= chunk_end(len, workers, i) <= len by {
        assert((i + 1) * cs == i * cs + cs) by (nonlinear_arith);
    }
}

/// Every index below `len` lies in exactly one chunk, and that chunk belongs
/// to one of the workers.
pub proof fn lemma_index_in_one_chunk(len: nat, workers: nat, k: nat)
    requires
        workers >= 1,
        k < len,
    ensures
        k / chunk_size(len, workers) < chunk_count(len, workers) <= workers,
        in_chunk(len, workers, k / chunk_size(len, workers), k),
        forall|j: nat| in_chunk(len, workers, j, k) ==> j == k / chunk_size(len, workers),
{
    let cs = chunk_size(len, workers);
    let i = k / cs;
    lemma_chunk_size_is_ceiling(len, workers);
    lemma_chunk_count(len, workers);
    assert(i * cs <= k < (i + 1) * cs && i >= 0) by (nonlinear_arith)
        requires
            cs >= 1,
            k >= 0,
            i == k / cs,
    ;
    lemma_chunk_nonempty(len, workers, i);
    assert forall|j: nat| in_chunk(len, workers, j, k) implies j == i by {
        assert((j + 1) * cs == j * cs + cs) by (nonlinear_arith);
        if j < i {
            assert((j + 1) * cs <= i * cs) by (nonlinear_arith)
                requires
                    j + 1 <= i,
                    cs >= 1,
            ;
        } else if j > i {
            assert(j * cs >= (i + 1) * cs) by (nonlinear_arith)
                requires
                    j >= i + 1,
                    cs >= 1,
            ;
        }
    }
}

/// Computes the common chunk size, `len / workers` rounded up.
pub fn chunk_len(len: usize, workers: usize) -> (cs: usize)
    requires
        workers >= 1,
    ensures
        cs == chunk_size(len as nat, workers as nat),
{
    proof {
        lemma_chunk_size_is_ceiling(len as nat, workers as nat);
    }
    if len % workers == 0 {
        len / workers
    } else {
        len / workers + 1
    }
}

/// Lists the non-empty chunks of `[0, len)` for `workers` workers, in order.
pub fn chunk_ranges(len: usize, workers: usize) -> (chunks: Vec<Chunk>)
    requires
        workers >= 1,
    ensures
        chunks@.len() == chunk_count(len as nat, workers as nat),
        chunks@.len() <= workers,
        forall|i: int|
            0 <= i < chunks@.len() ==> {
                &&& (#[trigger] chunks@[i]).start == chunk_start(
                    len as nat,
                    workers as nat,
                    i as nat,
                )
                &&& chunks@[i].end == chunk_end(len as nat, workers as nat, i as nat)
                &&& chunks@[i].start < chunks@[i].end
            },
{
    let cs = chunk_len(len, workers);
    let mut chunks: Vec<Chunk> = Vec::new();
    let mut start: usize = 0;
    proof {
        lemma_chunk_size_is_ceiling(len as nat, workers as nat);
        lemma_chunk_count(len as nat, workers as nat);
        lemma_chunk_nonempty(len as nat, workers as nat, 0);
        assert(0 * cs == 0) by (nonlinear_arith);
    }
    while start < len
        invariant
            workers >= 1,
            cs == chunk_size(len as nat, workers as nat),
            len > 0 ==> cs >= 1,
            start == chunk_start(len as nat, workers as nat, chunks@.len()),
            chunks@.len() <= chunk_count(len as nat, workers as nat) <= workers,
            start < len <==> chunks@.len() < chunk_count(len as nat, workers as nat),
            forall|i: int|
                0 <= i < chunks@.len() ==> {
                    &&& (#[trigger] chunks@[i]).start == chunk_start(
                        len as nat,
                        workers as nat,
                        i as nat,
                    )
                    &&& chunks@[i].end == chunk_end(len as nat, workers as nat, i as nat)
                    &&& chunks@[i].start < chunks@[i].end
                },
        decreases len - start,
    {
        let ghost k = chunks@.len();
        let end = if len - start > cs {
            start + cs
        } else {
            len
        };
        proof {
            assert((k + 1) * cs == k * cs + cs) by (nonlinear_arith);
            assert(end == chunk_end(len as nat, workers as nat, k));
            lemma_chunk_nonempty(len as nat, workers as nat, k + 1);
        }
        chunks.push(Chunk { start, end });
        start = end;
    }
    chunks
}

} // verus!

//! The chunked reduction: one partial sum per chunk, then the sum of the
//! partial sums.
//!
//! Nothing here starts a thread. A caller that hands the chunks to concurrent
//! workers gives each worker a chunk from [`chunk_ranges`] to sum, collects
//! what each worker handed back, and passes the outcomes to [`combine`].
//! [`chunked_sum`] does the same on the calling thread.

use crate::partition::{
    chunk_count,
    chunk_end,
    chunk_ranges,
    chunk_start,
    lemma_chunk_nonempty,
    lemma_chunks_tile,
};
use crate::sum::{lemma_total_split, lemma_wrap_add, lemma_wrap_range, p, sum_range, total, wrap};
use vstd::prelude::*;

verus! {

/// The number of workers that [`p_mt`] splits its input between.
pub const WORKERS: usize = 12;

/// A worker did not hand back a partial sum.
#[derive(Clone, Copy, Debug, PartialEq, Eq, Structural)]
pub struct WorkerFailed {
    /// Position of the first such worker.
    pub worker: usize,
}

/// The partial sum that the worker of chunk `i` computes.
pub open spec fn chunk_sum(s: Seq<i32>, workers: nat, i: nat) -> int {
    wrap(
        total(
            s.subrange(
                chunk_start(s.len(), workers, i) as int,
                chunk_end(s.len(), workers, i) as int,
            ),
        ),
    )
}

/// The partial sums of all non-empty chunks, in chunk order.
pub open spec fn chunk_sums(s: Seq<i32>, workers: nat) -> Seq<i32> {
    Seq::new(chunk_count(s.len(), workers), |i: int| chunk_sum(s, workers, i as nat) as i32)
}

/// Whether every worker handed back a partial sum.
pub open spec fn all_done(outcomes: Seq<Option<i32>>) -> bool {
    forall|i: int| 0 <= i < outcomes.len() ==> (#[trigger] outcomes[i]) is Some
}

/// The partial sums inside `outcomes`, where all workers are done.
pub open spec fn partials(outcomes: Seq<Option<i32>>) -> Seq<i32> {
    Seq::new(outcomes.len(), |i: int| outcomes[i].unwrap())
}

proof fn lemma_chunk_sums_prefix(s: Seq<i32>, workers: nat, k: nat)
    requires
        workers >= 1,
        k <= chunk_count(s.len(), workers),
    ensures
        wrap(total(chunk_sums(s, workers).take(k as int))) == wrap(
            total(s.subrange(0, chunk_start(s.len(), workers, k) as int)),
        ),
    decreases k,
{
    let sums = chunk_sums(s, workers);
    lemma_chunks_tile(s.len(), workers);
    if k == 0 {
        assert(sums.take(0) =~= Seq::<i32>::empty());
        assert(s.subrange(0, 0) =~= Seq::<i32>::empty());
    } else {
        let j = (k - 1) as nat;
        let lo = chunk_start(s.len(), workers, j) as int;
        let hi = chunk_end(s.len(), workers, j) as int;
        lemma_chunk_sums_prefix(s, workers, j);
        assert(sums.take(k as int).drop_last() =~= sums.take(j as int));
        assert(sums.take(k as int).last() == sums[j as int]);
        assert(chunk_start(s.len(), workers, j) <= chunk_end(s.len(), workers, j) <= s.len());
        lemma_wrap_range(total(s.subrange(lo, hi)));
        lemma_total_split(s, 0, lo, hi);
        let before = total(sums.take(j as int));
        let head = total(s.subrange(0, lo));
        let piece = total(s.subrange(lo, hi));
        lemma_wrap_add(before, wrap(piece));
        lemma_wrap_add(before, piece);
        lemma_wrap_add(head, piece);
    }
}

/// Summing the partial sums of the chunks gives what summing the whole
/// sequence gives.
pub proof fn lemma_chunk_sums_total(s: Seq<i32>, workers: nat)
    requires
        workers >= 1,
    ensures
        wrap(total(chunk_sums(s, workers))) == wrap(total(s)),
{
    let n = chunk_count(s.len(), workers);
    lemma_chunk_sums_prefix(s, workers, n);
    lemma_chunk_nonempty(s.len(), workers, n);
    assert(chunk_sums(s, workers).take(n as int) =~= chunk_sums(s, workers));
    assert(s.subrange(0, s.len() as int) =~= s);
}

/// Where every worker hands back the partial sum of its chunk, combining the
/// outcomes gives what summing the whole sequence gives.
pub proof fn lemma_outcomes_total(s: Seq<i32>, workers: nat, outcomes: Seq<Option<i32>>)
    requires
        workers >= 1,
        outcomes.len() == chunk_count(s.len(), workers),
        forall|i: int|
            0 <= i < outcomes.len() ==> #[trigger] outcomes[i] == Some(
                chunk_sum(s, workers, i as nat) as i32,
            ),
    ensures
        all_done(outcomes),
        wrap(total(partials(outcomes))) == wrap(total(s)),
{
    assert(partials(outcomes) =~= chunk_sums(s, workers));
    lemma_chunk_sums_total(s, workers);
}

/// Adds up what the workers handed back, in order, wrapping around on
/// overflow. A worker that handed back nothing fails the whole reduction:
/// the error names the first such worker.
pub fn combine(outcomes: &[Option<i32>]) -> (r: Result<i32, WorkerFailed>)
    ensures
        r is Ok <==> all_done(outcomes@),
        r matches Ok(v) ==> v == wrap(total(partials(outcomes@))),
        r matches Err(e) ==> {
            &&& e.worker < outcomes@.len()
            &&& outcomes@[e.worker as int] is None
            &&& forall|j: int| 0 <= j < e.worker ==> (#[trigger] outcomes@[j]) is Some
        },
{
    let mut acc: i32 = 0;
    let mut i: usize = 0;
    assert(partials(outcomes@).subrange(0, 0) =~= Seq::<i32>::empty());
    while i < outcomes.len()
        invariant
            i <= outcomes@.len(),
            forall|j: int| 0 <= j < i ==> (#[trigger] outcomes@[j]) is Some,
            acc == wrap(total(partials(outcomes@).subrange(0, i as int))),
        decreases outcomes@.len() - i,
    {
        match outcomes[i] {
            Some(v) => {
                proof {
                    let next = partials(outcomes@).subrange(0, i + 1);
                    assert(next.drop_last() =~= partials(outcomes@).subrange(0, i as int));
                    assert(next.last() == v);
                    lemma_wrap_add(total(partials(outcomes@).subrange(0, i as int)), v as int);
                }
                acc = acc.wrapping_add(v);
            },
            None => {
                return Err(WorkerFailed { worker: i });
            },
        }
        i += 1;
    }
    assert(partials(outcomes@).subrange(0, outcomes@.len() as int) =~= partials(outcomes@));
    Ok(acc)
}

/// Sums `arr` chunk by chunk, as `workers` workers would, and adds up the
/// partial sums. The result is the one that [`p`] gives.
pub fn chunked_sum(arr: &[i32], workers: usize) -> (r: i32)
    requires
        workers >= 1,
    ensures
        r == wrap(total(arr@)),
        i32::MIN <= total(arr@) <= i32::MAX ==> r == total(arr@),
{
    let chunks = chunk_ranges(arr.len(), workers);
    let mut sums: Vec<i32> = Vec::new();
    let mut i: usize = 0;
    proof {
        lemma_chunks_tile(arr@.len(), workers as nat);
    }
    while i < chunks.len()
        invariant
            i <= chunks@.len() == chunk_count(arr@.len(), workers as nat),
            forall|j: int|
                0 <= j < chunks@.len() ==> {
                    &&& (#[trigger] chunks@[j]).start == chunk_start(
                        arr@.len(),
                        workers as nat,
                        j as nat,
                    )
                    &&& chunks@[j].end == chunk_end(arr@.len(), workers as nat, j as nat)
                },
            forall|j: nat| #[trigger]
                chunk_start(arr@.len(), workers as nat, j) <= chunk_end(
                    arr@.len(),
                    workers as nat,
                    j,
                ) <= arr@.len(),
            sums@ =~= chunk_sums(arr@, workers as nat).take(i as int),
        decreases chunks@.len() - i,
    {
        let c = chunks[i];
        assert(chunk_start(arr@.len(), workers as nat, i as nat) <= chunk_end(
            arr@.len(),
            workers as nat,
            i as nat,
        ) <= arr@.len());
        let part = sum_range(arr, c.start, c.end);
        sums.push(part);
        i += 1;
    }
    proof {
        assert(sums@ =~= chunk_sums(arr@, workers as nat));
        lemma_chunk_sums_total(arr@, workers as nat);
        lemma_wrap_range(total(arr@));
    }
    p(sums.as_slice())
}

/// Sums `arr` in chunks for [`WORKERS`] workers.
pub fn p_mt(arr: &[i32]) -> (r: i32)
    ensures
        r == wrap(total(arr@)),
        i32::MIN <= total(arr@) <= i32::MAX ==> r == total(arr@),
{
    chunked_sum(arr, WORKERS)
}

} // verus!

//! Lifecycle of the process-wide embedder and the planning of batch calls.
//! The embedding model itself runs outside the library: these functions decide
//! whether a call may go to it and how a batch is cut into chunks.
use vstd::prelude::*;
use crate::error::CortexError;

verus! {

/// Texts sent to the model in one call.
pub const BATCH_CHUNK: usize = 32;

/// Whether the embedder is between `init` and `shutdown`.
#[derive(Debug, Clone, Copy, PartialEq, Eq, Structural)]
pub struct EmbedderLifecycle {
    pub initialized: bool,
    pub workers: usize,
    pub cache_size: usize,
}

impl EmbedderLifecycle {
    /// An embedder that has not been initialised.
    pub fn new() -> (r: Self)
        ensures
            !r.initialized,
    {
        EmbedderLifecycle { initialized: false, workers: 0, cache_size: 0 }
    }

    /// Succeeds, with nothing to do, when the embedder may be used.
    pub fn check_ready(&self) -> (r: Result<(), CortexError>)
        ensures
            r is Ok <==> self.initialized,
            r matches Err(e) ==> e == CortexError::NotInitialized,
    {
        if self.initialized {
            Ok(())
        } else {
            Err(CortexError::NotInitialized)
        }
    }
}

/// Start the embedder with `workers` workers and a per-worker cache of
/// `cache_size`; a second start without a shutdown between fails and leaves
/// the running embedder as it was.
pub fn init(lifecycle: &mut EmbedderLifecycle, workers: usize, cache_size: usize) -> (r: Result<(), CortexError>)
    ensures
        r is Ok <==> !old(lifecycle).initialized,
        r is Ok ==> *final(lifecycle) == (EmbedderLifecycle { initialized: true, workers, cache_size }),
        r matches Err(e) ==> e == CortexError::AlreadyInitialized && *final(lifecycle) == *old(lifecycle),
{
    if lifecycle.initialized {
        return Err(CortexError::AlreadyInitialized);
    }
    *lifecycle = EmbedderLifecycle { initialized: true, workers, cache_size };
    Ok(())
}

/// Stop the embedder. Returns whether a running pool has to be released;
/// stopping a stopped embedder does nothing.
pub fn shutdown(lifecycle: &mut EmbedderLifecycle) -> (r: bool)
    ensures
        r == old(lifecycle).initialized,
        !final(lifecycle).initialized,
        r ==> final(lifecycle).workers == 0 && final(lifecycle).cache_size == 0,
        !r ==> *final(lifecycle) == *old(lifecycle),
{
    if lifecycle.initialized {
        *lifecycle = EmbedderLifecycle { initialized: false, workers: 0, cache_size: 0 };
        true
    } else {
        false
    }
}

/// The chunks `[start, end)` of a batch of `count` texts: consecutive, of
/// `BATCH_CHUNK` texts each but the last, covering the batch in order.
pub open spec fn chunk_ranges(count: nat) -> Seq<(usize, usize)> {
    Seq::new(
        ((count + BATCH_CHUNK - 1) / BATCH_CHUNK as int) as nat,
        |i: int|
            (
                (i * BATCH_CHUNK) as usize,
                (if (i + 1) * BATCH_CHUNK <= count {
                    (i + 1) * BATCH_CHUNK
                } else {
                    count as int
                }) as usize,
            ),
    )
}

/// How a batch of `count` texts goes to the model: an empty batch needs no
/// call and succeeds in any state; otherwise the embedder must be ready, and
/// the texts go in chunks.
pub fn plan_batch(lifecycle: &EmbedderLifecycle, count: usize) -> (r: Result<Vec<(usize, usize)>, CortexError>)
    ensures
        count == 0 ==> (r matches Ok(v) && v@.len() == 0),
        r is Err <==> (count > 0 && !lifecycle.initialized),
        r matches Err(e) ==> e == CortexError::NotInitialized,
        r matches Ok(v) ==> v@ == chunk_ranges(count as nat),
{
    if count == 0 {
        let v: Vec<(usize, usize)> = Vec::new();
        assert(v@ =~= chunk_ranges(0));
        return Ok(v);
    }
    if !lifecycle.initialized {
        return Err(CortexError::NotInitialized);
    }
    let mut v: Vec<(usize, usize)> = Vec::new();
    let mut start: usize = 0;
    while start < count
        invariant
            start <= count,
            start == if v.len() * BATCH_CHUNK <= count { v.len() * BATCH_CHUNK } else { count as int },
            v.len() > 0 ==> (v.len() - 1) * BATCH_CHUNK < count,
            forall|i: int| 0 <= i < v.len() ==> #[trigger] v@[i] == chunk_ranges(count as nat)[i],
        decreases count - start,
    {
        let end = if count - start >= BATCH_CHUNK { start + BATCH_CHUNK } else { count };
        proof {
            let n = v.len() as int;
            assert(start == n * 32);
            assert(n * 32 < count);
            assert(n < (count + 31) / 32) by (nonlinear_arith)
                requires n * 32 < count;
            assert(chunk_ranges(count as nat)[n] == (start, end));
        }
        v.push((start, end));
        start = end;
    }
    proof {
        let n = v.len() as int;
        assert(n * 32 >= count);
        assert(n == (count + 31) / 32) by (nonlinear_arith)
            requires n * 32 >= count, n > 0 ==> (n - 1) * 32 < count, count > 0;
    }
    assert(v@ =~= chunk_ranges(count as nat));
    Ok(v)
}

} // verus!

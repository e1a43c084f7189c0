//! Handing texts to an embedding model in batches.
//!
//! The model is the caller's. This module says which texts go into which
//! batch and checks what came back.
use crate::error::LgrepError;
use vstd::prelude::*;

verus! {

/// Where the batch after `done` texts ends: `batch_size` texts on, or at the
/// last text.
pub open spec fn batch_end(done: usize, total: usize, batch_size: usize) -> usize {
    if done + batch_size <= total {
        (done + batch_size) as usize
    } else {
        total
    }
}

/// The next batch when `done` of `total` texts are embedded: the range of
/// its texts, which starts at `done`. There is none when all are done. The
/// end of the range is what is done after the batch, to be reported as
/// progress.
pub fn next_batch(done: usize, total: usize, batch_size: usize) -> (r: Option<(usize, usize)>)
    requires
        batch_size > 0,
    ensures
        r == if done < total {
            Some((done, batch_end(done, total, batch_size)))
        } else {
            None
        },
        r matches Some(range) ==> range.0 < range.1 <= total,
{
    if done >= total {
        None
    } else if batch_size >= total - done {
        Some((done, total))
    } else {
        Some((done, done + batch_size))
    }
}

/// What is said when vectors do not have the length of the model.
pub open spec fn dimension_mismatch() -> Seq<char> {
    "Embedding dimension mismatch"@
}

/// Whether every vector has the length that the model gives: an embedding
/// error if one has not.
pub fn check_dimensions(lengths: &Vec<usize>, dimension: usize) -> (r: Result<(), LgrepError>)
    ensures
        r is Ok <==> forall|i: int| 0 <= i < lengths@.len() ==> lengths@[i] == dimension,
        r matches Err(e) ==> e matches LgrepError::Embedding(cause) && cause@
            == dimension_mismatch(),
{
    let mut i: usize = 0;
    while i < lengths.len()
        invariant
            i <= lengths@.len(),
            forall|k: int| 0 <= k < i ==> lengths@[k] == dimension,
        decreases lengths@.len() - i,
    {
        if lengths[i] != dimension {
            return Err(LgrepError::Embedding("Embedding dimension mismatch".to_owned()));
        }
        i += 1;
    }
    Ok(())
}

} // verus!

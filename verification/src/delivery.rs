//! The delivery worker's law.
//!
//! The worker consumes queued payloads in order and posts each once, best
//! effort: a failed attempt is logged and dropped, never retried, and never
//! touches the rest of the queue. [`worker_attempts`] models a run of the
//! worker over a queue together with the success or failure of each post;
//! the lemma below pins down that the attempts are the queue itself,
//! whatever the outcomes were.

use vstd::prelude::*;

verus! {

/// The payloads the worker attempts, in order, given the queued payloads
/// and the outcome of each attempt.
pub open spec fn worker_attempts(queue: Seq<Seq<u8>>, outcomes: Seq<bool>) -> Seq<Seq<u8>>
    decreases queue.len(),
{
    if queue.len() == 0 {
        Seq::empty()
    } else {
        seq![queue[0]] + worker_attempts(queue.skip(1), outcomes.skip(1))
    }
}

/// A failed delivery neither blocks nor drops a later event: every queued
/// payload is attempted exactly once, in queue order, whatever the
/// outcomes of the attempts before it.
pub proof fn lemma_delivery_failure_isolated(queue: Seq<Seq<u8>>, outcomes: Seq<bool>)
    ensures
        worker_attempts(queue, outcomes) =~= queue,
    decreases queue.len(),
{
    if queue.len() > 0 {
        lemma_delivery_failure_isolated(queue.skip(1), outcomes.skip(1));
        assert(worker_attempts(queue, outcomes) =~= seq![queue[0]] + queue.skip(1));
        assert(seq![queue[0]] + queue.skip(1) =~= queue);
    }
}

} // verus!

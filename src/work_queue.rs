//! The queue of ports that wait for a worker: crossbeam's unbounded FIFO
//! queue, seen through the sequence of ports it holds.
use crossbeam::queue::SegQueue;
use vstd::prelude::*;

verus! {

/// crossbeam's `SegQueue`, opaque to proofs: what it holds is `queued`.
#[verifier::external_type_specification]
#[verifier::external_body]
#[verifier::reject_recursive_types(T)]
pub struct ExSegQueue<T>(SegQueue<T>);

/// The ports that a queue holds, front first.
pub uninterp spec fn queued(q: SegQueue<u16>) -> Seq<u16>;

/// Relies on `SegQueue::new`: a new queue is empty.
#[verifier::external_body]
pub(crate) fn new_queue() -> (q: SegQueue<u16>)
    ensures
        queued(q) == Seq::<u16>::empty(),
{
    SegQueue::new()
}

/// Relies on `SegQueue::push_mut`: the port goes to the back of the queue.
#[verifier::external_body]
pub(crate) fn push_port(q: &mut SegQueue<u16>, port: u16)
    ensures
        queued(*final(q)) == queued(*old(q)).push(port),
{
    q.push_mut(port)
}

/// Relies on `SegQueue::pop_mut`: the front port leaves the queue, and an
/// empty queue gives `None` and stays empty.
#[verifier::external_body]
pub(crate) fn pop_port(q: &mut SegQueue<u16>) -> (r: Option<u16>)
    ensures
        queued(*old(q)).len() == 0 ==> r.is_none() && queued(*final(q)) == queued(*old(q)),
        queued(*old(q)).len() > 0 ==> r == Some(queued(*old(q))[0]) && queued(*final(q))
            == queued(*old(q)).drop_first(),
{
    q.pop_mut()
}

} // verus!

//! A queue shared by a producer and a consumer. The library holds the
//! queue and decides what each operation does to it and whether the other
//! side must be woken; the lock and the condition variable around it belong
//! to the caller.
use vstd::prelude::*;
use std::collections::VecDeque;

verus! {

/// The length at which a write reports the queue as full.
pub const BUFFER_MAX_SIZE: usize = 10;

/// The error of a write that brought the queue to `BUFFER_MAX_SIZE`.
pub struct CircularBufferError;

/// A queue of values: writes go in at the front, reads come out at the
/// back, so values come out in the order in which they went in.
pub struct RingBuffer<T> {
    buffer: VecDeque<T>,
}

impl<T> RingBuffer<T> {
    /// The queued values, from the front (newest) to the back (oldest).
    pub closed spec fn view(&self) -> Seq<T> {
        self.buffer@
    }

    /// An empty queue.
    pub fn new() -> (r: Self)
        ensures
            r.view() == Seq::<T>::empty(),
    {
        Self { buffer: VecDeque::new() }
    }

    /// Whether the queue is empty: a reader waits while it is.
    pub fn is_empty(&self) -> (r: bool)
        ensures
            r == (self.view().len() == 0),
    {
        self.buffer.len() == 0
    }

    /// The number of queued values.
    pub fn len(&self) -> (r: usize)
        ensures
            r == self.view().len(),
    {
        self.buffer.len()
    }

    /// Takes the oldest value, or `None` when the queue is empty (a reader
    /// waits until it is not). When the queue is left empty, a waiting
    /// writer is to be woken.
    pub fn read(&mut self) -> (r: Option<T>)
        ensures
            old(self).view().len() == 0 ==> r is None && final(self).view() == old(self).view(),
            old(self).view().len() > 0 ==> r == Some(old(self).view().last())
                && final(self).view() == old(self).view().drop_last(),
    {
        let result = self.buffer.pop_back();
        proof {
            if old(self).view().len() > 0 {
                assert(self.buffer@ =~= old(self).view().drop_last());
            }
        }
        result
    }

    /// Puts `value` in; reports the queue as full, with the value kept in
    /// it, when it now holds `BUFFER_MAX_SIZE` values (a reader is then to
    /// be woken).
    pub fn write(&mut self, value: T) -> (r: Result<(), CircularBufferError>)
        ensures
            final(self).view() == seq![value] + old(self).view(),
            r is Err <==> final(self).view().len() == BUFFER_MAX_SIZE,
    {
        self.buffer.push_front(value);
        if self.buffer.len() == BUFFER_MAX_SIZE {
            return Err(CircularBufferError);
        }
        Ok(())
    }
}

/// What goes in comes out first: a value written to an empty queue is what
/// the next read gives back, and the queue is empty again. The states are
/// those that `write` and then `read` promise.
pub proof fn lemma_write_then_read<T>(q0: Seq<T>, value: T, q1: Seq<T>, read: Option<T>, q2: Seq<T>)
    requires
        q0.len() == 0,
        q1 == seq![value] + q0,
        q1.len() > 0 ==> read == Some(q1.last()) && q2 == q1.drop_last(),
    ensures
        read == Some(value),
        q2 == q0,
{
    assert(q1.drop_last() =~= q0);
}

/// Reads give values in the order of their writes: after `a` and then `b`
/// are written, the next read gives the value that was oldest before, or
/// `a` if the queue was empty; the read after it gives `b` when the queue
/// was empty.
pub proof fn lemma_fifo<T>(q0: Seq<T>, a: T, b: T)
    ensures
        (seq![b] + (seq![a] + q0)).last() == if q0.len() == 0 { a } else { q0.last() },
        q0.len() == 0 ==> (seq![b] + (seq![a] + q0)).drop_last().last() == b,
{
}

} // verus!

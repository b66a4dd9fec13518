use vstd::prelude::*;

use std::sync::atomic::{AtomicBool, AtomicUsize, Ordering};
use std::sync::Arc;

use crate::buffer::{is_least, least_index, Placed};
use crate::channel::{clone_sender, pending, send, try_recv, unbounded, QueueClosed, Received};
use crate::index_path::IndexPath;

verus! {

/// A pending expansion of one node: its ordinal path and its payload. Among
/// buffered items, the one with the least path is handed out first.
pub struct Work<T> {
    pub index_path: IndexPath,
    pub value: T,
}

impl<T> Placed for Work<T> {
    open spec fn place(&self) -> Seq<usize> {
        self.index_path@
    }

    fn path(&self) -> (r: &IndexPath) {
        &self.index_path
    }
}

/// `longer` holds all of `shorter`, in order, followed by any further items.
pub open spec fn extends<E>(longer: Seq<E>, shorter: Seq<E>) -> bool {
    longer.len() >= shorter.len() && longer.subrange(0, shorter.len() as int) == shorter
}

/// What a worker is to do next, given what it has read.
#[derive(PartialEq, Eq, Structural, Debug, Clone, Copy)]
pub enum WorkStep {
    /// A stop was requested: end the stream.
    Stop,
    /// Hand out the earliest buffered item.
    Take,
    /// Nothing is buffered and nothing is in flight: no item can ever come.
    Finish,
    /// Nothing is buffered but items are in flight: yield, then look again.
    Wait,
}

/// The decision of one step of a worker. The stream ends exactly when a stop
/// was requested, or when nothing is buffered and nothing is in flight.
pub fn work_step(stop_requested: bool, buffered: usize, in_flight: usize) -> (r: WorkStep)
    ensures
        r == WorkStep::Stop <==> stop_requested,
        r == WorkStep::Take <==> !stop_requested && buffered > 0,
        r == WorkStep::Finish <==> !stop_requested && buffered == 0 && in_flight == 0,
        r == WorkStep::Wait <==> !stop_requested && buffered == 0 && in_flight > 0,
        (r == WorkStep::Stop || r == WorkStep::Finish) <==> (stop_requested || (buffered == 0 && in_flight == 0)),
{
    if stop_requested {
        WorkStep::Stop
    } else if buffered > 0 {
        WorkStep::Take
    } else if in_flight == 0 {
        WorkStep::Finish
    } else {
        WorkStep::Wait
    }
}

/// The outcome of one step of a worker.
pub enum WorkPoll<T> {
    /// An item to expand; `completed_work` is owed for it.
    Ready(T),
    /// Items are in flight but none has arrived: yield, then step again.
    Wait,
    /// No work is buffered or in flight: the stream is over.
    Finished,
    /// A stop was requested: the stream is over.
    Stopped,
}

/// The producing side of a work queue. Every clone shares the channel, the
/// in-flight count and the stop flag.
#[verifier::reject_recursive_types(T)]
pub struct WorkQueue<T> {
    sender: crossbeam::channel::Sender<Work<T>>,
    work_count: Arc<AtomicUsize>,
    stop_now: Arc<AtomicBool>,
}

/// The consuming side of a work queue.
#[verifier::reject_recursive_types(T)]
pub struct WorkQueueIter<T> {
    receiver: crossbeam::channel::Receiver<Work<T>>,
    receive_buffer: Vec<Work<T>>,
    work_count: Arc<AtomicUsize>,
    stop_now: Arc<AtomicBool>,
}

/// Makes a work queue with nothing in flight and no stop requested.
pub fn new_work_queue<T>() -> (r: (WorkQueue<T>, WorkQueueIter<T>))
    ensures
        r.1.buffered().len() == 0,
{
    let work_count = Arc::new(AtomicUsize::new(0));
    let stop_now = Arc::new(AtomicBool::new(false));
    let (sender, receiver) = unbounded();
    (
        WorkQueue { sender, work_count: work_count.clone(), stop_now: stop_now.clone() },
        WorkQueueIter { receiver, receive_buffer: Vec::new(), work_count, stop_now },
    )
}

impl<T> Clone for WorkQueue<T> {
    fn clone(&self) -> (r: WorkQueue<T>) {
        WorkQueue {
            sender: clone_sender(&self.sender),
            work_count: self.work_count.clone(),
            stop_now: self.stop_now.clone(),
        }
    }
}

impl<T> WorkQueue<T> {
    /// Counts the item as in flight, then sends it. When no consumer is left
    /// the item comes back in the error; it stays counted.
    pub fn push(&self, work: Work<T>) -> (r: Result<(), QueueClosed<Work<T>>>)
        ensures
            r matches Err(e) ==> e.0 == work,
    {
        self.work_count.fetch_add(1, Ordering::SeqCst);
        match send(&self.sender, work) {
            Ok(()) => Ok(()),
            Err(w) => Err(QueueClosed(w)),
        }
    }

    /// Marks one handed-out item as done: one fewer in flight.
    pub fn completed_work(&self) {
        self.work_count.fetch_sub(1, Ordering::SeqCst);
    }

    /// Requests a stop: every worker's stream ends at its next step.
    pub fn stop_now(&self) {
        self.stop_now.store(true, Ordering::SeqCst);
    }
}

impl<T> WorkQueueIter<T> {
    /// The items taken off the channel and not yet handed out.
    pub closed spec fn buffered(&self) -> Seq<Work<T>> {
        self.receive_buffer@
    }

    fn work_count(&self) -> usize {
        self.work_count.load(Ordering::SeqCst)
    }

    fn is_stop_now(&self) -> bool {
        self.stop_now.load(Ordering::SeqCst)
    }

    /// Takes what one receive attempt gave: a message joins the buffer and the
    /// drain goes on; an empty or closed channel ends the drain.
    pub fn take_in(&mut self, m: Received<Work<T>>) -> (more: bool)
        ensures
            m matches Received::Message(w) ==> more && final(self).buffered() == old(self).buffered().push(w),
            !(m is Message) ==> !more && final(self).buffered() == old(self).buffered(),
    {
        match m {
            Received::Message(w) => {
                self.receive_buffer.push(w);
                true
            },
            _ => false,
        }
    }

    /// Moves into the buffer the messages that the channel held when the call
    /// began, as far as no other worker takes them first.
    fn drain(&mut self)
        ensures
            extends(final(self).buffered(), old(self).buffered()),
    {
        let n = pending(&self.receiver);
        let ghost start = self.receive_buffer@;
        assert(start.subrange(0, start.len() as int) =~= start);
        let mut k: usize = 0;
        while k < n
            invariant
                extends(self.buffered(), start),
                start == old(self).buffered(),
            decreases n - k,
        {
            let ghost before = self.receive_buffer@;
            let more = self.take_in(try_recv(&self.receiver));
            assert(self.buffered().subrange(0, start.len() as int) =~= before.subrange(0, start.len() as int));
            if !more {
                return;
            }
            k = k + 1;
        }
    }

    /// One step of a worker. When a stop was requested the stream ends. Else
    /// the messages waiting on the channel join the buffer, and the item with
    /// the least path is handed out; with none buffered, the stream ends when
    /// nothing is in flight, and otherwise the worker is to wait.
    pub fn next(&mut self) -> (r: WorkPoll<Work<T>>)
        ensures
            r is Stopped ==> final(self).buffered() == old(self).buffered(),
            old(self).buffered().len() > 0 ==> r is Ready || r is Stopped,
            r is Finished || r is Wait ==> final(self).buffered().len() == 0,
            r matches WorkPoll::Ready(w) ==> exists|all: Seq<Work<T>>, i: int| {
                &&& extends(all, old(self).buffered())
                &&& is_least(all, i)
                &&& all[i] == w
                &&& final(self).buffered() == all.remove(i)
            },
    {
        let stop = self.is_stop_now();
        if !stop {
            self.drain();
        }
        let in_flight = self.work_count();
        match work_step(stop, self.receive_buffer.len(), in_flight) {
            WorkStep::Stop => WorkPoll::Stopped,
            WorkStep::Finish => WorkPoll::Finished,
            WorkStep::Wait => WorkPoll::Wait,
            WorkStep::Take => {
                let ghost all = self.receive_buffer@;
                let i = least_index(&self.receive_buffer).unwrap();
                let w = self.receive_buffer.remove(i);
                assert(extends(all, old(self).buffered()) && is_least(all, i as int) && all[i as int] == w);
                WorkPoll::Ready(w)
            },
        }
    }
}

} // verus!

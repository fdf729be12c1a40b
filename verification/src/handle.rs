//! The ends of the job queue, and the calls on them.
//!
//! This module holds nothing but the queue's types and the calls into
//! `crossbeam::channel`. A handle keeps a record of the jobs that were given to
//! the queue through it, and only the calls of this module write that record.
use crate::queue::{Job, Task};
use crossbeam::channel::Receiver;
use vstd::prelude::*;

verus! {

/// A `crossbeam::channel::Sender` of jobs. Verus sees nothing inside it, and
/// nothing is claimed of it.
#[verifier::external_body]
#[verifier::reject_recursive_types(P)]
pub struct RawSender<P> {
    inner: crossbeam::channel::Sender<Job<P>>,
}

/// `crossbeam::channel::Receiver`, the consuming end of the job queue, carried
/// through as an opaque value.
#[verifier::external_type_specification]
#[verifier::external_body]
#[verifier::reject_recursive_types(T)]
pub struct ExReceiver<T>(Receiver<T>);

/// A handle of the producing end of the job queue. The queue stays open for as
/// long as one of its handles is alive.
///
/// Beside the sender the handle carries a record, for proofs only, of the jobs
/// that were given to `Sender::send` through this handle. The record says
/// nothing of what the queue holds or has delivered.
#[verifier::reject_recursive_types(P)]
pub struct JobSender<P> {
    raw: RawSender<P>,
    handed: Ghost<Seq<Task<P>>>,
}

impl<P> JobSender<P> {
    /// The jobs that were handed to the queue through this handle, oldest first.
    pub closed spec fn handed(&self) -> Seq<Task<P>> {
        self.handed@
    }
}

/// Calls `crossbeam::channel::unbounded`: a new queue and its two ends. Of the
/// queue nothing is claimed; through the new handle nothing has been handed to
/// it yet.
#[verifier::external_body]
pub(crate) fn open_queue<P>() -> (ends: (JobSender<P>, Receiver<Job<P>>))
    ensures
        ends.0.handed() == Seq::<Task<P>>::empty(),
{
    let (sender, receiver) = crossbeam::channel::unbounded();
    (JobSender { raw: RawSender { inner: sender }, handed: Ghost(Seq::empty()) }, receiver)
}

/// Calls `Sender::clone`: one more handle of the same queue, through which
/// nothing has been handed to it yet. Of the queue nothing is claimed.
#[verifier::external_body]
pub(crate) fn share<P>(sender: &JobSender<P>) -> (handle: JobSender<P>)
    ensures
        handle.handed() == Seq::<Task<P>>::empty(),
{
    JobSender { raw: RawSender { inner: sender.raw.inner.clone() }, handed: Ghost(Seq::empty()) }
}

/// Calls `Sender::send` with `job` and says whether the queue took it. The queue
/// of `open_queue` has no bound, so the call does not wait; it refuses a job only
/// once every receiver is gone. Which of the two happens is not claimed: the
/// record of the handle grows by the job either way, for the job was handed over.
#[verifier::external_body]
pub(crate) fn put<P>(sender: &mut JobSender<P>, job: Job<P>) -> (accepted: bool)
    ensures
        final(sender).handed() == old(sender).handed().push(job@),
{
    sender.raw.inner.send(job).is_ok()
}

} // verus!

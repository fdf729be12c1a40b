//! The job queue: what a job is, and how the queue of a sweep is seeded.
use crate::handle::{open_queue, put, share, JobSender};
use crossbeam::channel::Receiver;
use vstd::prelude::*;

verus! {

/// A unit of work for the pool.
#[verifier::reject_recursive_types(P)]
pub enum Job<P> {
    /// List and classify the directory; the handle lets the results be queued.
    Scan(P, JobSender<P>),
    /// Delete the directory tree.
    Remove(P),
}

/// What a job asks for, without the queue handle that it carries.
pub enum Task<P> {
    /// List and classify the directory.
    Scan(P),
    /// Delete the directory tree.
    Remove(P),
}

impl<P> View for Job<P> {
    type V = Task<P>;

    open spec fn view(&self) -> Task<P> {
        match *self {
            Job::Scan(dir, _) => Task::Scan(dir),
            Job::Remove(path) => Task::Remove(path),
        }
    }
}

impl<P> Job<P> {
    /// The directory that the job is about.
    pub fn path(&self) -> (path: &P)
        ensures
            *path == match self@ {
                Task::Scan(dir) => dir,
                Task::Remove(dir) => dir,
            },
    {
        match self {
            Job::Scan(dir, _) => dir,
            Job::Remove(dir) => dir,
        }
    }

    /// Whether the job asks for a directory to be listed.
    pub fn is_scan(&self) -> (scan: bool)
        ensures
            scan == (self@ is Scan),
    {
        match self {
            Job::Scan(_, _) => true,
            Job::Remove(_) => false,
        }
    }
}

/// A job queue that was just seeded: its consuming end, and the handle through
/// which it was seeded.
#[verifier::reject_recursive_types(P)]
pub struct Seeded<P> {
    receiver: Receiver<Job<P>>,
    sender: JobSender<P>,
}

impl<P> Seeded<P> {
    /// The jobs that were handed to the queue in seeding it, oldest first.
    pub closed spec fn jobs(&self) -> Seq<Task<P>> {
        self.sender.handed()
    }

    /// The consuming end of the queue.
    pub closed spec fn consumer(&self) -> Receiver<Job<P>> {
        self.receiver
    }

    /// Gives the consuming end to the workers and drops the handle that was used
    /// for seeding. From then on the queue closes by itself once the last job
    /// that can still produce others is done.
    pub fn into_receiver(self) -> (receiver: Receiver<Job<P>>)
        ensures
            receiver == self.consumer(),
    {
        self.receiver
    }
}

/// Opens the job queue and seeds it with the scan of `root`: that one job is
/// handed to the queue, and nothing else. The root's job carries a handle of its
/// own, so the queue stays open when the seeding handle is dropped.
pub fn seed<P>(root: P) -> (queue: Seeded<P>)
    ensures
        queue.jobs() == seq![Task::Scan(root)],
{
    let (mut sender, receiver) = open_queue();
    let handle = share(&sender);
    let _accepted = put(&mut sender, Job::Scan(root, handle));
    Seeded { receiver, sender }
}

} // verus!

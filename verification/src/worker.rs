//! What a worker of the pool does with the outcome of a job, and how the results
//! of the workers make the result of the pool.
use crate::handle::{put, JobSender};
use crate::observer::{heard_all, lemma_heard_nothing, lemma_heard_one_more, Event, Observer};
use crate::queue::Task;
use crate::scanner::{listing_view, scan, scan_results, tasks_of, Entry, EntryView, ScanState};
use vstd::prelude::*;

verus! {

/// The errors among `results`, in order.
pub open spec fn failures<T, E>(results: Seq<Result<T, E>>) -> Seq<E>
    decreases results.len(),
{
    if results.len() == 0 {
        Seq::empty()
    } else {
        match results.last() {
            Ok(_) => failures(results.drop_last()),
            Err(e) => failures(results.drop_last()).push(e),
        }
    }
}

/// The values among `results` that are no errors, in order.
pub open spec fn successes<T, E>(results: Seq<Result<T, E>>) -> Seq<T>
    decreases results.len(),
{
    if results.len() == 0 {
        Seq::empty()
    } else {
        match results.last() {
            Ok(value) => successes(results.drop_last()).push(value),
            Err(_) => successes(results.drop_last()),
        }
    }
}

/// What a directory's listing came to: the error of a listing that could not be
/// read, or its entries by their view.
pub open spec fn outcome_view<P, E>(listing: Result<Vec<Result<Entry<P>, E>>, E>) -> Result<
    Seq<Result<EntryView<P>, E>>,
    E,
> {
    match listing {
        Ok(entries) => Ok(listing_view(entries@)),
        Err(e) => Err(e),
    }
}

/// Whether the scan of a directory with this listing counts as failed: the
/// listing could not be read, or one of its entries could not.
pub open spec fn scan_failed<P, E>(listing: Result<Seq<Result<EntryView<P>, E>>, E>) -> bool {
    match listing {
        Ok(entries) => failures(entries).len() > 0,
        Err(_) => true,
    }
}

/// What the observer is told of the scan of `dir` with this listing: each error in
/// listing order, then, once, that `dir` was processed.
pub open spec fn scan_events<P, E>(dir: P, listing: Result<Seq<Result<EntryView<P>, E>>, E>)
    -> Seq<Event<P, E>> {
    match listing {
        Ok(entries) => failures(entries).map_values(|e: E| Event::Error(e)).push(
            Event::Scanned(dir),
        ),
        Err(e) => seq![Event::Error(e), Event::Scanned(dir)],
    }
}

/// The jobs that the scan of a directory with this listing puts on the queue, in
/// listing order. A listing that could not be read gives none.
pub open spec fn scan_jobs<P, E>(listing: Result<Seq<Result<EntryView<P>, E>>, E>) -> Seq<Task<P>> {
    match listing {
        Ok(entries) => successes(scan_results(ScanState::Nothing, entries)),
        Err(_) => Seq::empty(),
    }
}

/// What the observer is told of the deletion of `path`.
pub open spec fn removal_event<P, E>(path: P, outcome: Result<(), E>) -> Event<P, E> {
    match outcome {
        Ok(_) => Event::Removal(path),
        Err(e) => Event::Error(e),
    }
}

/// A scan passes the errors of the unreadable entries on, one for one and in order.
pub proof fn lemma_scan_keeps_failures<P, E>(
    start: ScanState<P>,
    entries: Seq<Result<EntryView<P>, E>>,
)
    ensures
        failures(scan_results(start, entries)) == failures(entries),
    decreases entries.len(),
{
    if entries.len() > 0 {
        lemma_scan_keeps_failures(start, entries.drop_last());
        let earlier = scan_results(start, entries.drop_last());
        match entries.last() {
            Ok(entry) => {
                let state = crate::scanner::state_after(start, entries.drop_last());
                match state.emits(entry) {
                    Some(task) => {
                        assert(earlier.push(Ok(task)).drop_last() == earlier);
                    },
                    None => {},
                }
            },
            Err(e) => {
                assert(earlier.push(Err(e)).drop_last() == earlier);
            },
        }
    }
}

/// Whatever the listing of a directory came to, its scan tells the observer once
/// that the directory was processed, and last; what it tells before are errors,
/// and there is one if and only if the scan counts as failed.
pub proof fn lemma_directory_is_reported_once<P, E>(
    dir: P,
    listing: Result<Seq<Result<EntryView<P>, E>>, E>,
)
    ensures
        scan_events(dir, listing).len() >= 1,
        scan_events(dir, listing).last() == Event::<P, E>::Scanned(dir),
        forall|i: int|
            0 <= i < scan_events(dir, listing).len() - 1 ==> (#[trigger] scan_events(
                dir,
                listing,
            )[i]) is Error,
        scan_failed(listing) <==> scan_events(dir, listing).len() > 1,
{
}

/// One worker of the pool: the observer it reports to, and whether anything it
/// handled has failed.
pub struct Worker<O> {
    observer: O,
    failed: bool,
}

impl<O> Worker<O> {
    /// Whether a job handled by this worker has failed.
    pub closed spec fn has_failed(&self) -> bool {
        self.failed
    }

    /// The observer that this worker reports to, as it is now.
    pub closed spec fn observer(&self) -> O {
        self.observer
    }

    /// A worker that has handled nothing yet and reports to `observer`.
    pub fn new(observer: O) -> (worker: Self)
        ensures
            !worker.has_failed(),
            worker.observer() == observer,
    {
        Worker { observer, failed: false }
    }

    /// Whether a job handled by this worker has failed.
    pub fn failed(&self) -> (failed: bool)
        ensures
            failed == self.has_failed(),
    {
        self.failed
    }

    /// Reports `e` to the observer and marks the worker as failed.
    fn tell_error<P, E>(&mut self, e: E) where O: Observer<P, E>
        ensures
            final(self).failed,
            final(self).observer.heard(&old(self).observer, Event::Error(e)),
    {
        self.observer.on_error(e);
        self.failed = true;
    }

    /// Handles the outcome of a scan job: `listing` is what listing `dir` gave.
    ///
    /// The entries are classified in listing order. Each job that comes of them is
    /// handed to the queue through `sender`; a queue that is closed drops it,
    /// which is no failure. Each entry that could not be read, or the listing
    /// that could not, is reported to the observer and makes the worker failed.
    /// At the end the observer is told, once, that `dir` was processed.
    pub fn finish_scan<P, E>(
        &mut self,
        dir: P,
        listing: Result<Vec<Result<Entry<P>, E>>, E>,
        sender: &mut JobSender<P>,
    ) where O: Observer<P, E>
        ensures
            final(self).has_failed() == (old(self).has_failed() || scan_failed(
                outcome_view(listing),
            )),
            heard_all(
                final(self).observer(),
                old(self).observer(),
                scan_events(dir, outcome_view(listing)),
            ),
            final(sender).handed() == old(sender).handed() + scan_jobs(outcome_view(listing)),
    {
        let ghost errors_told: Seq<Event<P, E>>;
        match listing {
            Ok(entries) => {
                let ghost items = listing_view(entries@);
                let results = scan(entries, sender);
                let ghost tasks = tasks_of(results@);
                proof {
                    lemma_scan_keeps_failures(ScanState::Nothing, items);
                    lemma_heard_nothing::<P, E, O>(self.observer);
                    assert(tasks.take(0) == Seq::<Result<Task<P>, E>>::empty());
                    assert(failures(tasks.take(0)).map_values(|e: E| Event::<P, E>::Error(e))
                        == Seq::<Event<P, E>>::empty());
                    assert(old(sender).handed() + Seq::<Task<P>>::empty() == old(sender).handed());
                }
                for item in iter: results
                    invariant
                        tasks == tasks_of(iter.seq()),
                        self.failed == (old(self).failed || failures(
                            tasks.take(iter.index()),
                        ).len() > 0),
                        heard_all(
                            self.observer,
                            old(self).observer,
                            failures(tasks.take(iter.index())).map_values(|e: E| Event::Error(e)),
                        ),
                        sender.handed() == old(sender).handed() + successes(
                            tasks.take(iter.index()),
                        ),
                {
                    proof {
                        let seen = tasks.take(iter.index() + 1);
                        assert(seen.drop_last() == tasks.take(iter.index()));
                        assert(seen.last() == tasks[iter.index()]);
                    }
                    let ghost told = failures(tasks.take(iter.index())).map_values(
                        |e: E| Event::Error(e),
                    );
                    let ghost heard = self.observer;
                    match item {
                        Ok(job) => {
                            let _accepted = put(sender, job);
                            assert(sender.handed() =~= old(sender).handed() + successes(
                                tasks.take(iter.index() + 1),
                            ));
                        },
                        Err(e) => {
                            self.tell_error(e);
                            proof {
                                lemma_heard_one_more(
                                    self.observer,
                                    heard,
                                    old(self).observer,
                                    told,
                                    Event::Error(e),
                                );
                                assert(told.push(Event::Error(e)) =~= failures(
                                    tasks.take(iter.index() + 1),
                                ).map_values(|e: E| Event::Error(e)));
                            }
                        },
                    }
                }
                proof {
                    assert(tasks.take(tasks.len() as int) == tasks);
                    errors_told = failures(items).map_values(|e: E| Event::Error(e));
                }
            },
            Err(e) => {
                self.tell_error(e);
                proof {
                    errors_told = Seq::empty().push(Event::Error(e));
                    lemma_heard_nothing::<P, E, O>(old(self).observer);
                    lemma_heard_one_more(
                        self.observer,
                        old(self).observer,
                        old(self).observer,
                        Seq::empty(),
                        Event::Error(e),
                    );
                    assert(sender.handed() =~= old(sender).handed() + Seq::<Task<P>>::empty());
                }
            },
        }
        let ghost heard = self.observer;
        self.observer.on_scanned(&dir);
        proof {
            lemma_heard_one_more(
                self.observer,
                heard,
                old(self).observer,
                errors_told,
                Event::Scanned(dir),
            );
            assert(errors_told.push(Event::Scanned(dir)) =~= scan_events(
                dir,
                outcome_view(listing),
            ));
        }
    }

    /// Handles the outcome of a remove job: `outcome` is what deleting the tree at
    /// `path` gave. A deletion is reported to the observer as a removal, a failure
    /// as an error, which makes the worker failed. Nothing is handed to the queue.
    pub fn finish_removal<P, E>(&mut self, path: P, outcome: Result<(), E>) where
        O: Observer<P, E>,
        ensures
            final(self).has_failed() == (old(self).has_failed() || outcome is Err),
            final(self).observer().heard(&old(self).observer(), removal_event(path, outcome)),
    {
        match outcome {
            Ok(_) => {
                self.observer.on_removal(&path);
            },
            Err(e) => {
                self.tell_error(e);
            },
        }
    }
}

/// The result of the pool: success if and only if no worker has failed.
pub fn pool_succeeded(worker_failed: &Vec<bool>) -> (success: bool)
    requires
        worker_failed.len() >= 1,
    ensures
        success == (forall|i: int| 0 <= i < worker_failed.len() ==> !worker_failed[i]),
{
    let mut success = true;
    let mut i: usize = 0;
    while i < worker_failed.len()
        invariant
            i <= worker_failed.len(),
            success == (forall|j: int| 0 <= j < i ==> !worker_failed[j]),
        decreases worker_failed.len() - i,
    {
        if worker_failed[i] {
            success = false;
        }
        i = i + 1;
    }
    success
}

} // verus!

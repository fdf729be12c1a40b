//! A worker that handles the jobs of a sweep one by one: what `finish_scan` and
//! `finish_removal` promise of each job, put together over the jobs of a tree,
//! gives what `sweep` says of the tree.
use crate::laws::{removals, scans};
use crate::observer::{
    counted_all, heard_all, lemma_heard_all_of_concatenation, lemma_heard_nothing,
    lemma_heard_one_more, lemma_status_counts_what_it_hears, Event, Observer, Status,
};
use crate::queue::Task;
use crate::scanner::{scan_results, EntryClass, EntryView, ScanState};
use crate::sweep::{
    any_scan_failed, any_scan_failed_below, deleted, deleted_below, entries, listing_of, path_of,
    removal_events, sweep_failed, told, told_below, Node, Tree,
};
use crate::worker::{removal_event, scan_events, scan_failed, scan_jobs, successes};
use vstd::prelude::*;

verus! {

/// A job with what the file system gave for it.
pub enum Handled<P, E> {
    /// The scan of a directory, and what listing it gave.
    Scan(P, Result<Seq<Result<EntryView<P>, E>>, E>),
    /// The deletion of a directory tree, and what it gave.
    Removal(P, Result<(), E>),
}

/// A worker as far as its contracts speak of it: its observer, and whether a job
/// it handled has failed.
pub struct Reached<O> {
    pub observer: O,
    pub failed: bool,
}

/// What the observer is told of the job.
pub open spec fn events_of<P, E>(job: Handled<P, E>) -> Seq<Event<P, E>> {
    match job {
        Handled::Scan(dir, listing) => scan_events(dir, listing),
        Handled::Removal(path, outcome) => seq![removal_event(path, outcome)],
    }
}

/// Whether the job counts as failed.
pub open spec fn fails<P, E>(job: Handled<P, E>) -> bool {
    match job {
        Handled::Scan(_, listing) => scan_failed(listing),
        Handled::Removal(_, outcome) => outcome is Err,
    }
}

/// Whether the worker is `after` once it has handled `job` from `before`, as
/// `finish_scan` promises of a scan and `finish_removal` of a deletion.
pub open spec fn handled<P, E, O: Observer<P, E>>(
    after: Reached<O>,
    before: Reached<O>,
    job: Handled<P, E>,
) -> bool {
    &&& after.failed == (before.failed || fails(job))
    &&& match job {
        Handled::Scan(dir, listing) => heard_all(
            after.observer,
            before.observer,
            scan_events(dir, listing),
        ),
        Handled::Removal(path, outcome) => after.observer.heard(
            &before.observer,
            removal_event(path, outcome),
        ),
    }
}

/// Whether the worker with number `i + 1` in `states` is the one with number `i`
/// once it has handled the job with number `i`.
pub open spec fn handled_at<P, E, O: Observer<P, E>>(
    states: Seq<Reached<O>>,
    jobs: Seq<Handled<P, E>>,
    i: int,
) -> bool {
    handled(states[i + 1], states[i], jobs[i])
}

/// Whether `states` are what one worker goes through in handling `jobs`, oldest
/// first.
pub open spec fn worked<P, E, O: Observer<P, E>>(
    states: Seq<Reached<O>>,
    jobs: Seq<Handled<P, E>>,
) -> bool {
    &&& states.len() == jobs.len() + 1
    &&& forall|i: int| 0 <= i < jobs.len() ==> #[trigger] handled_at(states, jobs, i)
}

/// What the observer is told of `jobs`, job by job.
pub open spec fn events_of_all<P, E>(jobs: Seq<Handled<P, E>>) -> Seq<Event<P, E>>
    decreases jobs.len(),
{
    if jobs.len() == 0 {
        Seq::empty()
    } else {
        events_of_all(jobs.drop_last()) + events_of(jobs.last())
    }
}

/// Whether one of `jobs` counts as failed.
pub open spec fn any_fails<P, E>(jobs: Seq<Handled<P, E>>) -> bool
    decreases jobs.len(),
{
    if jobs.len() == 0 {
        false
    } else {
        any_fails(jobs.drop_last()) || fails(jobs.last())
    }
}

/// The deletions of `paths`, each with what `deletion` says it gives.
pub open spec fn removal_jobs<P, E>(paths: Seq<P>, deletion: spec_fn(P) -> Result<(), E>) -> Seq<
    Handled<P, E>,
> {
    paths.map_values(|path: P| Handled::Removal(path, deletion(path)))
}

/// The jobs of the sweep of `tree`, found at `dir`: the scan of the directory,
/// the deletions that this scan schedules, then the jobs of the directories
/// below.
pub open spec fn jobs<P, E>(dir: P, tree: Tree<P, E>, deletion: spec_fn(P) -> Result<(), E>)
    -> Seq<Handled<P, E>>
    decreases tree,
{
    match tree.listing {
        Ok(nodes) => seq![Handled::Scan(dir, listing_of(tree))] + removal_jobs(
            removals(scan_results(ScanState::Nothing, entries(nodes))),
            deletion,
        ) + jobs_below(nodes, deletion),
        Err(_) => seq![Handled::Scan(dir, listing_of(tree))],
    }
}

/// The jobs of the sweep below the entries `nodes`.
pub open spec fn jobs_below<P, E>(nodes: Seq<Node<P, E>>, deletion: spec_fn(P) -> Result<(), E>)
    -> Seq<Handled<P, E>>
    decreases nodes,
{
    if nodes.len() == 0 {
        Seq::empty()
    } else if crate::laws::is_class(nodes.last().entry, EntryClass::Directory) {
        jobs_below(nodes.drop_last(), deletion) + jobs(
            path_of(nodes.last().entry),
            nodes.last().below,
            deletion,
        )
    } else {
        jobs_below(nodes.drop_last(), deletion)
    }
}

/// The deletions among `tasks`, in order.
pub open spec fn removals_in<P>(tasks: Seq<Task<P>>) -> Seq<P>
    decreases tasks.len(),
{
    if tasks.len() == 0 {
        Seq::empty()
    } else {
        match tasks.last() {
            Task::Remove(path) => removals_in(tasks.drop_last()).push(path),
            Task::Scan(_) => removals_in(tasks.drop_last()),
        }
    }
}

/// The scans among `tasks`, in order.
pub open spec fn scans_in<P>(tasks: Seq<Task<P>>) -> Seq<P>
    decreases tasks.len(),
{
    if tasks.len() == 0 {
        Seq::empty()
    } else {
        match tasks.last() {
            Task::Scan(dir) => scans_in(tasks.drop_last()).push(dir),
            Task::Remove(_) => scans_in(tasks.drop_last()),
        }
    }
}

/// What a scan hands to the queue is, kind by kind, what the sweep takes up from
/// it: the deletions that the results of the scan schedule, and the scans of the
/// directories below.
pub proof fn lemma_handed_jobs_by_kind<P, E>(results: Seq<Result<Task<P>, E>>)
    ensures
        removals_in(successes(results)) == removals(results),
        scans_in(successes(results)) == scans(results),
    decreases results.len(),
{
    if results.len() > 0 {
        lemma_handed_jobs_by_kind(results.drop_last());
        match results.last() {
            Ok(task) => {
                assert(successes(results.drop_last()).push(task).drop_last() == successes(
                    results.drop_last(),
                ));
            },
            Err(_) => {},
        }
    }
}

/// What the observer is told of two runs of jobs on end is what it is told of
/// the first, then of the second; and one of them fails if one of either does.
pub proof fn lemma_jobs_of_concatenation<P, E>(
    first: Seq<Handled<P, E>>,
    second: Seq<Handled<P, E>>,
)
    ensures
        events_of_all(first + second) == events_of_all(first) + events_of_all(second),
        any_fails(first + second) == (any_fails(first) || any_fails(second)),
    decreases second.len(),
{
    if second.len() == 0 {
        assert(first + second == first);
        assert(events_of_all(first) + Seq::<Event<P, E>>::empty() == events_of_all(first));
    } else {
        assert((first + second).drop_last() == first + second.drop_last());
        assert((first + second).last() == second.last());
        lemma_jobs_of_concatenation(first, second.drop_last());
        assert((events_of_all(first) + events_of_all(second.drop_last())) + events_of(
            second.last(),
        ) == events_of_all(first) + (events_of_all(second.drop_last()) + events_of(second.last())));
    }
}

proof fn lemma_removal_jobs<P, E>(paths: Seq<P>, deletion: spec_fn(P) -> Result<(), E>)
    ensures
        events_of_all(removal_jobs(paths, deletion)) == removal_events(paths, deletion),
        any_fails(removal_jobs(paths, deletion)) == (exists|i: int|
            0 <= i < paths.len() && (#[trigger] deletion(paths[i])) is Err),
    decreases paths.len(),
{
    if paths.len() > 0 {
        let shorter = paths.drop_last();
        assert(removal_jobs(paths, deletion).drop_last() == removal_jobs(shorter, deletion));
        lemma_removal_jobs(shorter, deletion);
        assert(removal_events(shorter, deletion) + seq![
            removal_event(paths.last(), deletion(paths.last())),
        ] == removal_events(paths, deletion));
        if any_fails(removal_jobs(paths, deletion)) {
            if any_fails(removal_jobs(shorter, deletion)) {
                let i = choose|i: int|
                    0 <= i < shorter.len() && (#[trigger] deletion(shorter[i])) is Err;
                assert(deletion(paths[i]) is Err);
            } else {
                assert(deletion(paths[paths.len() - 1]) is Err);
            }
        }
        if exists|i: int| 0 <= i < paths.len() && (#[trigger] deletion(paths[i])) is Err {
            let i = choose|i: int| 0 <= i < paths.len() && (#[trigger] deletion(paths[i])) is Err;
            if i < shorter.len() {
                assert(deletion(shorter[i]) is Err);
            }
        }
    }
}

/// Whether deleting one of `paths` fails.
pub open spec fn any_deletion_fails<P, E>(paths: Seq<P>, deletion: spec_fn(P) -> Result<(), E>)
    -> bool {
    exists|i: int| 0 <= i < paths.len() && (#[trigger] deletion(paths[i])) is Err
}

proof fn lemma_deletion_fails_in_concatenation<P, E>(
    first: Seq<P>,
    second: Seq<P>,
    deletion: spec_fn(P) -> Result<(), E>,
)
    ensures
        any_deletion_fails(first + second, deletion) == (any_deletion_fails(first, deletion)
            || any_deletion_fails(second, deletion)),
{
    let whole = first + second;
    if any_deletion_fails(whole, deletion) {
        let i = choose|i: int| 0 <= i < whole.len() && (#[trigger] deletion(whole[i])) is Err;
        if i < first.len() {
            assert(deletion(first[i]) is Err);
        } else {
            assert(deletion(second[i - first.len()]) is Err);
        }
    }
    if any_deletion_fails(first, deletion) {
        let i = choose|i: int| 0 <= i < first.len() && (#[trigger] deletion(first[i])) is Err;
        assert(deletion(whole[i]) is Err);
    }
    if any_deletion_fails(second, deletion) {
        let i = choose|i: int| 0 <= i < second.len() && (#[trigger] deletion(second[i])) is Err;
        assert(deletion(whole[first.len() + i]) is Err);
    }
}

/// What the observer is told of the jobs of a sweep is what `told` says of the
/// tree, and one of the jobs fails if and only if the sweep fails.
pub proof fn lemma_jobs_make_the_sweep<P, E>(
    dir: P,
    tree: Tree<P, E>,
    deletion: spec_fn(P) -> Result<(), E>,
)
    ensures
        events_of_all(jobs(dir, tree, deletion)) == told(dir, tree, deletion),
        any_fails(jobs(dir, tree, deletion)) == (any_scan_failed(tree) || any_deletion_fails(
            deleted(tree),
            deletion,
        )),
        any_fails(jobs(dir, tree, deletion)) == sweep_failed(tree, deletion),
    decreases tree,
{
    let scan = seq![Handled::Scan(dir, listing_of(tree))];
    assert(scan.drop_last() == Seq::<Handled<P, E>>::empty());
    assert(scan.last() == Handled::Scan(dir, listing_of(tree)));
    assert(events_of_all(Seq::<Handled<P, E>>::empty()) == Seq::<Event<P, E>>::empty());
    assert(!any_fails(Seq::<Handled<P, E>>::empty()));
    assert(events_of_all(scan) == scan_events(dir, listing_of(tree))) by {
        assert(Seq::<Event<P, E>>::empty() + scan_events(dir, listing_of(tree)) == scan_events(
            dir,
            listing_of(tree),
        ));
    }
    assert(any_fails(scan) == scan_failed(listing_of(tree)));
    match tree.listing {
        Ok(nodes) => {
            let paths = removals(scan_results(ScanState::Nothing, entries(nodes)));
            lemma_removal_jobs(paths, deletion);
            lemma_jobs_below_make_the_sweep(nodes, deletion);
            lemma_jobs_of_concatenation(scan, removal_jobs(paths, deletion));
            lemma_jobs_of_concatenation(
                scan + removal_jobs(paths, deletion),
                jobs_below(nodes, deletion),
            );
            lemma_deletion_fails_in_concatenation(paths, deleted_below(nodes), deletion);
        },
        Err(_) => {
            assert(!any_deletion_fails(Seq::<P>::empty(), deletion));
        },
    }
}

proof fn lemma_jobs_below_make_the_sweep<P, E>(
    nodes: Seq<Node<P, E>>,
    deletion: spec_fn(P) -> Result<(), E>,
)
    ensures
        events_of_all(jobs_below(nodes, deletion)) == told_below(nodes, deletion),
        any_fails(jobs_below(nodes, deletion)) == (any_scan_failed_below(nodes)
            || any_deletion_fails(deleted_below(nodes), deletion)),
    decreases nodes,
{
    if nodes.len() > 0 {
        lemma_jobs_below_make_the_sweep(nodes.drop_last(), deletion);
        if crate::laws::is_class(nodes.last().entry, EntryClass::Directory) {
            lemma_jobs_make_the_sweep(path_of(nodes.last().entry), nodes.last().below, deletion);
            lemma_jobs_of_concatenation(
                jobs_below(nodes.drop_last(), deletion),
                jobs(path_of(nodes.last().entry), nodes.last().below, deletion),
            );
            lemma_deletion_fails_in_concatenation(
                deleted_below(nodes.drop_last()),
                deleted(nodes.last().below),
                deletion,
            );
        }
    } else {
        assert(!any_deletion_fails(Seq::<P>::empty(), deletion));
    }
}

/// A worker that has handled `jobs` one by one has told its observer of each job
/// in turn, and has failed if one of the jobs did or it had before.
pub proof fn lemma_worker_handles_jobs<P, E, O: Observer<P, E>>(
    states: Seq<Reached<O>>,
    jobs: Seq<Handled<P, E>>,
)
    requires
        worked(states, jobs),
    ensures
        heard_all(states.last().observer, states.first().observer, events_of_all(jobs)),
        states.last().failed == (states.first().failed || any_fails(jobs)),
{
    lemma_worker_handles_first_jobs(states, jobs, jobs.len() as int);
    assert(jobs.take(jobs.len() as int) == jobs);
}

proof fn lemma_worker_handles_first_jobs<P, E, O: Observer<P, E>>(
    states: Seq<Reached<O>>,
    jobs: Seq<Handled<P, E>>,
    upto: int,
)
    requires
        worked(states, jobs),
        0 <= upto <= jobs.len(),
    ensures
        heard_all(states[upto].observer, states[0].observer, events_of_all(jobs.take(upto))),
        states[upto].failed == (states[0].failed || any_fails(jobs.take(upto))),
    decreases upto,
{
    if upto == 0 {
        lemma_heard_nothing::<P, E, O>(states[0].observer);
        assert(jobs.take(0) == Seq::<Handled<P, E>>::empty());
    } else {
        lemma_worker_handles_first_jobs(states, jobs, upto - 1);
        assert(handled_at(states, jobs, upto - 1));
        assert(jobs.take(upto).drop_last() == jobs.take(upto - 1));
        assert(jobs.take(upto).last() == jobs[upto - 1]);
        let before = states[upto - 1].observer;
        let after = states[upto].observer;
        match jobs[upto - 1] {
            Handled::Scan(dir, listing) => {},
            Handled::Removal(path, outcome) => {
                lemma_heard_nothing::<P, E, O>(before);
                lemma_heard_one_more(
                    after,
                    before,
                    before,
                    Seq::empty(),
                    removal_event(path, outcome),
                );
                assert(Seq::<Event<P, E>>::empty().push(removal_event(path, outcome))
                    == events_of(jobs[upto - 1]));
            },
        }
        lemma_heard_all_of_concatenation(
            after,
            before,
            states[0].observer,
            events_of_all(jobs.take(upto - 1)),
            events_of(jobs[upto - 1]),
        );
    }
}

/// A worker that has handled the jobs of the sweep of `tree` one by one has told
/// its observer what `told` says of the tree, and has failed if the sweep did or
/// it had before.
pub proof fn lemma_worker_makes_the_sweep<P, E, O: Observer<P, E>>(
    states: Seq<Reached<O>>,
    dir: P,
    tree: Tree<P, E>,
    deletion: spec_fn(P) -> Result<(), E>,
)
    requires
        worked(states, jobs(dir, tree, deletion)),
    ensures
        heard_all(states.last().observer, states.first().observer, told(dir, tree, deletion)),
        states.last().failed == (states.first().failed || sweep_failed(tree, deletion)),
{
    lemma_jobs_make_the_sweep(dir, tree, deletion);
    lemma_worker_handles_jobs(states, jobs(dir, tree, deletion));
}

/// A worker that reports to a status and has handled the jobs of the sweep of
/// `tree` one by one leaves in the status the totals of what `told` says of the
/// tree.
pub proof fn lemma_status_totals_of_the_sweep<P, E>(
    states: Seq<Reached<Status>>,
    dir: P,
    tree: Tree<P, E>,
    deletion: spec_fn(P) -> Result<(), E>,
)
    requires
        worked(states, jobs(dir, tree, deletion)),
    ensures
        states.last().observer@ == counted_all(
            states.first().observer@,
            told(dir, tree, deletion),
        ),
{
    lemma_worker_makes_the_sweep(states, dir, tree, deletion);
    lemma_status_counts_what_it_hears(
        states.last().observer,
        states.first().observer,
        told(dir, tree, deletion),
    );
}

/// What the scan of the tree's own directory hands to the queue: the deletions
/// that the sweep takes up from it, and a scan for each directory below that it
/// descends into.
pub proof fn lemma_scan_hands_over_the_next_jobs<P, E>(tree: Tree<P, E>)
    ensures
        match tree.listing {
            Ok(nodes) => removals_in(scan_jobs(listing_of(tree))) == removals(
                scan_results(ScanState::Nothing, entries(nodes)),
            ) && scans_in(scan_jobs(listing_of(tree))) == crate::laws::subdirectories(
                entries(nodes),
            ),
            Err(_) => scan_jobs(listing_of(tree)) == Seq::<Task<P>>::empty(),
        },
{
    match tree.listing {
        Ok(nodes) => {
            lemma_handed_jobs_by_kind(scan_results(ScanState::Nothing, entries(nodes)));
            crate::laws::lemma_subdirectories_are_scanned(ScanState::Nothing, entries(nodes));
        },
        Err(_) => {},
    }
}

} // verus!

//! What holds of the sweep of a whole directory tree: of every scan job from the
//! root down, each handled once.
//!
//! The sweep is put together from what a worker does with one scan job: it tells
//! the observer `scan_events`, schedules for deletion the `removals` among the
//! results of the scan, and schedules a scan for each entry of class `Directory`
//! (`lemma_subdirectories_are_scanned`), under the path of that entry.
use crate::laws::{
    at_most_one_artifact, distinct_names, has_class, has_class_at, is_class,
    lemma_distinct_names_one_artifact, lemma_no_artifact_no_removal,
    lemma_no_manifest_no_removal, lemma_removals_are_confirmed_artifacts, removals,
};
use crate::observer::{tally, Event};
use crate::scanner::{scan_results, EntryClass, EntryView, ScanState};
use crate::worker::{failures, removal_event, scan_events, scan_failed};
use vstd::prelude::*;

verus! {

/// A directory as a sweep meets it.
pub struct Tree<P, E> {
    /// What listing the directory gives: its entries in listing order, each with
    /// what lies below it, or the error.
    pub listing: Result<Seq<Node<P, E>>, E>,
}

/// One entry of a listing and the tree below it.
pub struct Node<P, E> {
    /// The entry, or the error of reading it.
    pub entry: Result<EntryView<P>, E>,
    /// What the entry is as a directory; it is read only where the entry is one.
    pub below: Tree<P, E>,
}

/// The entries of a listing without what lies below them.
pub open spec fn entries<P, E>(nodes: Seq<Node<P, E>>) -> Seq<Result<EntryView<P>, E>> {
    nodes.map_values(|node: Node<P, E>| node.entry)
}

/// The listing of the tree's own directory, as a worker is handed it.
pub open spec fn listing_of<P, E>(tree: Tree<P, E>) -> Result<Seq<Result<EntryView<P>, E>>, E> {
    match tree.listing {
        Ok(nodes) => Ok(entries(nodes)),
        Err(e) => Err(e),
    }
}

/// The path of a directory entry, under which its own scan is scheduled.
pub open spec fn path_of<P, E>(entry: Result<EntryView<P>, E>) -> P {
    entry->Ok_0.path
}

/// The directories that the sweep of `tree`, found at `dir`, scans: `dir`
/// itself, then, listing by listing, those below each entry that its scan
/// schedules for a scan.
pub open spec fn swept<P, E>(dir: P, tree: Tree<P, E>) -> Seq<P>
    decreases tree,
{
    match tree.listing {
        Ok(nodes) => seq![dir] + swept_below(nodes),
        Err(_) => seq![dir],
    }
}

/// The directories that the sweep scans below the entries `nodes`.
pub open spec fn swept_below<P, E>(nodes: Seq<Node<P, E>>) -> Seq<P>
    decreases nodes,
{
    if nodes.len() == 0 {
        Seq::empty()
    } else if is_class(nodes.last().entry, EntryClass::Directory) {
        swept_below(nodes.drop_last()) + swept(path_of(nodes.last().entry), nodes.last().below)
    } else {
        swept_below(nodes.drop_last())
    }
}

/// The paths that the sweep of `tree` schedules for deletion: those of the
/// tree's own listing, then those of the directories it scans below.
pub open spec fn deleted<P, E>(tree: Tree<P, E>) -> Seq<P>
    decreases tree,
{
    match tree.listing {
        Ok(nodes) => removals(scan_results(ScanState::Nothing, entries(nodes))) + deleted_below(
            nodes,
        ),
        Err(_) => Seq::empty(),
    }
}

/// The paths that the sweep schedules for deletion below the entries `nodes`.
pub open spec fn deleted_below<P, E>(nodes: Seq<Node<P, E>>) -> Seq<P>
    decreases nodes,
{
    if nodes.len() == 0 {
        Seq::empty()
    } else if is_class(nodes.last().entry, EntryClass::Directory) {
        deleted_below(nodes.drop_last()) + deleted(nodes.last().below)
    } else {
        deleted_below(nodes.drop_last())
    }
}

/// Whether a scan of the sweep of `tree` fails.
pub open spec fn any_scan_failed<P, E>(tree: Tree<P, E>) -> bool
    decreases tree,
{
    match tree.listing {
        Ok(nodes) => scan_failed(listing_of(tree)) || any_scan_failed_below(nodes),
        Err(_) => true,
    }
}

/// Whether a scan of the sweep fails below the entries `nodes`.
pub open spec fn any_scan_failed_below<P, E>(nodes: Seq<Node<P, E>>) -> bool
    decreases nodes,
{
    if nodes.len() == 0 {
        false
    } else if is_class(nodes.last().entry, EntryClass::Directory) {
        any_scan_failed_below(nodes.drop_last()) || any_scan_failed(nodes.last().below)
    } else {
        any_scan_failed_below(nodes.drop_last())
    }
}

/// Whether a job of the sweep of `tree` fails, where deleting a path gives what
/// `deletion` says: a scan, or the deletion of a path that a scan has scheduled.
pub open spec fn sweep_failed<P, E>(tree: Tree<P, E>, deletion: spec_fn(P) -> Result<(), E>)
    -> bool {
    any_scan_failed(tree) || exists|i: int|
        0 <= i < deleted(tree).len() && (#[trigger] deletion(deleted(tree)[i])) is Err
}

/// What the observers are told of the deletions of `paths`, where deleting a path
/// gives what `deletion` says.
pub open spec fn removal_events<P, E>(paths: Seq<P>, deletion: spec_fn(P) -> Result<(), E>) -> Seq<
    Event<P, E>,
> {
    paths.map_values(|path: P| removal_event(path, deletion(path)))
}

/// What the observers are told in the sweep of `tree`, found at `dir`, job by
/// job from the root down: of the scan of a directory, then of the deletions that
/// it has scheduled, then of the directories below. Workers that share the jobs
/// tell the same in another order.
pub open spec fn told<P, E>(dir: P, tree: Tree<P, E>, deletion: spec_fn(P) -> Result<(), E>)
    -> Seq<Event<P, E>>
    decreases tree,
{
    match tree.listing {
        Ok(nodes) => scan_events(dir, listing_of(tree)) + removal_events(
            removals(scan_results(ScanState::Nothing, entries(nodes))),
            deletion,
        ) + told_below(nodes, deletion),
        Err(_) => scan_events(dir, listing_of(tree)),
    }
}

/// What the observers are told in the sweep below the entries `nodes`.
pub open spec fn told_below<P, E>(nodes: Seq<Node<P, E>>, deletion: spec_fn(P) -> Result<(), E>)
    -> Seq<Event<P, E>>
    decreases nodes,
{
    if nodes.len() == 0 {
        Seq::empty()
    } else if is_class(nodes.last().entry, EntryClass::Directory) {
        told_below(nodes.drop_last(), deletion) + told(
            path_of(nodes.last().entry),
            nodes.last().below,
            deletion,
        )
    } else {
        told_below(nodes.drop_last(), deletion)
    }
}

/// Whether the listing of every directory that the sweep of `tree` scans and can
/// read meets `rule`.
pub open spec fn every_listing<P, E>(
    tree: Tree<P, E>,
    rule: spec_fn(Seq<Result<EntryView<P>, E>>) -> bool,
) -> bool
    decreases tree,
{
    match tree.listing {
        Ok(nodes) => rule(entries(nodes)) && every_listing_below(nodes, rule),
        Err(_) => true,
    }
}

/// Whether the listing of every directory that the sweep scans below the entries
/// `nodes`, and can read, meets `rule`.
pub open spec fn every_listing_below<P, E>(
    nodes: Seq<Node<P, E>>,
    rule: spec_fn(Seq<Result<EntryView<P>, E>>) -> bool,
) -> bool
    decreases nodes,
{
    if nodes.len() == 0 {
        true
    } else if is_class(nodes.last().entry, EntryClass::Directory) {
        every_listing_below(nodes.drop_last(), rule) && every_listing(nodes.last().below, rule)
    } else {
        every_listing_below(nodes.drop_last(), rule)
    }
}

/// Whether `path` is, in a directory that the sweep of `tree` scans, a candidate
/// artifact directory with a manifest beside it.
pub open spec fn confirmed<P, E>(tree: Tree<P, E>, path: P) -> bool
    decreases tree,
{
    match tree.listing {
        Ok(nodes) => (has_class(entries(nodes), EntryClass::Manifest) && has_class_at(
            entries(nodes),
            EntryClass::Artifact,
            path,
        )) || confirmed_below(nodes, path),
        Err(_) => false,
    }
}

/// Whether `path` is such a candidate in a directory that the sweep scans below
/// the entries `nodes`.
pub open spec fn confirmed_below<P, E>(nodes: Seq<Node<P, E>>, path: P) -> bool
    decreases nodes,
{
    if nodes.len() == 0 {
        false
    } else if is_class(nodes.last().entry, EntryClass::Directory) {
        confirmed_below(nodes.drop_last(), path) || confirmed(nodes.last().below, path)
    } else {
        confirmed_below(nodes.drop_last(), path)
    }
}

/// The number of directories of `tree`, its own included, that do not lie in a
/// candidate artifact directory with a manifest beside it, nor are one.
pub open spec fn directories<P, E>(tree: Tree<P, E>) -> nat
    decreases tree,
{
    match tree.listing {
        Ok(nodes) => 1 + directories_below(
            nodes,
            has_class(entries(nodes), EntryClass::Manifest),
        ),
        Err(_) => 1,
    }
}

/// The number of such directories at and below the entries `nodes` of a listing
/// that holds a manifest if `manifest` says so.
pub open spec fn directories_below<P, E>(nodes: Seq<Node<P, E>>, manifest: bool) -> nat
    decreases nodes,
{
    if nodes.len() == 0 {
        0
    } else {
        directories_below(nodes.drop_last(), manifest) + match nodes.last().entry {
            Ok(entry) => if entry.is_dir && !(manifest && entry.class() == EntryClass::Artifact) {
                directories(nodes.last().below)
            } else {
                0
            },
            Err(_) => 0,
        }
    }
}

/// Whether every entry of the listing could be read.
pub open spec fn readable<P, E>(entries: Seq<Result<EntryView<P>, E>>) -> bool {
    forall|i: int| 0 <= i < entries.len() ==> (#[trigger] entries[i]) is Ok
}

/// Whether every directory of the listing is either scanned or deleted by the
/// scan of the listing: none is named like the manifest, none is without a name,
/// and a candidate artifact directory has a manifest beside it.
pub open spec fn orderly<P, E>(entries: Seq<Result<EntryView<P>, E>>) -> bool {
    forall|i: int|
        0 <= i < entries.len() ==> match #[trigger] entries[i] {
            Ok(entry) => entry.is_dir ==> entry.class() == EntryClass::Directory || (entry.class()
                == EntryClass::Artifact && has_class(entries, EntryClass::Manifest)),
            Err(_) => true,
        }
}

/// Whether no listing that the sweep of `tree` reads fails: neither as a whole
/// nor in one of its entries.
pub open spec fn error_free<P, E>(tree: Tree<P, E>) -> bool
    decreases tree,
{
    match tree.listing {
        Ok(nodes) => readable(entries(nodes)) && error_free_below(nodes),
        Err(_) => false,
    }
}

/// Whether no listing that the sweep reads below the entries `nodes` fails.
pub open spec fn error_free_below<P, E>(nodes: Seq<Node<P, E>>) -> bool
    decreases nodes,
{
    if nodes.len() == 0 {
        true
    } else if is_class(nodes.last().entry, EntryClass::Directory) {
        error_free_below(nodes.drop_last()) && error_free(nodes.last().below)
    } else {
        error_free_below(nodes.drop_last())
    }
}

/// A listing whose entries can all be read has no failures.
pub proof fn lemma_readable_has_no_failures<P, E>(entries: Seq<Result<EntryView<P>, E>>)
    requires
        readable(entries),
    ensures
        failures(entries) == Seq::<E>::empty(),
    decreases entries.len(),
{
    if entries.len() > 0 {
        assert(entries[entries.len() - 1] is Ok);
        assert(readable(entries.drop_last())) by {
            assert forall|i: int| 0 <= i < entries.drop_last().len() implies (
            #[trigger] entries.drop_last()[i]) is Ok by {
                assert(entries[i] is Ok);
            }
        }
        lemma_readable_has_no_failures(entries.drop_last());
    }
}

/// In a tree of which every listing can be read, no scan of the sweep fails.
pub proof fn lemma_error_free_scans_succeed<P, E>(tree: Tree<P, E>)
    requires
        error_free(tree),
    ensures
        !any_scan_failed(tree),
    decreases tree,
{
    match tree.listing {
        Ok(nodes) => {
            lemma_readable_has_no_failures(entries(nodes));
            lemma_error_free_below_succeeds(nodes);
        },
        Err(_) => {},
    }
}

/// In a tree of which every listing can be read, and where every deletion that
/// the sweep schedules succeeds, no job of the sweep fails.
pub proof fn lemma_error_free_sweep_succeeds<P, E>(
    tree: Tree<P, E>,
    deletion: spec_fn(P) -> Result<(), E>,
)
    requires
        error_free(tree),
        forall|path: P| deleted(tree).contains(path) ==> (#[trigger] deletion(path)) is Ok,
    ensures
        !sweep_failed(tree, deletion),
{
    lemma_error_free_scans_succeed(tree);
    assert forall|i: int| 0 <= i < deleted(tree).len() implies (#[trigger] deletion(
        deleted(tree)[i],
    )) is Ok by {
        assert(deleted(tree).contains(deleted(tree)[i]));
    }
}

proof fn lemma_error_free_below_succeeds<P, E>(nodes: Seq<Node<P, E>>)
    requires
        error_free_below(nodes),
    ensures
        !any_scan_failed_below(nodes),
    decreases nodes,
{
    if nodes.len() > 0 {
        lemma_error_free_below_succeeds(nodes.drop_last());
        if is_class(nodes.last().entry, EntryClass::Directory) {
            lemma_error_free_scans_succeed(nodes.last().below);
        }
    }
}

/// In a tree of which every listing can be read and is orderly, the sweep scans
/// each directory once that does not lie in a deleted artifact directory, nor is
/// one: as many directories as there are of them.
pub proof fn lemma_sweep_scans_every_directory<P, E>(dir: P, tree: Tree<P, E>)
    requires
        error_free(tree),
        every_listing(tree, |entries: Seq<Result<EntryView<P>, E>>| orderly(entries)),
    ensures
        swept(dir, tree).len() == directories(tree),
    decreases tree,
{
    match tree.listing {
        Ok(nodes) => {
            assert(orderly(entries(nodes)));
            assert(nodes.take(nodes.len() as int) == nodes);
            lemma_sweep_scans_below(nodes, entries(nodes), nodes.len() as int);
        },
        Err(_) => {},
    }
}

proof fn lemma_sweep_scans_below<P, E>(
    nodes: Seq<Node<P, E>>,
    listing: Seq<Result<EntryView<P>, E>>,
    upto: int,
)
    requires
        0 <= upto <= nodes.len(),
        listing == entries(nodes),
        orderly(listing),
        error_free_below(nodes.take(upto)),
        every_listing_below(
            nodes.take(upto),
            |entries: Seq<Result<EntryView<P>, E>>| orderly(entries),
        ),
    ensures
        swept_below(nodes.take(upto)).len() == directories_below(
            nodes.take(upto),
            has_class(listing, EntryClass::Manifest),
        ),
    decreases nodes, upto,
{
    if upto > 0 {
        let seen = nodes.take(upto);
        assert(seen.drop_last() == nodes.take(upto - 1));
        assert(seen.last() == nodes[upto - 1]);
        assert(listing[upto - 1] == nodes[upto - 1].entry);
        lemma_sweep_scans_below(nodes, listing, upto - 1);
        if is_class(seen.last().entry, EntryClass::Directory) {
            lemma_sweep_scans_every_directory(
                path_of(nodes[upto - 1].entry),
                nodes[upto - 1].below,
            );
        }
    }
}

/// The tally of two runs of events on end is the sum of their tallies.
pub proof fn lemma_tally_of_concatenation<P, E>(first: Seq<Event<P, E>>, second: Seq<Event<P, E>>)
    ensures
        tally(first + second).0 == tally(first).0 + tally(second).0,
        tally(first + second).1 == tally(first).1 + tally(second).1,
        tally(first + second).2 == tally(first).2 + tally(second).2,
    decreases second.len(),
{
    if second.len() == 0 {
        assert(first + second == first);
    } else {
        assert((first + second).drop_last() == first + second.drop_last());
        assert((first + second).last() == second.last());
        lemma_tally_of_concatenation(first, second.drop_last());
    }
}

proof fn lemma_tally_of_errors<P, E>(errors: Seq<E>)
    ensures
        tally(errors.map_values(|e: E| Event::<P, E>::Error(e))) == (errors.len(), 0nat, 0nat),
    decreases errors.len(),
{
    let events = errors.map_values(|e: E| Event::<P, E>::Error(e));
    if errors.len() > 0 {
        assert(events.drop_last() == errors.drop_last().map_values(
            |e: E| Event::<P, E>::Error(e),
        ));
        lemma_tally_of_errors::<P, E>(errors.drop_last());
    }
}

/// Of the scan of one directory the observers are told one error for each
/// failure, no removal, and one scanned directory.
pub proof fn lemma_tally_of_scan<P, E>(dir: P, listing: Result<Seq<Result<EntryView<P>, E>>, E>)
    ensures
        tally(scan_events(dir, listing)) == match listing {
            Ok(entries) => (failures(entries).len(), 0nat, 1nat),
            Err(_) => (1nat, 0nat, 1nat),
        },
{
    match listing {
        Ok(entries) => {
            let errors = failures(entries).map_values(|e: E| Event::<P, E>::Error(e));
            lemma_tally_of_errors::<P, E>(failures(entries));
            assert(errors.push(Event::Scanned(dir)).drop_last() == errors);
        },
        Err(e) => {
            let events = seq![Event::<P, E>::Error(e), Event::Scanned(dir)];
            assert(events.drop_last() == seq![Event::<P, E>::Error(e)]);
            assert(events.drop_last().drop_last() == Seq::<Event<P, E>>::empty());
            reveal_with_fuel(tally, 3);
        },
    }
}

proof fn lemma_tally_of_removals<P, E>(paths: Seq<P>, deletion: spec_fn(P) -> Result<(), E>)
    requires
        forall|path: P| paths.contains(path) ==> (#[trigger] deletion(path)) is Ok,
    ensures
        tally(removal_events(paths, deletion)) == (0nat, paths.len(), 0nat),
    decreases paths.len(),
{
    if paths.len() > 0 {
        let shorter = paths.drop_last();
        assert(removal_events(paths, deletion).drop_last() == removal_events(shorter, deletion));
        assert(paths.contains(paths.last())) by {
            assert(paths[paths.len() - 1] == paths.last());
        }
        assert forall|path: P| shorter.contains(path) implies (#[trigger] deletion(
            path,
        )) is Ok by {
            let i = choose|i: int| 0 <= i < shorter.len() && shorter[i] == path;
            assert(paths[i] == path);
        }
        lemma_tally_of_removals(shorter, deletion);
    }
}

/// Whatever the tree holds, the observers are told once of each directory that
/// the sweep scans.
pub proof fn lemma_each_scan_is_reported_once<P, E>(
    dir: P,
    tree: Tree<P, E>,
    deletion: spec_fn(P) -> Result<(), E>,
)
    ensures
        tally(told(dir, tree, deletion)).2 == swept(dir, tree).len(),
    decreases tree,
{
    lemma_tally_of_scan(dir, listing_of(tree));
    match tree.listing {
        Ok(nodes) => {
            let own = scan_events(dir, listing_of(tree));
            let removed = removal_events(
                removals(scan_results(ScanState::Nothing, entries(nodes))),
                deletion,
            );
            lemma_removals_are_not_scans(
                removals(scan_results(ScanState::Nothing, entries(nodes))),
                deletion,
            );
            lemma_each_scan_below_is_reported_once(nodes, deletion);
            lemma_tally_of_concatenation(own, removed);
            lemma_tally_of_concatenation(own + removed, told_below(nodes, deletion));
        },
        Err(_) => {},
    }
}

proof fn lemma_each_scan_below_is_reported_once<P, E>(
    nodes: Seq<Node<P, E>>,
    deletion: spec_fn(P) -> Result<(), E>,
)
    ensures
        tally(told_below(nodes, deletion)).2 == swept_below(nodes).len(),
    decreases nodes,
{
    if nodes.len() > 0 {
        lemma_each_scan_below_is_reported_once(nodes.drop_last(), deletion);
        if is_class(nodes.last().entry, EntryClass::Directory) {
            lemma_each_scan_is_reported_once(
                path_of(nodes.last().entry),
                nodes.last().below,
                deletion,
            );
            lemma_tally_of_concatenation(
                told_below(nodes.drop_last(), deletion),
                told(path_of(nodes.last().entry), nodes.last().below, deletion),
            );
        }
    }
}

proof fn lemma_removals_are_not_scans<P, E>(paths: Seq<P>, deletion: spec_fn(P) -> Result<(), E>)
    ensures
        tally(removal_events(paths, deletion)).2 == 0,
    decreases paths.len(),
{
    if paths.len() > 0 {
        assert(removal_events(paths, deletion).drop_last() == removal_events(
            paths.drop_last(),
            deletion,
        ));
        lemma_removals_are_not_scans(paths.drop_last(), deletion);
    }
}

/// In a tree of which every listing can be read and is orderly, and where every
/// deletion that the sweep schedules succeeds, the observers are told of no
/// error, of one removal for each deletion scheduled, and of one scanned
/// directory for each directory that does not lie in a deleted artifact
/// directory, nor is one.
pub proof fn lemma_totals_of_a_clean_sweep<P, E>(
    dir: P,
    tree: Tree<P, E>,
    deletion: spec_fn(P) -> Result<(), E>,
)
    requires
        error_free(tree),
        every_listing(tree, |entries: Seq<Result<EntryView<P>, E>>| orderly(entries)),
        forall|path: P| deleted(tree).contains(path) ==> (#[trigger] deletion(path)) is Ok,
    ensures
        tally(told(dir, tree, deletion)) == (0nat, deleted(tree).len(), directories(tree)),
        !sweep_failed(tree, deletion),
{
    lemma_error_free_sweep_succeeds(tree, deletion);
    lemma_sweep_scans_every_directory(dir, tree);
    lemma_each_scan_is_reported_once(dir, tree, deletion);
    lemma_error_free_sweep_tells_no_error(dir, tree, deletion);
}

/// In a tree of which every listing can be read, and where every deletion that
/// the sweep schedules succeeds, the observers are told of no error, and of one
/// removal for each deletion scheduled.
pub proof fn lemma_error_free_sweep_tells_no_error<P, E>(
    dir: P,
    tree: Tree<P, E>,
    deletion: spec_fn(P) -> Result<(), E>,
)
    requires
        error_free(tree),
        forall|path: P| deleted(tree).contains(path) ==> (#[trigger] deletion(path)) is Ok,
    ensures
        tally(told(dir, tree, deletion)).0 == 0,
        tally(told(dir, tree, deletion)).1 == deleted(tree).len(),
    decreases tree,
{
    lemma_tally_of_scan(dir, listing_of(tree));
    match tree.listing {
        Ok(nodes) => {
            let paths = removals(scan_results(ScanState::Nothing, entries(nodes)));
            let own = scan_events(dir, listing_of(tree));
            let removed = removal_events(paths, deletion);
            lemma_readable_has_no_failures(entries(nodes));
            assert forall|path: P| paths.contains(path) implies (#[trigger] deletion(
                path,
            )) is Ok by {
                lemma_contains_of_concatenation(paths, deleted_below(nodes), path);
            }
            lemma_tally_of_removals(paths, deletion);
            assert forall|path: P| deleted_below(nodes).contains(path) implies (
            #[trigger] deletion(path)) is Ok by {
                lemma_contains_of_concatenation(paths, deleted_below(nodes), path);
            }
            lemma_error_free_tells_no_error_below(nodes, deletion);
            lemma_tally_of_concatenation(own, removed);
            lemma_tally_of_concatenation(own + removed, told_below(nodes, deletion));
        },
        Err(_) => {},
    }
}

proof fn lemma_error_free_tells_no_error_below<P, E>(
    nodes: Seq<Node<P, E>>,
    deletion: spec_fn(P) -> Result<(), E>,
)
    requires
        error_free_below(nodes),
        forall|path: P| deleted_below(nodes).contains(path) ==> (#[trigger] deletion(path)) is Ok,
    ensures
        tally(told_below(nodes, deletion)).0 == 0,
        tally(told_below(nodes, deletion)).1 == deleted_below(nodes).len(),
    decreases nodes,
{
    if nodes.len() > 0 {
        if is_class(nodes.last().entry, EntryClass::Directory) {
            assert forall|path: P| deleted_below(nodes.drop_last()).contains(path) implies (
            #[trigger] deletion(path)) is Ok by {
                lemma_contains_of_concatenation(
                    deleted_below(nodes.drop_last()),
                    deleted(nodes.last().below),
                    path,
                );
            }
            assert forall|path: P| deleted(nodes.last().below).contains(path) implies (
            #[trigger] deletion(path)) is Ok by {
                lemma_contains_of_concatenation(
                    deleted_below(nodes.drop_last()),
                    deleted(nodes.last().below),
                    path,
                );
            }
            lemma_error_free_tells_no_error_below(nodes.drop_last(), deletion);
            lemma_error_free_sweep_tells_no_error(path_of(nodes.last().entry), nodes.last().below, deletion);
            lemma_tally_of_concatenation(
                told_below(nodes.drop_last(), deletion),
                told(path_of(nodes.last().entry), nodes.last().below, deletion),
            );
        } else {
            lemma_error_free_tells_no_error_below(nodes.drop_last(), deletion);
        }
    }
}

/// Whether the listing lacks a manifest or lacks a candidate artifact directory.
pub open spec fn unpaired<P, E>(entries: Seq<Result<EntryView<P>, E>>) -> bool {
    !has_class(entries, EntryClass::Manifest) || !has_class(entries, EntryClass::Artifact)
}

/// Where every listing lacks a manifest or lacks a candidate artifact directory,
/// the sweep schedules nothing for deletion.
pub proof fn lemma_unpaired_sweep_deletes_nothing<P, E>(tree: Tree<P, E>)
    requires
        every_listing(tree, |entries: Seq<Result<EntryView<P>, E>>| unpaired(entries)),
    ensures
        deleted(tree) == Seq::<P>::empty(),
    decreases tree,
{
    match tree.listing {
        Ok(nodes) => {
            assert(unpaired(entries(nodes)));
            if !has_class(entries(nodes), EntryClass::Manifest) {
                lemma_no_manifest_no_removal(entries(nodes));
            } else {
                lemma_no_artifact_no_removal(entries(nodes));
            }
            lemma_unpaired_sweep_deletes_nothing_below(nodes);
            assert(Seq::<P>::empty() + Seq::<P>::empty() == Seq::<P>::empty());
        },
        Err(_) => {},
    }
}

proof fn lemma_unpaired_sweep_deletes_nothing_below<P, E>(nodes: Seq<Node<P, E>>)
    requires
        every_listing_below(nodes, |entries: Seq<Result<EntryView<P>, E>>| unpaired(entries)),
    ensures
        deleted_below(nodes) == Seq::<P>::empty(),
    decreases nodes,
{
    if nodes.len() > 0 {
        lemma_unpaired_sweep_deletes_nothing_below(nodes.drop_last());
        if is_class(nodes.last().entry, EntryClass::Directory) {
            lemma_unpaired_sweep_deletes_nothing(nodes.last().below);
            assert(Seq::<P>::empty() + Seq::<P>::empty() == Seq::<P>::empty());
        }
    }
}

/// Where no listing holds more than one candidate artifact directory, the sweep
/// schedules for deletion exactly the candidates that have a manifest beside
/// them in a directory that the sweep scans.
pub proof fn lemma_sweep_deletes_confirmed_artifacts<P, E>(tree: Tree<P, E>, path: P)
    requires
        every_listing(tree, |entries: Seq<Result<EntryView<P>, E>>| at_most_one_artifact(entries)),
    ensures
        deleted(tree).contains(path) <==> confirmed(tree, path),
    decreases tree,
{
    match tree.listing {
        Ok(nodes) => {
            let own = removals(scan_results(ScanState::Nothing, entries(nodes)));
            assert(at_most_one_artifact(entries(nodes)));
            lemma_removals_are_confirmed_artifacts(entries(nodes));
            lemma_sweep_deletes_confirmed_below(nodes, path);
            lemma_contains_of_concatenation(own, deleted_below(nodes), path);
            assert(own.contains(path) <==> (has_class(entries(nodes), EntryClass::Manifest)
                && has_class_at(entries(nodes), EntryClass::Artifact, path)));
        },
        Err(_) => {
            assert(!Seq::<P>::empty().contains(path));
        },
    }
}

proof fn lemma_sweep_deletes_confirmed_below<P, E>(nodes: Seq<Node<P, E>>, path: P)
    requires
        every_listing_below(
            nodes,
            |entries: Seq<Result<EntryView<P>, E>>| at_most_one_artifact(entries),
        ),
    ensures
        deleted_below(nodes).contains(path) <==> confirmed_below(nodes, path),
    decreases nodes,
{
    if nodes.len() > 0 {
        lemma_sweep_deletes_confirmed_below(nodes.drop_last(), path);
        if is_class(nodes.last().entry, EntryClass::Directory) {
            lemma_sweep_deletes_confirmed_artifacts(nodes.last().below, path);
            lemma_contains_of_concatenation(
                deleted_below(nodes.drop_last()),
                deleted(nodes.last().below),
                path,
            );
        }
    } else {
        assert(!Seq::<P>::empty().contains(path));
    }
}

proof fn lemma_contains_of_concatenation<A>(first: Seq<A>, second: Seq<A>, needle: A)
    ensures
        (first + second).contains(needle) <==> first.contains(needle) || second.contains(needle),
{
    let whole = first + second;
    if whole.contains(needle) {
        let i = choose|i: int| 0 <= i < whole.len() && whole[i] == needle;
        if i < first.len() {
            assert(first[i] == needle);
        } else {
            assert(second[i - first.len()] == needle);
        }
    }
    if first.contains(needle) {
        let i = choose|i: int| 0 <= i < first.len() && first[i] == needle;
        assert(whole[i] == needle);
    }
    if second.contains(needle) {
        let i = choose|i: int| 0 <= i < second.len() && second[i] == needle;
        assert(whole[first.len() + i] == needle);
    }
}

/// What the sweep scans and deletes below two runs of entries on end is what it
/// scans and deletes below the first, then below the second.
pub proof fn lemma_sweep_below_concatenation<P, E>(first: Seq<Node<P, E>>, second: Seq<Node<P, E>>)
    ensures
        swept_below(first + second) == swept_below(first) + swept_below(second),
        deleted_below(first + second) == deleted_below(first) + deleted_below(second),
    decreases second.len(),
{
    if second.len() == 0 {
        assert(first + second == first);
        assert(swept_below(first) + Seq::<P>::empty() == swept_below(first));
        assert(deleted_below(first) + Seq::<P>::empty() == deleted_below(first));
    } else {
        let whole = first + second;
        assert(whole.drop_last() == first + second.drop_last());
        assert(whole.last() == second.last());
        lemma_sweep_below_concatenation(first, second.drop_last());
        if is_class(second.last().entry, EntryClass::Directory) {
            let scanned = swept(path_of(second.last().entry), second.last().below);
            let removed = deleted(second.last().below);
            assert((swept_below(first) + swept_below(second.drop_last())) + scanned == swept_below(
                first,
            ) + (swept_below(second.drop_last()) + scanned));
            assert((deleted_below(first) + deleted_below(second.drop_last())) + removed
                == deleted_below(first) + (deleted_below(second.drop_last()) + removed));
        }
    }
}

/// A subdirectory whose listing fails, in place of the same subdirectory with any
/// listing, changes nothing for the entries beside it: the parent's listing is
/// the same, and so is what the sweep scans and deletes below the entries before
/// and after. Of the subdirectory itself the sweep keeps the scan, and nothing
/// below.
pub proof fn lemma_failed_listing_spares_siblings<P, E>(
    before: Seq<Node<P, E>>,
    node: Node<P, E>,
    after: Seq<Node<P, E>>,
    e: E,
)
    requires
        is_class(node.entry, EntryClass::Directory),
    ensures
        ({
            let failing = Node { entry: node.entry, below: Tree { listing: Err(e) } };
            &&& entries(before.push(failing) + after) == entries(before.push(node) + after)
            &&& swept_below(before.push(node) + after) == swept_below(before) + swept(
                path_of(node.entry),
                node.below,
            ) + swept_below(after)
            &&& swept_below(before.push(failing) + after) == swept_below(before)
                + seq![path_of(node.entry)] + swept_below(after)
            &&& deleted_below(before.push(node) + after) == deleted_below(before) + deleted(
                node.below,
            ) + deleted_below(after)
            &&& deleted_below(before.push(failing) + after) == deleted_below(before)
                + deleted_below(after)
        }),
{
    let failing = Node { entry: node.entry, below: Tree { listing: Err(e) } };
    assert(entries(before.push(failing) + after) =~= entries(before.push(node) + after));
    assert(before.push(node).drop_last() == before);
    assert(before.push(failing).drop_last() == before);
    assert(before.push(node).last() == node);
    assert(before.push(failing).last() == failing);
    lemma_sweep_below_concatenation(before.push(node), after);
    lemma_sweep_below_concatenation(before.push(failing), after);
    assert(swept_below(before.push(node)) == swept_below(before) + swept(
        path_of(node.entry),
        node.below,
    ));
    assert(swept(path_of(node.entry), failing.below) == seq![path_of(node.entry)]);
    assert(swept_below(before.push(failing)) == swept_below(before) + seq![path_of(node.entry)]);
    assert(deleted_below(before.push(node)) == deleted_below(before) + deleted(node.below));
    assert(deleted(failing.below) == Seq::<P>::empty());
    assert(deleted_below(before.push(failing)) == deleted_below(before)) by {
        assert(deleted_below(before) + Seq::<P>::empty() == deleted_below(before));
    }
}

/// A rule that every listing of the sweep meets gives every rule that follows
/// from it.
pub proof fn lemma_every_listing_follows<P, E>(
    tree: Tree<P, E>,
    rule: spec_fn(Seq<Result<EntryView<P>, E>>) -> bool,
    weaker: spec_fn(Seq<Result<EntryView<P>, E>>) -> bool,
)
    requires
        every_listing(tree, rule),
        forall|entries: Seq<Result<EntryView<P>, E>>| #[trigger] rule(entries) ==> weaker(entries),
    ensures
        every_listing(tree, weaker),
    decreases tree,
{
    match tree.listing {
        Ok(nodes) => {
            lemma_every_listing_below_follows(nodes, rule, weaker);
        },
        Err(_) => {},
    }
}

proof fn lemma_every_listing_below_follows<P, E>(
    nodes: Seq<Node<P, E>>,
    rule: spec_fn(Seq<Result<EntryView<P>, E>>) -> bool,
    weaker: spec_fn(Seq<Result<EntryView<P>, E>>) -> bool,
)
    requires
        every_listing_below(nodes, rule),
        forall|entries: Seq<Result<EntryView<P>, E>>| #[trigger] rule(entries) ==> weaker(entries),
    ensures
        every_listing_below(nodes, weaker),
    decreases nodes,
{
    if nodes.len() > 0 {
        lemma_every_listing_below_follows(nodes.drop_last(), rule, weaker);
        if is_class(nodes.last().entry, EntryClass::Directory) {
            lemma_every_listing_follows(nodes.last().below, rule, weaker);
        }
    }
}

/// In a tree whose listings hold no name twice, no listing holds more than one
/// candidate artifact directory.
pub proof fn lemma_distinct_names_in_every_listing<P, E>(tree: Tree<P, E>)
    requires
        every_listing(tree, |entries: Seq<Result<EntryView<P>, E>>| distinct_names(entries)),
    ensures
        every_listing(tree, |entries: Seq<Result<EntryView<P>, E>>| at_most_one_artifact(entries)),
{
    let rule = |entries: Seq<Result<EntryView<P>, E>>| distinct_names(entries);
    let weaker = |entries: Seq<Result<EntryView<P>, E>>| at_most_one_artifact(entries);
    assert forall|entries: Seq<Result<EntryView<P>, E>>| #[trigger]
        rule(entries) implies weaker(entries) by {
        lemma_distinct_names_one_artifact(entries);
    }
    lemma_every_listing_follows(tree, rule, weaker);
}

/// The number of directories that the sweep of `tree` scans and whose listing
/// holds both a manifest and a candidate artifact directory.
pub open spec fn pairs<P, E>(tree: Tree<P, E>) -> nat
    decreases tree,
{
    match tree.listing {
        Ok(nodes) => (if has_class(entries(nodes), EntryClass::Manifest) && has_class(
            entries(nodes),
            EntryClass::Artifact,
        ) {
            1nat
        } else {
            0nat
        }) + pairs_below(nodes),
        Err(_) => 0,
    }
}

/// The number of such directories that the sweep scans below the entries `nodes`.
pub open spec fn pairs_below<P, E>(nodes: Seq<Node<P, E>>) -> nat
    decreases nodes,
{
    if nodes.len() == 0 {
        0
    } else if is_class(nodes.last().entry, EntryClass::Directory) {
        pairs_below(nodes.drop_last()) + pairs(nodes.last().below)
    } else {
        pairs_below(nodes.drop_last())
    }
}

/// In a tree whose listings hold no name twice, the sweep schedules for deletion
/// exactly the candidate artifact directories that have a manifest beside them
/// in a directory that the sweep scans, and one deletion for each such directory,
/// whichever of the two its listing yields first.
pub proof fn lemma_sweep_deletes_each_pair_once<P, E>(tree: Tree<P, E>)
    requires
        every_listing(tree, |entries: Seq<Result<EntryView<P>, E>>| distinct_names(entries)),
    ensures
        forall|path: P| #[trigger] deleted(tree).contains(path) <==> confirmed(tree, path),
        deleted(tree).len() == pairs(tree),
{
    lemma_distinct_names_in_every_listing(tree);
    assert forall|path: P| #[trigger] deleted(tree).contains(path) <==> confirmed(tree, path) by {
        lemma_sweep_deletes_confirmed_artifacts(tree, path);
    }
    lemma_one_deletion_per_pair(tree);
}

/// A listing with at most one candidate artifact directory has one deletion
/// scheduled if it holds both a manifest and a candidate, and none otherwise.
pub proof fn lemma_one_removal_per_pair<P, E>(entries: Seq<Result<EntryView<P>, E>>)
    requires
        at_most_one_artifact(entries),
    ensures
        removals(scan_results(ScanState::Nothing, entries)).len() == (if has_class(
            entries,
            EntryClass::Manifest,
        ) && has_class(entries, EntryClass::Artifact) {
            1nat
        } else {
            0nat
        }),
{
    let removed = removals(scan_results(ScanState::Nothing, entries));
    lemma_removals_are_confirmed_artifacts(entries);
    if has_class(entries, EntryClass::Manifest) && has_class(entries, EntryClass::Artifact) {
        let i = choose|i: int|
            0 <= i < entries.len() && is_class(entries[i], EntryClass::Artifact);
        let path = path_of(entries[i]);
        assert(crate::laws::is_class_at(entries[i], EntryClass::Artifact, path));
        assert(has_class_at(entries, EntryClass::Artifact, path));
        assert(removed.contains(path));
    } else if removed.len() > 0 {
        assert(removed.contains(removed[0]));
        let path = removed[0];
        assert(has_class_at(entries, EntryClass::Artifact, path));
        let i = choose|i: int|
            0 <= i < entries.len() && crate::laws::is_class_at(
                entries[i],
                EntryClass::Artifact,
                path,
            );
        assert(is_class(entries[i], EntryClass::Artifact));
    }
}

/// Where no listing holds more than one candidate artifact directory, the sweep
/// schedules one deletion for each directory it scans whose listing holds both a
/// manifest and a candidate.
pub proof fn lemma_one_deletion_per_pair<P, E>(tree: Tree<P, E>)
    requires
        every_listing(tree, |entries: Seq<Result<EntryView<P>, E>>| at_most_one_artifact(entries)),
    ensures
        deleted(tree).len() == pairs(tree),
    decreases tree,
{
    match tree.listing {
        Ok(nodes) => {
            assert(at_most_one_artifact(entries(nodes)));
            lemma_one_removal_per_pair(entries(nodes));
            lemma_one_deletion_per_pair_below(nodes);
        },
        Err(_) => {},
    }
}

proof fn lemma_one_deletion_per_pair_below<P, E>(nodes: Seq<Node<P, E>>)
    requires
        every_listing_below(
            nodes,
            |entries: Seq<Result<EntryView<P>, E>>| at_most_one_artifact(entries),
        ),
    ensures
        deleted_below(nodes).len() == pairs_below(nodes),
    decreases nodes,
{
    if nodes.len() > 0 {
        lemma_one_deletion_per_pair_below(nodes.drop_last());
        if is_class(nodes.last().entry, EntryClass::Directory) {
            lemma_one_deletion_per_pair(nodes.last().below);
        }
    }
}

/// The directories among `events` that were reported as processed, in order.
pub open spec fn scanned_of<P, E>(events: Seq<Event<P, E>>) -> Seq<P>
    decreases events.len(),
{
    if events.len() == 0 {
        Seq::empty()
    } else {
        match events.last() {
            Event::Scanned(dir) => scanned_of(events.drop_last()).push(dir),
            _ => scanned_of(events.drop_last()),
        }
    }
}

/// The directories reported in two runs of events on end are those of the first,
/// then those of the second.
pub proof fn lemma_scanned_of_concatenation<P, E>(
    first: Seq<Event<P, E>>,
    second: Seq<Event<P, E>>,
)
    ensures
        scanned_of(first + second) == scanned_of(first) + scanned_of(second),
    decreases second.len(),
{
    if second.len() == 0 {
        assert(first + second == first);
        assert(scanned_of(first) + Seq::<P>::empty() == scanned_of(first));
    } else {
        assert((first + second).drop_last() == first + second.drop_last());
        assert((first + second).last() == second.last());
        lemma_scanned_of_concatenation(first, second.drop_last());
        match second.last() {
            Event::Scanned(dir) => {
                assert((scanned_of(first) + scanned_of(second.drop_last())).push(dir)
                    == scanned_of(first) + scanned_of(second.drop_last()).push(dir));
            },
            _ => {},
        }
    }
}

proof fn lemma_scanned_of_errors<P, E>(errors: Seq<E>)
    ensures
        scanned_of(errors.map_values(|e: E| Event::<P, E>::Error(e))) == Seq::<P>::empty(),
    decreases errors.len(),
{
    if errors.len() > 0 {
        assert(errors.map_values(|e: E| Event::<P, E>::Error(e)).drop_last()
            == errors.drop_last().map_values(|e: E| Event::<P, E>::Error(e)));
        lemma_scanned_of_errors::<P, E>(errors.drop_last());
    }
}

proof fn lemma_scanned_of_removals<P, E>(paths: Seq<P>, deletion: spec_fn(P) -> Result<(), E>)
    ensures
        scanned_of(removal_events(paths, deletion)) == Seq::<P>::empty(),
    decreases paths.len(),
{
    if paths.len() > 0 {
        assert(removal_events(paths, deletion).drop_last() == removal_events(
            paths.drop_last(),
            deletion,
        ));
        lemma_scanned_of_removals(paths.drop_last(), deletion);
    }
}

/// Of the scan of one directory the observers are told that this directory was
/// processed, and of no other.
pub proof fn lemma_scanned_of_scan<P, E>(
    dir: P,
    listing: Result<Seq<Result<EntryView<P>, E>>, E>,
)
    ensures
        scanned_of(scan_events(dir, listing)) == seq![dir],
{
    match listing {
        Ok(entries) => {
            let errors = failures(entries).map_values(|e: E| Event::<P, E>::Error(e));
            lemma_scanned_of_errors::<P, E>(failures(entries));
            assert(errors.push(Event::Scanned(dir)).drop_last() == errors);
            assert(Seq::<P>::empty().push(dir) == seq![dir]);
        },
        Err(e) => {
            let events = seq![Event::<P, E>::Error(e), Event::Scanned(dir)];
            assert(events.drop_last() == seq![Event::<P, E>::Error(e)]);
            assert(events.drop_last().drop_last() == Seq::<Event<P, E>>::empty());
            reveal_with_fuel(scanned_of, 3);
            assert(Seq::<P>::empty().push(dir) == seq![dir]);
        },
    }
}

/// Whatever the tree holds, the directories of which the observers are told that
/// they were processed are the directories that the sweep scans: each of them,
/// once, and no other path.
pub proof fn lemma_reported_directories_are_the_swept<P, E>(
    dir: P,
    tree: Tree<P, E>,
    deletion: spec_fn(P) -> Result<(), E>,
)
    ensures
        scanned_of(told(dir, tree, deletion)) == swept(dir, tree),
    decreases tree,
{
    lemma_scanned_of_scan(dir, listing_of(tree));
    match tree.listing {
        Ok(nodes) => {
            let own = scan_events(dir, listing_of(tree));
            let removed = removal_events(
                removals(scan_results(ScanState::Nothing, entries(nodes))),
                deletion,
            );
            lemma_scanned_of_removals(
                removals(scan_results(ScanState::Nothing, entries(nodes))),
                deletion,
            );
            lemma_reported_directories_below(nodes, deletion);
            lemma_scanned_of_concatenation(own, removed);
            lemma_scanned_of_concatenation(own + removed, told_below(nodes, deletion));
            assert(seq![dir] + Seq::<P>::empty() == seq![dir]);
        },
        Err(_) => {},
    }
}

proof fn lemma_reported_directories_below<P, E>(
    nodes: Seq<Node<P, E>>,
    deletion: spec_fn(P) -> Result<(), E>,
)
    ensures
        scanned_of(told_below(nodes, deletion)) == swept_below(nodes),
    decreases nodes,
{
    if nodes.len() > 0 {
        lemma_reported_directories_below(nodes.drop_last(), deletion);
        if is_class(nodes.last().entry, EntryClass::Directory) {
            lemma_reported_directories_are_the_swept(
                path_of(nodes.last().entry),
                nodes.last().below,
                deletion,
            );
            lemma_scanned_of_concatenation(
                told_below(nodes.drop_last(), deletion),
                told(path_of(nodes.last().entry), nodes.last().below, deletion),
            );
        }
    }
}

} // verus!

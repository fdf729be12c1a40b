//! What holds of every scan of a directory listing.
use crate::queue::Task;
use crate::scanner::{scan_results, state_after, EntryClass, EntryView, ScanState};
use vstd::prelude::*;

verus! {

/// The paths that the results of a scan schedule for deletion, in order.
pub open spec fn removals<P, E>(results: Seq<Result<Task<P>, E>>) -> Seq<P>
    decreases results.len(),
{
    if results.len() == 0 {
        Seq::empty()
    } else {
        match results.last() {
            Ok(Task::Remove(path)) => removals(results.drop_last()).push(path),
            _ => removals(results.drop_last()),
        }
    }
}

/// The directories that the results of a scan schedule for a scan of their own,
/// in order.
pub open spec fn scans<P, E>(results: Seq<Result<Task<P>, E>>) -> Seq<P>
    decreases results.len(),
{
    if results.len() == 0 {
        Seq::empty()
    } else {
        match results.last() {
            Ok(Task::Scan(dir)) => scans(results.drop_last()).push(dir),
            _ => scans(results.drop_last()),
        }
    }
}

/// Whether `item` is a readable entry of class `class`.
pub open spec fn is_class<P, E>(item: Result<EntryView<P>, E>, class: EntryClass) -> bool {
    match item {
        Ok(entry) => entry.class() == class,
        Err(_) => false,
    }
}

/// Whether `item` is a readable entry of class `class` at `path`.
pub open spec fn is_class_at<P, E>(item: Result<EntryView<P>, E>, class: EntryClass, path: P)
    -> bool {
    match item {
        Ok(entry) => entry.class() == class && entry.path == path,
        Err(_) => false,
    }
}

/// Whether the listing holds a readable entry of class `class`.
pub open spec fn has_class<P, E>(entries: Seq<Result<EntryView<P>, E>>, class: EntryClass)
    -> bool {
    exists|i: int| 0 <= i < entries.len() && #[trigger] is_class(entries[i], class)
}

/// Whether the listing holds a readable entry of class `class` at `path`.
pub open spec fn has_class_at<P, E>(
    entries: Seq<Result<EntryView<P>, E>>,
    class: EntryClass,
    path: P,
) -> bool {
    exists|i: int| 0 <= i < entries.len() && #[trigger] is_class_at(entries[i], class, path)
}

/// Whether at most one entry of the listing is a candidate artifact directory, as
/// in every listing whose names are distinct.
pub open spec fn at_most_one_artifact<P, E>(entries: Seq<Result<EntryView<P>, E>>) -> bool {
    forall|i: int, j: int|
        #![trigger entries[i], entries[j]]
        0 <= i < j < entries.len() && is_class(entries[i], EntryClass::Artifact) ==> !is_class(
            entries[j],
            EntryClass::Artifact,
        )
}

/// Whether no two readable entries of the listing bear the same name, as in every
/// listing of a directory.
pub open spec fn distinct_names<P, E>(entries: Seq<Result<EntryView<P>, E>>) -> bool {
    forall|i: int, j: int|
        #![trigger entries[i], entries[j]]
        0 <= i < j < entries.len() ==> match (entries[i], entries[j]) {
            (Ok(one), Ok(other)) => one.name != other.name,
            _ => true,
        }
}

/// The directories of the listing that are neither manifest nor candidate
/// artifact, in listing order.
pub open spec fn subdirectories<P, E>(entries: Seq<Result<EntryView<P>, E>>) -> Seq<P>
    decreases entries.len(),
{
    if entries.len() == 0 {
        Seq::empty()
    } else {
        match entries.last() {
            Ok(entry) => if entry.class() == EntryClass::Directory {
                subdirectories(entries.drop_last()).push(entry.path)
            } else {
                subdirectories(entries.drop_last())
            },
            Err(_) => subdirectories(entries.drop_last()),
        }
    }
}

proof fn lemma_removals_push<P, E>(results: Seq<Result<Task<P>, E>>, item: Result<Task<P>, E>)
    ensures
        removals(results.push(item)) == match item {
            Ok(Task::Remove(path)) => removals(results).push(path),
            _ => removals(results),
        },
{
    assert(results.push(item).drop_last() == results);
}

proof fn lemma_scans_push<P, E>(results: Seq<Result<Task<P>, E>>, item: Result<Task<P>, E>)
    ensures
        scans(results.push(item)) == match item {
            Ok(Task::Scan(dir)) => scans(results).push(dir),
            _ => scans(results),
        },
{
    assert(results.push(item).drop_last() == results);
}

/// A listing holds what the entries before its last hold, and what its last entry
/// is.
proof fn lemma_holds_by_last<P, E>(entries: Seq<Result<EntryView<P>, E>>)
    requires
        entries.len() > 0,
    ensures
        forall|class: EntryClass|
            #![trigger has_class(entries, class)]
            #![trigger has_class(entries.drop_last(), class)]
            has_class(entries, class) <==> has_class(entries.drop_last(), class) || is_class(
                entries.last(),
                class,
            ),
        forall|class: EntryClass, path: P|
            #![trigger has_class_at(entries, class, path)]
            #![trigger has_class_at(entries.drop_last(), class, path)]
            has_class_at(entries, class, path) <==> has_class_at(entries.drop_last(), class, path)
                || is_class_at(entries.last(), class, path),
        forall|class: EntryClass, path: P|
            #![trigger has_class_at(entries, class, path)]
            has_class_at(entries, class, path) ==> has_class(entries, class),
        at_most_one_artifact(entries) ==> at_most_one_artifact(entries.drop_last()) && !(
        has_class(entries.drop_last(), EntryClass::Artifact) && is_class(
            entries.last(),
            EntryClass::Artifact,
        )),
{
    let prefix = entries.drop_last();
    let last = entries.last();
    let n = entries.len() - 1;
    assert forall|class: EntryClass| has_class(entries, class) <==> has_class(prefix, class)
        || is_class(last, class) by {
        if has_class(prefix, class) {
            let i = choose|i: int| 0 <= i < prefix.len() && is_class(prefix[i], class);
            assert(is_class(entries[i], class));
        }
        if is_class(last, class) {
            assert(is_class(entries[n], class));
        }
        if has_class(entries, class) {
            let i = choose|i: int| 0 <= i < entries.len() && is_class(entries[i], class);
            if i < n {
                assert(is_class(prefix[i], class));
            }
        }
    }
    assert forall|class: EntryClass, path: P|
        has_class_at(entries, class, path) <==> has_class_at(prefix, class, path) || is_class_at(
            last,
            class,
            path,
        ) by {
        if has_class_at(prefix, class, path) {
            let i = choose|i: int| 0 <= i < prefix.len() && is_class_at(prefix[i], class, path);
            assert(is_class_at(entries[i], class, path));
        }
        if is_class_at(last, class, path) {
            assert(is_class_at(entries[n], class, path));
        }
        if has_class_at(entries, class, path) {
            let i = choose|i: int| 0 <= i < entries.len() && is_class_at(entries[i], class, path);
            if i < n {
                assert(is_class_at(prefix[i], class, path));
            }
        }
    }
    assert forall|class: EntryClass, path: P| has_class_at(entries, class, path) implies has_class(
        entries,
        class,
    ) by {
        let i = choose|i: int| 0 <= i < entries.len() && is_class_at(entries[i], class, path);
        assert(is_class(entries[i], class));
    }
    if at_most_one_artifact(entries) {
        assert forall|i: int, j: int|
            0 <= i < j < prefix.len() && is_class(prefix[i], EntryClass::Artifact) implies !is_class(
            prefix[j],
            EntryClass::Artifact,
        ) by {
            assert(is_class(entries[i], EntryClass::Artifact));
            assert(!is_class(entries[j], EntryClass::Artifact));
        }
        if has_class(prefix, EntryClass::Artifact) {
            let i = choose|i: int|
                0 <= i < prefix.len() && is_class(prefix[i], EntryClass::Artifact);
            assert(is_class(entries[i], EntryClass::Artifact));
            assert(!is_class(entries[n], EntryClass::Artifact));
        }
    }
}

/// The state of the scanner and the deletions it has scheduled, by what the
/// listing holds, where at most one entry is a candidate.
proof fn lemma_scan_summary<P, E>(entries: Seq<Result<EntryView<P>, E>>)
    requires
        at_most_one_artifact(entries),
    ensures
        ({
            let state = state_after(ScanState::Nothing, entries);
            let removed = removals(scan_results(ScanState::Nothing, entries));
            let manifest = has_class(entries, EntryClass::Manifest);
            if manifest {
                &&& state == ScanState::<P>::FoundManifest
                &&& removed.len() <= 1
                &&& forall|path: P|
                    removed.contains(path) <==> has_class_at(entries, EntryClass::Artifact, path)
            } else {
                &&& removed.len() == 0
                &&& match state {
                    ScanState::Nothing => !has_class(entries, EntryClass::Artifact),
                    ScanState::FoundManifest => false,
                    ScanState::FoundArtifact(pending) => has_class_at(
                        entries,
                        EntryClass::Artifact,
                        pending,
                    ),
                }
            }
        }),
    decreases entries.len(),
{
    if entries.len() > 0 {
        let prefix = entries.drop_last();
        let last = entries.last();
        lemma_holds_by_last(entries);
        lemma_scan_summary(prefix);
        let before = state_after(ScanState::Nothing, prefix);
        let earlier = scan_results(ScanState::Nothing, prefix);
        let removed_before = removals(earlier);
        let removed = removals(scan_results(ScanState::Nothing, entries));
        match last {
            Ok(entry) => {
                match before.emits(entry) {
                    Some(task) => {
                        lemma_removals_push(earlier, Ok(task));
                        match task {
                            Task::Remove(path) => {
                                assert(removed == removed_before.push(path));
                                assert(removed_before.len() == 0) by {
                                    if removed_before.len() > 0 {
                                        assert(removed_before.contains(removed_before[0]));
                                    }
                                }
                                assert(removed[0] == path);
                                assert forall|p: P| removed.contains(p) implies p == path by {
                                    let k = choose|k: int|
                                        0 <= k < removed.len() && removed[k] == p;
                                    assert(k == 0);
                                }
                                if entry.class() == EntryClass::Artifact {
                                    assert(is_class_at(last, EntryClass::Artifact, path));
                                }
                            },
                            Task::Scan(_) => {},
                        }
                    },
                    None => {},
                }
            },
            Err(e) => {
                lemma_removals_push(earlier, Err(e));
            },
        }
    }
}

/// In a listing with at most one candidate artifact directory, the scan
/// schedules for deletion exactly the candidates that have a manifest beside
/// them, each once, wherever in the listing the two stand.
pub proof fn lemma_removals_are_confirmed_artifacts<P, E>(entries: Seq<Result<EntryView<P>, E>>)
    requires
        at_most_one_artifact(entries),
    ensures
        forall|path: P|
            #![trigger removals(scan_results(ScanState::Nothing, entries)).contains(path)]
            #![trigger has_class_at(entries, EntryClass::Artifact, path)]
            removals(scan_results(ScanState::Nothing, entries)).contains(path) <==> (has_class(
                entries,
                EntryClass::Manifest,
            ) && has_class_at(entries, EntryClass::Artifact, path)),
        removals(scan_results(ScanState::Nothing, entries)).len() <= 1,
{
    lemma_scan_summary(entries);
    let removed = removals(scan_results(ScanState::Nothing, entries));
    if !has_class(entries, EntryClass::Manifest) {
        assert forall|path: P| !removed.contains(path) by {}
    }
}

/// A listing without a manifest has nothing deleted, whatever else it holds.
pub proof fn lemma_no_manifest_no_removal<P, E>(entries: Seq<Result<EntryView<P>, E>>)
    requires
        !has_class(entries, EntryClass::Manifest),
    ensures
        removals(scan_results(ScanState::Nothing, entries)) == Seq::<P>::empty(),
        !(state_after(ScanState::Nothing, entries) is FoundManifest),
    decreases entries.len(),
{
    if entries.len() > 0 {
        let prefix = entries.drop_last();
        lemma_holds_by_last(entries);
        lemma_no_manifest_no_removal(prefix);
        let earlier = scan_results(ScanState::Nothing, prefix);
        match entries.last() {
            Ok(entry) => {
                match state_after(ScanState::Nothing, prefix).emits(entry) {
                    Some(task) => {
                        lemma_removals_push(earlier, Ok(task));
                    },
                    None => {},
                }
            },
            Err(e) => {
                lemma_removals_push(earlier, Err(e));
            },
        }
    }
}

/// A listing without a candidate artifact directory has nothing deleted, with
/// or without a manifest.
pub proof fn lemma_no_artifact_no_removal<P, E>(entries: Seq<Result<EntryView<P>, E>>)
    requires
        !has_class(entries, EntryClass::Artifact),
    ensures
        removals(scan_results(ScanState::Nothing, entries)) == Seq::<P>::empty(),
        !(state_after(ScanState::Nothing, entries) is FoundArtifact),
    decreases entries.len(),
{
    if entries.len() > 0 {
        let prefix = entries.drop_last();
        lemma_holds_by_last(entries);
        lemma_no_artifact_no_removal(prefix);
        let earlier = scan_results(ScanState::Nothing, prefix);
        match entries.last() {
            Ok(entry) => {
                match state_after(ScanState::Nothing, prefix).emits(entry) {
                    Some(task) => {
                        lemma_removals_push(earlier, Ok(task));
                    },
                    None => {},
                }
            },
            Err(e) => {
                lemma_removals_push(earlier, Err(e));
            },
        }
    }
}

/// Every directory that is neither manifest nor candidate is scheduled for a
/// scan of its own, in listing order, whatever the scanner has seen before.
pub proof fn lemma_subdirectories_are_scanned<P, E>(
    start: ScanState<P>,
    entries: Seq<Result<EntryView<P>, E>>,
)
    ensures
        scans(scan_results(start, entries)) == subdirectories(entries),
    decreases entries.len(),
{
    if entries.len() > 0 {
        let prefix = entries.drop_last();
        lemma_subdirectories_are_scanned(start, prefix);
        let earlier = scan_results(start, prefix);
        match entries.last() {
            Ok(entry) => {
                match state_after(start, prefix).emits(entry) {
                    Some(task) => {
                        lemma_scans_push(earlier, Ok(task));
                    },
                    None => {},
                }
            },
            Err(e) => {
                lemma_scans_push(earlier, Err(e));
            },
        }
    }
}

/// A listing whose names are distinct holds at most one candidate artifact
/// directory.
pub proof fn lemma_distinct_names_one_artifact<P, E>(entries: Seq<Result<EntryView<P>, E>>)
    requires
        distinct_names(entries),
    ensures
        at_most_one_artifact(entries),
{
    assert forall|i: int, j: int|
        0 <= i < j < entries.len() && is_class(entries[i], EntryClass::Artifact) implies !is_class(
        entries[j],
        EntryClass::Artifact,
    ) by {
        if is_class(entries[j], EntryClass::Artifact) {
            assert(entries[i]->Ok_0.name == entries[j]->Ok_0.name);
        }
    }
}

/// Once a manifest has been seen the scanner remembers it to the end of the
/// listing.
pub proof fn lemma_manifest_is_remembered<P, E>(
    start: ScanState<P>,
    entries: Seq<Result<EntryView<P>, E>>,
)
    requires
        start is FoundManifest || has_class(entries, EntryClass::Manifest),
    ensures
        state_after(start, entries) is FoundManifest,
    decreases entries.len(),
{
    if entries.len() > 0 {
        lemma_holds_by_last(entries);
        if !is_class(entries.last(), EntryClass::Manifest) {
            lemma_manifest_is_remembered(start, entries.drop_last());
        }
    }
}

/// A scan of two listings on end is the scan of the first followed by the scan of
/// the second from the state that the first has left.
pub proof fn lemma_scan_of_concatenation<P, E>(
    start: ScanState<P>,
    first: Seq<Result<EntryView<P>, E>>,
    second: Seq<Result<EntryView<P>, E>>,
)
    ensures
        state_after(start, first + second) == state_after(state_after(start, first), second),
        scan_results(start, first + second) == scan_results(start, first) + scan_results(
            state_after(start, first),
            second,
        ),
    decreases second.len(),
{
    if second.len() == 0 {
        assert(first + second == first);
        assert(scan_results(start, first) + Seq::<Result<Task<P>, E>>::empty() == scan_results(
            start,
            first,
        ));
    } else {
        let whole = first + second;
        assert(whole.drop_last() == first + second.drop_last());
        assert(whole.last() == second.last());
        lemma_scan_of_concatenation(start, first, second.drop_last());
        let head = scan_results(start, first);
        let middle = state_after(start, first);
        let tail = scan_results(middle, second.drop_last());
        match second.last() {
            Ok(entry) => {
                match state_after(middle, second.drop_last()).emits(entry) {
                    Some(task) => {
                        assert((head + tail).push(Ok(task)) == head + tail.push(Ok(task)));
                    },
                    None => {},
                }
            },
            Err(e) => {
                assert((head + tail).push(Err(e)) == head + tail.push(Err(e)));
            },
        }
    }
}

/// A further manifest after the first changes nothing: the scan yields what it
/// yields without it, and ends in the same state.
pub proof fn lemma_second_manifest_changes_nothing<P, E>(
    before: Seq<Result<EntryView<P>, E>>,
    manifest: EntryView<P>,
    after: Seq<Result<EntryView<P>, E>>,
)
    requires
        has_class(before, EntryClass::Manifest),
        manifest.class() == EntryClass::Manifest,
    ensures
        scan_results(ScanState::Nothing, before.push(Ok(manifest)) + after) == scan_results(
            ScanState::Nothing,
            before + after,
        ),
        state_after(ScanState::Nothing, before.push(Ok(manifest)) + after) == state_after(
            ScanState::Nothing,
            before + after,
        ),
{
    let longer = before.push(Ok(manifest));
    assert(longer.drop_last() == before);
    lemma_manifest_is_remembered(ScanState::Nothing, before);
    lemma_scan_of_concatenation(ScanState::Nothing, longer, after);
    lemma_scan_of_concatenation(ScanState::Nothing, before, after);
}

/// Whether the entry at `i` is the first candidate artifact directory of the
/// listing.
pub open spec fn first_candidate_at<P, E>(entries: Seq<Result<EntryView<P>, E>>, i: int) -> bool {
    &&& 0 <= i < entries.len()
    &&& is_class(entries[i], EntryClass::Artifact)
    &&& forall|j: int| 0 <= j < i ==> !#[trigger] is_class(entries[j], EntryClass::Artifact)
}

/// While no manifest has been seen, the scanner holds the first candidate
/// artifact directory of the listing, if there is one.
pub proof fn lemma_first_candidate_is_held<P, E>(entries: Seq<Result<EntryView<P>, E>>)
    requires
        !has_class(entries, EntryClass::Manifest),
    ensures
        has_class(entries, EntryClass::Artifact) <==> state_after(
            ScanState::Nothing,
            entries,
        ) is FoundArtifact,
        !has_class(entries, EntryClass::Artifact) <==> state_after(
            ScanState::Nothing,
            entries,
        ) is Nothing,
        forall|i: int| #[trigger]
            first_candidate_at(entries, i) ==> state_after(ScanState::Nothing, entries)
                == ScanState::FoundArtifact(entries[i]->Ok_0.path),
    decreases entries.len(),
{
    if entries.len() > 0 {
        let prefix = entries.drop_last();
        let n = entries.len() - 1;
        lemma_holds_by_last(entries);
        lemma_first_candidate_is_held(prefix);
        assert forall|i: int| #[trigger] first_candidate_at(entries, i) implies state_after(
            ScanState::Nothing,
            entries,
        ) == ScanState::FoundArtifact(entries[i]->Ok_0.path) by {
            if i < n {
                assert(is_class(prefix[i], EntryClass::Artifact));
                assert forall|j: int| 0 <= j < i implies !#[trigger] is_class(
                    prefix[j],
                    EntryClass::Artifact,
                ) by {
                    assert(!is_class(entries[j], EntryClass::Artifact));
                }
                assert(first_candidate_at(prefix, i));
            } else {
                if has_class(prefix, EntryClass::Artifact) {
                    let k = choose|k: int|
                        0 <= k < prefix.len() && is_class(prefix[k], EntryClass::Artifact);
                    assert(!is_class(entries[k], EntryClass::Artifact));
                }
            }
        }
    }
}

/// A further candidate artifact directory while one is held changes nothing: the
/// scan yields what it yields without it, and ends in the same state.
pub proof fn lemma_second_candidate_changes_nothing<P, E>(
    before: Seq<Result<EntryView<P>, E>>,
    candidate: EntryView<P>,
    after: Seq<Result<EntryView<P>, E>>,
)
    requires
        !has_class(before, EntryClass::Manifest),
        has_class(before, EntryClass::Artifact),
        candidate.class() == EntryClass::Artifact,
    ensures
        scan_results(ScanState::Nothing, before.push(Ok(candidate)) + after) == scan_results(
            ScanState::Nothing,
            before + after,
        ),
        state_after(ScanState::Nothing, before.push(Ok(candidate)) + after) == state_after(
            ScanState::Nothing,
            before + after,
        ),
{
    let longer = before.push(Ok(candidate));
    assert(longer.drop_last() == before);
    lemma_first_candidate_is_held(before);
    lemma_scan_of_concatenation(ScanState::Nothing, longer, after);
    lemma_scan_of_concatenation(ScanState::Nothing, before, after);
}

/// A listing of the entries of another, in any order, holds at most one candidate
/// artifact directory if the other does.
pub proof fn lemma_one_artifact_in_any_order<P, E>(
    one: Seq<Result<EntryView<P>, E>>,
    other: Seq<Result<EntryView<P>, E>>,
)
    requires
        one.to_multiset() == other.to_multiset(),
        at_most_one_artifact(one),
    ensures
        at_most_one_artifact(other),
{
    broadcast use vstd::seq_lib::to_multiset_contains;
    broadcast use vstd::multiset::group_multiset_axioms;

    assert forall|i: int, j: int|
        0 <= i < j < other.len() && is_class(other[i], EntryClass::Artifact) implies !is_class(
        other[j],
        EntryClass::Artifact,
    ) by {
        if is_class(other[j], EntryClass::Artifact) {
            let x = other[i];
            let y = other[j];
            assert(other.contains(x));
            assert(other.to_multiset().count(x) > 0);
            assert(one.contains(x));
            let a = choose|a: int| 0 <= a < one.len() && one[a] == x;
            if x != y {
                assert(other.contains(y));
                assert(other.to_multiset().count(y) > 0);
                assert(one.contains(y));
                let b = choose|b: int| 0 <= b < one.len() && one[b] == y;
                assert(a != b);
                if a < b {
                    assert(is_class(one[a], EntryClass::Artifact));
                    assert(!is_class(one[b], EntryClass::Artifact));
                } else {
                    assert(is_class(one[b], EntryClass::Artifact));
                    assert(!is_class(one[a], EntryClass::Artifact));
                }
            } else {
                // The entry stands twice in `other`, so twice in `one`.
                vstd::seq_lib::to_multiset_remove(other, i);
                assert(other.remove(i)[j - 1] == x);
                assert(other.remove(i).contains(x));
                assert(other.remove(i).to_multiset().count(x) > 0);
                assert(other.to_multiset().count(x) >= 2);
                vstd::seq_lib::to_multiset_remove(one, a);
                assert(one.remove(a).to_multiset().count(x) > 0);
                assert(one.remove(a).contains(x));
                let k = choose|k: int| 0 <= k < one.remove(a).len() && one.remove(a)[k] == x;
                if k < a {
                    assert(one[k] == x);
                    assert(is_class(one[k], EntryClass::Artifact));
                    assert(!is_class(one[a], EntryClass::Artifact));
                } else {
                    assert(one[k + 1] == x);
                    assert(is_class(one[a], EntryClass::Artifact));
                    assert(!is_class(one[k + 1], EntryClass::Artifact));
                }
            }
        }
    }
}

/// Two listings of the same entries in any two orders, with at most one
/// candidate artifact directory, have the same deletions scheduled.
pub proof fn lemma_removals_ignore_order<P, E>(
    one: Seq<Result<EntryView<P>, E>>,
    other: Seq<Result<EntryView<P>, E>>,
)
    requires
        one.to_multiset() == other.to_multiset(),
        at_most_one_artifact(one),
    ensures
        removals(scan_results(ScanState::Nothing, one)) == removals(
            scan_results(ScanState::Nothing, other),
        ),
{
    broadcast use vstd::seq_lib::to_multiset_contains;

    lemma_one_artifact_in_any_order(one, other);
    lemma_removals_are_confirmed_artifacts(one);
    lemma_removals_are_confirmed_artifacts(other);
    lemma_same_entries_same_classes(one, other);
    lemma_same_entries_same_classes(other, one);
    let a = removals(scan_results(ScanState::Nothing, one));
    let b = removals(scan_results(ScanState::Nothing, other));
    if a.len() > 0 {
        assert(a.contains(a[0]));
        assert(b.contains(a[0]));
        let k = choose|k: int| 0 <= k < b.len() && b[k] == a[0];
        assert(k == 0);
    }
    if b.len() > 0 {
        assert(b.contains(b[0]));
        assert(a.contains(b[0]));
    }
    assert(a =~= b);
}

proof fn lemma_same_entries_same_classes<P, E>(
    one: Seq<Result<EntryView<P>, E>>,
    other: Seq<Result<EntryView<P>, E>>,
)
    requires
        one.to_multiset() == other.to_multiset(),
    ensures
        forall|class: EntryClass| has_class(one, class) ==> has_class(other, class),
        forall|class: EntryClass, path: P|
            has_class_at(one, class, path) ==> has_class_at(other, class, path),
{
    broadcast use vstd::seq_lib::to_multiset_contains;

    assert forall|i: int| 0 <= i < one.len() implies other.contains(#[trigger] one[i]) by {
        assert(one.contains(one[i]));
        assert(one.to_multiset().count(one[i]) > 0);
        assert(other.to_multiset().count(one[i]) > 0);
    }
    assert forall|class: EntryClass| has_class(one, class) implies has_class(other, class) by {
        let i = choose|i: int| 0 <= i < one.len() && is_class(one[i], class);
        assert(other.contains(one[i]));
        let j = choose|j: int| 0 <= j < other.len() && other[j] == one[i];
        assert(is_class(other[j], class));
    }
    assert forall|class: EntryClass, path: P|
        has_class_at(one, class, path) implies has_class_at(other, class, path) by {
        let i = choose|i: int| 0 <= i < one.len() && is_class_at(one[i], class, path);
        assert(other.contains(one[i]));
        let j = choose|j: int| 0 <= j < other.len() && other[j] == one[i];
        assert(is_class_at(other[j], class, path));
    }
}

} // verus!

//! How far a sweep reaches into a tree: which directories it scans, what it
//! never looks into, and what a failed listing cannot change.
use crate::laws::{has_class, is_class, removals};
use crate::scanner::{scan_results, EntryClass, EntryView, ScanState, ARTIFACT_MARKER};
use crate::sweep::{
    deleted, deleted_below, directories, directories_below, entries, error_free,
    error_free_below, every_listing, every_listing_below, lemma_sweep_below_concatenation, orderly,
    path_of, swept, swept_below, Node, Tree,
};
use vstd::prelude::*;

verus! {

/// The directories of `tree`, found at `dir`, that do not lie in a candidate
/// artifact directory with a manifest beside it, nor are one: `dir` itself, then
/// those at and below each entry, in listing order.
pub open spec fn kept<P, E>(dir: P, tree: Tree<P, E>) -> Seq<P>
    decreases tree,
{
    match tree.listing {
        Ok(nodes) => seq![dir] + kept_below(nodes, has_class(entries(nodes), EntryClass::Manifest)),
        Err(_) => seq![dir],
    }
}

/// Such directories at and below the entries `nodes` of a listing that holds a
/// manifest if `manifest` says so.
pub open spec fn kept_below<P, E>(nodes: Seq<Node<P, E>>, manifest: bool) -> Seq<P>
    decreases nodes,
{
    if nodes.len() == 0 {
        Seq::empty()
    } else {
        kept_below(nodes.drop_last(), manifest) + match nodes.last().entry {
            Ok(entry) => if entry.is_dir && !(manifest && entry.class() == EntryClass::Artifact) {
                kept(entry.path, nodes.last().below)
            } else {
                Seq::empty()
            },
            Err(_) => Seq::empty(),
        }
    }
}

/// There are as many such directories as `directories` counts.
pub proof fn lemma_kept_are_counted<P, E>(dir: P, tree: Tree<P, E>)
    ensures
        kept(dir, tree).len() == directories(tree),
    decreases tree,
{
    match tree.listing {
        Ok(nodes) => {
            lemma_kept_below_are_counted(nodes, has_class(entries(nodes), EntryClass::Manifest));
        },
        Err(_) => {},
    }
}

proof fn lemma_kept_below_are_counted<P, E>(nodes: Seq<Node<P, E>>, manifest: bool)
    ensures
        kept_below(nodes, manifest).len() == directories_below(nodes, manifest),
    decreases nodes,
{
    if nodes.len() > 0 {
        lemma_kept_below_are_counted(nodes.drop_last(), manifest);
        match nodes.last().entry {
            Ok(entry) => {
                if entry.is_dir && !(manifest && entry.class() == EntryClass::Artifact) {
                    lemma_kept_are_counted(entry.path, nodes.last().below);
                }
            },
            Err(_) => {},
        }
    }
}

/// In a tree of which every listing can be read and is orderly, the sweep scans
/// exactly the directories that do not lie in a deleted artifact directory, nor
/// are one: each of them once, and no other path.
pub proof fn lemma_sweep_scans_the_kept<P, E>(dir: P, tree: Tree<P, E>)
    requires
        error_free(tree),
        every_listing(tree, |entries: Seq<Result<EntryView<P>, E>>| orderly(entries)),
    ensures
        swept(dir, tree) == kept(dir, tree),
    decreases tree,
{
    match tree.listing {
        Ok(nodes) => {
            assert(orderly(entries(nodes)));
            assert(nodes.take(nodes.len() as int) == nodes);
            lemma_sweep_scans_the_kept_below(nodes, entries(nodes), nodes.len() as int);
        },
        Err(_) => {},
    }
}

proof fn lemma_sweep_scans_the_kept_below<P, E>(
    nodes: Seq<Node<P, E>>,
    listing: Seq<Result<EntryView<P>, E>>,
    upto: int,
)
    requires
        0 <= upto <= nodes.len(),
        listing == entries(nodes),
        orderly(listing),
        error_free_below(nodes.take(upto)),
        every_listing_below(
            nodes.take(upto),
            |entries: Seq<Result<EntryView<P>, E>>| orderly(entries),
        ),
    ensures
        swept_below(nodes.take(upto)) == kept_below(
            nodes.take(upto),
            has_class(listing, EntryClass::Manifest),
        ),
    decreases nodes, upto,
{
    if upto > 0 {
        let seen = nodes.take(upto);
        assert(seen.drop_last() == nodes.take(upto - 1));
        assert(seen.last() == nodes[upto - 1]);
        assert(listing[upto - 1] == nodes[upto - 1].entry);
        lemma_sweep_scans_the_kept_below(nodes, listing, upto - 1);
        if is_class(seen.last().entry, EntryClass::Directory) {
            lemma_sweep_scans_the_kept(path_of(nodes[upto - 1].entry), nodes[upto - 1].below);
        } else {
            assert(swept_below(nodes.take(upto - 1)) + Seq::<P>::empty() == swept_below(
                nodes.take(upto - 1),
            ));
        }
    } else {
        assert(nodes.take(0) == Seq::<Node<P, E>>::empty());
    }
}

/// An entry named like the artifact marker is never scheduled for a scan of its
/// own, whatever its file type and whatever else its listing holds.
pub proof fn lemma_artifact_name_is_not_scanned<P>(entry: EntryView<P>)
    requires
        entry.name == Some(ARTIFACT_MARKER@),
    ensures
        entry.class() != EntryClass::Directory,
{
}

/// What lies below an entry that is not scheduled for a scan of its own has no
/// part in the sweep: with anything else below that entry the sweep scans and
/// deletes the same. So nothing at or below a candidate artifact directory is
/// listed or reported, be it deleted, held or without a manifest.
pub proof fn lemma_sweep_does_not_look_below<P, E>(
    before: Seq<Node<P, E>>,
    node: Node<P, E>,
    replacement: Tree<P, E>,
    after: Seq<Node<P, E>>,
)
    requires
        !is_class(node.entry, EntryClass::Directory),
    ensures
        ({
            let other = Node { entry: node.entry, below: replacement };
            &&& entries(before.push(other) + after) == entries(before.push(node) + after)
            &&& swept_below(before.push(other) + after) == swept_below(before.push(node) + after)
            &&& deleted_below(before.push(other) + after) == deleted_below(
                before.push(node) + after,
            )
            &&& swept_below(before.push(node) + after) == swept_below(before) + swept_below(after)
        }),
{
    let other = Node { entry: node.entry, below: replacement };
    assert(entries(before.push(other) + after) =~= entries(before.push(node) + after));
    assert(before.push(node).drop_last() == before);
    assert(before.push(other).drop_last() == before);
    assert(before.push(node).last() == node);
    assert(before.push(other).last() == other);
    lemma_sweep_below_concatenation(before.push(node), after);
    lemma_sweep_below_concatenation(before.push(other), after);
    assert(swept_below(before.push(node)) == swept_below(before));
    assert(swept_below(before.push(other)) == swept_below(before));
    assert(deleted_below(before.push(node)) == deleted_below(before));
    assert(deleted_below(before.push(other)) == deleted_below(before));
}

/// Whether two trees are the same but for listings that fail: where the listing
/// of a directory that the sweep scans fails in one of them, it fails or is empty
/// in the other.
pub open spec fn same_but_failures<P, E>(one: Tree<P, E>, other: Tree<P, E>) -> bool
    decreases one,
{
    match one.listing {
        Ok(nodes) => match other.listing {
            Ok(others) => same_but_failures_below(nodes, others),
            Err(_) => nodes.len() == 0,
        },
        Err(_) => match other.listing {
            Ok(others) => others.len() == 0,
            Err(_) => true,
        },
    }
}

/// Whether two runs of entries are the same but for listings below them that
/// fail.
pub open spec fn same_but_failures_below<P, E>(nodes: Seq<Node<P, E>>, others: Seq<Node<P, E>>)
    -> bool
    decreases nodes,
{
    if nodes.len() == 0 {
        others.len() == 0
    } else {
        &&& others.len() == nodes.len()
        &&& nodes.last().entry == others.last().entry
        &&& same_but_failures_below(nodes.drop_last(), others.drop_last())
        &&& is_class(nodes.last().entry, EntryClass::Directory) ==> same_but_failures(
            nodes.last().below,
            others.last().below,
        )
    }
}

/// Listings that fail, any number of them anywhere in the tree, change nothing
/// outside their own directory: the sweep scans the same directories, the
/// failing ones among them, and schedules the same deletions as in the tree
/// where those listings are empty instead.
pub proof fn lemma_failed_listings_change_nothing_else<P, E>(
    dir: P,
    one: Tree<P, E>,
    other: Tree<P, E>,
)
    requires
        same_but_failures(one, other),
    ensures
        swept(dir, one) == swept(dir, other),
        deleted(one) == deleted(other),
    decreases one,
{
    let nothing = Seq::<Result<EntryView<P>, E>>::empty();
    assert(entries(Seq::<Node<P, E>>::empty()) == nothing);
    assert(scan_results(ScanState::<P>::Nothing, nothing) == Seq::<
        Result<crate::queue::Task<P>, E>,
    >::empty());
    assert(removals(scan_results(ScanState::<P>::Nothing, nothing)) == Seq::<P>::empty());
    assert(seq![dir] + Seq::<P>::empty() == seq![dir]);
    assert(Seq::<P>::empty() + Seq::<P>::empty() == Seq::<P>::empty());
    match one.listing {
        Ok(nodes) => match other.listing {
            Ok(others) => {
                lemma_failed_listings_change_nothing_below(nodes, others);
            },
            Err(_) => {
                assert(nodes == Seq::<Node<P, E>>::empty());
            },
        },
        Err(_) => match other.listing {
            Ok(others) => {
                assert(others == Seq::<Node<P, E>>::empty());
            },
            Err(_) => {},
        },
    }
}

proof fn lemma_failed_listings_change_nothing_below<P, E>(
    nodes: Seq<Node<P, E>>,
    others: Seq<Node<P, E>>,
)
    requires
        same_but_failures_below(nodes, others),
    ensures
        entries(nodes) == entries(others),
        swept_below(nodes) == swept_below(others),
        deleted_below(nodes) == deleted_below(others),
    decreases nodes,
{
    if nodes.len() > 0 {
        lemma_failed_listings_change_nothing_below(nodes.drop_last(), others.drop_last());
        assert(entries(nodes) =~= entries(nodes.drop_last()).push(nodes.last().entry));
        assert(entries(others) =~= entries(others.drop_last()).push(others.last().entry));
        if is_class(nodes.last().entry, EntryClass::Directory) {
            lemma_failed_listings_change_nothing_else(
                path_of(nodes.last().entry),
                nodes.last().below,
                others.last().below,
            );
        }
    } else {
        assert(entries(nodes) =~= entries(others));
    }
}

} // verus!

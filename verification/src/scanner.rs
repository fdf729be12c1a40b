//! Classification of one directory listing.
use crate::handle::{share, JobSender};
use crate::queue::{Job, Task};
use vstd::prelude::*;
use vstd::string::*;

verus! {

/// Name of the file that marks a directory as a project root.
pub const MANIFEST_MARKER: &'static str = "Cargo.toml";

/// Name of the directory that holds a project's build output.
pub const ARTIFACT_MARKER: &'static str = "target";

/// One entry of a directory listing, as far as the scanner reads it.
#[derive(Debug)]
pub struct Entry<P> {
    /// Full path of the entry.
    pub path: P,
    /// Last component of the path, if it has one. Where the file system's name is
    /// no valid Unicode, any rendering of it will do: it spells neither marker.
    pub name: Option<String>,
    /// Whether the entry itself is a directory.
    pub is_dir: bool,
}

/// An entry with its name as a sequence of characters.
pub struct EntryView<P> {
    pub path: P,
    pub name: Option<Seq<char>>,
    pub is_dir: bool,
}

impl<P> View for Entry<P> {
    type V = EntryView<P>;

    open spec fn view(&self) -> EntryView<P> {
        EntryView {
            path: self.path,
            name: match self.name {
                Some(name) => Some(name@),
                None => None,
            },
            is_dir: self.is_dir,
        }
    }
}

/// What an entry is to the scanner.
#[derive(Clone, Copy, Debug, PartialEq, Eq, Structural)]
pub enum EntryClass {
    /// Named like the manifest marker, whatever its file type.
    Manifest,
    /// A directory named like the artifact marker.
    Artifact,
    /// Any other directory.
    Directory,
    /// Anything else.
    Other,
}

impl<P> EntryView<P> {
    /// What the entry is to the scanner. The name decides first: an entry named
    /// like the manifest marker is the manifest, whatever its file type.
    pub open spec fn class(self) -> EntryClass {
        match self.name {
            None => EntryClass::Other,
            Some(name) => if name == MANIFEST_MARKER@ {
                EntryClass::Manifest
            } else if self.is_dir && name == ARTIFACT_MARKER@ {
                EntryClass::Artifact
            } else if self.is_dir {
                EntryClass::Directory
            } else {
                EntryClass::Other
            },
        }
    }
}

/// What the scanner has seen so far in the listing it is going through.
#[derive(Debug)]
pub enum ScanState<P> {
    /// Neither a manifest nor a candidate artifact directory.
    Nothing,
    /// The manifest; no candidate is pending.
    FoundManifest,
    /// A candidate artifact directory, held until a manifest confirms it.
    FoundArtifact(P),
}

impl<P> ScanState<P> {
    /// The state after `entry` has been seen in state `self`.
    pub open spec fn after(self, entry: EntryView<P>) -> ScanState<P> {
        match entry.class() {
            EntryClass::Manifest => ScanState::FoundManifest,
            EntryClass::Artifact => match self {
                ScanState::Nothing => ScanState::FoundArtifact(entry.path),
                ScanState::FoundManifest => ScanState::FoundManifest,
                ScanState::FoundArtifact(pending) => ScanState::FoundArtifact(pending),
            },
            EntryClass::Directory => self,
            EntryClass::Other => self,
        }
    }

    /// The job, if any, that seeing `entry` in state `self` gives rise to.
    pub open spec fn emits(self, entry: EntryView<P>) -> Option<Task<P>> {
        match entry.class() {
            EntryClass::Manifest => match self {
                ScanState::FoundArtifact(pending) => Some(Task::Remove(pending)),
                _ => None,
            },
            EntryClass::Artifact => match self {
                ScanState::FoundManifest => Some(Task::Remove(entry.path)),
                _ => None,
            },
            EntryClass::Directory => Some(Task::Scan(entry.path)),
            EntryClass::Other => None,
        }
    }
}

/// The task of a job that may be absent.
pub open spec fn task_of<P>(job: Option<Job<P>>) -> Option<Task<P>> {
    match job {
        Some(job) => Some(job@),
        None => None,
    }
}

/// Whether `name` spells `marker`.
fn is_named(name: &String, marker: &str) -> (same: bool)
    ensures
        same == (name@ == marker@),
{
    let marker = String::from_str(marker);
    *name == marker
}

impl<P> Entry<P> {
    /// Classifies the entry by its name and file type.
    pub fn class(&self) -> (class: EntryClass)
        ensures
            class == self@.class(),
    {
        match &self.name {
            None => EntryClass::Other,
            Some(name) => {
                if is_named(name, MANIFEST_MARKER) {
                    EntryClass::Manifest
                } else if self.is_dir && is_named(name, ARTIFACT_MARKER) {
                    EntryClass::Artifact
                } else if self.is_dir {
                    EntryClass::Directory
                } else {
                    EntryClass::Other
                }
            },
        }
    }
}

/// Advances the scanner over one entry of the listing and returns the job that
/// the entry gives rise to, if any. A scan job carries a new handle of the queue
/// behind `sender`.
pub fn process_entry<P>(state: &mut ScanState<P>, entry: Entry<P>, sender: &JobSender<P>) -> (job:
    Option<Job<P>>)
    ensures
        *final(state) == old(state).after(entry@),
        task_of(job) == old(state).emits(entry@),
{
    match entry.class() {
        EntryClass::Manifest => {
            let mut previous = ScanState::FoundManifest;
            core::mem::swap(state, &mut previous);
            match previous {
                ScanState::FoundArtifact(pending) => Some(Job::Remove(pending)),
                _ => None,
            }
        },
        EntryClass::Artifact => {
            match state {
                ScanState::Nothing => {
                    *state = ScanState::FoundArtifact(entry.path);
                    None
                },
                ScanState::FoundManifest => Some(Job::Remove(entry.path)),
                ScanState::FoundArtifact(_) => None,
            }
        },
        EntryClass::Directory => Some(Job::Scan(entry.path, share(sender))),
        EntryClass::Other => None,
    }
}

/// A listing as the scanner reads it: unreadable entries as they are, the others by
/// their view.
pub open spec fn listing_view<P, E>(entries: Seq<Result<Entry<P>, E>>) -> Seq<
    Result<EntryView<P>, E>,
> {
    entries.map_values(
        |item: Result<Entry<P>, E>|
            match item {
                Ok(entry) => Ok(entry@),
                Err(e) => Err(e),
            },
    )
}

/// The results of a scan with each job reduced to its task.
pub open spec fn tasks_of<P, E>(results: Seq<Result<Job<P>, E>>) -> Seq<Result<Task<P>, E>> {
    results.map_values(
        |item: Result<Job<P>, E>|
            match item {
                Ok(job) => Ok(job@),
                Err(e) => Err(e),
            },
    )
}

/// The scanner's state after it has gone through `entries`, in order, from the
/// state `start`. An unreadable entry leaves the state as it is.
pub open spec fn state_after<P, E>(start: ScanState<P>, entries: Seq<Result<EntryView<P>, E>>)
    -> ScanState<P>
    decreases entries.len(),
{
    if entries.len() == 0 {
        start
    } else {
        let before = state_after(start, entries.drop_last());
        match entries.last() {
            Ok(entry) => before.after(entry),
            Err(_) => before,
        }
    }
}

/// What a scan yields for `entries`, in listing order, from the state `start`: the
/// error of each unreadable entry, and the task of each entry that gives rise to
/// one.
pub open spec fn scan_results<P, E>(start: ScanState<P>, entries: Seq<Result<EntryView<P>, E>>)
    -> Seq<Result<Task<P>, E>>
    decreases entries.len(),
{
    if entries.len() == 0 {
        Seq::empty()
    } else {
        let earlier = scan_results(start, entries.drop_last());
        match entries.last() {
            Ok(entry) => match state_after(start, entries.drop_last()).emits(entry) {
                Some(task) => earlier.push(Ok(task)),
                None => earlier,
            },
            Err(e) => earlier.push(Err(e)),
        }
    }
}

/// Classifies the entries of one directory listing, in listing order, starting
/// with nothing seen. An unreadable entry yields its error and the scan goes on
/// with the next entry.
pub fn scan<P, E>(entries: Vec<Result<Entry<P>, E>>, sender: &JobSender<P>) -> (results: Vec<
    Result<Job<P>, E>,
>)
    ensures
        tasks_of(results@) == scan_results(ScanState::Nothing, listing_view(entries@)),
{
    let ghost listing = listing_view(entries@);
    let mut state = ScanState::Nothing;
    let mut results: Vec<Result<Job<P>, E>> = Vec::new();
    for item in iter: entries
        invariant
            listing == listing_view(iter.seq()),
            state == state_after(ScanState::Nothing, listing.take(iter.index())),
            tasks_of(results@) == scan_results(ScanState::Nothing, listing.take(iter.index())),
    {
        proof {
            let seen = listing.take(iter.index() + 1);
            assert(seen.drop_last() == listing.take(iter.index()));
            assert(seen.last() == listing[iter.index()]);
        }
        let ghost before = tasks_of(results@);
        match item {
            Ok(entry) => {
                match process_entry(&mut state, entry, sender) {
                    Some(job) => {
                        results.push(Ok(job));
                        assert(tasks_of(results@) == before.push(Ok(job@)));
                    },
                    None => {},
                }
            },
            Err(e) => {
                results.push(Err(e));
                assert(tasks_of(results@) == before.push(Err(e)));
            },
        }
    }
    proof {
        assert(listing.take(listing.len() as int) == listing);
    }
    results
}

} // verus!

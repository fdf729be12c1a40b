use cargo_sweep_all::observer::{Observer, Status};
use cargo_sweep_all::queue::{seed, Job};
use cargo_sweep_all::scanner::Entry;
use cargo_sweep_all::worker::{pool_succeeded, Worker};
use crossbeam::channel::Receiver;
use std::collections::{BTreeMap, BTreeSet};
use std::sync::{Arc, Mutex};

/// A directory tree in memory: for each directory the names of its entries in
/// listing order, a trailing `/` marking a directory.
struct Disk {
    listings: BTreeMap<String, Vec<&'static str>>,
    unlistable: BTreeSet<String>,
    undeletable: BTreeSet<String>,
}

impl Disk {
    fn new(listings: &[(&str, &[&'static str])]) -> Disk {
        Disk {
            listings: listings
                .iter()
                .map(|(dir, names)| (dir.to_string(), names.to_vec()))
                .collect(),
            unlistable: BTreeSet::new(),
            undeletable: BTreeSet::new(),
        }
    }

    fn list(&self, dir: &str) -> Result<Vec<Result<Entry<String>, String>>, String> {
        if self.unlistable.contains(dir) {
            return Err(format!("cannot list {dir}"));
        }
        let names = self.listings.get(dir).ok_or(format!("no directory {dir}"))?;
        Ok(names
            .iter()
            .map(|name| {
                let is_dir = name.ends_with('/');
                let name = name.trim_end_matches('/');
                if name.starts_with('?') {
                    return Err(format!("cannot read {dir}/{name}"));
                }
                Ok(Entry { path: format!("{dir}/{name}"), name: Some(name.to_string()), is_dir })
            })
            .collect())
    }

    fn remove(&self, path: &str) -> Result<(), String> {
        if self.undeletable.contains(path) {
            Err(format!("cannot delete {path}"))
        } else {
            Ok(())
        }
    }
}

/// What a sweep came to.
#[derive(Debug, PartialEq, Eq)]
struct Outcome {
    success: bool,
    scanned: Vec<String>,
    removed: Vec<String>,
    errors: Vec<String>,
}

/// An observer that sorts what it is told by kind, shared between workers.
#[derive(Clone, Default)]
struct Recorder {
    scanned: Arc<Mutex<Vec<String>>>,
    removed: Arc<Mutex<Vec<String>>>,
    errors: Arc<Mutex<Vec<String>>>,
}

impl Observer<String, String> for Recorder {
    fn on_error(&mut self, e: String) {
        self.errors.lock().unwrap().push(e);
    }

    fn on_removal(&mut self, path: &String) {
        self.removed.lock().unwrap().push(path.clone());
    }

    fn on_scanned(&mut self, dir: &String) {
        self.scanned.lock().unwrap().push(dir.clone());
    }
}

impl Recorder {
    fn outcome(&self, success: bool) -> Outcome {
        let sorted = |lines: &Arc<Mutex<Vec<String>>>| {
            let mut lines = lines.lock().unwrap().clone();
            lines.sort();
            lines
        };
        Outcome {
            success,
            scanned: sorted(&self.scanned),
            removed: sorted(&self.removed),
            errors: sorted(&self.errors),
        }
    }
}

/// Handles every job of the queue until it closes, and says whether one failed.
fn work<O: Observer<String, String>>(
    disk: &Disk,
    receiver: &Receiver<Job<String>>,
    observer: O,
) -> bool {
    let mut worker = Worker::new(observer);
    while let Ok(job) = receiver.recv() {
        match job {
            Job::Scan(dir, mut sender) => {
                let listing = disk.list(&dir);
                worker.finish_scan(dir, listing, &mut sender);
            }
            Job::Remove(path) => {
                let outcome = disk.remove(&path);
                worker.finish_removal(path, outcome);
            }
        }
    }
    worker.failed()
}

/// Sweeps the tree below `root` with one worker.
fn sweep(disk: &Disk, root: &str) -> Outcome {
    let recorder = Recorder::default();
    let receiver = seed(root.to_string()).into_receiver();
    let failed = work(disk, &receiver, recorder.clone());
    recorder.outcome(pool_succeeded(&vec![failed]))
}

/// Sweeps the tree below `root` with `workers` threads.
fn sweep_with(disk: &Disk, root: &str, workers: usize) -> Outcome {
    let recorder = Recorder::default();
    let receiver = seed(root.to_string()).into_receiver();
    let failed: Vec<bool> = crossbeam::scope(|scope| {
        let handles: Vec<_> = (0..workers)
            .map(|_| scope.spawn(|_| work(disk, &receiver, recorder.clone())))
            .collect();
        handles.into_iter().map(|handle| handle.join().unwrap()).collect()
    })
    .unwrap();
    recorder.outcome(pool_succeeded(&failed))
}

fn strings(lines: &[&str]) -> Vec<String> {
    lines.iter().map(|line| line.to_string()).collect()
}

#[test]
fn project_with_manifest_first_loses_its_target() {
    let disk = Disk::new(&[("/p", &["Cargo.toml", "target/"]), ("/p/target", &["debug/"])]);
    assert_eq!(
        sweep(&disk, "/p"),
        Outcome {
            success: true,
            scanned: strings(&["/p"]),
            removed: strings(&["/p/target"]),
            errors: strings(&[]),
        }
    );
}

#[test]
fn project_with_target_first_loses_its_target() {
    let disk = Disk::new(&[("/p", &["target/", "Cargo.toml"]), ("/p/target", &["debug/"])]);
    assert_eq!(
        sweep(&disk, "/p"),
        Outcome {
            success: true,
            scanned: strings(&["/p"]),
            removed: strings(&["/p/target"]),
            errors: strings(&[]),
        }
    );
}

#[test]
fn nested_project_is_swept_on_its_own() {
    let disk = Disk::new(&[
        ("/r", &["sub/"]),
        ("/r/sub", &["Cargo.toml", "target/"]),
        ("/r/sub/target", &["debug/"]),
    ]);
    assert_eq!(
        sweep(&disk, "/r"),
        Outcome {
            success: true,
            scanned: strings(&["/r", "/r/sub"]),
            removed: strings(&["/r/sub/target"]),
            errors: strings(&[]),
        }
    );
}

#[test]
fn nested_project_below_a_project_root() {
    let disk = Disk::new(&[
        ("/r", &["target/", "sub/", "Cargo.toml"]),
        ("/r/sub", &["Cargo.toml", "target/"]),
    ]);
    assert_eq!(
        sweep(&disk, "/r"),
        Outcome {
            success: true,
            scanned: strings(&["/r", "/r/sub"]),
            removed: strings(&["/r/sub/target", "/r/target"]),
            errors: strings(&[]),
        }
    );
}

#[test]
fn target_without_manifest_is_neither_deleted_nor_scanned() {
    let disk = Disk::new(&[
        ("/r", &["target/", "docs/"]),
        ("/r/target", &["x/"]),
        ("/r/docs", &[]),
    ]);
    assert_eq!(
        sweep(&disk, "/r"),
        Outcome {
            success: true,
            scanned: strings(&["/r", "/r/docs"]),
            removed: strings(&[]),
            errors: strings(&[]),
        }
    );
}

#[test]
fn error_free_tree_is_scanned_directory_by_directory() {
    let disk = Disk::new(&[
        ("/w", &["a/", "b/", "c/", "README.md"]),
        ("/w/a", &["Cargo.toml", "src/", "target/"]),
        ("/w/a/src", &["main.rs"]),
        ("/w/a/target", &["debug/", "release/"]),
        ("/w/b", &["target/", "Cargo.toml", "crates/"]),
        ("/w/b/crates", &["x/", "y/"]),
        ("/w/b/crates/x", &["Cargo.toml"]),
        ("/w/b/crates/y", &[]),
        ("/w/c", &[]),
    ]);
    let outcome = sweep(&disk, "/w");
    assert_eq!(
        outcome,
        Outcome {
            success: true,
            scanned: strings(&[
                "/w",
                "/w/a",
                "/w/a/src",
                "/w/b",
                "/w/b/crates",
                "/w/b/crates/x",
                "/w/b/crates/y",
                "/w/c",
            ]),
            removed: strings(&["/w/a/target", "/w/b/target"]),
            errors: strings(&[]),
        }
    );
    assert_eq!(outcome.scanned.len(), 8);
}

#[test]
fn several_workers_come_to_the_same_outcome() {
    let disk = Disk::new(&[
        ("/w", &["a/", "b/", "c/", "README.md"]),
        ("/w/a", &["Cargo.toml", "src/", "target/"]),
        ("/w/a/src", &["main.rs"]),
        ("/w/b", &["target/", "Cargo.toml", "crates/"]),
        ("/w/b/crates", &["x/", "y/"]),
        ("/w/b/crates/x", &["Cargo.toml"]),
        ("/w/b/crates/y", &[]),
        ("/w/c", &[]),
    ]);
    let alone = sweep(&disk, "/w");
    assert_eq!(sweep_with(&disk, "/w", 1), alone);
    assert_eq!(sweep_with(&disk, "/w", 4), alone);
    assert_eq!(sweep_with(&disk, "/w", 16), alone);
}

#[test]
fn failed_listing_leaves_the_siblings_alone() {
    let mut disk = Disk::new(&[
        ("/w", &["a/", "b/", "c/"]),
        ("/w/a", &["Cargo.toml", "target/"]),
        ("/w/b", &["Cargo.toml", "target/"]),
        ("/w/c", &["target/", "Cargo.toml", "src/"]),
        ("/w/c/src", &[]),
    ]);
    disk.unlistable.insert("/w/b".to_string());
    assert_eq!(
        sweep(&disk, "/w"),
        Outcome {
            success: false,
            scanned: strings(&["/w", "/w/a", "/w/b", "/w/c", "/w/c/src"]),
            removed: strings(&["/w/a/target", "/w/c/target"]),
            errors: strings(&["cannot list /w/b"]),
        }
    );
}

#[test]
fn failed_listing_of_the_root_fails_the_sweep() {
    let disk = Disk::new(&[]);
    assert_eq!(
        sweep(&disk, "/nowhere"),
        Outcome {
            success: false,
            scanned: strings(&["/nowhere"]),
            removed: strings(&[]),
            errors: strings(&["no directory /nowhere"]),
        }
    );
}

#[test]
fn unreadable_entry_fails_the_sweep_and_nothing_else() {
    let disk = Disk::new(&[
        ("/w", &["?broken", "a/", "Cargo.toml", "target/"]),
        ("/w/a", &[]),
    ]);
    assert_eq!(
        sweep(&disk, "/w"),
        Outcome {
            success: false,
            scanned: strings(&["/w", "/w/a"]),
            removed: strings(&["/w/target"]),
            errors: strings(&["cannot read /w/?broken"]),
        }
    );
}

#[test]
fn failed_deletion_fails_the_sweep_and_nothing_else() {
    let mut disk = Disk::new(&[
        ("/w", &["a/", "b/"]),
        ("/w/a", &["Cargo.toml", "target/"]),
        ("/w/b", &["Cargo.toml", "target/"]),
    ]);
    disk.undeletable.insert("/w/a/target".to_string());
    assert_eq!(
        sweep(&disk, "/w"),
        Outcome {
            success: false,
            scanned: strings(&["/w", "/w/a", "/w/b"]),
            removed: strings(&["/w/b/target"]),
            errors: strings(&["cannot delete /w/a/target"]),
        }
    );
}

#[test]
fn status_totals_match_the_sweep() {
    let mut disk = Disk::new(&[
        ("/w", &["a/", "b/", "c/"]),
        ("/w/a", &["Cargo.toml", "target/"]),
        ("/w/b", &["Cargo.toml", "target/"]),
        ("/w/c", &["?broken"]),
    ]);
    disk.undeletable.insert("/w/b/target".to_string());

    struct Shared(Arc<Mutex<Status>>);
    impl Observer<String, String> for Shared {
        fn on_error(&mut self, e: String) {
            Observer::<String, String>::on_error(&mut *self.0.lock().unwrap(), e);
        }

        fn on_removal(&mut self, path: &String) {
            Observer::<String, String>::on_removal(&mut *self.0.lock().unwrap(), path);
        }

        fn on_scanned(&mut self, dir: &String) {
            Observer::<String, String>::on_scanned(&mut *self.0.lock().unwrap(), dir);
        }
    }

    let status = Arc::new(Mutex::new(Status::new()));
    let receiver = seed("/w".to_string()).into_receiver();
    let failed = work(&disk, &receiver, Shared(status.clone()));
    assert!(failed);
    let status = status.lock().unwrap();
    assert_eq!(status.scanned_count(), 4);
    assert_eq!(status.removed_count(), 1);
    assert_eq!(status.error_count(), 2);
    assert_eq!(status.message(), "4 scanned, 1 removed, 2 errors");
}

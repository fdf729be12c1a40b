use cargo_sweep_all::observer::{Observer, Status};
use cargo_sweep_all::handle::JobSender;
use cargo_sweep_all::queue::{seed, Job};
use cargo_sweep_all::scanner::Entry;
use cargo_sweep_all::worker::{pool_succeeded, Worker};
use crossbeam::channel::Receiver;
use std::cell::RefCell;
use std::rc::Rc;

/// An observer that writes down what it is told.
#[derive(Clone)]
struct Recorder {
    lines: Rc<RefCell<Vec<String>>>,
}

impl Recorder {
    fn new() -> Self {
        Recorder { lines: Rc::new(RefCell::new(Vec::new())) }
    }

    fn lines(&self) -> Vec<String> {
        self.lines.borrow().clone()
    }
}

impl Observer<String, String> for Recorder {
    fn on_error(&mut self, e: String) {
        self.lines.borrow_mut().push(format!("error {e}"));
    }

    fn on_removal(&mut self, path: &String) {
        self.lines.borrow_mut().push(format!("removed {path}"));
    }

    fn on_scanned(&mut self, dir: &String) {
        self.lines.borrow_mut().push(format!("scanned {dir}"));
    }
}

/// A queue seeded with the scan of `root`, and the handle of that job.
fn queue(root: &str) -> (Receiver<Job<String>>, JobSender<String>) {
    let receiver = seed(root.to_string()).into_receiver();
    let sender = match receiver.recv().unwrap() {
        Job::Scan(_, sender) => sender,
        Job::Remove(_) => panic!("a queue is seeded with a scan"),
    };
    (receiver, sender)
}

/// What is on the queue, in words, once every handle outside it is gone.
fn drain(receiver: &Receiver<Job<String>>) -> Vec<String> {
    receiver
        .try_iter()
        .map(|job| match job {
            Job::Scan(dir, _) => format!("scan {dir}"),
            Job::Remove(path) => format!("remove {path}"),
        })
        .collect()
}

fn file(dir: &str, name: &str) -> Result<Entry<String>, String> {
    Ok(Entry { path: format!("{dir}/{name}"), name: Some(name.to_string()), is_dir: false })
}

fn dir(parent: &str, name: &str) -> Result<Entry<String>, String> {
    Ok(Entry { path: format!("{parent}/{name}"), name: Some(name.to_string()), is_dir: true })
}

#[test]
fn seeded_queue_holds_the_scan_of_the_root_and_nothing_else() {
    let receiver = seed("/p".to_string()).into_receiver();
    let job = receiver.recv().unwrap();
    assert!(job.is_scan());
    assert_eq!(job.path(), "/p");
    assert!(matches!(receiver.try_recv(), Err(e) if e.is_empty()));
    drop(job);
    assert!(receiver.recv().is_err());
}

#[test]
fn new_worker_has_not_failed() {
    let worker: Worker<Recorder> = Worker::new(Recorder::new());
    assert!(!worker.failed());
}

#[test]
fn scan_queues_the_jobs_and_reports_the_directory_once() {
    let (receiver, mut sender) = queue("/p");
    let recorder = Recorder::new();
    let mut worker = Worker::new(recorder.clone());
    worker.finish_scan(
        "/p".to_string(),
        Ok(vec![file("/p", "Cargo.toml"), dir("/p", "target"), dir("/p", "src")]),
        &mut sender,
    );
    drop(sender);
    assert!(!worker.failed());
    assert_eq!(recorder.lines(), vec!["scanned /p".to_string()]);
    assert_eq!(drain(&receiver), vec!["remove /p/target".to_string(), "scan /p/src".to_string()]);
}

#[test]
fn scan_reports_each_unreadable_entry_and_goes_on() {
    let (receiver, mut sender) = queue("/p");
    let recorder = Recorder::new();
    let mut worker = Worker::new(recorder.clone());
    worker.finish_scan(
        "/p".to_string(),
        Ok(vec![
            Err("denied".to_string()),
            dir("/p", "target"),
            Err("gone".to_string()),
            file("/p", "Cargo.toml"),
        ]),
        &mut sender,
    );
    drop(sender);
    assert!(worker.failed());
    assert_eq!(
        recorder.lines(),
        vec!["error denied".to_string(), "error gone".to_string(), "scanned /p".to_string()]
    );
    assert_eq!(drain(&receiver), vec!["remove /p/target".to_string()]);
}

#[test]
fn failed_listing_is_one_error_and_no_jobs() {
    let (receiver, mut sender) = queue("/p");
    let recorder = Recorder::new();
    let mut worker = Worker::new(recorder.clone());
    worker.finish_scan("/p".to_string(), Err("no such directory".to_string()), &mut sender);
    drop(sender);
    assert!(worker.failed());
    assert_eq!(
        recorder.lines(),
        vec!["error no such directory".to_string(), "scanned /p".to_string()]
    );
    assert_eq!(drain(&receiver), Vec::<String>::new());
    assert!(receiver.recv().is_err());
}

#[test]
fn empty_directory_is_scanned_without_failure() {
    let (receiver, mut sender) = queue("/p");
    let recorder = Recorder::new();
    let mut worker = Worker::new(recorder.clone());
    worker.finish_scan("/p".to_string(), Ok(Vec::new()), &mut sender);
    drop(sender);
    assert!(!worker.failed());
    assert_eq!(recorder.lines(), vec!["scanned /p".to_string()]);
    assert!(receiver.recv().is_err());
}

#[test]
fn queue_closes_once_the_handle_of_the_scan_is_dropped() {
    let (receiver, mut sender) = queue("/p");
    let mut worker = Worker::new(Recorder::new());
    worker.finish_scan("/p".to_string(), Ok(vec![dir("/p", "target")]), &mut sender);
    drop(sender);
    assert!(matches!(receiver.try_recv(), Err(e) if e.is_disconnected()));
}

#[test]
fn closed_queue_drops_the_jobs_without_failure() {
    let (receiver, mut sender) = queue("/p");
    drop(receiver);
    let recorder = Recorder::new();
    let mut worker = Worker::new(recorder.clone());
    worker.finish_scan("/p".to_string(), Ok(vec![dir("/p", "src")]), &mut sender);
    drop(sender);
    assert!(!worker.failed());
    assert_eq!(recorder.lines(), vec!["scanned /p".to_string()]);
}

#[test]
fn deletion_is_reported_as_removal() {
    let recorder = Recorder::new();
    let mut worker = Worker::new(recorder.clone());
    worker.finish_removal("/p/target".to_string(), Ok(()));
    assert!(!worker.failed());
    assert_eq!(recorder.lines(), vec!["removed /p/target".to_string()]);
}

#[test]
fn failed_deletion_is_reported_as_error() {
    let recorder = Recorder::new();
    let mut worker = Worker::new(recorder.clone());
    worker.finish_removal("/p/target".to_string(), Err("busy".to_string()));
    assert!(worker.failed());
    assert_eq!(recorder.lines(), vec!["error busy".to_string()]);
}

#[test]
fn worker_stays_failed() {
    let (_receiver, mut sender) = queue("/p");
    let mut worker = Worker::new(Recorder::new());
    worker.finish_removal("/a/target".to_string(), Err("busy".to_string()));
    worker.finish_removal("/b/target".to_string(), Ok(()));
    assert!(worker.failed());
    worker.finish_scan("/p".to_string(), Ok(Vec::new()), &mut sender);
    drop(sender);
    assert!(worker.failed());
}

#[test]
fn worker_counts_through_a_status() {
    let (_receiver, mut sender) = queue("/p");
    let mut status = Status::new();
    let mut worker = Worker::new(&mut status);
    worker.finish_scan(
        "/p".to_string(),
        Ok(vec![Err("denied".to_string()), dir("/p", "src")]),
        &mut sender,
    );
    drop(sender);
    worker.finish_removal("/p/target".to_string(), Ok::<(), String>(()));
    worker.finish_removal("/q/target".to_string(), Err("busy".to_string()));
    assert!(worker.failed());
    assert_eq!(status.scanned_count(), 1);
    assert_eq!(status.removed_count(), 1);
    assert_eq!(status.error_count(), 2);
    assert_eq!(status.message(), "1 scanned, 1 removed, 2 errors");
}

#[test]
fn lent_observer_passes_on_what_it_is_told() {
    let recorder = Recorder::new();
    let mut lent = recorder.clone();
    let mut worker = Worker::new(&mut lent);
    worker.finish_removal("/p/target".to_string(), Ok(()));
    worker.finish_removal("/q/target".to_string(), Err("busy".to_string()));
    assert_eq!(
        recorder.lines(),
        vec!["removed /p/target".to_string(), "error busy".to_string()]
    );
}

#[test]
fn pool_succeeds_when_no_worker_failed() {
    assert!(pool_succeeded(&vec![false]));
    assert!(pool_succeeded(&vec![false, false, false]));
}

#[test]
fn pool_fails_when_one_worker_failed() {
    assert!(!pool_succeeded(&vec![true]));
    assert!(!pool_succeeded(&vec![false, true, false]));
    assert!(!pool_succeeded(&vec![false, false, true]));
    assert!(!pool_succeeded(&vec![true, true]));
}

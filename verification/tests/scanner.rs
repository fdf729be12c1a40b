use cargo_sweep_all::handle::JobSender;
use cargo_sweep_all::queue::{seed, Job};
use cargo_sweep_all::scanner::{
    process_entry, scan, Entry, EntryClass, ScanState, ARTIFACT_MARKER, MANIFEST_MARKER,
};

/// A handle of a fresh queue, taken from the job it is seeded with.
fn handle() -> JobSender<String> {
    let receiver = seed(String::from("/")).into_receiver();
    match receiver.recv().unwrap() {
        Job::Scan(_, sender) => sender,
        Job::Remove(_) => panic!("a queue is seeded with a scan"),
    }
}

fn file(dir: &str, name: &str) -> Entry<String> {
    Entry { path: format!("{dir}/{name}"), name: Some(name.to_string()), is_dir: false }
}

fn dir(parent: &str, name: &str) -> Entry<String> {
    Entry { path: format!("{parent}/{name}"), name: Some(name.to_string()), is_dir: true }
}

/// A job in words, without its queue handle.
fn show(job: &Job<String>) -> String {
    match job {
        Job::Scan(dir, _) => format!("scan {dir}"),
        Job::Remove(path) => format!("remove {path}"),
    }
}

fn show_results(results: &[Result<Job<String>, String>]) -> Vec<String> {
    results
        .iter()
        .map(|result| match result {
            Ok(job) => show(job),
            Err(e) => format!("error {e}"),
        })
        .collect()
}

fn scan_shown(entries: Vec<Result<Entry<String>, String>>) -> Vec<String> {
    show_results(&scan(entries, &handle()))
}

fn state_shown(state: &ScanState<String>) -> String {
    match state {
        ScanState::Nothing => "nothing".to_string(),
        ScanState::FoundManifest => "manifest".to_string(),
        ScanState::FoundArtifact(path) => format!("artifact {path}"),
    }
}

#[test]
fn markers_are_cargo_toml_and_target() {
    assert_eq!(MANIFEST_MARKER, "Cargo.toml");
    assert_eq!(ARTIFACT_MARKER, "target");
}

#[test]
fn class_goes_by_name_and_file_type() {
    assert_eq!(file("/p", "Cargo.toml").class(), EntryClass::Manifest);
    assert_eq!(dir("/p", "Cargo.toml").class(), EntryClass::Manifest);
    assert_eq!(dir("/p", "target").class(), EntryClass::Artifact);
    assert_eq!(file("/p", "target").class(), EntryClass::Other);
    assert_eq!(dir("/p", "src").class(), EntryClass::Directory);
    assert_eq!(file("/p", "main.rs").class(), EntryClass::Other);
    assert_eq!(dir("/p", "Target").class(), EntryClass::Directory);
    assert_eq!(file("/p", "cargo.toml").class(), EntryClass::Other);
    assert_eq!(dir("/p", "target2").class(), EntryClass::Directory);
    assert_eq!(dir("/p", "").class(), EntryClass::Directory);
    let nameless = Entry { path: "/".to_string(), name: None, is_dir: true };
    assert_eq!(nameless.class(), EntryClass::Other);
}

#[test]
fn manifest_then_target_schedules_removal() {
    let sender = handle();
    let mut state = ScanState::Nothing;
    let first = process_entry(&mut state, file("/p", "Cargo.toml"), &sender);
    assert!(first.is_none());
    assert_eq!(state_shown(&state), "manifest");
    let second = process_entry(&mut state, dir("/p", "target"), &sender);
    assert_eq!(second.as_ref().map(show), Some("remove /p/target".to_string()));
    assert_eq!(state_shown(&state), "manifest");
}

#[test]
fn target_then_manifest_schedules_removal() {
    let sender = handle();
    let mut state = ScanState::Nothing;
    let first = process_entry(&mut state, dir("/p", "target"), &sender);
    assert!(first.is_none());
    assert_eq!(state_shown(&state), "artifact /p/target");
    let second = process_entry(&mut state, file("/p", "Cargo.toml"), &sender);
    assert_eq!(second.as_ref().map(show), Some("remove /p/target".to_string()));
    assert_eq!(state_shown(&state), "manifest");
}

#[test]
fn both_orders_give_the_same_scan() {
    let forward = scan_shown(vec![Ok(file("/p", "Cargo.toml")), Ok(dir("/p", "target"))]);
    let backward = scan_shown(vec![Ok(dir("/p", "target")), Ok(file("/p", "Cargo.toml"))]);
    assert_eq!(forward, vec!["remove /p/target".to_string()]);
    assert_eq!(backward, forward);
}

#[test]
fn target_without_manifest_is_kept() {
    assert_eq!(scan_shown(vec![Ok(dir("/p", "target"))]), Vec::<String>::new());
    assert_eq!(
        scan_shown(vec![Ok(dir("/p", "a")), Ok(dir("/p", "target")), Ok(file("/p", "b"))]),
        vec!["scan /p/a".to_string()]
    );
}

#[test]
fn manifest_without_target_removes_nothing() {
    assert_eq!(scan_shown(vec![Ok(file("/p", "Cargo.toml"))]), Vec::<String>::new());
    assert_eq!(
        scan_shown(vec![Ok(file("/p", "Cargo.toml")), Ok(dir("/p", "src"))]),
        vec!["scan /p/src".to_string()]
    );
}

#[test]
fn second_manifest_is_ignored() {
    let sender = handle();
    let mut state = ScanState::Nothing;
    assert!(process_entry(&mut state, file("/p", "Cargo.toml"), &sender).is_none());
    assert!(process_entry(&mut state, file("/q", "Cargo.toml"), &sender).is_none());
    assert_eq!(state_shown(&state), "manifest");
    assert_eq!(
        scan_shown(vec![
            Ok(dir("/p", "target")),
            Ok(file("/p", "Cargo.toml")),
            Ok(file("/p", "Cargo.toml")),
        ]),
        vec!["remove /p/target".to_string()]
    );
}

#[test]
fn second_pending_target_is_ignored() {
    let sender = handle();
    let mut state = ScanState::Nothing;
    assert!(process_entry(&mut state, dir("/p", "target"), &sender).is_none());
    assert!(process_entry(&mut state, dir("/q", "target"), &sender).is_none());
    assert_eq!(state_shown(&state), "artifact /p/target");
    let job = process_entry(&mut state, file("/p", "Cargo.toml"), &sender);
    assert_eq!(job.as_ref().map(show), Some("remove /p/target".to_string()));
}

#[test]
fn every_target_after_the_manifest_is_removed() {
    assert_eq!(
        scan_shown(vec![
            Ok(file("/p", "Cargo.toml")),
            Ok(dir("/p", "target")),
            Ok(dir("/q", "target")),
        ]),
        vec!["remove /p/target".to_string(), "remove /q/target".to_string()]
    );
}

#[test]
fn file_named_target_is_no_artifact() {
    assert_eq!(
        scan_shown(vec![Ok(file("/p", "Cargo.toml")), Ok(file("/p", "target"))]),
        Vec::<String>::new()
    );
}

#[test]
fn directory_named_like_the_manifest_counts_as_manifest() {
    assert_eq!(
        scan_shown(vec![Ok(dir("/p", "target")), Ok(dir("/p", "Cargo.toml"))]),
        vec!["remove /p/target".to_string()]
    );
}

#[test]
fn other_directories_are_scanned_in_every_state() {
    assert_eq!(
        scan_shown(vec![
            Ok(dir("/p", "a")),
            Ok(dir("/p", "target")),
            Ok(dir("/p", "b")),
            Ok(file("/p", "Cargo.toml")),
            Ok(dir("/p", "c")),
            Ok(file("/p", "notes.txt")),
        ]),
        vec![
            "scan /p/a".to_string(),
            "scan /p/b".to_string(),
            "remove /p/target".to_string(),
            "scan /p/c".to_string(),
        ]
    );
}

#[test]
fn unreadable_entry_is_reported_and_the_scan_goes_on() {
    assert_eq!(
        scan_shown(vec![
            Ok(dir("/p", "target")),
            Err("denied".to_string()),
            Ok(file("/p", "Cargo.toml")),
            Err("gone".to_string()),
            Ok(dir("/p", "src")),
        ]),
        vec![
            "error denied".to_string(),
            "remove /p/target".to_string(),
            "error gone".to_string(),
            "scan /p/src".to_string(),
        ]
    );
}

#[test]
fn empty_listing_gives_nothing() {
    assert_eq!(scan_shown(Vec::new()), Vec::<String>::new());
}

#[test]
fn entry_without_a_name_gives_nothing() {
    let sender = handle();
    let mut state = ScanState::Nothing;
    let nameless = Entry { path: "/".to_string(), name: None, is_dir: true };
    assert!(process_entry(&mut state, nameless, &sender).is_none());
    assert_eq!(state_shown(&state), "nothing");
}

#[test]
fn job_says_what_it_is_about() {
    let sender = handle();
    let mut state = ScanState::FoundManifest;
    let scan_job = process_entry(&mut state, dir("/p", "src"), &sender).unwrap();
    assert!(scan_job.is_scan());
    assert_eq!(scan_job.path(), "/p/src");
    let remove_job = process_entry(&mut state, dir("/p", "target"), &sender).unwrap();
    assert!(!remove_job.is_scan());
    assert_eq!(remove_job.path(), "/p/target");
}

#[test]
fn scan_job_carries_a_handle_of_the_same_queue() {
    let receiver = seed(String::from("/p")).into_receiver();
    let sender = match receiver.recv().unwrap() {
        Job::Scan(_, sender) => sender,
        Job::Remove(_) => panic!("a queue is seeded with a scan"),
    };
    let mut state = ScanState::Nothing;
    let job = process_entry(&mut state, dir("/p", "src"), &sender).unwrap();
    drop(sender);
    // The job's own handle keeps the queue open: nothing is there yet, and it is
    // not closed either.
    assert!(matches!(receiver.try_recv(), Err(e) if e.is_empty()));
    drop(job);
    assert!(matches!(receiver.try_recv(), Err(e) if e.is_disconnected()));
}

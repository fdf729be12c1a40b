use cargo_sweep_all::observer::{Observer, Status};

fn error(status: &mut Status) {
    Observer::<String, String>::on_error(status, "failed".to_string());
}

fn removal(status: &mut Status) {
    Observer::<String, String>::on_removal(status, &"/p/target".to_string());
}

fn scanned(status: &mut Status) {
    Observer::<String, String>::on_scanned(status, &"/p".to_string());
}

#[test]
fn new_status_counts_nothing() {
    let status = Status::new();
    assert_eq!(status.error_count(), 0);
    assert_eq!(status.removed_count(), 0);
    assert_eq!(status.scanned_count(), 0);
    assert_eq!(status.message(), "0 scanned, 0 removed, 0 errors");
}

#[test]
fn each_event_moves_its_own_counter_only() {
    let mut status = Status::new();
    error(&mut status);
    assert_eq!(
        (status.error_count(), status.removed_count(), status.scanned_count()),
        (1, 0, 0)
    );
    removal(&mut status);
    removal(&mut status);
    assert_eq!(
        (status.error_count(), status.removed_count(), status.scanned_count()),
        (1, 2, 0)
    );
    scanned(&mut status);
    scanned(&mut status);
    scanned(&mut status);
    assert_eq!(
        (status.error_count(), status.removed_count(), status.scanned_count()),
        (1, 2, 3)
    );
    assert_eq!(status.message(), "3 scanned, 2 removed, 1 errors");
}

#[test]
fn message_writes_the_totals_in_decimal() {
    let mut status = Status::new();
    for _ in 0..1203 {
        scanned(&mut status);
    }
    for _ in 0..10 {
        removal(&mut status);
    }
    for _ in 0..99 {
        error(&mut status);
    }
    assert_eq!(status.message(), "1203 scanned, 10 removed, 99 errors");
    error(&mut status);
    assert_eq!(status.message(), "1203 scanned, 10 removed, 100 errors");
}

use work_engine::work::{Work, WorkEngine, WorkError, WorkItemStatus, WorkStatus};

/// Work that succeeds at once: `execute` returns `Ok` and `status` reports
/// `Complete` from then on.
struct CompletesWork;

impl Work for CompletesWork {
    fn execute(&self) -> Result<(), WorkError> {
        Ok(())
    }

    fn status(&self) -> WorkStatus {
        WorkStatus::Complete
    }
}

/// Work that starts fine but never finishes: `status` always reports
/// `InProgress`.
struct NeverDoneWork;

impl Work for NeverDoneWork {
    fn execute(&self) -> Result<(), WorkError> {
        Ok(())
    }

    fn status(&self) -> WorkStatus {
        WorkStatus::InProgress
    }
}

/// Work whose `execute` fails with the given error.
struct FailsWork(WorkError);

impl Work for FailsWork {
    fn execute(&self) -> Result<(), WorkError> {
        Err(self.0)
    }

    fn status(&self) -> WorkStatus {
        WorkStatus::NotStarted
    }
}

#[test]
fn ids_strictly_increasing_from_zero() {
    let mut engine = WorkEngine::new();
    let a = engine.add("first".to_string(), None, CompletesWork);
    let b = engine.add("second".to_string(), None, NeverDoneWork);
    let c = engine.add("third".to_string(), None, CompletesWork);
    assert_eq!(a, 0);
    assert_eq!(b, 1);
    assert_eq!(c, 2);
    // Drive the two finishing items into the archive, then add more: the
    // ids keep counting up and are never reused across both collections.
    assert!(engine.run_iteration().is_ok());
    assert_eq!(engine.completed_len(), 2);
    let d = engine.add("fourth".to_string(), None, NeverDoneWork);
    assert_eq!(d, 3);
    let mut seen = Vec::new();
    for i in 0..engine.active_len() {
        seen.push(engine.active_item(i).id());
    }
    for i in 0..engine.completed_len() {
        seen.push(engine.completed_item(i).id());
    }
    let mut sorted = seen.clone();
    sorted.sort();
    sorted.dedup();
    assert_eq!(sorted.len(), seen.len());
}

#[test]
fn round_trip_single_item() {
    let mut engine = WorkEngine::new();
    let id = engine.add(
        "round-trip".to_string(),
        Some("completes at once".to_string()),
        CompletesWork,
    );
    assert_eq!(id, 0);
    assert_eq!(engine.active_item(0).status(), WorkItemStatus::NotStarted);
    let r = engine.run_iteration();
    assert!(r.is_ok());
    assert_eq!(engine.active_len(), 0);
    assert_eq!(engine.completed_len(), 1);
    let done = engine.completed_item(0);
    assert_eq!(done.id(), 0);
    assert_eq!(done.status(), WorkItemStatus::Complete);
    assert_eq!(done.name(), "round-trip");
}

#[test]
fn fatal_two_items() {
    let mut engine = WorkEngine::new();
    engine.add(
        "doomed".to_string(),
        None,
        FailsWork(WorkError::Unrecoverable),
    );
    engine.add("waiting".to_string(), None, NeverDoneWork);
    let r = engine.run_iteration();
    // The specific cause is collapsed to Unknown at the engine boundary.
    assert_eq!(r, Err(WorkError::Unknown));
    assert_eq!(engine.active_len(), 2);
    assert_eq!(engine.active_item(0).status(), WorkItemStatus::NotStarted);
    assert_eq!(engine.active_item(1).status(), WorkItemStatus::NotStarted);
    assert_eq!(engine.completed_len(), 0);
}

#[test]
fn fail_fast_mid_pass() {
    let mut engine = WorkEngine::new();
    engine.add("ok-one".to_string(), None, NeverDoneWork);
    engine.add("ok-two".to_string(), None, NeverDoneWork);
    engine.add("bad".to_string(), None, FailsWork(WorkError::Recoverable));
    engine.add("unvisited".to_string(), None, NeverDoneWork);
    let r = engine.dispatch_pass();
    assert_eq!(r, Err(WorkError::Unknown));
    // Items before the failure were started; the failing item and all
    // items after it were left untouched.
    assert_eq!(engine.active_item(0).status(), WorkItemStatus::InProgress);
    assert_eq!(engine.active_item(1).status(), WorkItemStatus::InProgress);
    assert_eq!(engine.active_item(2).status(), WorkItemStatus::NotStarted);
    assert_eq!(engine.active_item(3).status(), WorkItemStatus::NotStarted);
}

#[test]
fn sweep_partitions_in_order() {
    let mut engine = WorkEngine::new();
    engine.add("done-a".to_string(), None, CompletesWork);
    engine.add("busy".to_string(), None, NeverDoneWork);
    engine.add("done-b".to_string(), None, CompletesWork);
    assert!(engine.dispatch_pass().is_ok());
    assert_eq!(engine.active_item(0).status(), WorkItemStatus::InProgress);
    assert_eq!(engine.active_item(1).status(), WorkItemStatus::InProgress);
    assert_eq!(engine.active_item(2).status(), WorkItemStatus::InProgress);
    assert!(engine.poll_pass().is_ok());
    assert_eq!(engine.active_item(0).status(), WorkItemStatus::Complete);
    assert_eq!(engine.active_item(1).status(), WorkItemStatus::InProgress);
    assert_eq!(engine.active_item(2).status(), WorkItemStatus::Complete);
    engine.move_completed_work_items();
    // The not-complete item stays, in order; the complete items were
    // archived in their relative active order.
    assert_eq!(engine.active_len(), 1);
    assert_eq!(engine.active_item(0).id(), 1);
    assert_eq!(engine.active_item(0).name(), "busy");
    assert_eq!(engine.completed_len(), 2);
    assert_eq!(engine.completed_item(0).id(), 0);
    assert_eq!(engine.completed_item(0).name(), "done-a");
    assert_eq!(engine.completed_item(1).id(), 2);
    assert_eq!(engine.completed_item(1).name(), "done-b");
}

#[test]
fn stop_before_run() {
    let mut engine = WorkEngine::new();
    engine.add("idle".to_string(), None, NeverDoneWork);
    assert!(!engine.should_stop());
    engine.stop();
    // The loop driver checks the flag at each iteration boundary and
    // returns Ok without requiring any item to complete.
    assert!(engine.should_stop());
    assert_eq!(engine.active_len(), 1);
    assert_eq!(engine.active_item(0).status(), WorkItemStatus::NotStarted);
    assert_eq!(engine.completed_len(), 0);
}

#[test]
fn unfinished_item_stays_in_progress() {
    let mut engine = WorkEngine::new();
    engine.add("long-haul".to_string(), None, NeverDoneWork);
    assert!(engine.run_iteration().is_ok());
    assert_eq!(engine.active_item(0).status(), WorkItemStatus::InProgress);
    // Further iterations poll again and never move the item backward.
    assert!(engine.run_iteration().is_ok());
    assert!(engine.run_iteration().is_ok());
    assert_eq!(engine.active_len(), 1);
    assert_eq!(engine.active_item(0).status(), WorkItemStatus::InProgress);
    assert_eq!(engine.completed_len(), 0);
}

#[test]
fn metadata_is_kept() {
    let mut engine = WorkEngine::new();
    engine.add(
        "named".to_string(),
        Some("with a description".to_string()),
        NeverDoneWork,
    );
    engine.add("bare".to_string(), None, NeverDoneWork);
    let first = engine.active_item(0);
    assert_eq!(first.name(), "named");
    assert_eq!(
        first.description().as_deref(),
        Some("with a description")
    );
    let second = engine.active_item(1);
    assert_eq!(second.name(), "bare");
    assert!(second.description().is_none());
}

#[test]
fn every_failure_is_reported_unknown() {
    let causes = vec![
        WorkError::NotImplemented,
        WorkError::Unknown,
        WorkError::Unrecoverable,
        WorkError::Recoverable,
    ];
    for cause in causes {
        let mut engine = WorkEngine::new();
        engine.add("failing".to_string(), None, FailsWork(cause));
        assert_eq!(engine.dispatch_pass(), Err(WorkError::Unknown));
        assert_eq!(engine.active_item(0).status(), WorkItemStatus::NotStarted);
    }
}

#[test]
fn empty_engine_iterates_quietly() {
    let mut engine = WorkEngine::new();
    assert_eq!(engine.active_len(), 0);
    assert_eq!(engine.completed_len(), 0);
    assert!(engine.run_iteration().is_ok());
    assert_eq!(engine.active_len(), 0);
    assert_eq!(engine.completed_len(), 0);
    assert!(!engine.should_stop());
}

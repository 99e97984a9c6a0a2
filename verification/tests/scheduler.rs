use typhon::builds::{stderr_path, stderr_source, stored_stderr, Error, Scheduler, StderrSource};
use typhon::nix::{Derivation, InputDrv, RecursiveDerivation};

fn drv(name: &str, deps: &[&str]) -> (String, Derivation) {
    (
        name.to_string(),
        Derivation {
            dependencies: deps.iter().map(|d| (d.to_string(), InputDrv {})).collect(),
        },
    )
}

fn closure() -> RecursiveDerivation {
    RecursiveDerivation(vec![
        drv("a.drv", &["b.drv", "c.drv"]),
        drv("b.drv", &["c.drv"]),
        drv("c.drv", &[]),
    ])
}

fn names(v: &[&str]) -> Vec<String> {
    v.iter().map(|s| s.to_string()).collect()
}

#[test]
fn request_creates_a_build_per_missing_derivation() {
    let mut s = Scheduler::new();
    let w = s.build_inner("a.drv".to_string(), 5, closure(), names(&["a.drv", "b.drv", "c.drv"]));
    assert_eq!(w.0.len(), 3);
    assert_eq!(s.build_count(), 3);
    assert_eq!(s.derivation(0), Some("a.drv".to_string()));
    assert_eq!(s.derivation(1), Some("b.drv".to_string()));
    assert_eq!(s.derivation(2), Some("c.drv".to_string()));
    assert_eq!(s.derivation(3), None);
    assert_eq!(s.derivation(-1), None);
    for id in 0..3 {
        assert_eq!(s.priority(id), Some(5));
    }
}

#[test]
fn dependencies_follow_the_closure() {
    let mut s = Scheduler::new();
    s.build_inner("a.drv".to_string(), 5, closure(), names(&["a.drv", "b.drv", "c.drv"]));
    let mut a = s.dependencies(0).unwrap();
    a.sort();
    assert_eq!(a, vec![1, 2]);
    assert_eq!(s.dependencies(1).unwrap(), vec![2]);
    assert!(s.dependencies(2).unwrap().is_empty());
}

#[test]
fn only_builds_without_dependencies_are_ready() {
    let mut s = Scheduler::new();
    s.build_inner("a.drv".to_string(), 5, closure(), names(&["a.drv", "b.drv", "c.drv"]));
    assert!(s.is_ready(2, 5));
    assert!(!s.is_ready(0, 5));
    assert!(!s.is_ready(1, 5));
}

#[test]
fn derivations_already_built_are_skipped() {
    let mut s = Scheduler::new();
    let w = s.build_inner("a.drv".to_string(), 1, closure(), names(&["a.drv", "b.drv"]));
    assert_eq!(w.0.len(), 2);
    assert_eq!(s.build_count(), 2);
    assert_eq!(s.dependencies(0).unwrap(), vec![1]);
    assert!(s.dependencies(1).unwrap().is_empty());
    assert!(s.is_ready(1, 1));
}

#[test]
fn request_for_a_derivation_not_missing_does_nothing() {
    let mut s = Scheduler::new();
    let w = s.build_inner("a.drv".to_string(), 1, closure(), names(&["b.drv", "c.drv"]));
    assert!(w.0.is_empty());
    assert_eq!(s.build_count(), 0);
}

#[test]
fn repeated_request_creates_no_build_and_raises_priorities() {
    let mut s = Scheduler::new();
    let missing = names(&["a.drv", "b.drv", "c.drv"]);
    s.build_inner("a.drv".to_string(), 1, closure(), missing.clone());
    let w = s.build_inner("a.drv".to_string(), 9, closure(), missing);
    assert_eq!(s.build_count(), 3);
    assert!(!w.0.is_empty());
    for id in 0..3 {
        assert_eq!(s.priority(id), Some(9));
    }
    // the ready entry keeps the priority it was queued with
    assert!(s.is_ready(2, 1));
}

#[test]
fn lower_priority_request_keeps_priorities() {
    let mut s = Scheduler::new();
    let missing = names(&["a.drv", "b.drv", "c.drv"]);
    s.build_inner("a.drv".to_string(), 7, closure(), missing.clone());
    s.build_inner("b.drv".to_string(), 2, closure(), missing);
    assert_eq!(s.build_count(), 3);
    for id in 0..3 {
        assert_eq!(s.priority(id), Some(7));
    }
}

#[test]
fn request_for_a_dependency_first_then_its_dependent() {
    let mut s = Scheduler::new();
    let missing = names(&["a.drv", "b.drv", "c.drv"]);
    s.build_inner("b.drv".to_string(), 3, closure(), missing.clone());
    assert_eq!(s.build_count(), 2);
    assert_eq!(s.derivation(0), Some("b.drv".to_string()));
    assert_eq!(s.derivation(1), Some("c.drv".to_string()));
    s.build_inner("a.drv".to_string(), 3, closure(), missing);
    assert_eq!(s.build_count(), 3);
    assert_eq!(s.derivation(2), Some("a.drv".to_string()));
    let mut a = s.dependencies(2).unwrap();
    a.sort();
    assert_eq!(a, vec![0, 1]);
}

#[test]
fn live_log_while_running_else_stored() {
    assert!(matches!(stderr_source(true), StderrSource::Running));
    assert!(matches!(stderr_source(false), StderrSource::Stored));
}

#[test]
fn stored_log_errors() {
    assert!(matches!(stored_stderr::<u8>(4, false, Some(1)), Err(Error::BuildNotFound(4))));
    assert!(matches!(stored_stderr::<u8>(4, true, None), Err(Error::StderrNotFound(4))));
    assert!(matches!(stored_stderr::<u8>(4, true, Some(1)), Ok(1)));
}

#[test]
fn stored_log_path() {
    assert_eq!(stderr_path(0), "logs/builds/0.stderr");
    assert_eq!(stderr_path(42), "logs/builds/42.stderr");
    assert_eq!(stderr_path(1234567890), "logs/builds/1234567890.stderr");
    assert_eq!(stderr_path(-7), "logs/builds/-7.stderr");
    assert_eq!(stderr_path(i64::MIN), format!("logs/builds/{}.stderr", i64::MIN));
    assert_eq!(stderr_path(i64::MAX), format!("logs/builds/{}.stderr", i64::MAX));
}

#[test]
fn new_build_raises_the_known_builds_it_waits_for() {
    let mut s = Scheduler::new();
    s.build_inner("c.drv".to_string(), 1, closure(), names(&["c.drv"]));
    assert_eq!(s.priority(0), Some(1));
    s.build_inner("b.drv".to_string(), 10, closure(), names(&["b.drv", "c.drv"]));
    assert_eq!(s.derivation(1), Some("b.drv".to_string()));
    assert_eq!(s.priority(1), Some(10));
    assert_eq!(s.priority(0), Some(10));
}

#[test]
fn higher_priorities_are_kept() {
    let mut s = Scheduler::new();
    let missing = names(&["a.drv", "b.drv", "c.drv"]);
    s.build_inner("b.drv".to_string(), 10, closure(), missing.clone());
    s.build_inner("a.drv".to_string(), 5, closure(), missing);
    assert_eq!(s.derivation(2), Some("a.drv".to_string()));
    assert_eq!(s.priority(2), Some(5));
    assert_eq!(s.priority(0), Some(10));
    assert_eq!(s.priority(1), Some(10));
}

#[test]
fn request_count_grows_with_each_request() {
    let mut s = Scheduler::new();
    assert_eq!(s.request_count(), 0);
    s.build_inner("a.drv".to_string(), 1, closure(), names(&["b.drv"]));
    s.build_inner("a.drv".to_string(), 1, closure(), names(&["a.drv"]));
    assert_eq!(s.request_count(), 2);
}

fn sorted(mut v: Vec<(u64, i64)>) -> Vec<(u64, i64)> {
    v.sort();
    v
}

#[test]
fn links_to_dependencies_are_recorded_and_renewed() {
    let mut s = Scheduler::new();
    let missing = names(&["a.drv", "b.drv", "c.drv"]);
    s.build_inner("a.drv".to_string(), 5, closure(), missing.clone());
    assert!(s.dependents(0).unwrap().is_empty());
    assert_eq!(s.dependents(1).unwrap(), vec![(5, 0)]);
    // c is created by a; b then finds it already recorded
    assert_eq!(sorted(s.dependents(2).unwrap()), vec![(5, 0), (5, 2)]);
    assert!(s.dependents(3).is_none());

    s.build_inner("a.drv".to_string(), 9, closure(), missing);
    assert!(s.dependents(0).unwrap().is_empty());
    assert_eq!(s.dependents(1).unwrap(), vec![(9, 0)]);
    assert_eq!(sorted(s.dependents(2).unwrap()), vec![(5, 2), (9, 0), (9, 1)]);
}

#[test]
fn request_with_one_dependency_already_built() {
    let closure = RecursiveDerivation(vec![drv("a", &["b", "c"]), drv("b", &[]), drv("c", &[])]);
    let mut s = Scheduler::new();
    let w = s.build_inner("a".to_string(), 1, closure, names(&["a", "b"]));
    assert_eq!(w.0.len(), 2);
    assert_eq!(s.build_count(), 2);
    assert_eq!(s.request_count(), 1);
    assert_eq!(s.derivation(0), Some("a".to_string()));
    assert_eq!(s.derivation(1), Some("b".to_string()));
    assert_eq!(s.dependencies(0).unwrap(), vec![1]);
    assert!(s.dependencies(1).unwrap().is_empty());
    assert_eq!(s.dependents(1).unwrap(), vec![(1, 0)]);
    assert!(s.dependents(0).unwrap().is_empty());
    assert!(s.is_ready(1, 1));
    assert!(!s.is_ready(0, 1));
}

#[test]
fn watch_holds_the_known_builds_a_request_asks_for() {
    let mut s = Scheduler::new();
    let first = s.build_inner("c.drv".to_string(), 5, closure(), names(&["a.drv", "b.drv", "c.drv"]));
    assert_eq!(first.0.len(), 1);
    let second = s.build_inner("a.drv".to_string(), 5, closure(), names(&["a.drv", "b.drv", "c.drv"]));
    // two new builds, and the known build of c.drv that both of them wait for
    assert_eq!(second.0.len(), 3);
    assert_eq!(s.build_count(), 3);
}

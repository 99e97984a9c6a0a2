use typhon::projects::{
    import_expression, lock_inputs, locked_path, secret_edit, Error, ProjectState, SecretEdit, StInner,
};

#[test]
fn loaded_project_is_disabled() {
    let p = ProjectState::new(7);
    assert_eq!(p.id(), 7);
    assert!(!p.is_enabled());
    assert!(p.lock_error().is_none());
}

#[test]
fn enable_then_report_running() {
    let mut p = ProjectState::new(1);
    assert!(p.enable().is_ok());
    assert!(matches!(p.enable(), Err(Error::ProjectIsNotDisabled)));
    assert!(!p.is_enabled());
    p.enabled(StInner {});
    assert!(p.is_enabled());
}

#[test]
fn disable_needs_a_running_project() {
    let mut p = ProjectState::new(1);
    assert!(matches!(p.disable(), Err(Error::ProjectIsNotEnabled)));
    p.enable().unwrap();
    p.enabled(StInner {});
    assert!(p.disable().is_ok());
    assert!(!p.is_enabled());
    assert!(matches!(p.disable(), Err(Error::ProjectIsNotEnabled)));
    // not yet reported stopped: enabling again is refused
    assert!(matches!(p.enable(), Err(Error::ProjectIsNotDisabled)));
    p.disabled();
    assert!(p.enable().is_ok());
}

#[test]
fn new_lock_aborts_the_running_one() {
    let mut p = ProjectState::new(1);
    assert!(!p.lock());
    assert!(p.lock());
    let stored: Option<u8> = p.lock_result(Ok(3));
    assert_eq!(stored, Some(3));
    assert!(!p.lock());
}

#[test]
fn failed_lock_is_recorded_until_a_success() {
    let mut p = ProjectState::new(1);
    p.lock();
    let stored: Option<u8> = p.lock_result(Err("no network".to_string()));
    assert_eq!(stored, None);
    assert_eq!(p.lock_error(), Some("no network".to_string()));
    p.lock();
    let stored: Option<u8> = p.lock_result(Ok(1));
    assert_eq!(stored, Some(1));
    assert_eq!(p.lock_error(), None);
}

#[test]
fn locking_needs_a_source() {
    assert!(matches!(lock_inputs(None, Some("x".to_string())), Err(Error::SourceNotSet)));
    let (s, p) = lock_inputs(Some("{}".to_string()), None).unwrap();
    assert_eq!(s, "{}");
    assert_eq!(p, "");
    let (_, p) = lock_inputs(Some("{}".to_string()), Some("/ci.nix".to_string())).unwrap();
    assert_eq!(p, "/ci.nix");
}

#[test]
fn import_of_the_locked_source() {
    assert_eq!(
        import_expression(&"E".to_string(), &"nix/jobs.nix".to_string()),
        "let x = E; in import \"${x}/nix/jobs.nix\""
    );
    assert_eq!(locked_path("/nix/store/abc".to_string(), &"/jobs.nix".to_string()), "/nix/store/abc/jobs.nix");
}

#[test]
fn secret_edits() {
    match secret_edit("k".to_string(), Some("v".to_string())) {
        SecretEdit::Upsert { key, value } => {
            assert_eq!(key, "k");
            assert_eq!(value, "v");
        }
        _ => panic!("expected an upsert"),
    }
    match secret_edit("k".to_string(), None) {
        SecretEdit::Delete { key } => assert_eq!(key, "k"),
        _ => panic!("expected a delete"),
    }
}

#[test]
fn project_is_never_both_running_and_disabled() {
    let mut p = ProjectState::new(3);
    p.enable().unwrap();
    p.enabled(StInner {});
    p.disable().unwrap();
    p.disabled();
    assert!(!p.is_enabled());
    assert!(matches!(p.disable(), Err(Error::ProjectIsNotEnabled)));
    assert!(p.enable().is_ok());
    assert!(!p.is_enabled());
}

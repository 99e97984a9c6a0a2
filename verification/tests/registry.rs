use typhon::init::{validate_name, Error, Registry};
use typhon::service::{typhon, Settings};

#[test]
fn new_project_is_found_with_its_handle() {
    let mut r = Registry::new();
    assert!(matches!(r.new_project("alpha".to_string()), Ok(0)));
    assert!(matches!(r.new_project("beta".to_string()), Ok(1)));
    assert!(matches!(r.project("alpha".to_string()), Ok(0)));
    assert!(matches!(r.project("beta".to_string()), Ok(1)));
}

#[test]
fn unknown_project_is_not_found() {
    let r = Registry::new();
    match r.project("nope".to_string()) {
        Err(Error::ProjectNotFound(n)) => assert_eq!(n, "nope"),
        _ => panic!("expected ProjectNotFound"),
    }
}

#[test]
fn existing_name_is_refused() {
    let mut r = Registry::new();
    r.new_project("alpha".to_string()).unwrap();
    match r.new_project("alpha".to_string()) {
        Err(Error::ProjectAlreadyExists(n)) => assert_eq!(n, "alpha"),
        _ => panic!("expected ProjectAlreadyExists"),
    }
}

#[test]
fn illegal_names_are_refused() {
    let mut r = Registry::new();
    assert!(matches!(r.new_project(String::new()), Err(Error::IllegalProjectName(_))));
    assert!(matches!(r.new_project("x".repeat(65)), Err(Error::IllegalProjectName(_))));
    assert!(matches!(r.new_project("x".repeat(64)), Ok(0)));
    // the length counts bytes: 33 two-byte characters are 66 bytes
    assert!(matches!(r.new_project("é".repeat(33)), Err(Error::IllegalProjectName(_))));
    assert!(matches!(r.new_project("é".repeat(32)), Ok(1)));
}

#[test]
fn name_validation_counts_bytes() {
    assert!(!validate_name(&String::new()));
    assert!(validate_name(&"a".to_string()));
    assert!(validate_name(&"a".repeat(64)));
    assert!(!validate_name(&"a".repeat(65)));
    assert!(!validate_name(&"é".repeat(33)));
}

#[test]
fn deleted_project_is_being_deleted_until_removed() {
    let mut r = Registry::new();
    r.new_project("alpha".to_string()).unwrap();
    assert!(matches!(r.delete_project("alpha".to_string()), Ok(0)));
    assert!(matches!(r.project("alpha".to_string()), Err(Error::ProjectIsBeingDeleted(_))));
    assert!(matches!(r.delete_project("alpha".to_string()), Err(Error::ProjectIsBeingDeleted(_))));
    assert!(matches!(r.new_project("alpha".to_string()), Err(Error::ProjectAlreadyExists(_))));
    r.remove_project("alpha".to_string());
    assert!(matches!(r.project("alpha".to_string()), Err(Error::ProjectNotFound(_))));
    assert!(matches!(r.new_project("alpha".to_string()), Ok(1)));
}

#[test]
fn delete_unknown_project_is_not_found() {
    let mut r = Registry::new();
    assert!(matches!(r.delete_project("ghost".to_string()), Err(Error::ProjectNotFound(_))));
}

#[test]
fn rename_gives_the_project_its_new_name() {
    let mut r = Registry::new();
    r.new_project("old".to_string()).unwrap();
    assert!(matches!(r.rename_project("old".to_string(), "new".to_string()), Ok(0)));
    assert!(matches!(r.project("new".to_string()), Ok(0)));
    // the former name leads to the project until it is removed
    assert!(matches!(r.project("old".to_string()), Ok(0)));
    r.remove_project("old".to_string());
    assert!(matches!(r.project("old".to_string()), Err(Error::ProjectNotFound(_))));
    assert!(matches!(r.project("new".to_string()), Ok(0)));
}

#[test]
fn rename_errors() {
    let mut r = Registry::new();
    r.new_project("a".to_string()).unwrap();
    r.new_project("b".to_string()).unwrap();
    assert!(matches!(r.rename_project("zzz".to_string(), "c".to_string()), Err(Error::ProjectNotFound(_))));
    assert!(matches!(r.rename_project("a".to_string(), "b".to_string()), Err(Error::ProjectAlreadyExists(_))));
    assert!(matches!(r.rename_project("a".to_string(), String::new()), Err(Error::IllegalProjectName(_))));
    r.delete_project("a".to_string()).unwrap();
    assert!(matches!(r.rename_project("a".to_string(), "c".to_string()), Err(Error::ProjectIsBeingDeleted(_))));
}

#[test]
fn projects_are_listed_in_byte_order() {
    let mut r = Registry::new();
    for n in ["delta", "alpha", "Zulu", "charlie", "alpha2"] {
        r.new_project(n.to_string()).unwrap();
    }
    assert_eq!(r.projects(), vec!["Zulu", "alpha", "alpha2", "charlie", "delta"]);
}

#[test]
fn load_registers_stored_projects() {
    let r = Registry::load(vec!["x".to_string(), "y".to_string()]);
    assert!(matches!(r.project("x".to_string()), Ok(0)));
    assert!(matches!(r.project("y".to_string()), Ok(1)));
    assert_eq!(r.projects(), vec!["x", "y"]);
}

#[test]
fn load_keeps_the_later_handle_of_a_repeated_name() {
    let mut r = Registry::load(vec!["x".to_string(), "y".to_string(), "x".to_string()]);
    assert!(matches!(r.project("x".to_string()), Ok(2)));
    assert!(matches!(r.new_project("z".to_string()), Ok(3)));
}

#[test]
fn service_starts_over_the_stored_projects() {
    let mut t = typhon(
        Settings { database_url: "postgres://localhost/typhon".to_string() },
        vec!["p".to_string(), "q".to_string()],
    );
    assert_eq!(t.settings.database_url, "postgres://localhost/typhon");
    assert_eq!(t.registry.projects(), vec!["p", "q"]);
    assert!(matches!(t.registry.new_project("r".to_string()), Ok(2)));
}

#[test]
fn loaded_projects_are_listed_once_in_byte_order() {
    let r = Registry::load(vec!["c".to_string(), "a".to_string(), "B".to_string(), "a".to_string()]);
    assert_eq!(r.projects(), vec!["B", "a", "c"]);
}

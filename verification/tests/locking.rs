use typhon::nix::{
    all_outputs_exec, build_step, hash_result, missing_result, BuildEvent, BuildStep, Error, Lock,
    LockAction, Locking, Source,
};

fn expect_eval(a: &LockAction) -> String {
    match a {
        LockAction::Eval(e) => e.clone(),
        _ => panic!("expected an evaluation"),
    }
}

#[test]
fn git_source_without_reference_locks_head() {
    let s = Source::Git { url: "https://example.org/r.git".to_string(), reference: None, revision: None };
    let (st, act) = s.lock_start();
    assert_eq!(
        expect_eval(&act),
        "(builtins.fetchGit { url = \"https://example.org/r.git\"; ref = \"HEAD\"; }).rev"
    );
    let (st, act) = st.next("abc123".to_string());
    assert_eq!(
        expect_eval(&act),
        "(builtins.fetchGit { url = \"https://example.org/r.git\"; ref = \"HEAD\"; rev = \"abc123\"; }).outPath"
    );
    let (st, act) = st.next("/nix/store/xyz-source".to_string());
    assert!(matches!(st, Locking::Finished));
    match act {
        LockAction::Done(Lock::Git { url, reference, revision }, out) => {
            assert_eq!(url, "https://example.org/r.git");
            assert_eq!(reference, "HEAD");
            assert_eq!(revision, "abc123");
            assert_eq!(out, "/nix/store/xyz-source");
        }
        _ => panic!("expected a git lock"),
    }
}

#[test]
fn git_source_with_revision_skips_resolution() {
    let s = Source::Git {
        url: "u".to_string(),
        reference: Some("main".to_string()),
        revision: Some("r1".to_string()),
    };
    let (st, act) = s.lock_start();
    assert_eq!(
        expect_eval(&act),
        "(builtins.fetchGit { url = \"u\"; ref = \"main\"; rev = \"r1\"; }).outPath"
    );
    let (_, act) = st.next("/nix/store/p".to_string());
    match act {
        LockAction::Done(Lock::Git { reference, revision, .. }, out) => {
            assert_eq!(reference, "main");
            assert_eq!(revision, "r1");
            assert_eq!(out, "/nix/store/p");
        }
        _ => panic!("expected a git lock"),
    }
}

#[test]
fn github_source_without_branch_asks_the_default_branch() {
    let s = Source::GitHub { owner: "o".to_string(), repo: "r".to_string(), branch: None, revision: None };
    let (st, act) = s.lock_start();
    match act {
        LockAction::DefaultBranch(u) => assert_eq!(u, "https://api.github.com/repos/o/r"),
        _ => panic!("expected a default branch query"),
    }
    let (st, act) = st.next("main".to_string());
    match act {
        LockAction::BranchHead(u) => assert_eq!(u, "https://api.github.com/repos/o/r/branches/main"),
        _ => panic!("expected a branch head query"),
    }
    let (st, act) = st.next("deadbeef".to_string());
    assert_eq!(
        expect_eval(&act),
        "builtins.fetchTarball { url = \"https://github.com/o/r/archive/deadbeef.tar.gz\"; }"
    );
    let (st, act) = st.next("/nix/store/gh-source".to_string());
    match act {
        LockAction::Hash(p) => assert_eq!(p, "/nix/store/gh-source"),
        _ => panic!("expected a hash query"),
    }
    let (st, act) = st.next("sha256-AAAA".to_string());
    assert!(matches!(st, Locking::Finished));
    match act {
        LockAction::Done(Lock::GitHub { owner, repo, revision, sha256 }, out) => {
            assert_eq!(owner, "o");
            assert_eq!(repo, "r");
            assert_eq!(revision, "deadbeef");
            assert_eq!(sha256, "sha256-AAAA");
            assert_eq!(out, "/nix/store/gh-source");
        }
        _ => panic!("expected a GitHub lock"),
    }
}

#[test]
fn github_source_with_branch_and_revision_goes_to_the_archive() {
    let s = Source::GitHub {
        owner: "o".to_string(),
        repo: "r".to_string(),
        branch: Some("dev".to_string()),
        revision: Some("c0ffee".to_string()),
    };
    let (_, act) = s.lock_start();
    assert_eq!(
        expect_eval(&act),
        "builtins.fetchTarball { url = \"https://github.com/o/r/archive/c0ffee.tar.gz\"; }"
    );
}

#[test]
fn installable_of_all_outputs() {
    assert_eq!(all_outputs_exec("/nix/store/x.drv"), "/nix/store/x.drv!*");
}

#[test]
fn build_reports() {
    match build_step(BuildEvent::LogLine(Some("compiling".to_string()))) {
        BuildStep::Write(w) => assert_eq!(w, "compiling\n"),
        _ => panic!("expected a write"),
    }
    assert!(matches!(build_step(BuildEvent::LogLine(None)), BuildStep::Stop(Err(Error::ToDo))));
    assert!(matches!(build_step(BuildEvent::Other), BuildStep::Continue));
    assert!(matches!(build_step(BuildEvent::Finished), BuildStep::Stop(Ok(Ok(())))));
    assert!(matches!(build_step(BuildEvent::NixError), BuildStep::Stop(Ok(Err(())))));
    match build_step(BuildEvent::DaemonError("gone".to_string())) {
        BuildStep::Stop(Err(Error::NixDaemon(m))) => assert_eq!(m, "gone"),
        _ => panic!("expected a daemon error"),
    }
}

#[test]
fn hash_of_a_store_path() {
    assert_eq!(hash_result(Ok(Some("sha256-x".to_string()))).unwrap(), "sha256-x");
    assert!(matches!(hash_result(Ok(None)), Err(Error::ToDo)));
    assert!(matches!(hash_result(Err("down".to_string())), Err(Error::NixDaemon(m)) if m == "down"));
}

#[test]
fn missing_derivations() {
    let ok: Result<Vec<String>, ()> = Ok(vec!["a.drv".to_string()]);
    assert_eq!(missing_result(ok).unwrap(), vec!["a.drv".to_string()]);
    let err: Result<Vec<String>, ()> = Err(());
    assert!(matches!(missing_result(err), Err(Error::ToDo)));
}

use std::marker::PhantomData;
use typhon::sources::{
    find_head, from_utf8, sync_lock, Codeberg, Error, FetchGitRepo, GitForgeRepo, GitRef, Github, Gitlab,
    RawGitRepo, RemoteHead,
};

fn head(name: &str, oid: &str) -> RemoteHead {
    RemoteHead { name: name.to_string(), oid: oid.to_string() }
}

#[test]
fn valid_utf8_is_decoded() {
    assert_eq!(from_utf8("héllo".as_bytes().to_vec()).unwrap(), "héllo");
    assert_eq!(from_utf8(Vec::new()).unwrap(), "");
}

#[test]
fn invalid_utf8_keeps_the_bytes() {
    match from_utf8(vec![0x66, 0xff, 0xfe]) {
        Err(Error::NotUtf8(b)) => assert_eq!(b, vec![0x66, 0xff, 0xfe]),
        _ => panic!("expected NotUtf8"),
    }
}

#[test]
fn lock_with_everything_given() {
    let r = sync_lock(
        GitRef { reference: Some("main".to_string()), revision: Some("abc".to_string()) },
        None,
        None,
    )
    .unwrap();
    assert_eq!(r.reference, "main");
    assert_eq!(r.revision, "abc");
}

#[test]
fn lock_takes_the_default_branch_and_its_head() {
    let r = sync_lock(
        GitRef { reference: None, revision: None },
        Some("refs/heads/main".to_string()),
        Some(vec![head("HEAD", "111"), head("refs/heads/main", "222"), head("refs/heads/main", "333")]),
    )
    .unwrap();
    assert_eq!(r.reference, "refs/heads/main");
    assert_eq!(r.revision, "222");
}

#[test]
fn lock_of_an_unknown_reference_fails() {
    let r = sync_lock(
        GitRef { reference: Some("refs/heads/gone".to_string()), revision: None },
        None,
        Some(vec![head("HEAD", "111")]),
    );
    assert!(matches!(r, Err(Error::ToDo)));
}

#[test]
fn first_matching_head() {
    let heads = vec![head("a", "1"), head("b", "2"), head("b", "3")];
    assert_eq!(find_head(&heads, &"b".to_string()), Some(1));
    assert_eq!(find_head(&heads, &"c".to_string()), None);
}

#[test]
fn repository_urls() {
    assert_eq!(RawGitRepo { url: "git://x/y".to_string() }.url(), "git://x/y");
    let gh = GitForgeRepo { instance: Github, owner: "o".to_string(), repo: "r".to_string(), phantom: PhantomData };
    assert_eq!(gh.url(), "https://github.com/o/r");
    let cb = GitForgeRepo { instance: Codeberg(None), owner: "o".to_string(), repo: "r".to_string(), phantom: PhantomData };
    assert_eq!(cb.url(), "https://codeberg.org/o/r");
    let fj = GitForgeRepo {
        instance: Codeberg(Some("git.example.org".to_string())),
        owner: "o".to_string(),
        repo: "r".to_string(),
        phantom: PhantomData,
    };
    assert_eq!(fj.url(), "https://git.example.org/o/r");
    let gl = GitForgeRepo { instance: Gitlab(None), owner: "o".to_string(), repo: "r".to_string(), phantom: PhantomData };
    assert_eq!(gl.url(), "https://codeberg.org/o/r");
    let gl2 = GitForgeRepo {
        instance: Gitlab(Some("gitlab.com".to_string())),
        owner: "o".to_string(),
        repo: "r".to_string(),
        phantom: PhantomData,
    };
    assert_eq!(gl2.url(), "https://gitlab.com/o/r");
}

use std::marker::PhantomData;
use typhon::cli::{Entry, Source as CliSource, Sources};
use typhon::logs::{read_progress, NotFound, Progress};
use typhon::nix::{Lock, Source};
use typhon::order::{bytes_less, string_less};
use typhon::pages::components::{github_source, optional, project_line};
use typhon::pages::{home, project};
use typhon::strmap::StrMap;
use typhon::types::{ForgeGitRepo, ForgeGitSource, GitRef, RawGitRepo, Source as TypesSource};

fn git_lock(rev: &str) -> Lock {
    Lock::Git { url: "u".to_string(), reference: "HEAD".to_string(), revision: rev.to_string() }
}

fn git_source() -> Source {
    Source::Git { url: "u".to_string(), reference: None, revision: None }
}

#[test]
fn command_line_source_becomes_a_source() {
    let s = CliSource::GitHub {
        owner: "o".to_string(),
        repo: "r".to_string(),
        branch: Some("b".to_string()),
        revision: None,
    };
    match s.into_source() {
        Source::GitHub { owner, repo, branch, revision } => {
            assert_eq!(owner, "o");
            assert_eq!(repo, "r");
            assert_eq!(branch, Some("b".to_string()));
            assert_eq!(revision, None);
        }
        _ => panic!("expected a GitHub source"),
    }
}

#[test]
fn sources_file_add_update_remove() {
    let mut s = Sources::new();
    s.add("zeta".to_string(), Entry::new(git_source(), git_lock("1"), "/nix/store/1".to_string()));
    s.add("alpha".to_string(), Entry::new(git_source(), git_lock("2"), "/nix/store/2".to_string()));
    assert_eq!(s.names(), vec!["alpha", "zeta"]);
    s.update("zeta".to_string(), git_lock("3"), "/nix/store/3".to_string());
    let e = s.get(&"zeta".to_string()).unwrap();
    assert_eq!(e.out_path, "/nix/store/3");
    assert!(matches!(&e.lock, Lock::Git { revision, .. } if revision == "3"));
    assert!(matches!(&e.source, Source::Git { url, .. } if url == "u"));
    s.remove(&"zeta".to_string());
    assert!(s.get(&"zeta".to_string()).is_none());
    assert_eq!(s.names(), vec!["alpha"]);
}

#[test]
fn entry_update_keeps_the_source() {
    let mut e = Entry::new(git_source(), git_lock("1"), "/a".to_string());
    e.update(git_lock("2"), "/b".to_string());
    assert_eq!(e.out_path, "/b");
    assert!(matches!(&e.source, Source::Git { url, .. } if url == "u"));
}

#[test]
fn git_source_expression() {
    let src = TypesSource::Git(ForgeGitSource::new(
        ForgeGitRepo {
            instance: RawGitRepo { url: "u".to_string() },
            owner: String::new(),
            repo: String::new(),
            phantom: PhantomData,
        },
        GitRef { reference: None, revision: None },
    ));
    assert_eq!(src.expr(), "({ url, ref, rev, .. }: builtins.fetchGit { inherit url ref rev, })");
}

#[test]
fn project_links() {
    let l = project_line("my-project".to_string());
    assert_eq!(l.href, "/projects/my-project");
    assert_eq!(l.text, "my-project");
}

#[test]
fn home_lists_projects_in_order() {
    let h = home::view(vec!["b".to_string(), "a".to_string()]);
    assert_eq!(h.title, "Projects");
    assert_eq!(h.lines.len(), 2);
    assert_eq!(h.lines[0].href, "/projects/b");
    assert_eq!(h.lines[1].text, "a");
    assert!(home::view(Vec::new()).lines.is_empty());
}

#[test]
fn project_page() {
    let p = project::instance("x".to_string());
    assert_eq!(p.title, "Project x");
    assert_eq!(p.project_name, "x");
    assert!(project::view(None).is_none());
    assert_eq!(project::view(Some("y".to_string())).unwrap().title, "Project y");
}

#[test]
fn github_form_empty_fields_are_unset() {
    match github_source("o".to_string(), "r".to_string(), String::new(), "abc".to_string()) {
        Source::GitHub { owner, repo, branch, revision } => {
            assert_eq!(owner, "o");
            assert_eq!(repo, "r");
            assert_eq!(branch, None);
            assert_eq!(revision, Some("abc".to_string()));
        }
        _ => panic!("expected a GitHub source"),
    }
    assert_eq!(optional("x".to_string()), Some("x".to_string()));
    assert_eq!(optional(String::new()), None);
}

#[test]
fn log_reads_end_only_when_the_writer_finished() {
    assert!(matches!(read_progress::<NotFound>(Progress::Ready(Ok(())), true), Progress::Ready(Ok(()))));
    assert!(matches!(read_progress::<NotFound>(Progress::Ready(Ok(())), false), Progress::Pending));
    assert!(matches!(read_progress::<NotFound>(Progress::Pending, true), Progress::Pending));
    assert!(matches!(read_progress(Progress::Ready(Err(NotFound)), false), Progress::Ready(Err(NotFound))));
}

#[test]
fn string_map_keeps_keys_sorted() {
    let mut m: StrMap<u32> = StrMap::new();
    m.insert("b".to_string(), 2);
    m.insert("a".to_string(), 1);
    m.insert("c".to_string(), 3);
    m.insert("b".to_string(), 20);
    assert_eq!(m.get(&"b".to_string()), Some(&20));
    assert_eq!(m.keys(), vec!["a", "b", "c"]);
    m.remove(&"a".to_string());
    m.remove(&"zz".to_string());
    assert_eq!(m.get(&"a".to_string()), None);
    assert_eq!(m.keys(), vec!["b", "c"]);
}

#[test]
fn byte_order() {
    assert!(bytes_less(b"ab", b"b"));
    assert!(bytes_less(b"a", b"ab"));
    assert!(!bytes_less(b"ab", b"ab"));
    assert!(!bytes_less(b"b", b"ab"));
    assert!(string_less(&"Z".to_string(), &"a".to_string()));
    assert!(string_less(&"z".to_string(), &"é".to_string()));
}

#[test]
fn update_all_relocks_the_named_sources() {
    let mut s = Sources::new();
    s.add("a".to_string(), Entry::new(git_source(), git_lock("1"), "/nix/store/1".to_string()));
    s.add("b".to_string(), Entry::new(git_source(), git_lock("2"), "/nix/store/2".to_string()));
    s.add("c".to_string(), Entry::new(git_source(), git_lock("3"), "/nix/store/3".to_string()));
    s.update_all(vec![
        ("a".to_string(), git_lock("4"), "/nix/store/4".to_string()),
        ("b".to_string(), git_lock("5"), "/nix/store/5".to_string()),
        ("a".to_string(), git_lock("6"), "/nix/store/6".to_string()),
    ]);
    assert_eq!(s.names(), vec!["a", "b", "c"]);
    let a = s.get(&"a".to_string()).unwrap();
    assert_eq!(a.out_path, "/nix/store/6");
    assert!(matches!(&a.lock, Lock::Git { revision, .. } if revision == "6"));
    assert!(matches!(&a.source, Source::Git { url, .. } if url == "u"));
    let b = s.get(&"b".to_string()).unwrap();
    assert_eq!(b.out_path, "/nix/store/5");
    assert!(matches!(&b.lock, Lock::Git { revision, .. } if revision == "5"));
    let c = s.get(&"c".to_string()).unwrap();
    assert_eq!(c.out_path, "/nix/store/3");
    assert!(matches!(&c.lock, Lock::Git { revision, .. } if revision == "3"));
}

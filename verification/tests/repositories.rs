use justpkg::digest::hash_string;
use justpkg::error::PkgError;
use justpkg::registry::Registry;
use justpkg::repos::{repo_key, resolve_package, RepoInfo};

fn info(url: &str, binaries: &[&str]) -> RepoInfo {
    RepoInfo {
        url: url.to_string(),
        last_commit: Some("c0ffee".to_string()),
        fetched_at: 7,
        binaries: binaries.iter().map(|b| b.to_string()).collect(),
    }
}

fn table() -> Registry<RepoInfo> {
    let mut r = Registry::new();
    let url = "https://github.com/user/tool.git";
    r.insert(repo_key(url), info(url, &["tool", "tool-helper"]));
    r.insert("abcd1234".to_string(), info("https://example.com/a", &["shared"]));
    r.insert("abce9999".to_string(), info("https://example.com/b", &["shared"]));
    r
}

#[test]
fn repo_key_is_digest_of_normal_form() {
    assert_eq!(repo_key("https://github.com/user/tool.git"), hash_string("github.com/user/tool"));
    assert_eq!(repo_key("git@github.com:user/tool"), repo_key("https://github.com/user/tool.git"));
}

#[test]
fn resolve_by_url() {
    let r = table();
    let key = repo_key("https://github.com/user/tool.git");
    assert_eq!(resolve_package("git@github.com:user/tool.git", &r).unwrap(), Some(key.clone()));
    assert_eq!(resolve_package("https://github.com/user/tool", &r).unwrap(), Some(key));
}

#[test]
fn resolve_by_binary() {
    let r = table();
    let key = repo_key("https://github.com/user/tool.git");
    assert_eq!(resolve_package("tool-helper", &r).unwrap(), Some(key));
    assert_eq!(resolve_package("shared", &r).unwrap(), Some("abcd1234".to_string()));
}

#[test]
fn resolve_by_hash_prefix() {
    let r = table();
    assert_eq!(resolve_package("abcd", &r).unwrap(), Some("abcd1234".to_string()));
    assert_eq!(resolve_package("abce9999", &r).unwrap(), Some("abce9999".to_string()));
}

#[test]
fn resolve_ambiguous_prefix() {
    let r = table();
    match resolve_package("abc", &r) {
        Err(PkgError::AmbiguousPackage { input }) => assert_eq!(input, "abc"),
        other => panic!("unexpected {:?}", other),
    }
}

#[test]
fn resolve_nothing() {
    let r = table();
    assert_eq!(resolve_package("zzz", &r).unwrap(), None);
    assert_eq!(resolve_package("https://github.com/other/thing", &r).unwrap(), None);
    let empty: Registry<RepoInfo> = Registry::new();
    assert_eq!(resolve_package("", &empty).unwrap(), None);
}

#[test]
fn outdated_when_commit_differs() {
    let i = info("u", &[]);
    assert!(!i.is_outdated(&Some("c0ffee".to_string())));
    assert!(i.is_outdated(&Some("beef".to_string())));
    assert!(i.is_outdated(&None));
    let mut j = info("u", &[]);
    j.last_commit = None;
    assert!(!j.is_outdated(&None));
}

#[test]
fn record_build_updates_one_repository() {
    let mut r = table();
    assert!(r.record_build("abcd1234", Some("f00d".to_string()), vec!["new".to_string()], Some(42)));
    let i = r.get("abcd1234").unwrap();
    assert_eq!(i.last_commit, Some("f00d".to_string()));
    assert_eq!(i.binaries, vec!["new".to_string()]);
    assert_eq!(i.fetched_at, 42);
    assert_eq!(i.url, "https://example.com/a");
    assert!(r.record_build("abce9999", None, vec![], None));
    assert_eq!(r.get("abce9999").unwrap().fetched_at, 7);
    assert!(!r.record_build("nope", None, vec![], None));
    assert_eq!(r.len(), 3);
}

use justpkg::error::PkgError;
use justpkg::order::install_order;
use justpkg::package::Package;
use justpkg::registry::Registry;

fn pkg(url: &str, commit: &str, deps: &[&str]) -> Package {
    Package {
        url: url.to_string(),
        commit: commit.to_string(),
        synced_at: 1,
        install_script: "/cfg/install-scripts/x.sh".to_string(),
        install_hash: "aa".to_string(),
        uninstall_script: "/cfg/uninstall-scripts/x.sh".to_string(),
        uninstall_hash: "bb".to_string(),
        dependencies: deps.iter().map(|d| d.to_string()).collect(),
    }
}

fn db(entries: &[(&str, &[&str])]) -> Registry<Package> {
    let mut r = Registry::new();
    for (name, deps) in entries {
        r.insert(name.to_string(), pkg("https://example.com/x", "abc", deps));
    }
    r
}

#[test]
fn insert_then_get() {
    let mut r: Registry<u32> = Registry::new();
    r.insert("a".to_string(), 1);
    r.insert("b".to_string(), 2);
    assert_eq!(r.get("a"), Some(&1));
    assert_eq!(r.get("b"), Some(&2));
    assert_eq!(r.get("c"), None);
    r.insert("a".to_string(), 3);
    assert_eq!(r.get("a"), Some(&3));
    assert_eq!(r.len(), 2);
}

#[test]
fn remove_then_get() {
    let mut r: Registry<u32> = Registry::new();
    r.insert("a".to_string(), 1);
    r.insert("b".to_string(), 2);
    assert_eq!(r.remove("a"), Some(1));
    assert_eq!(r.remove("a"), None);
    assert!(!r.contains_key("a"));
    assert_eq!(r.get("b"), Some(&2));
    assert_eq!(r.len(), 1);
}

#[test]
fn store_if_changed_reports_changes() {
    let mut r = Registry::new();
    assert!(r.store_if_changed("tool".to_string(), pkg("u", "abc", &[])));
    assert!(!r.store_if_changed("tool".to_string(), pkg("u", "abc", &[])));
    assert!(r.store_if_changed("tool".to_string(), pkg("u", "def", &[])));
    assert_eq!(r.get("tool").unwrap().commit, "def");
    assert!(r.store_if_changed("tool".to_string(), pkg("u", "def", &["dep"])));
    assert_eq!(r.len(), 1);
}

#[test]
fn storing_twice_settles() {
    let mut r = db(&[("a", &[])]);
    let entry = pkg("v", "fed", &["a"]);
    assert!(r.store_if_changed("tool".to_string(), entry.clone()));
    assert!(r.get("tool").unwrap().same_as(&entry));
    assert!(!r.store_if_changed("tool".to_string(), entry));
    assert_eq!(r.len(), 2);
}

#[test]
fn removing_twice_settles() {
    let mut r = db(&[("a", &[]), ("b", &[]), ("c", &[])]);
    let names = vec!["c".to_string(), "a".to_string()];
    assert_eq!(r.remove_all(&names), names);
    assert!(r.remove_all(&names).is_empty());
    assert_eq!(r.len(), 1);
    assert!(r.contains_key("b"));
}

#[test]
fn pinning_twice_settles() {
    let mut r = db(&[("tool", &[])]);
    let latest = "00000000000000000000000000000000000000ff";
    assert!(matches!(r.update_commit("tool", latest, 7), Ok(true)));
    assert!(matches!(r.update_commit("tool", latest, 8), Ok(false)));
    assert_eq!(r.get("tool").unwrap().synced_at, 7);
}

#[test]
fn pinned_commit_compared_as_object_id() {
    let head = format!("abc{}", "0".repeat(37));
    assert!(matches!(pkg("u", "ABC", &[]).pinned_commit_differs(&head), Ok(false)));
    assert!(matches!(pkg("u", "abd", &[]).pinned_commit_differs(&head), Ok(true)));
    match pkg("u", "xyz", &[]).pinned_commit_differs(&head) {
        Err(PkgError::InvalidCommit { commit }) => assert_eq!(commit, "xyz"),
        other => panic!("unexpected {:?}", other),
    }
}

#[test]
fn removing_a_name_twice_settles() {
    let mut r = db(&[("a", &[]), ("b", &[])]);
    assert!(r.remove("a").is_some());
    assert!(r.remove("a").is_none());
    assert_eq!(r.len(), 1);
}

#[test]
fn same_as_compares_script_paths_as_paths() {
    let a = pkg("u", "abc", &[]);
    let mut b = pkg("u", "abc", &[]);
    b.install_script = "/cfg//install-scripts/./x.sh".to_string();
    b.uninstall_script = "/cfg/uninstall-scripts/x.sh/".to_string();
    assert!(a.same_as(&b));
    let mut r = Registry::new();
    assert!(r.store_if_changed("x".to_string(), a));
    assert!(!r.store_if_changed("x".to_string(), b.clone()));
    b.install_script = "/cfg/install-scripts/y.sh".to_string();
    assert!(!pkg("u", "abc", &[]).same_as(&b));
}

#[test]
fn same_as_compares_every_field() {
    let a = pkg("u", "abc", &["x"]);
    assert!(a.same_as(&pkg("u", "abc", &["x"])));
    assert!(!a.same_as(&pkg("u", "abc", &["y"])));
    let mut b = pkg("u", "abc", &["x"]);
    b.synced_at = 2;
    assert!(!a.same_as(&b));
}

#[test]
fn script_digest_changes() {
    let p = pkg("u", "abc", &[]);
    assert!(!p.install_script_changed("aa"));
    assert!(p.install_script_changed("ab"));
    assert!(!p.uninstall_script_changed("bb"));
    assert!(p.uninstall_script_changed("bc"));
}

#[test]
fn update_commit_moves_to_latest() {
    let mut r = Registry::new();
    r.insert("tool".to_string(), pkg("u", "abc", &[]));
    let latest = "1234567890123456789012345678901234567890";
    assert!(matches!(r.update_commit("tool", latest, 99), Ok(true)));
    let p = r.get("tool").unwrap();
    assert_eq!(p.commit, latest);
    assert_eq!(p.synced_at, 99);
    assert!(matches!(r.update_commit("tool", latest, 100), Ok(false)));
    assert_eq!(r.get("tool").unwrap().synced_at, 99);
}

#[test]
fn update_commit_compares_object_ids() {
    let mut r = Registry::new();
    r.insert("tool".to_string(), pkg("u", "ABC", &[]));
    let same = format!("abc{}", "0".repeat(37));
    assert!(matches!(r.update_commit("tool", &same, 5), Ok(false)));
}

#[test]
fn update_commit_errors() {
    let mut r = Registry::new();
    r.insert("bad".to_string(), pkg("u", "not-hex", &[]));
    match r.update_commit("missing", "abc", 1) {
        Err(PkgError::NotFound { name }) => assert_eq!(name, "missing"),
        other => panic!("unexpected {:?}", other),
    }
    match r.update_commit("bad", "abc", 1) {
        Err(PkgError::InvalidCommit { commit }) => assert_eq!(commit, "not-hex"),
        other => panic!("unexpected {:?}", other),
    }
    assert_eq!(r.get("bad").unwrap().commit, "not-hex");
}

#[test]
fn remove_all_reports_removed_names() {
    let mut r = db(&[("a", &[]), ("b", &[]), ("c", &[])]);
    let names = vec!["b".to_string(), "x".to_string(), "b".to_string(), "a".to_string()];
    let removed = r.remove_all(&names);
    assert_eq!(removed, vec!["b".to_string(), "a".to_string()]);
    assert!(r.contains_key("c"));
    assert!(!r.contains_key("a"));
    assert!(!r.contains_key("b"));
    assert_eq!(r.len(), 1);
}

#[test]
fn remove_all_of_nothing() {
    let mut r = db(&[("a", &[])]);
    assert!(r.remove_all(&vec!["z".to_string()]).is_empty());
    assert_eq!(r.len(), 1);
}

#[test]
fn missing_from_lists_packages_to_uninstall() {
    let installed = db(&[("a", &[]), ("b", &[]), ("c", &[])]);
    let wanted = db(&[("b", &[]), ("d", &[])]);
    assert_eq!(installed.missing_from(&wanted), vec!["a".to_string(), "c".to_string()]);
    assert!(wanted.missing_from(&wanted).is_empty());
}

fn position(order: &[String], name: &str) -> usize {
    order.iter().position(|n| n == name).unwrap()
}

#[test]
fn install_order_puts_dependencies_first() {
    let r = db(&[("app", &["lib", "util"]), ("lib", &["util"]), ("util", &[]), ("other", &[])]);
    let order = install_order(&r).unwrap();
    assert_eq!(order.len(), 4);
    assert!(position(&order, "util") < position(&order, "lib"));
    assert!(position(&order, "lib") < position(&order, "app"));
    assert!(position(&order, "util") < position(&order, "app"));
    assert!(order.contains(&"other".to_string()));
}

#[test]
fn install_order_of_empty_table() {
    let r: Registry<Package> = Registry::new();
    assert!(install_order(&r).unwrap().is_empty());
}

#[test]
fn install_order_unknown_dependency() {
    let r = db(&[("app", &["lib", "ghost"]), ("lib", &[])]);
    match install_order(&r) {
        Err(PkgError::UnknownDependency { package, dependency }) => {
            assert_eq!(package, "app");
            assert_eq!(dependency, "ghost");
        }
        other => panic!("unexpected {:?}", other),
    }
}

#[test]
fn install_order_cycle() {
    let r = db(&[("a", &["b"]), ("b", &["c"]), ("c", &["a"]), ("d", &[])]);
    assert!(matches!(install_order(&r), Err(PkgError::CircularDependency)));
}

#[test]
fn install_order_self_dependency() {
    let r = db(&[("a", &["a"])]);
    assert!(matches!(install_order(&r), Err(PkgError::CircularDependency)));
}

#[test]
fn install_order_repeated_dependency() {
    let r = db(&[("a", &["b", "b"]), ("b", &[])]);
    assert_eq!(install_order(&r).unwrap(), vec!["b".to_string(), "a".to_string()]);
}

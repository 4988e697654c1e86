use justpkg::names::{is_safe_dir_name, is_valid_package_name, split_name_ref};
use justpkg::url::normalize_url;

#[test]
fn valid_package_names() {
    assert!(is_valid_package_name("ripgrep"));
    assert!(is_valid_package_name("my-tool_2"));
    assert!(is_valid_package_name("ABC"));
    assert!(is_valid_package_name(""));
}

#[test]
fn invalid_package_names() {
    assert!(!is_valid_package_name("my.tool"));
    assert!(!is_valid_package_name("a/b"));
    assert!(!is_valid_package_name("name with space"));
    assert!(!is_valid_package_name("ünïcode"));
    assert!(!is_valid_package_name("pkg@v1"));
}

#[test]
fn safe_directory_names() {
    assert!(is_safe_dir_name("tool"));
    assert!(is_safe_dir_name("v1.2"));
    assert!(!is_safe_dir_name(".."));
    assert!(!is_safe_dir_name("a..b"));
    assert!(!is_safe_dir_name("a/b"));
}

#[test]
fn valid_names_are_safe_directory_names() {
    for name in ["tool", "my-tool_2", "", "X"] {
        assert!(is_valid_package_name(name));
        assert!(is_safe_dir_name(name));
    }
}

#[test]
fn split_with_reference() {
    assert_eq!(split_name_ref("tool@v1.0"), ("tool", Some("v1.0")));
    assert_eq!(split_name_ref("tool@"), ("tool", Some("")));
    assert_eq!(split_name_ref("@main"), ("", Some("main")));
}

#[test]
fn split_at_first_at_sign() {
    assert_eq!(split_name_ref("a@b@c"), ("a", Some("b@c")));
}

#[test]
fn split_without_reference() {
    assert_eq!(split_name_ref("tool"), ("tool", None));
    assert_eq!(split_name_ref(""), ("", None));
}

#[test]
fn split_reassembles() {
    for s in ["x@y", "name@refs/tags/v2", "plain", "a@b@c"] {
        let (name, reference) = split_name_ref(s);
        match reference {
            Some(r) => assert_eq!(format!("{}@{}", name, r), s),
            None => assert_eq!(name, s),
        }
    }
}

#[test]
fn normalize_https_url() {
    assert_eq!(normalize_url("https://github.com/user/repo.git").unwrap(), "github.com/user/repo");
    assert_eq!(normalize_url("https://github.com/user/repo").unwrap(), "github.com/user/repo");
}

#[test]
fn normalize_ssh_url() {
    assert_eq!(normalize_url("git@github.com:user/repo.git").unwrap(), "github.com/user/repo");
    assert_eq!(normalize_url("ssh://git@host:22/x").unwrap(), "host/22/x");
}

#[test]
fn spellings_of_one_repository_agree() {
    let a = normalize_url("https://github.com/user/repo.git").unwrap();
    let b = normalize_url("git@github.com:user/repo.git").unwrap();
    let c = normalize_url("http://github.com/user/repo").unwrap();
    assert_eq!(a, b);
    assert_eq!(a, c);
}

#[test]
fn normalize_collapses_slashes() {
    assert_eq!(normalize_url("http://example.com//a///b").unwrap(), "example.com/a/b");
    assert_eq!(normalize_url("file:///srv/git/repo.git").unwrap(), "/srv/git/repo");
    assert_eq!(normalize_url("a::b").unwrap(), "a/b");
}

#[test]
fn normalize_plain_text() {
    assert_eq!(normalize_url("").unwrap(), "");
    assert_eq!(normalize_url("repo").unwrap(), "repo");
    assert_eq!(normalize_url(".git").unwrap(), "");
}

#[test]
fn normalize_is_not_idempotent() {
    let once = normalize_url("a.git.git").unwrap();
    assert_eq!(once, "a.git");
    assert_eq!(normalize_url(&once).unwrap(), "a");
}

#[test]
fn normalizing_a_normal_form_gives_it_back() {
    for u in [
        "https://github.com/user/repo.git",
        "git@github.com:user/repo.git",
        "ssh://git@host:22//a//b",
        "plain",
    ] {
        let once = normalize_url(u).unwrap();
        assert_eq!(normalize_url(&once).unwrap(), once);
    }
    let once = normalize_url("git@git@host:x").unwrap();
    assert_eq!(once, "git@host/x");
    assert_eq!(normalize_url(&once).unwrap(), "host/x");
}

#[test]
fn git_suffix_does_not_change_the_normal_form() {
    for s in ["github.com/u/r", "git@host:u/r", "https://h/x/", "a:", "", "x.gi"] {
        assert_eq!(
            normalize_url(&format!("{s}.git")).unwrap(),
            normalize_url(s).unwrap()
        );
    }
    assert_ne!(normalize_url("a.git.git").unwrap(), normalize_url("a.git").unwrap());
}

#[test]
fn scheme_does_not_change_the_normal_form() {
    for scheme in ["https", "ssh", "git+ssh", ""] {
        for s in ["github.com/u/r.git", "git@host:u/r", "h//x"] {
            assert_eq!(
                normalize_url(&format!("{scheme}://{s}")).unwrap(),
                normalize_url(s).unwrap()
            );
        }
    }
}

#[test]
fn normalized_urls_have_no_colon_or_double_slash() {
    for u in ["https://h:1//x::y", "git@a:b//c", "://:://"] {
        let n = normalize_url(u).unwrap();
        assert!(!n.contains(':'));
        assert!(!n.contains("//"));
    }
}

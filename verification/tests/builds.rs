use justpkg::binaries::{is_binary, is_executable, is_intermediate, is_intermediate_extension, select_build_system, BuildSystem};
use justpkg::commit::canonical_commit;
use justpkg::error::PkgError;
use justpkg::remote::{select_remote_ref, RefChoice, RemoteHead};
use justpkg::shell::{path_setup_line, Shell};

#[test]
fn build_system_priority() {
    assert_eq!(select_build_system(true, true, true, true).unwrap(), BuildSystem::Just);
    assert_eq!(select_build_system(false, true, true, true).unwrap(), BuildSystem::Make);
    assert_eq!(select_build_system(false, false, true, true).unwrap(), BuildSystem::Cargo);
    assert_eq!(select_build_system(false, false, false, true).unwrap(), BuildSystem::CMake);
    assert!(matches!(select_build_system(false, false, false, false), Err(PkgError::NoBuildSystem)));
}

#[test]
fn intermediates_by_extension() {
    assert!(is_intermediate("target/release/libfoo.rlib"));
    assert!(is_intermediate("build/main.o"));
    assert!(is_intermediate("libz.so"));
    assert!(is_intermediate("libz.a"));
    assert!(is_intermediate("x.dylib"));
    assert!(is_intermediate("x.dll"));
    assert!(!is_intermediate("target/release/tool"));
    assert!(!is_intermediate("tool.sh"));
    assert!(!is_intermediate(".o"));
    assert!(!is_intermediate("libz.so.1"));
    assert!(!is_intermediate_extension(None));
    assert!(is_intermediate_extension(Some("rlib")));
    assert!(!is_intermediate_extension(Some("RLIB")));
}

#[test]
fn executable_bits() {
    assert!(is_executable(true, 0o755));
    assert!(is_executable(true, 0o100));
    assert!(is_executable(true, 0o010));
    assert!(is_executable(true, 0o001));
    assert!(!is_executable(true, 0o644));
    assert!(!is_executable(false, 0o755));
}

#[test]
fn binaries_are_executable_non_intermediates() {
    assert!(is_binary("out/tool", true, 0o755));
    assert!(!is_binary("out/libtool.so", true, 0o755));
    assert!(!is_binary("out/tool", true, 0o644));
    assert!(!is_binary("out/tool", false, 0o755));
}

fn head(name: &str, oid: &str, target: Option<&str>) -> RemoteHead {
    RemoteHead { name: name.to_string(), oid: oid.to_string(), symref_target: target.map(|t| t.to_string()) }
}

#[test]
fn head_follows_symbolic_target() {
    let heads = vec![head("HEAD", "111", Some("refs/heads/main")), head("refs/heads/main", "222", None)];
    match select_remote_ref(&heads, "HEAD") {
        Ok(RefChoice::Follow { branch }) => assert_eq!(branch, "main"),
        other => panic!("unexpected {:?}", other),
    }
}

#[test]
fn head_target_prefix_trimmed_repeatedly() {
    let heads = vec![head("HEAD", "111", Some("refs/heads/refs/heads/dev"))];
    match select_remote_ref(&heads, "HEAD") {
        Ok(RefChoice::Follow { branch }) => assert_eq!(branch, "dev"),
        other => panic!("unexpected {:?}", other),
    }
}

#[test]
fn head_not_symbolic() {
    let heads = vec![head("HEAD", "111", None)];
    assert!(matches!(select_remote_ref(&heads, "HEAD"), Err(PkgError::HeadNotSymbolic)));
}

#[test]
fn branch_by_suffix() {
    let heads = vec![head("HEAD", "111", Some("refs/heads/main")), head("refs/heads/main", "222", None), head("refs/tags/v1", "333", None)];
    match select_remote_ref(&heads, "main") {
        Ok(RefChoice::Found { oid }) => assert_eq!(oid, "222"),
        other => panic!("unexpected {:?}", other),
    }
    match select_remote_ref(&heads, "v1") {
        Ok(RefChoice::Found { oid }) => assert_eq!(oid, "333"),
        other => panic!("unexpected {:?}", other),
    }
}

#[test]
fn head_without_advertised_head() {
    let heads = vec![head("refs/heads/HEAD", "444", None)];
    match select_remote_ref(&heads, "HEAD") {
        Ok(RefChoice::Found { oid }) => assert_eq!(oid, "444"),
        other => panic!("unexpected {:?}", other),
    }
}

#[test]
fn reference_not_found() {
    let heads = vec![head("refs/heads/main", "222", None)];
    match select_remote_ref(&heads, "dev") {
        Err(PkgError::RefNotFound { reference }) => assert_eq!(reference, "dev"),
        other => panic!("unexpected {:?}", other),
    }
}

#[test]
fn canonical_commit_ids() {
    assert_eq!(canonical_commit("ABC").unwrap(), format!("abc{}", "0".repeat(37)));
    let full = "0123456789abcdef0123456789abcdef01234567";
    assert_eq!(canonical_commit(full).unwrap(), full);
    assert_eq!(canonical_commit(""), None);
    assert_eq!(canonical_commit("xyz"), None);
    assert_eq!(canonical_commit(&"a".repeat(41)), None);
}

#[test]
fn shell_setup_lines() {
    assert_eq!(path_setup_line(Shell::Bash, "/home/u/.local/share/justpkg/bin"), "export PATH=\"/home/u/.local/share/justpkg/bin:$PATH\"");
    assert_eq!(path_setup_line(Shell::Zsh, "/b"), "export PATH=\"/b:$PATH\"");
    assert_eq!(path_setup_line(Shell::Fish, "/b"), "fish_add_path \"/b\"");
    assert_eq!(path_setup_line(Shell::Nu, "/b"), "$env.PATH = ($env.PATH | split-row (char esep) | prepend '/b' | uniq)");
}

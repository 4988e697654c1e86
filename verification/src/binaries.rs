//! Which build system a checkout uses, and which files of a build's
//! output directory are binaries worth linking.

use vstd::prelude::*;
use crate::error::PkgError;
use crate::text::str_eq_lit;

verus! {

/// A build system the manager knows how to drive.
#[derive(Clone, Copy, Debug, PartialEq, Eq)]
pub enum BuildSystem {
    /// `just build`, with a `justfile`.
    Just,
    /// `make build`, with a `Makefile`.
    Make,
    /// `cargo build --release`, with a `Cargo.toml`.
    Cargo,
    /// `cmake --build .`, with a `CMakeLists.txt`.
    CMake,
}

/// The build system of a checkout, from which of its build files exist:
/// a `justfile` wins over a `Makefile`, which wins over a `Cargo.toml`,
/// which wins over a `CMakeLists.txt`.  Fails when there is none of them.
pub fn select_build_system(
    has_justfile: bool,
    has_makefile: bool,
    has_cargo_toml: bool,
    has_cmake_lists: bool,
) -> (res: Result<BuildSystem, PkgError>)
    ensures
        has_justfile ==> res matches Ok(BuildSystem::Just),
        !has_justfile && has_makefile ==> res matches Ok(BuildSystem::Make),
        !has_justfile && !has_makefile && has_cargo_toml ==> res matches Ok(BuildSystem::Cargo),
        !has_justfile && !has_makefile && !has_cargo_toml && has_cmake_lists ==> res matches Ok(
            BuildSystem::CMake,
        ),
        !has_justfile && !has_makefile && !has_cargo_toml && !has_cmake_lists ==> res matches Err(
            PkgError::NoBuildSystem,
        ),
{
    if has_justfile {
        Ok(BuildSystem::Just)
    } else if has_makefile {
        Ok(BuildSystem::Make)
    } else if has_cargo_toml {
        Ok(BuildSystem::Cargo)
    } else if has_cmake_lists {
        Ok(BuildSystem::CMake)
    } else {
        Err(PkgError::NoBuildSystem)
    }
}

/// The extension of the path `path` as `std::path::Path::extension` finds
/// it: the part of the file name after its last `.`.  What counts as the
/// file name depends on the target platform's path separators (`/` on the
/// Unix systems the manager runs on).
pub uninterp spec fn path_extension_of(path: Seq<char>) -> Option<Seq<char>>;

/// `std::path::Path::extension` on `path`, as a string.
#[verifier::external_body]
fn path_extension(path: &str) -> (ext: Option<String>)
    ensures
        match ext {
            Some(e) => path_extension_of(path@) == Some(e@),
            None => path_extension_of(path@) is None,
        },
{
    std::path::Path::new(path).extension().and_then(|e| e.to_str()).map(|e| e.to_string())
}

/// The extensions of build intermediates: object files, static and shared
/// libraries, Rust libraries.
pub open spec fn intermediate_extension(ext: Seq<char>) -> bool {
    ||| ext == seq!['o']
    ||| ext == seq!['a']
    ||| ext == seq!['s', 'o']
    ||| ext == seq!['d', 'y', 'l', 'i', 'b']
    ||| ext == seq!['d', 'l', 'l']
    ||| ext == seq!['r', 'l', 'i', 'b']
}

/// Whether a file with extension `ext` is a build intermediate: `o`, `a`,
/// `so`, `dylib`, `dll` or `rlib`.
pub fn is_intermediate_extension(ext: Option<&str>) -> (res: bool)
    ensures
        res == match ext {
            Some(e) => intermediate_extension(e@),
            None => false,
        },
{
    match ext {
        Some(e) => {
            let o: Vec<char> = vec!['o'];
            let a: Vec<char> = vec!['a'];
            let so: Vec<char> = vec!['s', 'o'];
            let dylib: Vec<char> = vec!['d', 'y', 'l', 'i', 'b'];
            let dll: Vec<char> = vec!['d', 'l', 'l'];
            let rlib: Vec<char> = vec!['r', 'l', 'i', 'b'];
            assert(o@ == seq!['o'] && a@ == seq!['a'] && so@ == seq!['s', 'o']);
            assert(dylib@ == seq!['d', 'y', 'l', 'i', 'b'] && dll@ == seq!['d', 'l', 'l']);
            assert(rlib@ == seq!['r', 'l', 'i', 'b']);
            str_eq_lit(e, &o) || str_eq_lit(e, &a) || str_eq_lit(e, &so) || str_eq_lit(e, &dylib)
                || str_eq_lit(e, &dll) || str_eq_lit(e, &rlib)
        },
        None => false,
    }
}

/// Whether the file at `path` is a build intermediate, by its extension.
pub fn is_intermediate(path: &str) -> (res: bool)
    ensures
        res == match path_extension_of(path@) {
            Some(e) => intermediate_extension(e),
            None => false,
        },
{
    match path_extension(path) {
        Some(e) => is_intermediate_extension(Some(e.as_str())),
        None => is_intermediate_extension(None),
    }
}

/// Some execute permission bit (owner, group or other) is set in `mode`.
pub open spec fn has_execute_bit(mode: u32) -> bool {
    (mode / 64) % 2 == 1 || (mode / 8) % 2 == 1 || mode % 2 == 1
}

/// A mode has an execute bit exactly when it has one of the bits `0o100`,
/// `0o010` and `0o001`: no read or write bit counts.
pub proof fn lemma_execute_bits(mode: u32)
    ensures
        has_execute_bit(mode) == (mode & 0o111u32 != 0),
{
    assert((mode & 0o111u32 != 0) == ((mode / 64) % 2 == 1 || (mode / 8) % 2 == 1 || mode % 2 == 1))
        by (bit_vector);
}

/// Whether a file with these metadata is executable: it is a regular file
/// and some execute bit of its permission mode is set.
pub fn is_executable(is_file: bool, mode: u32) -> (res: bool)
    ensures
        res == (is_file && has_execute_bit(mode)),
        res == (is_file && mode & 0o111u32 != 0),
{
    proof {
        lemma_execute_bits(mode);
    }
    let bits = mode & 0o111u32;
    assert((mode & 0o111u32 != 0) == ((mode / 64) % 2 == 1 || (mode / 8) % 2 == 1 || mode % 2 == 1))
        by (bit_vector);
    is_file && bits != 0
}

/// Whether the file at `path` is one of a build's binaries: a regular,
/// executable file that is no build intermediate.
pub fn is_binary(path: &str, is_file: bool, mode: u32) -> (res: bool)
    ensures
        res == (is_file && has_execute_bit(mode) && !match path_extension_of(path@) {
            Some(e) => intermediate_extension(e),
            None => false,
        }),
        res == (is_file && mode & 0o111u32 != 0 && !match path_extension_of(path@) {
            Some(e) => intermediate_extension(e),
            None => false,
        }),
{
    proof {
        lemma_execute_bits(mode);
    }
    is_file && is_executable(is_file, mode) && !is_intermediate(path)
}

} // verus!

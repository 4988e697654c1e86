//! Commit ids as the manager stores them: hexadecimal text, read by
//! `git2` into an object id and written back in its canonical form.

use vstd::prelude::*;

verus! {

#[verifier::external_type_specification]
#[verifier::external_body]
pub struct ExGitError(git2::Error);

/// A hexadecimal digit, in either case.
pub open spec fn is_hex_digit(c: char) -> bool {
    ('0' <= c && c <= '9') || ('a' <= c && c <= 'f') || ('A' <= c && c <= 'F')
}

/// The text names an object id: one to forty hexadecimal digits.
pub open spec fn oid_text_ok(s: Seq<char>) -> bool {
    0 < s.len() <= 40 && forall|i: int| 0 <= i < s.len() ==> #[trigger] is_hex_digit(s[i])
}

/// A hexadecimal digit in lower case.
pub open spec fn lower_hex(c: char) -> char {
    if 'A' <= c && c <= 'F' {
        ((c as int) + 32) as char
    } else {
        c
    }
}

/// The canonical form of the object id `s` names: its digits in lower
/// case, followed by zeros up to forty digits.
pub open spec fn canonical_oid(s: Seq<char>) -> Seq<char> {
    Seq::new(40, |i: int| if i < s.len() { lower_hex(s[i]) } else { '0' })
}

/// The text is an object id in canonical form: forty lower-case
/// hexadecimal digits.
pub open spec fn is_canonical_oid(s: Seq<char>) -> bool {
    s.len() == 40 && forall|i: int|
        0 <= i < s.len() ==> ('0' <= #[trigger] s[i] && s[i] <= '9') || ('a' <= s[i] && s[i] <= 'f')
}

/// An id in canonical form is read back as itself: pinning a package to a
/// commit id that `git2` wrote, and then to the same id again, changes
/// nothing the second time.
pub proof fn lemma_canonical_oid_fixed(s: Seq<char>)
    requires
        is_canonical_oid(s),
    ensures
        oid_text_ok(s),
        canonical_oid(s) == s,
{
    assert forall|i: int| 0 <= i < s.len() implies #[trigger] is_hex_digit(s[i]) by {}
    assert(canonical_oid(s) =~= s);
}

/// Canonical forms are in canonical form.
pub proof fn lemma_canonical_oid_is_canonical(s: Seq<char>)
    requires
        oid_text_ok(s),
    ensures
        is_canonical_oid(canonical_oid(s)),
{
    let c = canonical_oid(s);
    assert forall|i: int| 0 <= i < c.len() implies ('0' <= #[trigger] c[i] && c[i] <= '9') || (
    'a' <= c[i] && c[i] <= 'f') by {
        if i < s.len() {
            assert(is_hex_digit(s[i]));
        }
    }
}

/// `git2::Oid::from_str`, written back with the id's `Display`: succeeds
/// exactly on one to forty hexadecimal digits (shorter ids are padded with
/// zero digits) and gives the id's forty lower-case digits.
#[verifier::external_body]
fn parse_oid(s: &str) -> (res: Result<String, git2::Error>)
    ensures
        res is Ok <==> oid_text_ok(s@),
        res matches Ok(text) ==> text@ == canonical_oid(s@),
{
    git2::Oid::from_str(s).map(|oid| oid.to_string())
}

/// The canonical form of the commit id written as `s`, or `None` when `s`
/// is not one to forty hexadecimal digits.
pub fn canonical_commit(s: &str) -> (res: Option<String>)
    ensures
        res is Some <==> oid_text_ok(s@),
        res matches Some(text) ==> text@ == canonical_oid(s@),
{
    match parse_oid(s) {
        Ok(text) => Some(text),
        Err(_) => None,
    }
}

} // verus!

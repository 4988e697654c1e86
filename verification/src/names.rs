//! Package names, and the `name@ref` form in which a user names a package
//! together with the git reference to update it to.

use vstd::prelude::*;
use crate::text::{chars_of, contains_chars, contains_seq, find_from, find_seq, lemma_find_from, occurs_at};

verus! {

/// An ASCII letter or digit, `-` or `_`.
pub open spec fn is_name_char(c: char) -> bool {
    ||| ('a' <= c && c <= 'z')
    ||| ('A' <= c && c <= 'Z')
    ||| ('0' <= c && c <= '9')
    ||| c == '-'
    ||| c == '_'
}

/// The name characters are exactly the ASCII letters `a`-`z` and `A`-`Z`,
/// the digits `0`-`9`, `-` and `_`.
pub proof fn lemma_name_chars()
    ensures
        forall|c: char|
            #[trigger] is_name_char(c) <==> (('a' <= c && c <= 'z') || ('A' <= c && c <= 'Z') || (
            '0' <= c && c <= '9') || c == '-' || c == '_'),
{
}

/// A name is valid exactly when each of its characters is an ASCII letter
/// or digit, `-` or `_`.
pub proof fn lemma_valid_name_exact(name: Seq<char>)
    ensures
        valid_package_name(name) == forall|i: int|
            0 <= i < name.len() ==> {
                let c = #[trigger] name[i];
                ('a' <= c && c <= 'z') || ('A' <= c && c <= 'Z') || ('0' <= c && c <= '9') || c
                    == '-' || c == '_'
            },
{
    lemma_name_chars();
    if valid_package_name(name) {
        assert forall|i: int| 0 <= i < name.len() implies {
            let c = #[trigger] name[i];
            ('a' <= c && c <= 'z') || ('A' <= c && c <= 'Z') || ('0' <= c && c <= '9') || c == '-'
                || c == '_'
        } by {
            assert(is_name_char(name[i]));
        }
    } else {
        let i = choose|i: int| 0 <= i < name.len() && !#[trigger] is_name_char(name[i]);
        assert(!is_name_char(name[i]));
    }
}

/// Every character of the name is an ASCII letter or digit, `-` or `_`.
pub open spec fn valid_package_name(name: Seq<char>) -> bool {
    forall|i: int| 0 <= i < name.len() ==> #[trigger] is_name_char(name[i])
}

/// Whether `name` may name a package: it holds only ASCII letters and
/// digits, `-` and `_`.
pub fn is_valid_package_name(name: &str) -> (res: bool)
    ensures
        res == valid_package_name(name@),
        res == forall|i: int|
            0 <= i < name@.len() ==> {
                let c = #[trigger] name@[i];
                ('a' <= c && c <= 'z') || ('A' <= c && c <= 'Z') || ('0' <= c && c <= '9') || c
                    == '-' || c == '_'
            },
{
    proof {
        lemma_valid_name_exact(name@);
    }
    let v = chars_of(name);
    for i in 0..v.len()
        invariant
            v@ == name@,
            forall|j: int| 0 <= j < i ==> #[trigger] is_name_char(name@[j]),
    {
        let c = v[i];
        let ok = ('a' <= c && c <= 'z') || ('A' <= c && c <= 'Z') || ('0' <= c && c <= '9') || c
            == '-' || c == '_';
        if !ok {
            assert(!is_name_char(name@[i as int]));
            return false;
        }
    }
    true
}

/// The name holds neither `..` nor `/`, so that it names a directory right
/// under the directory it is joined to.
pub open spec fn safe_dir_name(name: Seq<char>) -> bool {
    !contains_seq(name, seq!['.', '.']) && !contains_seq(name, seq!['/'])
}

/// Whether `name` can be used as a directory name under the repositories
/// directory: it holds neither `..` nor `/`.
pub fn is_safe_dir_name(name: &str) -> (res: bool)
    ensures
        res == safe_dir_name(name@),
{
    let v = chars_of(name);
    let dots: Vec<char> = vec!['.', '.'];
    let slash: Vec<char> = vec!['/'];
    assert(dots@ == seq!['.', '.']);
    assert(slash@ == seq!['/']);
    !contains_chars(&v, &dots) && !contains_chars(&v, &slash)
}

/// A valid package name is a safe directory name.
pub proof fn lemma_valid_name_is_safe_dir_name(name: Seq<char>)
    requires
        valid_package_name(name),
    ensures
        safe_dir_name(name),
{
    if contains_seq(name, seq!['.', '.']) {
        let i = choose|i: int| occurs_at(name, seq!['.', '.'], i);
        assert(name.subrange(i, i + 2)[0] == '.');
        assert(is_name_char(name[i]));
    }
    if contains_seq(name, seq!['/']) {
        let i = choose|i: int| occurs_at(name, seq!['/'], i);
        assert(name.subrange(i, i + 1)[0] == '/');
        assert(is_name_char(name[i]));
    }
}

/// How `name@ref` splits: at the first `@`, into the name before it and the
/// reference after it; the whole text with no reference when there is no
/// `@`.
pub open spec fn split_at_ref(s: Seq<char>) -> (Seq<char>, Option<Seq<char>>) {
    match find_from(s, seq!['@'], 0) {
        Some(i) => (s.take(i), Some(s.skip(i + 1))),
        None => (s, None),
    }
}

/// Splits `name@ref` at its first `@` into the package name and the
/// reference; a text without `@` is a name alone.
pub fn split_name_ref(s: &str) -> (res: (&str, Option<&str>))
    ensures
        (res.0@, match res.1 {
            Some(r) => Some(r@),
            None => None,
        }) == split_at_ref(s@),
        !res.0@.contains('@'),
        res.1 matches Some(r) ==> s@ == res.0@ + seq!['@'] + r@,
        res.1 is None ==> res.0@ == s@,
{
    let v = chars_of(s);
    let at: Vec<char> = vec!['@'];
    assert(at@ == seq!['@']);
    let n = s.unicode_len();
    proof {
        lemma_find_from(s@, seq!['@'], 0);
    }
    match find_seq(&v, &at) {
        Some(i) => {
            assert(occurs_at(s@, seq!['@'], i as int));
            assert(s@.subrange(i as int, i + 1)[0] == '@');
            let name = s.substring_char(0, i);
            let reference = s.substring_char(i + 1, n);
            proof {
                assert(name@ =~= s@.take(i as int));
                assert(reference@ =~= s@.skip(i + 1));
                assert(s@ =~= name@ + seq!['@'] + reference@);
                if name@.contains('@') {
                    let j = choose|j: int| 0 <= j < name@.len() && name@[j] == '@';
                    assert(s@.subrange(j, j + 1) =~= seq!['@']);
                    assert(occurs_at(s@, seq!['@'], j));
                }
            }
            (name, Some(reference))
        },
        None => {
            proof {
                if s@.contains('@') {
                    let j = choose|j: int| 0 <= j < s@.len() && s@[j] == '@';
                    assert(s@.subrange(j, j + 1) =~= seq!['@']);
                    assert(occurs_at(s@, seq!['@'], j));
                }
            }
            (s, None)
        },
    }
}

} // verus!

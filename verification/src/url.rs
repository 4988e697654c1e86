//! Normal form of a repository URL, so that the different spellings of one
//! repository (`https://…`, `git@…:…`, with or without `.git`) share one
//! key.

use vstd::prelude::*;
use crate::error::PkgError;
use crate::text::{chars_of, contains_seq, occurs_at, ends_with, ends_with_chars, find_from, find_seq, lemma_find_from, slice_chars, starts_with, starts_with_chars, string_from_chars};

verus! {

/// The separator between a URL's scheme and the rest: `://`.
pub open spec fn scheme_separator() -> Seq<char> {
    seq![':', '/', '/']
}

/// The user part of an SSH remote: `git@`.
pub open spec fn git_user() -> Seq<char> {
    seq!['g', 'i', 't', '@']
}

/// The usual suffix of a repository path: `.git`.
pub open spec fn git_suffix() -> Seq<char> {
    seq!['.', 'g', 'i', 't']
}

/// Everything after the first `://`, or the whole text when there is none.
pub open spec fn strip_scheme(s: Seq<char>) -> Seq<char> {
    match find_from(s, scheme_separator(), 0) {
        Some(i) => s.skip(i + 3),
        None => s,
    }
}

/// The text without a leading `git@`.
pub open spec fn strip_git_user(s: Seq<char>) -> Seq<char> {
    if starts_with(s, git_user()) {
        s.skip(4)
    } else {
        s
    }
}

/// The text with every `:` replaced by `/`.
pub open spec fn colons_to_slashes(s: Seq<char>) -> Seq<char> {
    s.map_values(|c: char| if c == ':' { '/' } else { c })
}

/// The text without a trailing `.git`.
pub open spec fn strip_git_suffix(s: Seq<char>) -> Seq<char> {
    if ends_with(s, git_suffix()) {
        s.take(s.len() - 4)
    } else {
        s
    }
}

/// The text with every run of `/` shortened to a single `/`.
pub open spec fn collapse_slashes(s: Seq<char>) -> Seq<char>
    decreases s.len(),
{
    if s.len() == 0 {
        s
    } else {
        let rest = collapse_slashes(s.drop_last());
        if s.last() == '/' && s.len() >= 2 && s[s.len() - 2] == '/' {
            rest
        } else {
            rest.push(s.last())
        }
    }
}

/// The normal form of a repository URL.
pub open spec fn normalized_url(url: Seq<char>) -> Seq<char> {
    collapse_slashes(strip_git_suffix(colons_to_slashes(strip_git_user(strip_scheme(url)))))
}

/// The characters at `i` and `i + 1` are both `/`.
pub open spec fn slash_pair_at(s: Seq<char>, i: int) -> bool {
    0 <= i && i + 1 < s.len() && s[i] == '/' && s[i + 1] == '/'
}

/// `s` holds two `/` in a row.
pub open spec fn has_double_slash(s: Seq<char>) -> bool {
    exists|i: int| #[trigger] slash_pair_at(s, i)
}

/// Collapsing keeps the last character, never leaves two `/` in a row and
/// brings in no character that was not there.
pub proof fn lemma_collapse_slashes(s: Seq<char>)
    ensures
        !has_double_slash(collapse_slashes(s)),
        s.len() > 0 ==> collapse_slashes(s).len() > 0 && collapse_slashes(s).last() == s.last(),
        forall|c: char| collapse_slashes(s).contains(c) ==> s.contains(c),
    decreases s.len(),
{
    if s.len() > 0 {
        let rest = collapse_slashes(s.drop_last());
        lemma_collapse_slashes(s.drop_last());
        if s.last() == '/' && s.len() >= 2 && s[s.len() - 2] == '/' {
            assert(s.drop_last().last() == '/');
            assert forall|c: char| rest.contains(c) implies s.contains(c) by {
                assert(s.drop_last().contains(c));
                let k = choose|k: int| 0 <= k < s.drop_last().len() && s.drop_last()[k] == c;
                assert(s[k] == c);
            }
        } else {
            let r = rest.push(s.last());
            assert forall|i: int| !#[trigger] slash_pair_at(r, i) by {
                if 0 <= i && i + 1 < r.len() {
                    if i + 1 == rest.len() {
                        if s.len() >= 2 {
                            assert(rest.last() == s[s.len() - 2]);
                        }
                    } else {
                        assert(r[i] == rest[i] && r[i + 1] == rest[i + 1]);
                        assert(!slash_pair_at(rest, i));
                    }
                }
            }
            assert forall|c: char| r.contains(c) implies s.contains(c) by {
                let k = choose|k: int| 0 <= k < r.len() && r[k] == c;
                if k < rest.len() {
                    assert(rest.contains(c));
                    assert(s.drop_last().contains(c));
                    let k2 = choose|k2: int| 0 <= k2 < s.drop_last().len() && s.drop_last()[k2] == c;
                    assert(s[k2] == c);
                } else {
                    assert(s[s.len() - 1] == c);
                }
            }
        }
    }
}

/// Text without two `/` in a row is left alone by collapsing.
proof fn lemma_collapse_no_double(s: Seq<char>)
    requires
        !has_double_slash(s),
    ensures
        collapse_slashes(s) == s,
    decreases s.len(),
{
    if s.len() > 0 {
        let d = s.drop_last();
        assert forall|i: int| !#[trigger] slash_pair_at(d, i) by {
            if slash_pair_at(d, i) {
                assert(slash_pair_at(s, i));
            }
        }
        lemma_collapse_no_double(d);
        if s.len() >= 2 && s.last() == '/' && s[s.len() - 2] == '/' {
            assert(slash_pair_at(s, s.len() - 2));
        }
        assert(d.push(s.last()) =~= s);
    }
}

/// Normalizing a normal form gives it back, unless it still begins with
/// `git@` or ends with `.git` (as the normal forms of `git@git@host/x` and
/// `host/x.git.git` do), in which case that part is stripped once more.
pub proof fn lemma_normalized_url_idempotent(url: Seq<char>)
    requires
        !starts_with(normalized_url(url), git_user()),
        !ends_with(normalized_url(url), git_suffix()),
    ensures
        normalized_url(normalized_url(url)) == normalized_url(url),
{
    let n = normalized_url(url);
    let v4 = strip_git_suffix(colons_to_slashes(strip_git_user(strip_scheme(url))));
    lemma_collapse_slashes(v4);
    assert(!n.contains(':')) by {
        if n.contains(':') {
            assert(v4.contains(':'));
            let k = choose|k: int| 0 <= k < v4.len() && v4[k] == ':';
            let v3 = colons_to_slashes(strip_git_user(strip_scheme(url)));
            assert(v3[k] == ':');
        }
    }
    lemma_find_from(n, scheme_separator(), 0);
    if find_from(n, scheme_separator(), 0) is Some {
        let i = find_from(n, scheme_separator(), 0)->0;
        assert(n.subrange(i, i + 3)[0] == ':');
        assert(n[i] == ':');
    }
    assert(strip_scheme(n) == n);
    assert(colons_to_slashes(n) =~= n) by {
        assert forall|k: int| 0 <= k < n.len() implies n[k] != ':' by {
            if n[k] == ':' {
                assert(n.contains(':'));
            }
        }
    }
    lemma_collapse_no_double(n);
}

/// Where `pat` occurs at `k` and nowhere from `i` up to `k`, the search
/// from `i` finds `k`.
proof fn lemma_find_from_first(s: Seq<char>, pat: Seq<char>, i: int, k: int)
    requires
        0 <= i <= k,
        occurs_at(s, pat, k),
        forall|j: int| i <= j < k ==> !occurs_at(s, pat, j),
    ensures
        find_from(s, pat, i) == Some(k),
    decreases k - i,
{
    if i < k {
        lemma_find_from_first(s, pat, i + 1, k);
    }
}

/// No occurrence of `pat` anywhere means no search finds one.
proof fn lemma_find_from_absent(s: Seq<char>, pat: Seq<char>)
    requires
        !contains_seq(s, pat),
    ensures
        find_from(s, pat, 0) is None,
{
    lemma_find_from(s, pat, 0);
    if find_from(s, pat, 0) is Some {
        assert(occurs_at(s, pat, find_from(s, pat, 0)->0));
    }
}

/// A scheme is dropped: prefixing a text without `://` by a scheme without
/// `:` and then `://` does not change its normal form.
pub proof fn lemma_normalized_url_ignores_scheme(scheme: Seq<char>, s: Seq<char>)
    requires
        !contains_seq(s, scheme_separator()),
        !scheme.contains(':'),
    ensures
        normalized_url(scheme + scheme_separator() + s) == normalized_url(s),
{
    let sep = scheme_separator();
    let t = scheme + sep + s;
    let k = scheme.len() as int;
    assert(t.subrange(k, k + 3) =~= sep);
    assert forall|j: int| 0 <= j < k implies !occurs_at(t, sep, j) by {
        if occurs_at(t, sep, j) {
            assert(t.subrange(j, j + 3)[0] == ':');
            assert(t[j] == scheme[j]);
            assert(scheme.contains(':'));
        }
    }
    lemma_find_from_first(t, sep, 0, k);
    assert(strip_scheme(t) =~= s);
    lemma_find_from_absent(s, sep);
    assert(strip_scheme(s) == s);
}

/// A `.git` suffix is dropped: appending `.git` to a text that does not
/// already end with it does not change its normal form.
pub proof fn lemma_normalized_url_ignores_git_suffix(s: Seq<char>)
    requires
        !ends_with(s, git_suffix()),
    ensures
        normalized_url(s + git_suffix()) == normalized_url(s),
{
    let sep = scheme_separator();
    let g = git_suffix();
    let t = s + g;
    let n = s.len() as int;
    // The scheme is found at the same place, or nowhere, in both.
    let m1: int = match find_from(s, sep, 0) {
        Some(i) => i + 3,
        None => 0,
    };
    lemma_find_from(s, sep, 0);
    match find_from(s, sep, 0) {
        Some(i) => {
            assert(t.subrange(i, i + 3) =~= s.subrange(i, i + 3));
            assert forall|j: int| 0 <= j < i implies !occurs_at(t, sep, j) by {
                assert(!occurs_at(s, sep, j));
                assert(t.subrange(j, j + 3) =~= s.subrange(j, j + 3));
            }
            lemma_find_from_first(t, sep, 0, i);
            assert(strip_scheme(t) =~= s.skip(i + 3) + g);
        },
        None => {
            assert(!contains_seq(t, sep)) by {
                if contains_seq(t, sep) {
                    let j = choose|j: int| occurs_at(t, sep, j);
                    if j + 3 <= n {
                        assert(t.subrange(j, j + 3) =~= s.subrange(j, j + 3));
                        assert(occurs_at(s, sep, j));
                    } else {
                        assert(t.subrange(j, j + 3)[2] == '/');
                        assert(t[j + 2] == g[j + 2 - n]);
                    }
                }
            }
            lemma_find_from_absent(t, sep);
            assert(strip_scheme(t) == t);
            assert(s.skip(0) =~= s);
        },
    }
    let a = s.skip(m1);
    assert(strip_scheme(s) == a);
    assert(strip_scheme(t) =~= a + g);
    // The user part is stripped alike.
    let user = git_user();
    let m2: int = if starts_with(a, user) { m1 + 4 } else { m1 };
    if a.len() >= 4 {
        assert((a + g).take(4) =~= a.take(4));
    } else {
        assert((a + g)[3] != '@');
        assert(!starts_with(a + g, user)) by {
            if starts_with(a + g, user) {
                assert((a + g).take(4)[3] == '@');
            }
        }
    }
    let b = s.skip(m2);
    assert(strip_git_user(a) =~= b);
    assert(strip_git_user(a + g) =~= b + g);
    // Colons become slashes alike, and `.git` has none.
    let c = colons_to_slashes(b);
    assert(colons_to_slashes(b + g) =~= c + g);
    assert(ends_with(c + g, g)) by {
        assert((c + g).skip((c + g).len() - 4) =~= g);
    }
    assert(strip_git_suffix(c + g) =~= c);
    // `c` cannot end with `.git`, since `s` does not.
    assert(!ends_with(c, g)) by {
        if ends_with(c, g) {
            let cl = c.len() as int;
            assert forall|q: int| 0 <= q < 4 implies s[n - 4 + q] == g[q] by {
                assert(c.skip(cl - 4)[q] == g[q]);
                assert(c[cl - 4 + q] == g[q]);
                assert(b[cl - 4 + q] == s[m2 + cl - 4 + q]);
            }
            assert(s.skip(n - 4) =~= g);
        }
    }
    assert(strip_git_suffix(c) == c);
}

/// Replaces every `:` by `/`.
fn replace_colons(v: &Vec<char>) -> (res: Vec<char>)
    ensures
        res@ == colons_to_slashes(v@),
{
    let mut res: Vec<char> = Vec::new();
    for i in 0..v.len()
        invariant
            res@ == colons_to_slashes(v@.take(i as int)),
    {
        let c = v[i];
        res.push(if c == ':' { '/' } else { c });
        assert(colons_to_slashes(v@.take(i + 1)) =~= colons_to_slashes(v@.take(i as int)).push(
            if c == ':' { '/' } else { c },
        ));
    }
    assert(v@.take(v@.len() as int) =~= v@);
    res
}

/// Shortens every run of `/` to a single `/`.
fn collapse(v: &Vec<char>) -> (res: Vec<char>)
    ensures
        res@ == collapse_slashes(v@),
{
    let mut res: Vec<char> = Vec::new();
    for i in 0..v.len()
        invariant
            res@ == collapse_slashes(v@.take(i as int)),
    {
        let c = v[i];
        assert(v@.take(i + 1).drop_last() =~= v@.take(i as int));
        if !(c == '/' && i >= 1 && v[i - 1] == '/') {
            res.push(c);
        }
    }
    assert(v@.take(v@.len() as int) =~= v@);
    res
}

/// The normal form of a repository URL: what follows the first `://`,
/// without a leading `git@`, with `:` turned into `/`, without a trailing
/// `.git`, and with runs of `/` shortened to one.  It never fails.
pub fn normalize_url(url: &str) -> (res: Result<String, PkgError>)
    ensures
        res is Ok,
        res matches Ok(n) ==> n@ == normalized_url(url@),
        res matches Ok(n) ==> !n@.contains(':') && !has_double_slash(n@),
{
    let v = chars_of(url);
    let n = v.len();
    let sep: Vec<char> = vec![':', '/', '/'];
    assert(sep@ == scheme_separator());
    let v1 = match find_seq(&v, &sep) {
        Some(i) => {
            proof {
                lemma_find_from(v@, sep@, 0);
                assert(occurs_at(v@, sep@, i as int));
                assert(sep@.len() == 3);
                assert(i + 3 <= v@.len());
            }
            slice_chars(&v, i + 3, n)
        },
        None => v,
    };
    assert(v1@ == strip_scheme(url@));
    let user: Vec<char> = vec!['g', 'i', 't', '@'];
    assert(user@ == git_user());
    let v2 = if starts_with_chars(&v1, &user) {
        slice_chars(&v1, 4, v1.len())
    } else {
        v1
    };
    assert(v2@ == strip_git_user(strip_scheme(url@)));
    let v3 = replace_colons(&v2);
    let suffix: Vec<char> = vec!['.', 'g', 'i', 't'];
    assert(suffix@ == git_suffix());
    let v4 = if ends_with_chars(&v3, &suffix) {
        slice_chars(&v3, 0, v3.len() - 4)
    } else {
        v3
    };
    assert(v4@ == strip_git_suffix(colons_to_slashes(strip_git_user(strip_scheme(url@)))));
    let v5 = collapse(&v4);
    proof {
        lemma_collapse_slashes(v4@);
        if v5@.contains(':') {
            assert(v4@.contains(':'));
            let k = choose|k: int| 0 <= k < v4@.len() && v4@[k] == ':';
            if ends_with(v3@, git_suffix()) {
                assert(v3@[k] == ':');
            }
            assert(v3@[k] == ':');
        }
    }
    Ok(string_from_chars(&v5))
}

} // verus!

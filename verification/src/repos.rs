//! The repositories fetched so far, keyed by the digest of their
//! normalized URL, and how a user's text picks one of them.

use vstd::prelude::*;
use vstd::utf8::encode_utf8;
use crate::digest::{hash_string, hex_lower, sha256};
use crate::error::PkgError;
use crate::package::strings_view;
use crate::registry::{Registry, names_of};
use crate::text::{chars_of, contains_chars, contains_seq, starts_with, starts_with_chars, str_eq};
use crate::url::{normalize_url, normalized_url};

verus! {

/// What a repository record says, as plain values.
#[verifier::ext_equal]
pub struct RepoInfoView {
    pub url: Seq<char>,
    pub last_commit: Option<Seq<char>>,
    pub fetched_at: u128,
    pub binaries: Seq<Seq<char>>,
}

/// A fetched repository: the URL it was cloned from, the commit its
/// checkout was at when last built (if it had one), when it was fetched
/// (milliseconds since the Unix epoch), and the file names of the binaries
/// its build produced.
#[derive(Clone, Debug)]
pub struct RepoInfo {
    pub url: String,
    pub last_commit: Option<String>,
    pub fetched_at: u128,
    pub binaries: Vec<String>,
}

/// The view of an optional string.
pub open spec fn opt_view(o: Option<String>) -> Option<Seq<char>> {
    match o {
        Some(s) => Some(s@),
        None => None,
    }
}

impl View for RepoInfo {
    type V = RepoInfoView;

    open spec fn view(&self) -> RepoInfoView {
        RepoInfoView {
            url: self.url@,
            last_commit: opt_view(self.last_commit),
            fetched_at: self.fetched_at,
            binaries: strings_view(self.binaries@),
        }
    }
}

impl RepoInfo {
    /// Whether the checkout's commit differs from the one recorded at the
    /// last build.
    pub fn is_outdated(&self, head: &Option<String>) -> (res: bool)
        ensures
            res == (opt_view(self.last_commit) != opt_view(*head)),
    {
        match (&self.last_commit, head) {
            (Some(a), Some(b)) => !str_eq(a.as_str(), b.as_str()),
            (None, None) => false,
            _ => true,
        }
    }
}

/// The key of the repository at `url`: the hex SHA-256 of its normal form.
pub open spec fn url_key(url: Seq<char>) -> Seq<char> {
    hex_lower(sha256(encode_utf8(normalized_url(url))))
}

/// The key under which the repository at `url` is stored.
pub fn repo_key(url: &str) -> (res: String)
    ensures
        res@ == url_key(url@),
{
    match normalize_url(url) {
        Ok(normalized) => hash_string(normalized.as_str()),
        Err(_) => {
            assert(false);
            String::new()
        },
    }
}

/// The text reads as a repository URL: it holds `://`, `git@` or
/// `github.com`.
pub open spec fn looks_like_url(s: Seq<char>) -> bool {
    ||| contains_seq(s, seq![':', '/', '/'])
    ||| contains_seq(s, seq!['g', 'i', 't', '@'])
    ||| contains_seq(s, seq!['g', 'i', 't', 'h', 'u', 'b', '.', 'c', 'o', 'm'])
}

/// The first position at or after `i` whose repository built a binary
/// named `name`.
pub open spec fn binary_owner_from(entries: Seq<(Seq<char>, RepoInfo)>, name: Seq<char>, i: int) -> Option<int>
    decreases entries.len() - i,
{
    if i < 0 || i >= entries.len() {
        None
    } else if entries[i].1@.binaries.contains(name) {
        Some(i)
    } else {
        binary_owner_from(entries, name, i + 1)
    }
}

/// The keys that begin with `prefix`, in table order.
pub open spec fn prefix_matches(keys: Seq<Seq<char>>, prefix: Seq<char>) -> Seq<Seq<char>>
    decreases keys.len(),
{
    if keys.len() == 0 {
        Seq::empty()
    } else {
        let rest = prefix_matches(keys.drop_last(), prefix);
        if starts_with(keys.last(), prefix) {
            rest.push(keys.last())
        } else {
            rest
        }
    }
}

/// Which repository `input` picks: the one keyed by its normal form when it
/// reads as a URL and that key is stored; else the first repository that
/// built a binary named `input`; else the one key that begins with
/// `input`.  No repository when no key begins with it, and an error
/// (`Err(())`) when several do.
pub open spec fn resolution(db: &Registry<RepoInfo>, input: Seq<char>) -> Result<Option<Seq<char>>, ()> {
    if looks_like_url(input) && db.has(url_key(input)) {
        Ok(Some(url_key(input)))
    } else {
        match binary_owner_from(db@, input, 0) {
            Some(i) => Ok(Some(db@[i].0)),
            None => {
                let m = prefix_matches(names_of(db@), input);
                if m.len() == 1 {
                    Ok(Some(m[0]))
                } else if m.len() > 1 {
                    Err(())
                } else {
                    Ok(None)
                }
            },
        }
    }
}

/// Every prefix match is a key of the table.
pub proof fn lemma_prefix_matches_are_keys(keys: Seq<Seq<char>>, prefix: Seq<char>)
    ensures
        forall|k: int|
            0 <= k < prefix_matches(keys, prefix).len() ==> keys.contains(
                #[trigger] prefix_matches(keys, prefix)[k],
            ),
    decreases keys.len(),
{
    if keys.len() > 0 {
        lemma_prefix_matches_are_keys(keys.drop_last(), prefix);
        let rest = prefix_matches(keys.drop_last(), prefix);
        assert forall|k: int|
            0 <= k < prefix_matches(keys, prefix).len() implies keys.contains(
            #[trigger] prefix_matches(keys, prefix)[k],
        ) by {
            if k < rest.len() {
                assert(keys.drop_last().contains(rest[k]));
                let j = choose|j: int| 0 <= j < keys.drop_last().len() && keys.drop_last()[j] == rest[k];
                assert(keys[j] == rest[k]);
            } else {
                assert(keys[keys.len() - 1] == keys.last());
            }
        }
    }
}

/// A resolved package is a key of the table.
pub proof fn lemma_resolution_is_key(db: &Registry<RepoInfo>, input: Seq<char>)
    ensures
        resolution(db, input) matches Ok(Some(h)) ==> db.has(h),
{
    if !(looks_like_url(input) && db.has(url_key(input))) {
        lemma_binary_owner_from(db@, input, 0);
        match binary_owner_from(db@, input, 0) {
            Some(i) => {
                assert(names_of(db@)[i] == db@[i].0);
            },
            None => {
                lemma_prefix_matches_are_keys(names_of(db@), input);
            },
        }
    }
}

/// A repository stored under the key of its URL is what that URL, in any
/// spelling with the same normal form, resolves to.
pub proof fn lemma_resolve_by_url(db: &Registry<RepoInfo>, stored_url: Seq<char>, url: Seq<char>)
    requires
        db.has(url_key(stored_url)),
        normalized_url(url) == normalized_url(stored_url),
        looks_like_url(url),
    ensures
        resolution(db, url) == Ok::<Option<Seq<char>>, ()>(Some(url_key(stored_url))),
{
}

/// A text that holds `://`, `git@` or `github.com`, and whose normal form's
/// digest is a stored key, resolves to that key, whatever binaries or key
/// prefixes it also matches.
pub proof fn lemma_resolve_url_text(db: &Registry<RepoInfo>, input: Seq<char>)
    ensures
        (contains_seq(input, seq![':', '/', '/']) || contains_seq(input, seq!['g', 'i', 't', '@'])
            || contains_seq(input, seq!['g', 'i', 't', 'h', 'u', 'b', '.', 'c', 'o', 'm']))
            && db.has(url_key(input)) ==> resolution(db, input) == Ok::<Option<Seq<char>>, ()>(
            Some(url_key(input)),
        ),
{
}

/// What `binary_owner_from` finds is the first repository from `i` on
/// with such a binary.
pub proof fn lemma_binary_owner_from(entries: Seq<(Seq<char>, RepoInfo)>, name: Seq<char>, i: int)
    requires
        0 <= i,
    ensures
        binary_owner_from(entries, name, i) matches Some(k) ==> i <= k < entries.len()
            && entries[k].1@.binaries.contains(name),
    decreases entries.len() - i,
{
    if i < entries.len() && !entries[i].1@.binaries.contains(name) {
        lemma_binary_owner_from(entries, name, i + 1);
    }
}

/// Whether one of `names` is `name`.
fn contains_name(names: &Vec<String>, name: &str) -> (res: bool)
    ensures
        res == strings_view(names@).contains(name@),
{
    for i in 0..names.len()
        invariant
            forall|j: int| 0 <= j < i ==> names@[j]@ != name@,
    {
        if str_eq(names[i].as_str(), name) {
            assert(strings_view(names@)[i as int] == name@);
            return true;
        }
    }
    proof {
        if strings_view(names@).contains(name@) {
            let j = choose|j: int| 0 <= j < strings_view(names@).len() && strings_view(names@)[j]
                == name@;
            assert(names@[j]@ == name@);
        }
    }
    false
}

/// Which repository `input` names: a repository URL (in any spelling that
/// normalizes to a stored key), the file name of a binary a repository
/// built, or a prefix of a repository key.  `None` when nothing matches;
/// an error when several keys begin with `input`.
#[verifier::loop_isolation(false)]
pub fn resolve_package(input: &str, repo_infos: &Registry<RepoInfo>) -> (res: Result<Option<String>, PkgError>)
    requires
        repo_infos.wf(),
    ensures
        match resolution(repo_infos, input@) {
            Ok(Some(h)) => res matches Ok(Some(r)) && r@ == h && repo_infos.has(h),
            Ok(None) => res matches Ok(None),
            Err(()) => res matches Err(PkgError::AmbiguousPackage { input: i }) && i@ == input@,
        },
        (contains_seq(input@, seq![':', '/', '/']) || contains_seq(input@, seq!['g', 'i', 't', '@'])
            || contains_seq(input@, seq!['g', 'i', 't', 'h', 'u', 'b', '.', 'c', 'o', 'm']))
            && repo_infos.has(url_key(input@)) ==> (res matches Ok(Some(r)) && r@ == url_key(input@)),
{
    proof {
        lemma_resolution_is_key(repo_infos, input@);
        lemma_resolve_url_text(repo_infos, input@);
    }
    let iv = chars_of(input);
    let scheme: Vec<char> = vec![':', '/', '/'];
    let user: Vec<char> = vec!['g', 'i', 't', '@'];
    let host: Vec<char> = vec!['g', 'i', 't', 'h', 'u', 'b', '.', 'c', 'o', 'm'];
    assert(scheme@ == seq![':', '/', '/']);
    assert(user@ == seq!['g', 'i', 't', '@']);
    assert(host@ == seq!['g', 'i', 't', 'h', 'u', 'b', '.', 'c', 'o', 'm']);
    if contains_chars(&iv, &scheme) || contains_chars(&iv, &user) || contains_chars(&iv, &host) {
        let key = repo_key(input);
        if repo_infos.contains_key(key.as_str()) {
            return Ok(Some(key));
        }
    }
    assert(!(looks_like_url(input@) && repo_infos.has(url_key(input@))));
    let n = repo_infos.len();
    for i in 0..n
        invariant
            n == repo_infos@.len(),
            repo_infos.wf(),
            !(looks_like_url(input@) && repo_infos.has(url_key(input@))),
            binary_owner_from(repo_infos@, input@, 0) == binary_owner_from(
                repo_infos@,
                input@,
                i as int,
            ),
    {
        if contains_name(&repo_infos.value_at(i).binaries, input) {
            assert(repo_infos@[i as int].1@.binaries.contains(input@));
            assert(binary_owner_from(repo_infos@, input@, i as int) == Some(i as int));
            return Ok(Some(repo_infos.name_at(i).clone()));
        }
    }
    let mut matches: Vec<String> = Vec::new();
    for i in 0..n
        invariant
            n == repo_infos@.len(),
            strings_view(matches@) == prefix_matches(names_of(repo_infos@).take(i as int), input@),
    {
        let key = repo_infos.name_at(i);
        let kv = chars_of(key.as_str());
        let ghost keys = names_of(repo_infos@);
        assert(keys.take(i + 1).drop_last() =~= keys.take(i as int));
        assert(keys.take(i + 1).last() == key@);
        let ghost before = strings_view(matches@);
        assert(prefix_matches(keys.take(i + 1), input@) == if starts_with(key@, input@) {
            prefix_matches(keys.take(i as int), input@).push(key@)
        } else {
            prefix_matches(keys.take(i as int), input@)
        });
        if starts_with_chars(&kv, &iv) {
            matches.push(key.clone());
            assert(strings_view(matches@) =~= before.push(key@));
        } else {
            assert(strings_view(matches@) =~= before);
        }
        assert(strings_view(matches@) == prefix_matches(keys.take(i + 1), input@));
    }
    assert(names_of(repo_infos@).take(n as int) =~= names_of(repo_infos@));
    if matches.len() == 1 {
        assert(strings_view(matches@)[0] == matches@[0]@);
        return Ok(Some(matches[0].clone()));
    } else if matches.len() > 1 {
        return Err(PkgError::AmbiguousPackage { input: input.to_owned() });
    }
    Ok(None)
}


/// The record `r` after a rebuild: at commit `head`, with the binaries
/// `binaries`, fetched at `fetched_at` when that is given.
pub open spec fn rebuilt(
    r: RepoInfoView,
    head: Option<Seq<char>>,
    binaries: Seq<Seq<char>>,
    fetched_at: Option<u128>,
) -> RepoInfoView {
    RepoInfoView {
        url: r.url,
        last_commit: head,
        fetched_at: match fetched_at {
            Some(t) => t,
            None => r.fetched_at,
        },
        binaries: binaries,
    }
}

impl Registry<RepoInfo> {
    /// Records a rebuild of the repository `hash`: the commit its checkout
    /// is at, the file names of the binaries the build produced, and, when
    /// given, the time it was fetched.  Reports whether there is such a
    /// repository; the table is left as it was when there is not.
    pub fn record_build(
        &mut self,
        hash: &str,
        head: Option<String>,
        binaries: Vec<String>,
        fetched_at: Option<u128>,
    ) -> (found: bool)
        requires
            old(self).wf(),
        ensures
            final(self).wf(),
            found == old(self).has(hash@),
            !found ==> final(self)@ == old(self)@,
            found ==> final(self).as_map().dom() == old(self).as_map().dom(),
            found ==> final(self).as_map().remove(hash@) == old(self).as_map().remove(hash@),
            found ==> final(self).value_of(hash@)@ == rebuilt(
                old(self).value_of(hash@)@,
                opt_view(head),
                strings_view(binaries@),
                fetched_at,
            ),
    {
        let ghost before = *self;
        let mut r = match self.remove(hash) {
            Some(r) => r,
            None => {
                return false;
            },
        };
        let ghost removed = r;
        r.last_commit = head;
        r.binaries = binaries;
        match fetched_at {
            Some(t) => {
                r.fetched_at = t;
            },
            None => {},
        }
        let key = hash.to_owned();
        self.insert(key, r);
        proof {
            assert(self.as_map() == before.as_map().remove(hash@).insert(hash@, r));
            assert(self.as_map().dom() =~= before.as_map().dom());
            assert(self.as_map().remove(hash@) =~= before.as_map().remove(hash@));
            assert(self.as_map()[hash@] == r);
            assert(r@ =~= rebuilt(removed@, opt_view(head), strings_view(binaries@), fetched_at));
        }
        true
    }
}

} // verus!

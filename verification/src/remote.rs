//! Which commit a git reference of a remote stands for, from the list of
//! references the remote advertises.

use vstd::prelude::*;
use crate::error::PkgError;
use crate::text::{chars_of, ends_with, ends_with_chars, slice_chars, starts_with, starts_with_chars, str_eq_lit, string_from_chars};

verus! {

/// A reference a remote advertises: its full name (such as
/// `refs/heads/main` or `HEAD`), the hexadecimal id of the object it
/// points to, and, for a symbolic reference, the name of its target.
#[derive(Clone, Debug)]
pub struct RemoteHead {
    pub name: String,
    pub oid: String,
    pub symref_target: Option<String>,
}

/// What to do with a requested reference.
#[derive(Debug)]
pub enum RefChoice {
    /// The reference points to the object with this hexadecimal id.
    Found { oid: String },
    /// The reference is the remote's `HEAD`, a symbolic reference to this
    /// branch; the branch is to be looked up instead.
    Follow { branch: String },
}

/// The outcome of a lookup, as plain values.
pub enum Selection {
    Found(Seq<char>),
    Follow(Seq<char>),
    HeadNotSymbolic,
    NotFound,
}

/// `HEAD`.
pub open spec fn head_ref() -> Seq<char> {
    seq!['H', 'E', 'A', 'D']
}

/// `refs/heads/`, the prefix of branch references.
pub open spec fn branch_prefix() -> Seq<char> {
    seq!['r', 'e', 'f', 's', '/', 'h', 'e', 'a', 'd', 's', '/']
}

/// `s` with every leading repetition of `prefix` removed (what
/// `str::trim_start_matches` does with a non-empty pattern).
pub open spec fn trim_prefixes(s: Seq<char>, prefix: Seq<char>) -> Seq<char>
    decreases s.len(),
{
    if prefix.len() > 0 && starts_with(s, prefix) {
        trim_prefixes(s.skip(prefix.len() as int), prefix)
    } else {
        s
    }
}

/// The first advertised reference at or after `i` named exactly `name`.
pub open spec fn first_named(heads: Seq<RemoteHead>, name: Seq<char>, i: int) -> Option<int>
    decreases heads.len() - i,
{
    if i < 0 || i >= heads.len() {
        None
    } else if heads[i].name@ == name {
        Some(i)
    } else {
        first_named(heads, name, i + 1)
    }
}

/// The first advertised reference at or after `i` whose name ends with
/// `suffix`.
pub open spec fn first_ending_with(heads: Seq<RemoteHead>, suffix: Seq<char>, i: int) -> Option<int>
    decreases heads.len() - i,
{
    if i < 0 || i >= heads.len() {
        None
    } else if ends_with(heads[i].name@, suffix) {
        Some(i)
    } else {
        first_ending_with(heads, suffix, i + 1)
    }
}

/// What a request for `reference` comes to.  For `HEAD`, when the remote
/// advertises a reference named `HEAD`: the branch its target names
/// (without leading `refs/heads/`), or a failure when it is not symbolic.
/// Otherwise: the object of the first advertised reference whose name ends
/// with `reference`, or a failure when there is none.
pub open spec fn selection(heads: Seq<RemoteHead>, reference: Seq<char>) -> Selection {
    let head = first_named(heads, head_ref(), 0);
    if reference == head_ref() && head is Some {
        match heads[head->0].symref_target {
            Some(t) => Selection::Follow(trim_prefixes(t@, branch_prefix())),
            None => Selection::HeadNotSymbolic,
        }
    } else {
        match first_ending_with(heads, reference, 0) {
            Some(i) => Selection::Found(heads[i].oid@),
            None => Selection::NotFound,
        }
    }
}

/// The search for a name finds its first occurrence from `i` on, or tells
/// that there is none.
proof fn lemma_first_named(heads: Seq<RemoteHead>, name: Seq<char>, i: int)
    requires
        0 <= i,
    ensures
        first_named(heads, name, i) is None <==> forall|j: int|
            i <= j < heads.len() ==> #[trigger] heads[j].name@ != name,
    decreases heads.len() - i,
{
    if i < heads.len() {
        lemma_first_named(heads, name, i + 1);
    }
}

/// The search for a suffix finds the first reference from `i` on whose
/// name ends with it, or tells that there is none.
proof fn lemma_first_ending_with(heads: Seq<RemoteHead>, suffix: Seq<char>, i: int)
    requires
        0 <= i,
    ensures
        first_ending_with(heads, suffix, i) matches Some(k) ==> {
            &&& i <= k < heads.len()
            &&& heads[k].name@.len() >= suffix.len()
            &&& heads[k].name@.skip(heads[k].name@.len() - suffix.len()) == suffix
            &&& forall|j: int|
                i <= j < k ==> !(#[trigger] heads[j].name@.len() >= suffix.len() && heads[j].name@.skip(
                    heads[j].name@.len() - suffix.len(),
                ) == suffix)
        },
        first_ending_with(heads, suffix, i) is None ==> forall|j: int|
            i <= j < heads.len() ==> !(#[trigger] heads[j].name@.len() >= suffix.len() && heads[j].name@.skip(
                heads[j].name@.len() - suffix.len(),
            ) == suffix),
    decreases heads.len() - i,
{
    if i < heads.len() {
        lemma_first_ending_with(heads, suffix, i + 1);
    }
}

/// A request other than for an advertised `HEAD` stands for the object of
/// the first advertised reference whose name ends with the requested text;
/// a name that holds the text anywhere but at its end is never chosen, and
/// when no name ends with it the reference is not found.
pub proof fn lemma_selection_by_suffix(heads: Seq<RemoteHead>, reference: Seq<char>)
    requires
        reference != head_ref() || forall|i: int|
            0 <= i < heads.len() ==> #[trigger] heads[i].name@ != head_ref(),
    ensures
        selection(heads, reference) matches Selection::Found(oid) ==> exists|i: int|
            {
                &&& 0 <= i < heads.len()
                &&& heads[i].name@.len() >= reference.len()
                &&& heads[i].name@.skip(heads[i].name@.len() - reference.len()) == reference
                &&& oid == heads[i].oid@
                &&& forall|j: int|
                    0 <= j < i ==> !(#[trigger] heads[j].name@.len() >= reference.len()
                        && heads[j].name@.skip(heads[j].name@.len() - reference.len()) == reference)
            },
        selection(heads, reference) is Found || selection(heads, reference) is NotFound,
        selection(heads, reference) is NotFound <==> forall|i: int|
            0 <= i < heads.len() ==> !(#[trigger] heads[i].name@.len() >= reference.len()
                && heads[i].name@.skip(heads[i].name@.len() - reference.len()) == reference),
{
    lemma_first_named(heads, head_ref(), 0);
    lemma_first_ending_with(heads, reference, 0);
    match first_ending_with(heads, reference, 0) {
        Some(k) => {
            assert(heads[k].name@.len() >= reference.len());
        },
        None => {},
    }
}

/// `s` with every leading repetition of `prefix` removed.
fn trim_start(s: &Vec<char>, prefix: &Vec<char>) -> (res: Vec<char>)
    requires
        prefix@.len() > 0,
    ensures
        res@ == trim_prefixes(s@, prefix@),
{
    let mut cur = slice_chars(s, 0, s.len());
    assert(cur@ =~= s@);
    while starts_with_chars(&cur, prefix)
        invariant
            prefix@.len() > 0,
            trim_prefixes(cur@, prefix@) == trim_prefixes(s@, prefix@),
        decreases cur@.len(),
    {
        cur = slice_chars(&cur, prefix.len(), cur.len());
    }
    cur
}

/// Which object `reference` stands for among the references a remote
/// advertises, or which branch to look up instead when `reference` is
/// `HEAD` and the remote's `HEAD` is symbolic.
#[verifier::loop_isolation(false)]
pub fn select_remote_ref(heads: &Vec<RemoteHead>, reference: &str) -> (res: Result<RefChoice, PkgError>)
    ensures
        match selection(heads@, reference@) {
            Selection::Found(oid) => res matches Ok(RefChoice::Found { oid: o }) && o@ == oid,
            Selection::Follow(branch) => res matches Ok(RefChoice::Follow { branch: b }) && b@
                == branch,
            Selection::HeadNotSymbolic => res matches Err(PkgError::HeadNotSymbolic),
            Selection::NotFound => res matches Err(PkgError::RefNotFound { reference: r }) && r@
                == reference@,
        },
        (reference@ != head_ref() || (forall|i: int|
            0 <= i < heads@.len() ==> #[trigger] heads@[i].name@ != head_ref())) ==> {
            &&& res matches Ok(RefChoice::Found { oid: o }) ==> exists|i: int|
                {
                    &&& 0 <= i < heads@.len()
                    &&& heads@[i].name@.len() >= reference@.len()
                    &&& heads@[i].name@.skip(heads@[i].name@.len() - reference@.len()) == reference@
                    &&& o@ == heads@[i].oid@
                    &&& forall|j: int|
                        0 <= j < i ==> !(#[trigger] heads@[j].name@.len() >= reference@.len()
                            && heads@[j].name@.skip(heads@[j].name@.len() - reference@.len())
                            == reference@)
                }
            &&& !(res matches Ok(RefChoice::Follow { .. }))
            &&& (res is Err <==> forall|i: int|
                0 <= i < heads@.len() ==> !(#[trigger] heads@[i].name@.len() >= reference@.len()
                    && heads@[i].name@.skip(heads@[i].name@.len() - reference@.len())
                    == reference@))
        },
{
    proof {
        if reference@ != head_ref() || (forall|i: int|
            0 <= i < heads@.len() ==> #[trigger] heads@[i].name@ != head_ref()) {
            lemma_selection_by_suffix(heads@, reference@);
        }
    }
    let head: Vec<char> = vec!['H', 'E', 'A', 'D'];
    assert(head@ == head_ref());
    let n = heads.len();
    if str_eq_lit(reference, &head) {
        for i in 0..n
            invariant
                n == heads@.len(),
                head@ == head_ref(),
                first_named(heads@, head_ref(), 0) == first_named(heads@, head_ref(), i as int),
        {
            if str_eq_lit(heads[i].name.as_str(), &head) {
                match &heads[i].symref_target {
                    Some(t) => {
                        let prefix: Vec<char> = vec!['r', 'e', 'f', 's', '/', 'h', 'e', 'a', 'd', 's', '/'];
                        assert(prefix@ == branch_prefix());
                        let trimmed = trim_start(&chars_of(t.as_str()), &prefix);
                        return Ok(RefChoice::Follow { branch: string_from_chars(&trimmed) });
                    },
                    None => {
                        return Err(PkgError::HeadNotSymbolic);
                    },
                }
            }
        }
    }
    let rv = chars_of(reference);
    for i in 0..n
        invariant
            n == heads@.len(),
            rv@ == reference@,
            first_ending_with(heads@, reference@, 0) == first_ending_with(heads@, reference@, i as int),
    {
        let nv = chars_of(heads[i].name.as_str());
        if ends_with_chars(&nv, &rv) {
            return Ok(RefChoice::Found { oid: heads[i].oid.clone() });
        }
    }
    Err(PkgError::RefNotFound { reference: reference.to_owned() })
}

} // verus!

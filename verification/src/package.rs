//! The record the manager keeps for each package a user asked for.

use vstd::prelude::*;
use crate::commit::{canonical_commit, canonical_oid, is_canonical_oid, lemma_canonical_oid_fixed, oid_text_ok};
use crate::error::PkgError;
use crate::registry::{Registry, names_of};
use crate::text::str_eq;

verus! {

/// What a package record says, as plain values.
#[verifier::ext_equal]
pub struct PackageView {
    pub url: Seq<char>,
    pub commit: Seq<char>,
    pub synced_at: u128,
    pub install_script: Seq<char>,
    pub install_hash: Seq<char>,
    pub uninstall_script: Seq<char>,
    pub uninstall_hash: Seq<char>,
    pub dependencies: Seq<Seq<char>>,
}

/// A package: where it comes from, the commit it is pinned to, when that
/// commit was last synced (milliseconds since the Unix epoch), its install
/// and uninstall scripts with their digests, and the names of the packages
/// it depends on.
#[derive(Clone, Debug)]
pub struct Package {
    pub url: String,
    pub commit: String,
    pub synced_at: u128,
    pub install_script: String,
    pub install_hash: String,
    pub uninstall_script: String,
    pub uninstall_hash: String,
    pub dependencies: Vec<String>,
}

/// The views of a list of strings.
pub open spec fn strings_view(v: Seq<String>) -> Seq<Seq<char>> {
    v.map_values(|s: String| s@)
}

impl View for Package {
    type V = PackageView;

    open spec fn view(&self) -> PackageView {
        PackageView {
            url: self.url@,
            commit: self.commit@,
            synced_at: self.synced_at,
            install_script: self.install_script@,
            install_hash: self.install_hash@,
            uninstall_script: self.uninstall_script@,
            uninstall_hash: self.uninstall_hash@,
            dependencies: strings_view(self.dependencies@),
        }
    }
}

/// Whether two lists of strings hold the same strings in the same order.
pub fn strings_eq(a: &Vec<String>, b: &Vec<String>) -> (res: bool)
    ensures
        res == (strings_view(a@) == strings_view(b@)),
{
    if a.len() != b.len() {
        assert(strings_view(a@).len() != strings_view(b@).len());
        return false;
    }
    for i in 0..a.len()
        invariant
            a.len() == b.len(),
            forall|j: int| 0 <= j < i ==> a@[j]@ == b@[j]@,
    {
        if a[i] != b[i] {
            assert(strings_view(a@)[i as int] != strings_view(b@)[i as int]);
            return false;
        }
    }
    assert(strings_view(a@) =~= strings_view(b@));
    true
}

/// Whether `std::path::Path` takes the two texts for the same path: equal
/// component by component (so `a//b.sh`, `a/./b.sh` and `a/b.sh` are one
/// path).
pub uninterp spec fn same_path(a: Seq<char>, b: Seq<char>) -> bool;

/// `PartialEq` of `std::path::Path` on two paths given as text: compares
/// their components.  Path equality is an equivalence, so equal texts are
/// the same path.
#[verifier::external_body]
fn path_eq(a: &str, b: &str) -> (res: bool)
    ensures
        res == same_path(a@, b@),
        a@ == b@ ==> res,
{
    std::path::Path::new(a) == std::path::Path::new(b)
}

/// The two texts name the same script path.
pub open spec fn same_script_path(a: Seq<char>, b: Seq<char>) -> bool {
    a == b || same_path(a, b)
}

/// Two package records say the same thing: equal fields, with the script
/// paths compared as paths.
pub open spec fn same_record(p: PackageView, q: PackageView) -> bool {
    &&& p.url == q.url
    &&& p.commit == q.commit
    &&& p.synced_at == q.synced_at
    &&& same_script_path(p.install_script, q.install_script)
    &&& p.install_hash == q.install_hash
    &&& same_script_path(p.uninstall_script, q.uninstall_script)
    &&& p.uninstall_hash == q.uninstall_hash
    &&& p.dependencies == q.dependencies
}

impl Package {
    /// Whether the two records say the same thing, field by field, the
    /// script paths compared as paths.
    pub fn same_as(&self, other: &Package) -> (res: bool)
        ensures
            res == same_record(self@, other@),
    {
        self.url == other.url && self.commit == other.commit && self.synced_at == other.synced_at
            && path_eq(self.install_script.as_str(), other.install_script.as_str())
            && self.install_hash == other.install_hash && path_eq(
            self.uninstall_script.as_str(),
            other.uninstall_script.as_str(),
        ) && self.uninstall_hash == other.uninstall_hash && strings_eq(
            &self.dependencies,
            &other.dependencies,
        )
    }

    /// Whether the checkout's commit `head` (an id in canonical form)
    /// differs from the commit the package is pinned to.  Fails when the
    /// stored commit is not a commit id.
    pub fn pinned_commit_differs(&self, head: &str) -> (res: Result<bool, PkgError>)
        ensures
            res is Ok <==> oid_text_ok(self.commit@),
            res matches Ok(differs) ==> differs == (canonical_oid(self.commit@) != head@),
            res matches Err(e) ==> e matches PkgError::InvalidCommit { commit: c } && c@
                == self.commit@,
    {
        match canonical_commit(self.commit.as_str()) {
            Some(target) => Ok(!str_eq(target.as_str(), head)),
            None => Err(PkgError::InvalidCommit { commit: self.commit.clone() }),
        }
    }

    /// Whether the install script's recorded digest differs from
    /// `digest`, the digest of the script as it is now.
    pub fn install_script_changed(&self, digest: &str) -> (res: bool)
        ensures
            res == (self.install_hash@ != digest@),
    {
        !str_eq(self.install_hash.as_str(), digest)
    }

    /// Whether the uninstall script's recorded digest differs from
    /// `digest`, the digest of the script as it is now.
    pub fn uninstall_script_changed(&self, digest: &str) -> (res: bool)
        ensures
            res == (self.uninstall_hash@ != digest@),
    {
        !str_eq(self.uninstall_hash.as_str(), digest)
    }

}


/// The record `p` with its commit set to `commit`, synced at `synced_at`.
pub open spec fn with_commit(p: PackageView, commit: Seq<char>, synced_at: u128) -> PackageView {
    PackageView { commit: commit, synced_at: synced_at, ..p }
}

/// The names of `names` that are in `present`, each the first time it
/// occurs.
pub open spec fn first_present(names: Seq<Seq<char>>, present: Set<Seq<char>>) -> Seq<Seq<char>>
    decreases names.len(),
{
    if names.len() == 0 {
        Seq::empty()
    } else {
        let rest = first_present(names.drop_last(), present);
        if present.contains(names.last()) && !names.drop_last().contains(names.last()) {
            rest.push(names.last())
        } else {
            rest
        }
    }
}

/// The names of `names` that are not in `other`, in order.
pub open spec fn names_absent(names: Seq<Seq<char>>, other: Set<Seq<char>>) -> Seq<Seq<char>>
    decreases names.len(),
{
    if names.len() == 0 {
        Seq::empty()
    } else {
        let rest = names_absent(names.drop_last(), other);
        if !other.contains(names.last()) {
            rest.push(names.last())
        } else {
            rest
        }
    }
}

/// Every name `names_absent` keeps is one of `names` and not in `other`.
pub proof fn lemma_names_absent(names: Seq<Seq<char>>, other: Set<Seq<char>>)
    ensures
        forall|k: int|
            0 <= k < names_absent(names, other).len() ==> !other.contains(
                #[trigger] names_absent(names, other)[k],
            ) && names.contains(names_absent(names, other)[k]),
    decreases names.len(),
{
    if names.len() > 0 {
        lemma_names_absent(names.drop_last(), other);
        let rest = names_absent(names.drop_last(), other);
        assert forall|k: int| 0 <= k < names_absent(names, other).len() implies !other.contains(
            #[trigger] names_absent(names, other)[k],
        ) && names.contains(names_absent(names, other)[k]) by {
            if k < rest.len() {
                assert(names_absent(names, other)[k] == rest[k]);
                assert(names.drop_last().contains(rest[k]));
                let j = choose|j: int| 0 <= j < names.drop_last().len() && names.drop_last()[j] == rest[k];
                assert(names[j] == rest[k]);
            } else {
                assert(names[names.len() - 1] == names.last());
            }
        }
    }
}

/// `first_present` keeps nothing when no name is present.
proof fn lemma_first_present_none(names: Seq<Seq<char>>, present: Set<Seq<char>>)
    requires
        forall|k: int| 0 <= k < names.len() ==> !present.contains(#[trigger] names[k]),
    ensures
        first_present(names, present) == Seq::<Seq<char>>::empty(),
    decreases names.len(),
{
    if names.len() > 0 {
        assert(!present.contains(names[names.len() - 1]));
        lemma_first_present_none(names.drop_last(), present);
    }
}

/// Storing a record settles: after `store_if_changed(name, entry)` the
/// table holds a record saying what `entry` says under `name`, so storing
/// such a record again reports no change and leaves the table as it is.
pub proof fn lemma_store_if_changed_settles(
    before: Registry<Package>,
    after: Registry<Package>,
    name: Seq<char>,
    entry: Package,
    changed: bool,
)
    requires
        changed == !(before.has(name) && same_record(before.value_of(name)@, entry@)),
        changed ==> after.as_map() == before.as_map().insert(name, entry),
        !changed ==> after@ == before@,
    ensures
        after.has(name),
        same_record(after.value_of(name)@, entry@),
{
    if changed {
        assert(after.as_map().dom().contains(name));
        assert(after.as_map()[name] == entry);
    }
}

/// Removing names settles: after `remove_all(names)` none of the names is
/// left, so removing the same names again removes nothing.
pub proof fn lemma_remove_all_settles(
    before: Registry<Package>,
    after: Registry<Package>,
    names: Seq<Seq<char>>,
)
    requires
        after.as_map() == before.as_map().remove_keys(names.to_set()),
    ensures
        forall|k: int| 0 <= k < names.len() ==> !after.has(#[trigger] names[k]),
        first_present(names, after.as_map().dom()) == Seq::<Seq<char>>::empty(),
{
    assert forall|k: int| 0 <= k < names.len() implies !after.has(#[trigger] names[k]) by {
        assert(names.to_set().contains(names[k]));
        assert(!after.as_map().dom().contains(names[k]));
    }
    assert forall|k: int| 0 <= k < names.len() implies !after.as_map().dom().contains(
        #[trigger] names[k],
    ) by {
        assert(names.to_set().contains(names[k]));
    }
    lemma_first_present_none(names, after.as_map().dom());
}

/// Pinning settles: once `update_commit(name, latest, now)` has succeeded
/// with an id in canonical form, the stored commit names that very id, so
/// pinning to it again reports no change.
pub proof fn lemma_update_commit_settles(
    before: Registry<Package>,
    after: Registry<Package>,
    name: Seq<char>,
    latest: Seq<char>,
    now: u128,
    changed: bool,
)
    requires
        is_canonical_oid(latest),
        before.has(name),
        oid_text_ok(before.value_of(name)@.commit),
        changed == (canonical_oid(before.value_of(name)@.commit) != latest),
        !changed ==> after@ == before@,
        changed ==> after.as_map().dom() == before.as_map().dom(),
        changed ==> after.value_of(name)@ == with_commit(before.value_of(name)@, latest, now),
    ensures
        after.has(name),
        oid_text_ok(after.value_of(name)@.commit),
        canonical_oid(after.value_of(name)@.commit) == latest,
{
    if changed {
        assert(before.as_map().dom().contains(name));
        assert(after.as_map().dom().contains(name));
        lemma_canonical_oid_fixed(latest);
    }
}

/// Exactly the names of `names` that `other` lacks are kept: a name is in
/// the result when and only when it is one of `names` and not in `other`.
pub proof fn lemma_names_absent_exact(names: Seq<Seq<char>>, other: Set<Seq<char>>)
    ensures
        forall|n: Seq<char>|
            #[trigger] names_absent(names, other).contains(n) <==> (names.contains(n)
                && !other.contains(n)),
    decreases names.len(),
{
    lemma_names_absent(names, other);
    let out = names_absent(names, other);
    if names.len() > 0 {
        let d = names.drop_last();
        lemma_names_absent_exact(d, other);
        let rest = names_absent(d, other);
        assert forall|n: Seq<char>| out.contains(n) implies names.contains(n) && !other.contains(n) by {
            let k = choose|k: int| 0 <= k < out.len() && out[k] == n;
            assert(!other.contains(out[k]) && names.contains(out[k]));
        }
        assert forall|n: Seq<char>| names.contains(n) && !other.contains(n) implies out.contains(n) by {
            let j = choose|j: int| 0 <= j < names.len() && names[j] == n;
            if j == names.len() - 1 {
                assert(out == rest.push(n));
                assert(out[rest.len() as int] == n);
            } else {
                assert(d[j] == n);
                assert(d.contains(n));
                assert(rest.contains(n));
                let k = choose|k: int| 0 <= k < rest.len() && rest[k] == n;
                if !other.contains(names.last()) {
                    assert(out[k] == n);
                } else {
                    assert(out == rest);
                }
            }
        }
    }
}

impl Registry<Package> {
    /// Stores `entry` under `name` unless the table already holds a record
    /// saying the same; reports whether the table changed.
    pub fn store_if_changed(&mut self, name: String, entry: Package) -> (changed: bool)
        requires
            old(self).wf(),
        ensures
            final(self).wf(),
            changed == !(old(self).has(name@) && same_record(old(self).value_of(name@)@, entry@)),
            changed ==> final(self).as_map() == old(self).as_map().insert(name@, entry),
            !changed ==> final(self)@ == old(self)@,
    {
        let changed = match self.get(name.as_str()) {
            Some(current) => !current.same_as(&entry),
            None => true,
        };
        if changed {
            self.insert(name, entry);
        }
        changed
    }

    /// Pins the package `name` to the commit `latest` (an id in canonical
    /// form), synced at `now`, unless its stored commit names the same
    /// object; reports whether the record changed.  Fails when there is no
    /// such package, or when its stored commit is not a commit id.
    pub fn update_commit(&mut self, name: &str, latest: &str, now: u128) -> (res: Result<bool, PkgError>)
        requires
            old(self).wf(),
        ensures
            final(self).wf(),
            !old(self).has(name@) ==> (res matches Err(PkgError::NotFound { name: n }) && n@
                == name@),
            old(self).has(name@) && !oid_text_ok(old(self).value_of(name@)@.commit) ==> (res matches Err(
                PkgError::InvalidCommit { commit: c },
            ) && c@ == old(self).value_of(name@)@.commit),
            old(self).has(name@) && oid_text_ok(old(self).value_of(name@)@.commit) ==> res is Ok,
            res is Err ==> final(self)@ == old(self)@,
            res matches Ok(changed) ==> {
                &&& old(self).has(name@)
                &&& oid_text_ok(old(self).value_of(name@)@.commit)
                &&& changed == (canonical_oid(old(self).value_of(name@)@.commit) != latest@)
                &&& !changed ==> final(self)@ == old(self)@
                &&& changed ==> final(self).as_map().dom() == old(self).as_map().dom()
                &&& changed ==> final(self).as_map().remove(name@) == old(self).as_map().remove(
                    name@,
                )
                &&& changed ==> final(self).value_of(name@)@ == with_commit(
                    old(self).value_of(name@)@,
                    latest@,
                    now,
                )
            },
    {
        let current = match self.get(name) {
            Some(p) => match canonical_commit(p.commit.as_str()) {
                Some(c) => c,
                None => {
                    return Err(PkgError::InvalidCommit { commit: p.commit.clone() });
                },
            },
            None => {
                return Err(PkgError::NotFound { name: name.to_owned() });
            },
        };
        if str_eq(current.as_str(), latest) {
            return Ok(false);
        }
        let ghost before = *self;
        let mut p = match self.remove(name) {
            Some(p) => p,
            None => {
                assert(false);
                return Ok(false);
            },
        };
        let ghost removed = p;
        p.commit = latest.to_owned();
        p.synced_at = now;
        let key = name.to_owned();
        self.insert(key, p);
        proof {
            assert(self.as_map() == before.as_map().remove(name@).insert(name@, p));
            assert(self.as_map().dom() =~= before.as_map().dom());
            assert(self.as_map().remove(name@) =~= before.as_map().remove(name@));
            assert(self.as_map()[name@] == p);
            assert(self.value_of(name@) == p);
            assert(p@ =~= with_commit(removed@, latest@, now));
        }
        Ok(true)
    }

    /// Takes the packages named in `names` out of the table, and hands back
    /// the names of those that were there, in the order they were removed.
    pub fn remove_all(&mut self, names: &Vec<String>) -> (removed: Vec<String>)
        requires
            old(self).wf(),
        ensures
            final(self).wf(),
            final(self).as_map() == old(self).as_map().remove_keys(strings_view(names@).to_set()),
            strings_view(removed@) == first_present(strings_view(names@), old(self).as_map().dom()),
    {
        let ghost start = *self;
        let ghost nv = strings_view(names@);
        let mut removed: Vec<String> = Vec::new();
        for i in 0..names.len()
            invariant
                self.wf(),
                nv == strings_view(names@),
                self.as_map() == start.as_map().remove_keys(nv.take(i as int).to_set()),
                strings_view(removed@) == first_present(nv.take(i as int), start.as_map().dom()),
        {
            let ghost before = *self;
            let n = &names[i];
            assert(nv.take(i + 1).drop_last() =~= nv.take(i as int));
            assert(nv.take(i + 1).last() == n@);
            let ghost present = before.has(n@);
            assert(present == (start.as_map().dom().contains(n@) && !nv.take(i as int).contains(n@)))
                by {
                assert(before.as_map().dom().contains(n@) == before.has(n@));
                if nv.take(i as int).contains(n@) {
                    assert(nv.take(i as int).to_set().contains(n@));
                }
                if !nv.take(i as int).contains(n@) {
                    assert(!nv.take(i as int).to_set().contains(n@));
                }
            }
            let ghost rv = strings_view(removed@);
            if self.remove(n.as_str()).is_some() {
                removed.push(n.clone());
                assert(strings_view(removed@) =~= rv.push(n@));
            } else {
                assert(strings_view(removed@) =~= rv);
            }
            assert(nv.take(i + 1).to_set() =~= nv.take(i as int).to_set().insert(n@));
            assert(self.as_map() =~= start.as_map().remove_keys(nv.take(i + 1).to_set()));
        }
        assert(nv.take(names@.len() as int) =~= nv);
        removed
    }

    /// The names of the packages of this table that `other` does not hold,
    /// in table order: those to uninstall when `other` is what is wanted.
    pub fn missing_from(&self, other: &Registry<Package>) -> (res: Vec<String>)
        requires
            other.wf(),
        ensures
            strings_view(res@) == names_absent(names_of(self@), other.as_map().dom()),
            forall|n: Seq<char>|
                #[trigger] strings_view(res@).contains(n) <==> (self.has(n) && !other.has(n)),
    {
        let mut res: Vec<String> = Vec::new();
        let n = self.len();
        let ghost keys = names_of(self@);
        for i in 0..n
            invariant
                n == self@.len(),
                other.wf(),
                keys == names_of(self@),
                strings_view(res@) == names_absent(keys.take(i as int), other.as_map().dom()),
        {
            let name = self.name_at(i);
            assert(keys.take(i + 1).drop_last() =~= keys.take(i as int));
            assert(keys.take(i + 1).last() == name@);
            let ghost rv = strings_view(res@);
            if !other.contains_key(name.as_str()) {
                res.push(name.clone());
                assert(strings_view(res@) =~= rv.push(name@));
            } else {
                assert(strings_view(res@) =~= rv);
            }
        }
        assert(keys.take(n as int) =~= keys);
        proof {
            lemma_names_absent_exact(keys, other.as_map().dom());
            assert forall|k: Seq<char>| other.as_map().dom().contains(k) == other.has(k) by {}
        }
        res
    }
}

} // verus!

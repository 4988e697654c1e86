//! A table of uniquely named records.  Both package databases of the
//! manager (the packages a user asked for and the repositories fetched
//! so far) are tables of this kind, keyed by a `String`.

use vstd::prelude::*;

verus! {

/// The names of a table's entries, in table order.
pub open spec fn names_of<V>(entries: Seq<(Seq<char>, V)>) -> Seq<Seq<char>> {
    entries.map_values(|e: (Seq<char>, V)| e.0)
}

/// A table from names to records in which no name occurs twice.
pub struct Registry<V> {
    entries: Vec<(String, V)>,
}

impl<V> View for Registry<V> {
    type V = Seq<(Seq<char>, V)>;

    closed spec fn view(&self) -> Seq<(Seq<char>, V)> {
        self.entries@.map_values(|e: (String, V)| (e.0@, e.1))
    }
}

impl<V> Registry<V> {
    /// No name occurs twice.
    pub open spec fn wf(&self) -> bool {
        names_of(self@).no_duplicates()
    }

    /// `name` is the name of an entry.
    pub open spec fn has(&self, name: Seq<char>) -> bool {
        names_of(self@).contains(name)
    }

    /// The position of the entry named `name` (meaningful only where `has(name)`).
    pub open spec fn position(&self, name: Seq<char>) -> int {
        names_of(self@).index_of(name)
    }

    /// The record stored under `name` (meaningful only where `has(name)`).
    pub open spec fn value_of(&self, name: Seq<char>) -> V {
        self@[self.position(name)].1
    }

    /// The set of names in the table.
    pub open spec fn name_set(&self) -> Set<Seq<char>> {
        names_of(self@).to_set()
    }

    /// The table read as a map from names to records.
    pub open spec fn as_map(&self) -> Map<Seq<char>, V> {
        Map::new(|k: Seq<char>| self.has(k), |k: Seq<char>| self.value_of(k))
    }

    /// An empty table.
    pub fn new() -> (res: Self)
        ensures
            res.wf(),
            res@ == Seq::<(Seq<char>, V)>::empty(),
    {
        let res = Registry { entries: Vec::new() };
        assert(res@ =~= Seq::<(Seq<char>, V)>::empty());
        res
    }

    /// The number of entries.
    pub fn len(&self) -> (n: usize)
        ensures
            n == self@.len(),
    {
        self.entries.len()
    }

    /// The name of the entry at position `i`.
    pub fn name_at(&self, i: usize) -> (res: &String)
        requires
            i < self@.len(),
        ensures
            res@ == self@[i as int].0,
    {
        &self.entries[i].0
    }

    /// The record of the entry at position `i`.
    pub fn value_at(&self, i: usize) -> (res: &V)
        requires
            i < self@.len(),
        ensures
            *res == self@[i as int].1,
    {
        &self.entries[i].1
    }

    /// The position of the entry named `name`, if there is one.
    pub fn find(&self, name: &str) -> (res: Option<usize>)
        requires
            self.wf(),
        ensures
            res is None <==> !self.has(name@),
            res matches Some(i) ==> i < self@.len() && self@[i as int].0 == name@
                && self.position(name@) == i,
    {
        let n = self.entries.len();
        for i in 0..n
            invariant
                n == self@.len(),
                self.wf(),
                forall|j: int| 0 <= j < i ==> self@[j].0 != name@,
        {
            if crate::text::str_eq(self.entries[i].0.as_str(), name) {
                proof {
                    assert(names_of(self@)[i as int] == name@);
                    lemma_position_unique(self@, i as int);
                }
                return Some(i);
            }
        }
        proof {
            if self.has(name@) {
                let k = names_of(self@).index_of(name@);
                assert(self@[k].0 == name@);
            }
        }
        None
    }

    /// The record stored under `name`, if there is one.
    pub fn get(&self, name: &str) -> (res: Option<&V>)
        requires
            self.wf(),
        ensures
            res is None <==> !self.has(name@),
            res matches Some(v) ==> *v == self.value_of(name@),
    {
        match self.find(name) {
            Some(i) => Some(&self.entries[i].1),
            None => None,
        }
    }

    /// `name` is the name of an entry.
    pub fn contains_key(&self, name: &str) -> (res: bool)
        requires
            self.wf(),
        ensures
            res == self.has(name@),
    {
        self.find(name).is_some()
    }

    /// Stores `value` under `name`: the entry of that name is replaced in
    /// place, or a new entry is added at the end.
    pub fn insert(&mut self, name: String, value: V)
        requires
            old(self).wf(),
        ensures
            final(self).wf(),
            old(self).has(name@) ==> final(self)@ == old(self)@.update(
                old(self).position(name@),
                (name@, value),
            ),
            !old(self).has(name@) ==> final(self)@ == old(self)@.push((name@, value)),
            final(self).as_map() == old(self).as_map().insert(name@, value),
    {
        let ghost name_view = name@;
        match self.find(name.as_str()) {
            Some(i) => {
                self.entries.set(i, (name, value));
                proof {
                    assert(self@ =~= old(self)@.update(i as int, (name_view, value)));
                    assert(names_of(self@) =~= names_of(old(self)@));
                    assert forall|k: Seq<char>| self.has(k) implies self.value_of(k) == old(
                        self,
                    ).as_map().insert(name_view, value)[k] by {
                        let j = self.position(k);
                        lemma_position_unique(self@, j);
                        lemma_position_unique(old(self)@, j);
                    }
                    assert(self.as_map() =~= old(self).as_map().insert(name_view, value));
                }
            },
            None => {
                self.entries.push((name, value));
                proof {
                    assert(self@ =~= old(self)@.push((name_view, value)));
                    assert(names_of(self@) =~= names_of(old(self)@).push(name_view));
                    assert(names_of(self@)[old(self)@.len() as int] == name_view);
                    assert forall|k: Seq<char>| self.has(k) implies self.value_of(k) == old(
                        self,
                    ).as_map().insert(name_view, value)[k] by {
                        let j = self.position(k);
                        lemma_position_unique(self@, j);
                        if j < old(self)@.len() {
                            lemma_position_unique(old(self)@, j);
                        }
                    }
                    assert forall|k: Seq<char>| old(self).has(k) || k == name_view implies #[trigger] self.has(
                        k,
                    ) by {
                        if old(self).has(k) {
                            let j = old(self).position(k);
                            assert(names_of(self@)[j] == k);
                        }
                    }
                    assert(self.as_map() =~= old(self).as_map().insert(name_view, value));
                }
            },
        }
    }

    /// Takes the entry named `name` out of the table and hands back its record.
    pub fn remove(&mut self, name: &str) -> (res: Option<V>)
        requires
            old(self).wf(),
        ensures
            final(self).wf(),
            res is None <==> !old(self).has(name@),
            res is None ==> final(self)@ == old(self)@,
            res matches Some(v) ==> v == old(self).value_of(name@) && final(self)@ == old(
                self,
            )@.remove(old(self).position(name@)),
            final(self).as_map() == old(self).as_map().remove(name@),
    {
        match self.find(name) {
            Some(i) => {
                let (_, v) = self.entries.remove(i);
                proof {
                    let ghost o = old(self)@;
                    assert(self@ =~= o.remove(i as int));
                    assert(names_of(self@) =~= names_of(o).remove(i as int));
                    assert forall|k: Seq<char>| self.has(k) implies old(self).has(k) && k != name@
                        && self.value_of(k) == old(self).value_of(k) by {
                        let j = self.position(k);
                        lemma_position_unique(self@, j);
                        let oj = if j < i { j } else { j + 1 };
                        assert(names_of(o)[oj] == k);
                        lemma_position_unique(o, oj);
                        lemma_position_unique(o, i as int);
                    }
                    assert forall|k: Seq<char>|
                        old(self).has(k) && k != name@ implies #[trigger] self.has(k) by {
                        let oj = old(self).position(k);
                        lemma_position_unique(o, i as int);
                        if oj < i {
                            assert(names_of(self@)[oj] == k);
                        } else {
                            assert(oj != i);
                            assert(names_of(self@)[oj - 1] == k);
                        }
                    }
                    assert(self.as_map() =~= old(self).as_map().remove(name@));
                }
                Some(v)
            },
            None => {
                assert(self.as_map() =~= old(self).as_map().remove(name@));
                None
            },
        }
    }
}

/// In a table without repeated names, the entry found at `i` is the one
/// `position` designates.
pub proof fn lemma_position_unique<V>(entries: Seq<(Seq<char>, V)>, i: int)
    requires
        names_of(entries).no_duplicates(),
        0 <= i < entries.len(),
    ensures
        names_of(entries).index_of(entries[i].0) == i,
{
    let ns = names_of(entries);
    assert(ns[i] == entries[i].0);
    assert(ns.contains(entries[i].0));
    let k = ns.index_of(entries[i].0);
    assert(ns[k] == ns[i]);
}


/// Storing a record under a name and then looking the name up gives the
/// record back; every other name keeps the record it had, or stays absent.
pub proof fn lemma_get_after_insert<V>(
    before: Registry<V>,
    after: Registry<V>,
    name: Seq<char>,
    value: V,
    other: Seq<char>,
)
    requires
        after.as_map() == before.as_map().insert(name, value),
    ensures
        after.has(name),
        after.value_of(name) == value,
        other != name ==> after.has(other) == before.has(other),
        other != name && before.has(other) ==> after.value_of(other) == before.value_of(other),
{
    assert(after.as_map().dom().contains(name));
    assert(after.as_map()[name] == value);
    if other != name {
        assert(after.as_map().dom().contains(other) == before.as_map().dom().contains(other));
        if before.has(other) {
            assert(after.as_map()[other] == before.as_map()[other]);
        }
    }
}

/// After a name is removed, looking it up finds nothing; every other name
/// keeps the record it had, or stays absent.
pub proof fn lemma_get_after_remove<V>(
    before: Registry<V>,
    after: Registry<V>,
    name: Seq<char>,
    other: Seq<char>,
)
    requires
        after.as_map() == before.as_map().remove(name),
    ensures
        !after.has(name),
        other != name ==> after.has(other) == before.has(other),
        other != name && before.has(other) ==> after.value_of(other) == before.value_of(other),
{
    assert(!after.as_map().dom().contains(name));
    if other != name {
        assert(after.as_map().dom().contains(other) == before.as_map().dom().contains(other));
        if before.has(other) {
            assert(after.as_map()[other] == before.as_map()[other]);
        }
    }
}

/// Removing settles: once `remove(name)` has taken a name out, the name is
/// absent, so removing it again returns `None` and leaves the table as it
/// is; removing a list of names twice thus changes nothing the second time.
pub proof fn lemma_remove_settles<V>(before: Registry<V>, after: Registry<V>, name: Seq<char>)
    requires
        after.as_map() == before.as_map().remove(name),
    ensures
        !after.has(name),
        after.as_map() == after.as_map().remove(name),
{
    assert(!after.as_map().dom().contains(name));
    assert(after.as_map() =~= after.as_map().remove(name));
}

} // verus!

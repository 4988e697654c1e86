//! The order in which packages are installed: every package after the
//! packages it depends on.  The sort itself is done by the
//! `topological-sort` crate, over the packages' positions in the table.

use vstd::prelude::*;
use vstd::set_lib::*;
use topological_sort::TopologicalSort;
use crate::error::PkgError;
use crate::package::{Package, lemma_names_absent, names_absent};
use crate::registry::{Registry, names_of, lemma_position_unique};

verus! {

#[verifier::external_type_specification]
#[verifier::external_body]
#[verifier::reject_recursive_types(T)]
pub struct ExTopologicalSort<T>(TopologicalSort<T>);

/// What a `TopologicalSort` holds: each remaining item, mapped to the set of
/// items registered as depending on it (its successors).
pub uninterp spec fn sort_graph(ts: TopologicalSort<usize>) -> Map<usize, Set<usize>>;

/// The graph after `add_dependency(prec, succ)`: both items are present and
/// `succ` is among the successors of `prec`.
pub open spec fn graph_with_link(g: Map<usize, Set<usize>>, prec: usize, succ: usize) -> Map<
    usize,
    Set<usize>,
> {
    let g1 = if g.dom().contains(prec) {
        g
    } else {
        g.insert(prec, Set::empty())
    };
    let g2 = g1.insert(prec, g1[prec].insert(succ));
    if g2.dom().contains(succ) {
        g2
    } else {
        g2.insert(succ, Set::empty())
    }
}

/// `TopologicalSort::new`: a sort with no items.
#[verifier::external_body]
fn new_sort() -> (sort: TopologicalSort<usize>)
    ensures
        sort_graph(sort).is_empty(),
{
    TopologicalSort::new()
}

/// `TopologicalSort::insert`: adds `item` without dependencies when it is
/// not present yet, and reports whether it was added.
#[verifier::external_body]
fn sort_insert(ts: &mut TopologicalSort<usize>, item: usize) -> (added: bool)
    ensures
        added == !sort_graph(*old(ts)).dom().contains(item),
        added ==> sort_graph(*final(ts)) == sort_graph(*old(ts)).insert(item, Set::empty()),
        !added ==> sort_graph(*final(ts)) == sort_graph(*old(ts)),
{
    ts.insert(item)
}

/// `TopologicalSort::add_dependency`: registers that `succ` depends on
/// `prec` (adding either item when absent), and reports whether the link
/// was new.
#[verifier::external_body]
fn sort_add_dependency(ts: &mut TopologicalSort<usize>, prec: usize, succ: usize) -> (added: bool)
    ensures
        added == !(sort_graph(*old(ts)).dom().contains(prec) && sort_graph(
            *old(ts),
        )[prec].contains(succ)),
        sort_graph(*final(ts)) == graph_with_link(sort_graph(*old(ts)), prec, succ),
{
    ts.add_dependency(prec, succ)
}

/// `TopologicalSort::pop`: takes out an item that no remaining item
/// precedes, or returns `None`, leaving the sort as it was, when every
/// remaining item still has a remaining predecessor.  Which ready item comes
/// out is left open.
#[verifier::external_body]
fn sort_pop(ts: &mut TopologicalSort<usize>) -> (item: Option<usize>)
    ensures
        match item {
            Some(x) => {
                &&& sort_graph(*old(ts)).dom().contains(x)
                &&& forall|p: usize| #[trigger]
                    sort_graph(*old(ts)).dom().contains(p) ==> !sort_graph(
                        *old(ts),
                    )[p].contains(x)
                &&& sort_graph(*final(ts)) == sort_graph(*old(ts)).remove(x)
            },
            None => {
                &&& sort_graph(*final(ts)) == sort_graph(*old(ts))
                &&& forall|x: usize| #[trigger]
                    sort_graph(*old(ts)).dom().contains(x) ==> exists|p: usize|
                        sort_graph(*old(ts)).dom().contains(p) && sort_graph(
                            *old(ts),
                        )[p].contains(x)
            },
        },
{
    ts.pop()
}

/// `TopologicalSort::is_empty`: whether no item remains.
#[verifier::external_body]
fn sort_is_empty(ts: &TopologicalSort<usize>) -> (empty: bool)
    ensures
        empty == (sort_graph(*ts).dom() == Set::<usize>::empty()),
{
    ts.is_empty()
}

/// Package `a` is in the table and lists `b` among its dependencies.
pub open spec fn depends_on(db: &Registry<Package>, a: Seq<char>, b: Seq<char>) -> bool {
    db.has(a) && db.value_of(a)@.dependencies.contains(b)
}

/// Every dependency of every package is itself in the table.
pub open spec fn dependencies_known(db: &Registry<Package>) -> bool {
    forall|a: Seq<char>, b: Seq<char>| #[trigger] depends_on(db, a, b) ==> db.has(b)
}

/// `s` is a non-empty set of packages each of which depends on a package of
/// `s`: none of them can ever be installed after all of its dependencies.
pub open spec fn blocked_set(db: &Registry<Package>, s: Set<Seq<char>>) -> bool {
    &&& exists|a: Seq<char>| s.contains(a)
    &&& forall|a: Seq<char>|
        #![trigger db.value_of(a)]
        s.contains(a) ==> db.has(a) && exists|b: Seq<char>| s.contains(b) && depends_on(db, a, b)
}

/// The dependencies form a cycle.
pub open spec fn has_cycle(db: &Registry<Package>) -> bool {
    exists|s: Set<Seq<char>>| blocked_set(db, s)
}

/// `order` names every package of the table exactly once, each after all of
/// the packages it depends on.
pub open spec fn is_install_order(db: &Registry<Package>, order: Seq<Seq<char>>) -> bool {
    &&& order.no_duplicates()
    &&& forall|k: int| 0 <= k < order.len() ==> db.has(#[trigger] order[k])
    &&& forall|a: Seq<char>| #[trigger] db.has(a) ==> order.contains(a)
    &&& forall|p: int, q: int|
        0 <= p < order.len() && 0 <= q < order.len() && #[trigger] depends_on(
            db,
            order[q],
            order[p],
        ) ==> p < q
}

/// The entry at position `x` lists the name of the entry at position `p`
/// among its dependencies.
spec fn lists(db: &Registry<Package>, x: int, p: int) -> bool {
    db@[x].1@.dependencies.contains(db@[p].0)
}

proof fn lemma_depends_on_entry(db: &Registry<Package>, x: int, b: Seq<char>)
    requires
        db.wf(),
        0 <= x < db@.len(),
    ensures
        depends_on(db, db@[x].0, b) == db@[x].1@.dependencies.contains(b),
{
    lemma_position_unique(db@, x);
    assert(names_of(db@)[x] == db@[x].0);
}

/// A no-duplicate sequence of numbers below `n` has at most `n` elements.
proof fn lemma_distinct_below(s: Seq<usize>, n: usize)
    requires
        s.no_duplicates(),
        forall|k: int| 0 <= k < s.len() ==> s[k] < n,
    ensures
        s.len() <= n,
{
    let t = s.map_values(|x: usize| x as int);
    assert(t.no_duplicates()) by {
        assert forall|i: int, j: int| 0 <= i < t.len() && 0 <= j < t.len() && i != j implies t[i]
            != t[j] by {
            assert(s[i] != s[j]);
        }
    }
    t.unique_seq_to_set();
    lemma_int_range(0, n as int);
    assert(t.to_set().subset_of(set_int_range(0, n as int))) by {
        assert forall|v: int| t.to_set().contains(v) implies set_int_range(0, n as int).contains(
            v,
        ) by {
            let k = choose|k: int| 0 <= k < t.len() && t[k] == v;
            assert(s[k] < n);
        }
    }
    lemma_len_subset(t.to_set(), set_int_range(0, n as int));
}

/// The first position of `order` holding a member of `s`.
proof fn first_member(order: Seq<Seq<char>>, s: Set<Seq<char>>, start: int) -> (m: int)
    requires
        0 <= start <= order.len(),
        forall|j: int| 0 <= j < start ==> !s.contains(order[j]),
        exists|i: int| start <= i < order.len() && s.contains(order[i]),
    ensures
        0 <= m < order.len(),
        s.contains(order[m]),
        forall|j: int| 0 <= j < m ==> !s.contains(order[j]),
    decreases order.len() - start,
{
    if s.contains(order[start]) {
        start
    } else {
        first_member(order, s, start + 1)
    }
}

/// A rebuild never uninstalls a package it installs: no name of an install
/// order of the wanted table is among the installed names the wanted table
/// lacks.
pub proof fn lemma_installs_and_uninstalls_disjoint(
    installed: &Registry<Package>,
    wanted: &Registry<Package>,
    order: Seq<Seq<char>>,
)
    requires
        is_install_order(wanted, order),
    ensures
        forall|k: int|
            0 <= k < order.len() ==> !names_absent(names_of(installed@), wanted.as_map().dom()).contains(
                #[trigger] order[k],
            ),
{
    lemma_names_absent(names_of(installed@), wanted.as_map().dom());
    assert forall|k: int| 0 <= k < order.len() implies !names_absent(
        names_of(installed@),
        wanted.as_map().dom(),
    ).contains(#[trigger] order[k]) by {
        let absent = names_absent(names_of(installed@), wanted.as_map().dom());
        assert(wanted.has(order[k]));
        if absent.contains(order[k]) {
            let j = choose|j: int| 0 <= j < absent.len() && absent[j] == order[k];
            assert(!wanted.as_map().dom().contains(absent[j]));
        }
    }
}

/// What membership of a blocked set says of a package.
proof fn lemma_blocked_member(db: &Registry<Package>, s: Set<Seq<char>>, a: Seq<char>) -> (b: Seq<char>)
    requires
        blocked_set(db, s),
        s.contains(a),
    ensures
        db.has(a),
        s.contains(b),
        depends_on(db, a, b),
{
    let v = db.value_of(a);
    assert(s.contains(a) ==> db.has(a) && exists|b: Seq<char>| s.contains(b) && depends_on(db, a, b));
    choose|b: Seq<char>| s.contains(b) && depends_on(db, a, b)
}

/// Where an install order exists, the dependencies have no cycle.
pub proof fn lemma_install_order_excludes_cycle(db: &Registry<Package>, order: Seq<Seq<char>>)
    requires
        is_install_order(db, order),
    ensures
        !has_cycle(db),
{
    if has_cycle(db) {
        let s = choose|s: Set<Seq<char>>| blocked_set(db, s);
        let a0 = choose|a: Seq<char>| s.contains(a);
        lemma_blocked_member(db, s, a0);
        assert(order.contains(a0));
        let i0 = choose|i: int| 0 <= i < order.len() && order[i] == a0;
        let m = first_member(order, s, 0);
        let a = order[m];
        assert(s.contains(a));
        let b = lemma_blocked_member(db, s, a);
        lemma_blocked_member(db, s, b);
        assert(order.contains(b));
        let pb = choose|i: int| 0 <= i < order.len() && order[i] == b;
        assert(depends_on(db, order[m], order[pb]));
        assert(pb < m);
        assert(!s.contains(order[pb]));
    }
}

/// The sort's links are links of the table: every successor is a present
/// item that lists its predecessor among its dependencies.
spec fn links_sound(db: &Registry<Package>, g: Map<usize, Set<usize>>) -> bool {
    forall|p: usize, x: usize|
        g.dom().contains(p) && #[trigger] g[p].contains(x) ==> g.dom().contains(x) && lists(
            db,
            x as int,
            p as int,
        )
}

/// Every dependency between two present items is a link of the sort.
spec fn links_complete(db: &Registry<Package>, g: Map<usize, Set<usize>>) -> bool {
    forall|x: usize, p: usize|
        g.dom().contains(x) && g.dom().contains(p) && #[trigger] lists(db, x as int, p as int)
            ==> g[p].contains(x)
}

/// Registers every package of `db` (by position) in a new sort, with a
/// link from each dependency to its dependent.  Fails on the first
/// dependency that names no package of the table.
fn link_dependencies(db: &Registry<Package>) -> (res: Result<TopologicalSort<usize>, PkgError>)
    requires
        db.wf(),
    ensures
        match res {
            Ok(ts) => {
                &&& dependencies_known(db)
                &&& forall|x: usize| #[trigger]
                    sort_graph(ts).dom().contains(x) <==> x < db@.len()
                &&& links_sound(db, sort_graph(ts))
                &&& links_complete(db, sort_graph(ts))
            },
            Err(PkgError::UnknownDependency { package, dependency }) => {
                &&& depends_on(db, package@, dependency@)
                &&& !db.has(dependency@)
            },
            Err(_) => false,
        },
{
    let n = db.len();
    let mut ts = new_sort();
    let mut i: usize = 0;
    while i < n
        invariant
            n == db@.len(),
            db.wf(),
            0 <= i <= n,
            forall|x: usize| #[trigger] sort_graph(ts).dom().contains(x) ==> x < n,
            forall|x: usize| x < i ==> #[trigger] sort_graph(ts).dom().contains(x),
            links_sound(db, sort_graph(ts)),
            forall|x: usize, p: usize|
                x < i && p < n && #[trigger] lists(db, x as int, p as int) ==> sort_graph(
                    ts,
                ).dom().contains(p) && sort_graph(ts)[p].contains(x),
            forall|x: usize, b: Seq<char>|
                x < i && #[trigger] db@[x as int].1@.dependencies.contains(b) ==> db.has(b),
        decreases n - i,
    {
        sort_insert(&mut ts, i);
        let deps = &db.value_at(i).dependencies;
        let ghost dv = db@[i as int].1@.dependencies;
        assert(dv == deps@.map_values(|s: String| s@));
        let mut k: usize = 0;
        while k < deps.len()
            invariant
                n == db@.len(),
                db.wf(),
                i < n,
                0 <= k <= deps@.len(),
                dv.len() == deps@.len(),
                forall|kk: int| 0 <= kk < dv.len() ==> dv[kk] == #[trigger] deps@[kk]@,
                dv == db@[i as int].1@.dependencies,
                forall|x: usize| #[trigger] sort_graph(ts).dom().contains(x) ==> x < n,
                forall|x: usize| x <= i ==> #[trigger] sort_graph(ts).dom().contains(x),
                links_sound(db, sort_graph(ts)),
                forall|x: usize, p: usize|
                    x < i && p < n && #[trigger] lists(db, x as int, p as int) ==> sort_graph(
                        ts,
                    ).dom().contains(p) && sort_graph(ts)[p].contains(x),
                forall|x: usize, b: Seq<char>|
                    x < i && #[trigger] db@[x as int].1@.dependencies.contains(b) ==> db.has(b),
                forall|kk: int|
                    0 <= kk < k ==> db.has(#[trigger] dv[kk]) && sort_graph(ts).dom().contains(
                        db.position(dv[kk]) as usize,
                    ) && sort_graph(ts)[db.position(dv[kk]) as usize].contains(i),
            decreases deps@.len() - k,
        {
            match db.find(deps[k].as_str()) {
                None => {
                    proof {
                        lemma_depends_on_entry(db, i as int, dv[k as int]);
                        assert(dv[k as int] == deps@[k as int]@);
                    }
                    return Err(
                        PkgError::UnknownDependency {
                            package: db.name_at(i).clone(),
                            dependency: deps[k].clone(),
                        },
                    );
                },
                Some(j) => {
                    let ghost g0 = sort_graph(ts);
                    sort_add_dependency(&mut ts, j, i);
                    proof {
                        assert(dv[k as int] == deps@[k as int]@);
                        assert(lists(db, i as int, j as int));
                        let g = sort_graph(ts);
                        assert forall|p: usize, x: usize|
                            g.dom().contains(p) && #[trigger] g[p].contains(x) implies g.dom().contains(
                            x,
                        ) && lists(db, x as int, p as int) by {
                            if p == j && x == i {
                            } else {
                                assert(g0.dom().contains(p) && g0[p].contains(x));
                            }
                        }
                    }
                },
            }
            k = k + 1;
        }
        proof {
            assert forall|x: usize, p: usize|
                x < i + 1 && p < n && #[trigger] lists(db, x as int, p as int) implies sort_graph(
                ts,
            ).dom().contains(p) && sort_graph(ts)[p].contains(x) by {
                if x == i {
                    let kk = choose|kk: int| 0 <= kk < dv.len() && dv[kk] == db@[p as int].0;
                    lemma_position_unique(db@, p as int);
                }
            }
            assert forall|x: usize, b: Seq<char>|
                x < i + 1 && #[trigger] db@[x as int].1@.dependencies.contains(b) implies db.has(
                b,
            ) by {
                if x == i {
                    let kk = choose|kk: int| 0 <= kk < dv.len() && dv[kk] == b;
                }
            }
        }
        i = i + 1;
    }
    proof {
        assert forall|a: Seq<char>, b: Seq<char>| #[trigger] depends_on(db, a, b) implies db.has(
            b,
        ) by {
            let x = db.position(a);
            lemma_position_unique(db@, x);
            assert(db@[x].1@.dependencies.contains(b));
            assert(db@[x as usize as int].1@.dependencies.contains(b));
        }
    }
    Ok(ts)
}

/// Pops ready items until none is left to pop, and hands them back in the
/// order they came out.
fn pop_ready(db: &Registry<Package>, ts: &mut TopologicalSort<usize>) -> (popped: Vec<usize>)
    requires
        db.wf(),
        forall|x: usize| #[trigger] sort_graph(*old(ts)).dom().contains(x) <==> x < db@.len(),
        links_sound(db, sort_graph(*old(ts))),
        links_complete(db, sort_graph(*old(ts))),
    ensures
        forall|x: usize| #[trigger]
            sort_graph(*final(ts)).dom().contains(x) <==> (x < db@.len() && !popped@.contains(x)),
        forall|x: usize| #[trigger]
            sort_graph(*final(ts)).dom().contains(x) ==> exists|p: usize|
                sort_graph(*final(ts)).dom().contains(p) && sort_graph(*final(ts))[p].contains(x),
        links_sound(db, sort_graph(*final(ts))),
        popped@.no_duplicates(),
        forall|k: int| 0 <= k < popped@.len() ==> #[trigger] popped@[k] < db@.len(),
        forall|a: int, b: int|
            0 <= a < popped@.len() && 0 <= b < popped@.len() && #[trigger] lists(
                db,
                popped@[b] as int,
                popped@[a] as int,
            ) ==> a < b,
{
    let n = db.len();
    let mut popped: Vec<usize> = Vec::new();
    loop
        invariant
            n == db@.len(),
            db.wf(),
            forall|x: usize| #[trigger]
                sort_graph(*ts).dom().contains(x) <==> (x < n && !popped@.contains(x)),
            links_sound(db, sort_graph(*ts)),
            links_complete(db, sort_graph(*ts)),
            popped@.no_duplicates(),
            forall|k: int| 0 <= k < popped@.len() ==> #[trigger] popped@[k] < n,
            forall|a: int, b: int|
                0 <= a < popped@.len() && 0 <= b < popped@.len() && #[trigger] lists(
                    db,
                    popped@[b] as int,
                    popped@[a] as int,
                ) ==> a < b,
            forall|k: int, p: usize|
                0 <= k < popped@.len() && p < n && #[trigger] lists(db, popped@[k] as int, p as int)
                    ==> popped@.contains(p),
        ensures
            forall|x: usize| #[trigger]
                sort_graph(*ts).dom().contains(x) ==> exists|p: usize|
                    sort_graph(*ts).dom().contains(p) && sort_graph(*ts)[p].contains(x),
        decreases n - popped@.len(),
    {
        proof {
            lemma_distinct_below(popped@, n);
        }
        let ghost g0 = sort_graph(*ts);
        let ghost old_popped = popped@;
        match sort_pop(ts) {
            Some(x) => {
                proof {
                    assert(!old_popped.contains(x));
                    assert forall|p: usize| p < n && #[trigger] lists(db, x as int, p as int) implies old_popped.contains(p) by {
                        if !old_popped.contains(p) {
                            assert(g0.dom().contains(p));
                            assert(g0[p].contains(x));
                        }
                    }
                    assert(!lists(db, x as int, x as int));
                }
                popped.push(x);
                proof {
                    let pv = popped@;
                    assert(pv == old_popped.push(x));
                    assert forall|a: int, b: int|
                        0 <= a < pv.len() && 0 <= b < pv.len() && #[trigger] lists(
                            db,
                            pv[b] as int,
                            pv[a] as int,
                        ) implies a < b by {
                        if b == old_popped.len() {
                            if a == old_popped.len() {
                                assert(pv[a] == x && pv[b] == x);
                            }
                        } else if a == old_popped.len() {
                            assert(pv[b] == old_popped[b]);
                            assert(lists(db, old_popped[b] as int, x as int));
                            assert(old_popped.contains(x));
                        } else {
                            assert(pv[a] == old_popped[a] && pv[b] == old_popped[b]);
                        }
                    }
                    assert forall|k: int, p: usize|
                        0 <= k < pv.len() && p < n && #[trigger] lists(
                            db,
                            pv[k] as int,
                            p as int,
                        ) implies pv.contains(p) by {
                        if k < old_popped.len() {
                            assert(pv[k] == old_popped[k]);
                        }
                        assert(old_popped.contains(p));
                        let c = choose|c: int| 0 <= c < old_popped.len() && old_popped[c] == p;
                        assert(pv[c] == p);
                    }
                    assert(pv.no_duplicates()) by {
                        assert forall|i1: int, i2: int|
                            0 <= i1 < pv.len() && 0 <= i2 < pv.len() && i1 != i2 implies pv[i1]
                            != pv[i2] by {
                            if i1 == old_popped.len() || i2 == old_popped.len() {
                            } else {
                                assert(old_popped[i1] != old_popped[i2]);
                            }
                        }
                    }
                    assert forall|y: usize| #[trigger]
                        sort_graph(*ts).dom().contains(y) <==> (y < n && !pv.contains(y)) by {
                        if pv.contains(y) && y != x {
                            let c = choose|c: int| 0 <= c < pv.len() && pv[c] == y;
                            assert(old_popped[c] == y);
                        }
                        if old_popped.contains(y) {
                            let c = choose|c: int| 0 <= c < old_popped.len() && old_popped[c] == y;
                            assert(pv[c] == y);
                        }
                        assert(pv[old_popped.len() as int] == x);
                    }
                    lemma_distinct_below(pv, n);
                }
            },
            None => {
                break;
            },
        }
    }
    popped
}

/// The names of the entries at the given positions, in that order.
fn names_at(db: &Registry<Package>, positions: &Vec<usize>) -> (names: Vec<String>)
    requires
        forall|k: int| 0 <= k < positions@.len() ==> #[trigger] positions@[k] < db@.len(),
    ensures
        names@.len() == positions@.len(),
        forall|k: int| 0 <= k < positions@.len() ==> #[trigger] names@[k]@ == db@[positions@[k] as int].0,
{
    let mut names: Vec<String> = Vec::new();
    for k in 0..positions.len()
        invariant
            forall|k: int| 0 <= k < positions@.len() ==> #[trigger] positions@[k] < db@.len(),
            names@.len() == k,
            forall|j: int| 0 <= j < k ==> #[trigger] names@[j]@ == db@[positions@[j] as int].0,
    {
        names.push(db.name_at(positions[k]).clone());
    }
    names
}

/// The order in which to install the packages of `db`: every package comes
/// after the packages it depends on.  Fails when a package depends on a
/// package that is not in the table, or when the dependencies form a cycle.
pub fn install_order(db: &Registry<Package>) -> (res: Result<Vec<String>, PkgError>)
    requires
        db.wf(),
    ensures
        match res {
            Ok(order) => {
                &&& dependencies_known(db)
                &&& !has_cycle(db)
                &&& is_install_order(db, order@.map_values(|s: String| s@))
            },
            Err(PkgError::UnknownDependency { package, dependency }) => {
                &&& depends_on(db, package@, dependency@)
                &&& !db.has(dependency@)
            },
            Err(PkgError::CircularDependency) => dependencies_known(db) && has_cycle(db),
            Err(_) => false,
        },
{
    let mut ts = link_dependencies(db)?;
    let popped = pop_ready(db, &mut ts);
    if !sort_is_empty(&ts) {
        proof {
            assert(all_waiting(sort_graph(ts))) by {
                reveal(all_waiting);
            }
            lemma_stuck_is_cycle(db, sort_graph(ts));
        }
        return Err(PkgError::CircularDependency);
    }
    let order = names_at(db, &popped);
    let n = db.len();
    proof {
        assert(sort_graph(ts).dom() =~= Set::<usize>::empty());
        assert forall|x: usize| x < db@.len() implies #[trigger] popped@.contains(x) by {
            assert(!sort_graph(ts).dom().contains(x));
        }
        lemma_popped_is_install_order(db, popped@, order@.map_values(|s: String| s@));
        lemma_install_order_excludes_cycle(db, order@.map_values(|s: String| s@));
    }
    Ok(order)
}

/// Every remaining item still has a remaining predecessor.
#[verifier::opaque]
spec fn all_waiting(g: Map<usize, Set<usize>>) -> bool {
    forall|x: usize| #[trigger]
        g.dom().contains(x) ==> exists|p: usize| g.dom().contains(p) && g[p].contains(x)
}

/// A remaining predecessor of the remaining item `x`.
proof fn waiting_on(g: Map<usize, Set<usize>>, x: usize) -> (p: usize)
    requires
        all_waiting(g),
        g.dom().contains(x),
    ensures
        g.dom().contains(p),
        g[p].contains(x),
{
    reveal(all_waiting);
    choose|p: usize| g.dom().contains(p) && g[p].contains(x)
}

/// Items that all wait on remaining items name a blocked set of packages.
proof fn lemma_stuck_is_cycle(db: &Registry<Package>, g: Map<usize, Set<usize>>)
    requires
        db.wf(),
        !(g.dom() == Set::<usize>::empty()),
        forall|x: usize| #[trigger] g.dom().contains(x) ==> x < db@.len(),
        links_sound(db, g),
        all_waiting(g),
    ensures
        has_cycle(db),
{
    assert(!(g.dom() =~= Set::<usize>::empty()));
    let x0 = choose|x: usize| g.dom().contains(x);
    let s = Set::new(
        |a: Seq<char>| exists|x: usize| #[trigger] g.dom().contains(x) && db@[x as int].0 == a,
    );
    assert(s.contains(db@[x0 as int].0));
    assert forall|a: Seq<char>| s.contains(a) implies #[trigger] db.has(a) && exists|b: Seq<char>|
        s.contains(b) && depends_on(db, a, b) by {
        let x = choose|x: usize| g.dom().contains(x) && db@[x as int].0 == a;
        assert(names_of(db@)[x as int] == a);
        let p = waiting_on(g, x);
        assert(lists(db, x as int, p as int));
        lemma_depends_on_entry(db, x as int, db@[p as int].0);
        assert(s.contains(db@[p as int].0));
    }
    assert(blocked_set(db, s));
}

/// Every position popped, in popping order, gives an install order.
proof fn lemma_popped_is_install_order(db: &Registry<Package>, popped: Seq<usize>, order: Seq<Seq<char>>)
    requires
        db.wf(),
        db@.len() <= usize::MAX,
        popped.no_duplicates(),
        forall|k: int| 0 <= k < popped.len() ==> #[trigger] popped[k] < db@.len(),
        forall|x: usize| x < db@.len() ==> #[trigger] popped.contains(x),
        forall|a: int, b: int|
            0 <= a < popped.len() && 0 <= b < popped.len() && #[trigger] lists(
                db,
                popped[b] as int,
                popped[a] as int,
            ) ==> a < b,
        order.len() == popped.len(),
        forall|k: int| 0 <= k < popped.len() ==> #[trigger] order[k] == db@[popped[k] as int].0,
    ensures
        is_install_order(db, order),
{
    assert forall|k: int| 0 <= k < order.len() implies db.has(#[trigger] order[k]) by {
        assert(names_of(db@)[popped[k] as int] == order[k]);
    }
    assert forall|a: Seq<char>| #[trigger] db.has(a) implies order.contains(a) by {
        let x = db.position(a);
        assert(names_of(db@)[x] == a);
        assert(popped.contains(x as usize));
        let k = choose|k: int| 0 <= k < popped.len() && popped[k] == x as usize;
        assert(order[k] == a);
    }
    assert forall|p: int, q: int|
        0 <= p < order.len() && 0 <= q < order.len() && #[trigger] depends_on(
            db,
            order[q],
            order[p],
        ) implies p < q by {
        lemma_depends_on_entry(db, popped[q] as int, order[p]);
        assert(lists(db, popped[q] as int, popped[p] as int));
    }
    assert(order.no_duplicates()) by {
        assert forall|i1: int, i2: int|
            0 <= i1 < order.len() && 0 <= i2 < order.len() && i1 != i2 implies order[i1]
            != order[i2] by {
            assert(popped[i1] != popped[i2]);
            assert(names_of(db@)[popped[i1] as int] != names_of(db@)[popped[i2] as int]);
        }
    }
}

} // verus!

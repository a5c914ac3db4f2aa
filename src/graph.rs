use vstd::prelude::*;
use crate::dependency::{DependencyMap, DependencyView, drop_edges, hits, only_package_edges, promoted, without_edge};
use crate::error::PackageError;
use crate::text::{joined, relative_to, under_root};
use crate::version::Version;
use crate::entry::EntryView;
use crate::error::ModuleError;
use crate::module::ModuleView;
use crate::package::{PackageView, module_drop, package_drop};

verus! {

/// The mathematical value of a registry: standalone modules by source path,
/// executables by source path, packages by identifier.
pub struct RegistryView {
    pub modules: Map<Seq<char>, ModuleView>,
    pub executables: Map<Seq<char>, DependencyMap>,
    pub packages: Map<Seq<char>, PackageView>,
}

/// The unit that a reference names exists (a stray reference always counts).
pub open spec fn resolves(r: RegistryView, d: DependencyView) -> bool {
    match d {
        DependencyView::Stray(_, _) => true,
        DependencyView::Standalone(p) => r.modules.contains_key(p),
        DependencyView::Package(pk, m) => r.packages.contains_key(pk)
            && r.packages[pk].modules.contains_key(m),
    }
}

/// The dependency edges of the module that `d` names; none if it names no module.
pub open spec fn deps_of(r: RegistryView, d: DependencyView) -> DependencyMap {
    match d {
        DependencyView::Stray(_, _) => Map::empty(),
        DependencyView::Standalone(p) => if r.modules.contains_key(p) {
            r.modules[p].dependencies
        } else {
            Map::empty()
        },
        DependencyView::Package(pk, m) => if r.packages.contains_key(pk)
            && r.packages[pk].modules.contains_key(m) {
            r.packages[pk].modules[m].1.dependencies
        } else {
            Map::empty()
        },
    }
}

/// Some edge of `deps` points at `b`.
pub open spec fn points_at(deps: DependencyMap, b: DependencyView) -> bool {
    exists|k: Seq<char>| #[trigger] deps.contains_key(k) && deps[k] == b
}

/// `a` depends directly on the module `b`.
pub open spec fn edge(r: RegistryView, a: DependencyView, b: DependencyView) -> bool {
    b.is_unit() && points_at(deps_of(r, a), b)
}

/// Position `i` of `p` is followed by an edge to position `i + 1`.
pub open spec fn step(r: RegistryView, p: Seq<DependencyView>, i: int) -> bool {
    edge(r, p[i], p[i + 1])
}

/// `p` is a walk along edges.
pub open spec fn is_path(r: RegistryView, p: Seq<DependencyView>) -> bool {
    &&& p.len() > 0
    &&& forall|i: int| 0 <= i < p.len() - 1 ==> #[trigger] step(r, p, i)
}

/// `b` can be reached from `a` by following zero or more edges.
pub open spec fn reaches(r: RegistryView, a: DependencyView, b: DependencyView) -> bool {
    exists|p: Seq<DependencyView>| #[trigger] is_path(r, p) && p[0] == a && p.last() == b
}

/// No walk of one or more edges comes back to where it started.
pub open spec fn acyclic(r: RegistryView) -> bool {
    forall|p: Seq<DependencyView>| #[trigger] is_path(r, p) && p.len() > 1 ==> p[0] != p.last()
}

/// An edge stored under key `k` is keyed by the identifier of what it names
/// and names something that exists.
pub open spec fn edge_ok(r: RegistryView, k: Seq<char>, d: DependencyView) -> bool {
    match d {
        DependencyView::Stray(id, _) => k == id,
        DependencyView::Standalone(p) => r.modules.contains_key(p) && k == r.modules[p].identifier,
        DependencyView::Package(pk, m) => resolves(r, d) && k == m,
    }
}

pub open spec fn deps_ok(r: RegistryView, deps: DependencyMap) -> bool {
    forall|k: Seq<char>| #[trigger] deps.contains_key(k) ==> edge_ok(r, k, deps[k])
}

/// Every edge of every unit is well keyed and names an existing unit.
pub open spec fn integrity(r: RegistryView) -> bool {
    &&& forall|p: Seq<char>| #[trigger] r.modules.contains_key(p) ==> deps_ok(r, r.modules[p].dependencies)
    &&& forall|p: Seq<char>| #[trigger] r.executables.contains_key(p) ==> deps_ok(r, r.executables[p])
    &&& forall|pk: Seq<char>, m: Seq<char>|
        #[trigger] r.packages.contains_key(pk) && #[trigger] r.packages[pk].modules.contains_key(m)
            ==> deps_ok(r, r.packages[pk].modules[m].1.dependencies)
}

/// Identifiers are unique: standalone modules have distinct identifiers, and
/// packages and their modules are keyed by their own identifiers.
pub open spec fn identifiers_unique(r: RegistryView) -> bool {
    &&& forall|p: Seq<char>, q: Seq<char>|
        #[trigger] r.modules.contains_key(p) && #[trigger] r.modules.contains_key(q) && p != q
            ==> r.modules[p].identifier != r.modules[q].identifier
    &&& forall|pk: Seq<char>| #[trigger] r.packages.contains_key(pk) ==> r.packages[pk].identifier == pk
    &&& forall|pk: Seq<char>, m: Seq<char>|
        #[trigger] r.packages.contains_key(pk) && #[trigger] r.packages[pk].modules.contains_key(m)
            ==> r.packages[pk].modules[m].1.identifier == m
}

/// Modules of packages depend on package modules only.
pub open spec fn package_modules_closed(r: RegistryView) -> bool {
    forall|pk: Seq<char>, m: Seq<char>|
        #[trigger] r.packages.contains_key(pk) && #[trigger] r.packages[pk].modules.contains_key(m)
            ==> only_package_edges(r.packages[pk].modules[m].1.dependencies)
}

/// The invariants that every registry keeps.
pub open spec fn valid(r: RegistryView) -> bool {
    &&& integrity(r)
    &&& identifiers_unique(r)
    &&& package_modules_closed(r)
    &&& acyclic(r)
}

/// In a valid registry every edge names an existing unit.
pub proof fn lemma_edge_resolves(r: RegistryView, a: DependencyView, b: DependencyView)
    requires
        valid(r),
        edge(r, a, b),
    ensures
        resolves(r, b),
        b.is_unit(),
{
    let deps = deps_of(r, a);
    let k = choose|k: Seq<char>| #[trigger] deps.contains_key(k) && deps[k] == b;
    match a {
        DependencyView::Stray(_, _) => {},
        DependencyView::Standalone(p) => {
            assert(r.modules.contains_key(p));
            assert(deps_ok(r, r.modules[p].dependencies));
        },
        DependencyView::Package(pk, m) => {
            assert(r.packages.contains_key(pk) && r.packages[pk].modules.contains_key(m));
            assert(deps_ok(r, r.packages[pk].modules[m].1.dependencies));
        },
    }
}

/// The empty registry.
pub open spec fn empty_registry() -> RegistryView {
    RegistryView { modules: Map::empty(), executables: Map::empty(), packages: Map::empty() }
}

pub proof fn lemma_empty_valid()
    ensures
        valid(empty_registry()),
{
    let r = empty_registry();
    assert forall|p: Seq<DependencyView>| #[trigger] is_path(r, p) && p.len() > 1 implies p[0] != p.last() by {
        assert(step(r, p, 0));
    }
}

/// A walk extended by one edge is a walk.
pub proof fn lemma_reaches_step(r: RegistryView, a: DependencyView, b: DependencyView, c: DependencyView)
    requires
        reaches(r, a, b),
        edge(r, b, c),
    ensures
        reaches(r, a, c),
{
    let p = choose|p: Seq<DependencyView>| #[trigger] is_path(r, p) && p[0] == a && p.last() == b;
    let q = p.push(c);
    assert forall|i: int| 0 <= i < q.len() - 1 implies #[trigger] step(r, q, i) by {
        if i < p.len() - 1 {
            assert(step(r, p, i));
        }
    }
    assert(is_path(r, q));
}

pub proof fn lemma_reaches_self(r: RegistryView, a: DependencyView)
    ensures
        reaches(r, a, a),
{
    let p = seq![a];
    assert(is_path(r, p));
}

/// A set that holds `a` and is closed under edges holds everything `a` reaches.
pub proof fn lemma_closed_set(r: RegistryView, a: DependencyView, s: Set<DependencyView>, b: DependencyView)
    requires
        s.contains(a),
        forall|x: DependencyView, y: DependencyView| s.contains(x) && #[trigger] edge(r, x, y) ==> s.contains(y),
        reaches(r, a, b),
    ensures
        s.contains(b),
{
    let p = choose|p: Seq<DependencyView>| #[trigger] is_path(r, p) && p[0] == a && p.last() == b;
    assert forall|i: int| 0 <= i < p.len() implies s.contains(#[trigger] p[i]) by {
        lemma_closed_prefix(r, s, p, i);
    }
}

proof fn lemma_closed_prefix(r: RegistryView, s: Set<DependencyView>, p: Seq<DependencyView>, i: int)
    requires
        is_path(r, p),
        s.contains(p[0]),
        forall|x: DependencyView, y: DependencyView| s.contains(x) && #[trigger] edge(r, x, y) ==> s.contains(y),
        0 <= i < p.len(),
    ensures
        s.contains(p[i]),
    decreases i,
{
    if i > 0 {
        lemma_closed_prefix(r, s, p, i - 1);
        assert(step(r, p, i - 1));
    }
}

/// If every edge of `r2` is an edge of `r1`, `r2` keeps the acyclicity of `r1`.
pub proof fn lemma_acyclic_fewer_edges(r1: RegistryView, r2: RegistryView)
    requires
        acyclic(r1),
        forall|x: DependencyView, y: DependencyView| #[trigger] edge(r2, x, y) ==> edge(r1, x, y),
    ensures
        acyclic(r2),
{
    assert forall|p: Seq<DependencyView>| #[trigger] is_path(r2, p) && p.len() > 1 implies p[0] != p.last() by {
        assert forall|i: int| 0 <= i < p.len() - 1 implies #[trigger] step(r1, p, i) by {
            assert(step(r2, p, i));
        }
        assert(is_path(r1, p));
    }
}

/// If each edge of `r2` maps under `g` to an edge of `r1`, `r2` keeps the
/// acyclicity of `r1`.
pub proof fn lemma_acyclic_renamed(r1: RegistryView, r2: RegistryView, g: spec_fn(DependencyView) -> DependencyView)
    requires
        acyclic(r1),
        forall|x: DependencyView, y: DependencyView| #[trigger] edge(r2, x, y) ==> edge(r1, g(x), g(y)),
    ensures
        acyclic(r2),
{
    assert forall|p: Seq<DependencyView>| #[trigger] is_path(r2, p) && p.len() > 1 implies p[0] != p.last() by {
        let q = p.map_values(g);
        assert forall|i: int| 0 <= i < q.len() - 1 implies #[trigger] step(r1, q, i) by {
            assert(step(r2, p, i));
        }
        assert(is_path(r1, q));
        assert(q[0] != q.last());
    }
}

/// The first position of `p` whose outgoing step is not an edge of `r1`
/// (the last position if there is none); the walk up to it is a walk of `r1`.
proof fn lemma_first_new_step(r1: RegistryView, r2: RegistryView, p: Seq<DependencyView>) -> (k: int)
    requires
        is_path(r2, p),
    ensures
        0 <= k < p.len(),
        is_path(r1, p.subrange(0, k + 1)),
        k < p.len() - 1 ==> !edge(r1, p[k], p[k + 1]),
    decreases p.len(),
{
    if p.len() == 1 {
        assert(is_path(r1, p.subrange(0, 1)));
        0
    } else if !edge(r1, p[0], p[1]) {
        assert(is_path(r1, p.subrange(0, 1)));
        0
    } else {
        let t = p.drop_first();
        assert forall|i: int| 0 <= i < t.len() - 1 implies #[trigger] step(r2, t, i) by {
            assert(step(r2, p, i + 1));
        }
        let k = lemma_first_new_step(r1, r2, t);
        let q = p.subrange(0, k + 2);
        assert forall|i: int| 0 <= i < q.len() - 1 implies #[trigger] step(r1, q, i) by {
            if i > 0 {
                assert(t.subrange(0, k + 1)[i - 1] == q[i]);
                assert(step(r1, t.subrange(0, k + 1), i - 1));
            }
        }
        k + 1
    }
}

/// Adding the edge `o -> t` keeps the graph acyclic when `t` does not reach `o`.
pub proof fn lemma_acyclic_add_edge(r1: RegistryView, r2: RegistryView, o: DependencyView, t: DependencyView)
    requires
        acyclic(r1),
        forall|x: DependencyView, y: DependencyView| #[trigger] edge(r2, x, y) ==> edge(r1, x, y) || (x == o && y == t),
        !reaches(r1, t, o),
    ensures
        acyclic(r2),
{
    assert forall|p: Seq<DependencyView>| #[trigger] is_path(r2, p) && p.len() > 1 implies p[0] != p.last() by {
        if p[0] == p.last() {
            let n = p.len() as int;
            let k = lemma_first_new_step(r1, r2, p);
            if k == n - 1 {
                assert(p.subrange(0, n) == p);
            } else {
                assert(step(r2, p, k));
                assert(p[k] == o && p[k + 1] == t);
                let q = p.subrange(k + 1, n) + p.subrange(1, k + 1);
                assert forall|i: int| 0 <= i < q.len() - 1 implies #[trigger] step(r2, q, i) by {
                    if i < n - k - 2 {
                        assert(step(r2, p, k + 1 + i));
                    } else if i == n - k - 2 {
                        assert(q[i] == p[n - 1]);
                        assert(q[i + 1] == p[1]);
                        assert(step(r2, p, 0));
                    } else {
                        let j = i - (n - k - 1) + 1;
                        assert(q[i] == p[j]);
                        assert(q[i + 1] == p[j + 1]);
                        assert(step(r2, p, j));
                    }
                }
                assert(is_path(r2, q));
                assert(q[0] == t);
                assert(q.last() == o);
                let j = lemma_first_new_step(r1, r2, q);
                if j == q.len() - 1 {
                    assert(q.subrange(0, q.len() as int) == q);
                    assert(reaches(r1, t, o));
                } else {
                    assert(step(r2, q, j));
                    let w = q.subrange(0, j + 1);
                    assert(w[0] == t && w.last() == o);
                    assert(reaches(r1, t, o));
                }
            }
        }
    }
}

/// The unit that `e` names is registered.
pub open spec fn owner_exists(r: RegistryView, e: EntryView) -> bool {
    match e {
        EntryView::Executable(p) => r.executables.contains_key(p),
        EntryView::StandaloneModule(p) => r.modules.contains_key(p),
        EntryView::PackageModule(pk, m) => r.packages.contains_key(pk) && r.packages[pk].modules.contains_key(m),
    }
}

/// The graph node of a module entry (an executable is no node).
pub open spec fn owner_node(e: EntryView) -> Option<DependencyView> {
    match e {
        EntryView::Executable(_) => None,
        EntryView::StandaloneModule(p) => Some(DependencyView::Standalone(p)),
        EntryView::PackageModule(pk, m) => Some(DependencyView::Package(pk, m)),
    }
}

/// The edges of the unit that `e` names.
pub open spec fn owner_deps(r: RegistryView, e: EntryView) -> DependencyMap {
    match e {
        EntryView::Executable(p) => r.executables[p],
        EntryView::StandaloneModule(p) => r.modules[p].dependencies,
        EntryView::PackageModule(pk, m) => r.packages[pk].modules[m].1.dependencies,
    }
}

/// The key under which an edge to `d` is stored: the identifier of what it names.
pub open spec fn edge_key(r: RegistryView, d: DependencyView) -> Seq<char> {
    match d {
        DependencyView::Stray(id, _) => id,
        DependencyView::Standalone(p) => r.modules[p].identifier,
        DependencyView::Package(_, m) => m,
    }
}

/// `r` with the edges of the unit `e` replaced by `deps`.
pub open spec fn with_owner_deps(r: RegistryView, e: EntryView, deps: DependencyMap) -> RegistryView {
    match e {
        EntryView::Executable(p) => RegistryView { executables: r.executables.insert(p, deps), ..r },
        EntryView::StandaloneModule(p) => RegistryView {
            modules: r.modules.insert(p, ModuleView { dependencies: deps, ..r.modules[p] }),
            ..r
        },
        EntryView::PackageModule(pk, m) => RegistryView {
            packages: r.packages.insert(
                pk,
                PackageView {
                    modules: r.packages[pk].modules.insert(
                        m,
                        (r.packages[pk].modules[m].0, ModuleView { dependencies: deps, ..r.packages[pk].modules[m].1 }),
                    ),
                    ..r.packages[pk]
                },
            ),
            ..r
        },
    }
}

/// `r` after the edge to `d` is stored at the unit `e`.
pub open spec fn with_edge(r: RegistryView, e: EntryView, d: DependencyView) -> RegistryView {
    with_owner_deps(r, e, owner_deps(r, e).insert(edge_key(r, d), d))
}

/// What adding an edge from `e` to `d` answers: the checks in order.
pub open spec fn add_dependency_result(r: RegistryView, e: EntryView, d: DependencyView) -> Result<(), ModuleError> {
    if !owner_exists(r, e) {
        Err(ModuleError::ReferencedUnitMissing)
    } else if e is PackageModule && !(d is Package) {
        Err(ModuleError::NotAPackageDependency)
    } else if !resolves(r, d) {
        Err(ModuleError::NoSuchDependency)
    } else if d.is_unit() && owner_node(e) is Some && reaches(r, d, owner_node(e).unwrap()) {
        Err(ModuleError::CyclicDependency)
    } else {
        Ok(())
    }
}

/// Changing the edges of one unit keeps domains and identifiers, hence what
/// resolves and how edges are keyed.
proof fn lemma_same_shape(r1: RegistryView, e: EntryView, deps: DependencyMap)
    requires
        owner_exists(r1, e),
    ensures
        ({
            let r2 = with_owner_deps(r1, e, deps);
            &&& forall|d: DependencyView| #[trigger] resolves(r2, d) == resolves(r1, d)
            &&& forall|k: Seq<char>, d: DependencyView| #[trigger] edge_ok(r2, k, d) == edge_ok(r1, k, d)
            &&& r2.modules.dom() == r1.modules.dom()
            &&& r2.packages.dom() == r1.packages.dom()
            &&& r2.executables.dom() == r1.executables.dom()
            &&& forall|p: Seq<char>| #[trigger] r2.modules.contains_key(p) ==> r2.modules[p].identifier == r1.modules[p].identifier
            &&& forall|pk: Seq<char>| #[trigger] r2.packages.contains_key(pk) ==> r2.packages[pk].identifier == r1.packages[pk].identifier
                && r2.packages[pk].modules.dom() == r1.packages[pk].modules.dom()
            &&& forall|pk: Seq<char>, m: Seq<char>| #[trigger] r2.packages.contains_key(pk) && #[trigger] r2.packages[pk].modules.contains_key(m)
                ==> r2.packages[pk].modules[m].1.identifier == r1.packages[pk].modules[m].1.identifier
        }),
{
    let r2 = with_owner_deps(r1, e, deps);
    match e {
        EntryView::Executable(p) => {
            assert(r2.executables.dom() =~= r1.executables.dom());
        },
        EntryView::StandaloneModule(p) => {
            assert(r2.modules.dom() =~= r1.modules.dom());
        },
        EntryView::PackageModule(pk, m) => {
            assert(r2.packages.dom() =~= r1.packages.dom());
            assert(r2.packages[pk].modules.dom() =~= r1.packages[pk].modules.dom());
        },
    }
}

/// The unit `e` now has edges `deps`; every other unit keeps its edges.
proof fn lemma_deps_of_changed(r1: RegistryView, e: EntryView, deps: DependencyMap, x: DependencyView)
    requires
        owner_exists(r1, e),
    ensures
        owner_node(e) == Some(x) ==> deps_of(with_owner_deps(r1, e, deps), x) == deps,
        owner_node(e) != Some(x) ==> deps_of(with_owner_deps(r1, e, deps), x) == deps_of(r1, x),
{
}

/// A successful addition keeps every invariant.
pub proof fn lemma_add_edge_valid(r: RegistryView, e: EntryView, d: DependencyView)
    requires
        valid(r),
        add_dependency_result(r, e, d) is Ok,
    ensures
        valid(with_edge(r, e, d)),
{
    let k = edge_key(r, d);
    let deps = owner_deps(r, e).insert(k, d);
    let r2 = with_edge(r, e, d);
    lemma_same_shape(r, e, deps);
    assert(edge_ok(r, k, d));
    assert(integrity(r2)) by {
        assert forall|p: Seq<char>| #[trigger] r2.modules.contains_key(p) implies deps_ok(r2, r2.modules[p].dependencies) by {
            assert(deps_ok(r, r.modules[p].dependencies));
        }
        assert forall|p: Seq<char>| #[trigger] r2.executables.contains_key(p) implies deps_ok(r2, r2.executables[p]) by {
            assert(deps_ok(r, r.executables[p]));
        }
        assert forall|pk: Seq<char>, m: Seq<char>|
            #[trigger] r2.packages.contains_key(pk) && #[trigger] r2.packages[pk].modules.contains_key(m)
            implies deps_ok(r2, r2.packages[pk].modules[m].1.dependencies) by {
            assert(r.packages[pk].modules.contains_key(m));
            assert(deps_ok(r, r.packages[pk].modules[m].1.dependencies));
        }
    }
    assert(identifiers_unique(r2)) by {
        assert forall|pk: Seq<char>, m: Seq<char>|
            #[trigger] r2.packages.contains_key(pk) && #[trigger] r2.packages[pk].modules.contains_key(m)
            implies r2.packages[pk].modules[m].1.identifier == m by {
            assert(r.packages[pk].modules.contains_key(m));
        }
    }
    assert(package_modules_closed(r2)) by {
        assert forall|pk: Seq<char>, m: Seq<char>|
            #[trigger] r2.packages.contains_key(pk) && #[trigger] r2.packages[pk].modules.contains_key(m)
            implies only_package_edges(r2.packages[pk].modules[m].1.dependencies) by {
            assert(r.packages[pk].modules.contains_key(m));
            assert(only_package_edges(r.packages[pk].modules[m].1.dependencies));
        }
    }
    assert forall|x: DependencyView, y: DependencyView| #[trigger] edge(r2, x, y) implies edge(r, x, y) || (
    Some(x) == owner_node(e) && y == d) by {
        lemma_deps_of_changed(r, e, deps, x);
        if owner_node(e) == Some(x) {
            let kk = choose|kk: Seq<char>| #[trigger] deps.contains_key(kk) && deps[kk] == y;
            if kk != k {
                assert(deps_of(r, x).contains_key(kk));
            }
        }
    }
    if d.is_unit() && owner_node(e) is Some {
        lemma_acyclic_add_edge(r, r2, owner_node(e).unwrap(), d);
    } else {
        lemma_acyclic_fewer_edges(r, r2);
    }
}

/// Every unit of `r` loses the edges hit by a removal of `t`.
pub open spec fn cascade(r: RegistryView, t: DependencyView, w: bool) -> RegistryView {
    RegistryView {
        modules: r.modules.map_values(|m: ModuleView| module_drop(m, t, w)),
        executables: r.executables.map_values(|x: DependencyMap| drop_edges(x, t, w)),
        packages: r.packages.map_values(|pv: PackageView| package_drop(pv, t, w)),
    }
}

/// `r` after the standalone module at source path `p` is removed, with every
/// edge to it.
pub open spec fn without_module(r: RegistryView, p: Seq<char>) -> RegistryView {
    cascade(RegistryView { modules: r.modules.remove(p), ..r }, DependencyView::Standalone(p), false)
}

/// `r` after the package `pk` is removed, with every edge to one of its modules.
pub open spec fn without_package(r: RegistryView, pk: Seq<char>) -> RegistryView {
    cascade(
        RegistryView { packages: r.packages.remove(pk), ..r },
        DependencyView::Package(pk, Seq::empty()),
        true,
    )
}

proof fn lemma_drop_sub(deps: DependencyMap, t: DependencyView, w: bool)
    ensures
        forall|k: Seq<char>| #[trigger] drop_edges(deps, t, w).contains_key(k) ==> deps.contains_key(k)
            && drop_edges(deps, t, w)[k] == deps[k] && !hits(deps[k], t, w),
{
}

/// Removing units from `r` and then every edge hit by `t` keeps the
/// invariants, provided every edge that no longer resolves is hit.
proof fn lemma_cascade_valid(r: RegistryView, r1: RegistryView, t: DependencyView, w: bool)
    requires
        valid(r),
        forall|k: Seq<char>| #[trigger] r1.modules.contains_key(k) ==> r.modules.contains_key(k) && r1.modules[k] == r.modules[k],
        r1.executables == r.executables,
        forall|k: Seq<char>| #[trigger] r1.packages.contains_key(k) ==> r.packages.contains_key(k) && r1.packages[k] == r.packages[k],
        forall|v: DependencyView| resolves(r, v) && !#[trigger] resolves(r1, v) ==> hits(v, t, w),
    ensures
        valid(cascade(r1, t, w)),
{
    let r2 = cascade(r1, t, w);
    assert forall|k: Seq<char>, v: DependencyView| edge_ok(r, k, v) && !hits(v, t, w) implies #[trigger] edge_ok(r2, k, v) by {
        assert(resolves(r, v));
        assert(resolves(r1, v));
        match v {
            DependencyView::Standalone(q) => {
                assert(r1.modules.contains_key(q));
            },
            DependencyView::Package(pk, m) => {
                assert(r1.packages.contains_key(pk));
            },
            _ => {},
        }
    }
    assert(integrity(r2)) by {
        assert forall|p: Seq<char>| #[trigger] r2.modules.contains_key(p) implies deps_ok(r2, r2.modules[p].dependencies) by {
            assert(r.modules.contains_key(p));
            assert(deps_ok(r, r.modules[p].dependencies));
            lemma_drop_sub(r.modules[p].dependencies, t, w);
        }
        assert forall|p: Seq<char>| #[trigger] r2.executables.contains_key(p) implies deps_ok(r2, r2.executables[p]) by {
            assert(deps_ok(r, r.executables[p]));
            lemma_drop_sub(r.executables[p], t, w);
        }
        assert forall|pk: Seq<char>, m: Seq<char>|
            #[trigger] r2.packages.contains_key(pk) && #[trigger] r2.packages[pk].modules.contains_key(m)
            implies deps_ok(r2, r2.packages[pk].modules[m].1.dependencies) by {
            assert(r.packages.contains_key(pk));
            assert(r.packages[pk].modules.contains_key(m));
            assert(deps_ok(r, r.packages[pk].modules[m].1.dependencies));
            lemma_drop_sub(r.packages[pk].modules[m].1.dependencies, t, w);
        }
    }
    assert(identifiers_unique(r2)) by {
        assert forall|pk: Seq<char>| #[trigger] r2.packages.contains_key(pk) implies r2.packages[pk].identifier == pk by {
            assert(r.packages.contains_key(pk));
            assert(r1.packages[pk] == r.packages[pk]);
        }
        assert forall|pk: Seq<char>, m: Seq<char>|
            #[trigger] r2.packages.contains_key(pk) && #[trigger] r2.packages[pk].modules.contains_key(m)
            implies r2.packages[pk].modules[m].1.identifier == m by {
            assert(r.packages.contains_key(pk));
            assert(r1.packages[pk] == r.packages[pk]);
            assert(r.packages[pk].modules.contains_key(m));
        }
        assert forall|p: Seq<char>, q: Seq<char>|
            #[trigger] r2.modules.contains_key(p) && #[trigger] r2.modules.contains_key(q) && p != q
            implies r2.modules[p].identifier != r2.modules[q].identifier by {
            assert(r.modules.contains_key(p) && r.modules.contains_key(q));
            assert(r1.modules[p] == r.modules[p]);
            assert(r1.modules[q] == r.modules[q]);
        }
    }
    assert(package_modules_closed(r2)) by {
        assert forall|pk: Seq<char>, m: Seq<char>|
            #[trigger] r2.packages.contains_key(pk) && #[trigger] r2.packages[pk].modules.contains_key(m)
            implies only_package_edges(r2.packages[pk].modules[m].1.dependencies) by {
            assert(r.packages.contains_key(pk));
            assert(r.packages[pk].modules.contains_key(m));
            assert(only_package_edges(r.packages[pk].modules[m].1.dependencies));
            lemma_drop_sub(r.packages[pk].modules[m].1.dependencies, t, w);
        }
    }
    assert forall|x: DependencyView, y: DependencyView| #[trigger] edge(r2, x, y) implies edge(r, x, y) by {
        let deps = deps_of(r2, x);
        let kk = choose|kk: Seq<char>| #[trigger] deps.contains_key(kk) && deps[kk] == y;
        match x {
            DependencyView::Standalone(p) => {
                lemma_drop_sub(r1.modules[p].dependencies, t, w);
                assert(deps_of(r, x).contains_key(kk));
            },
            DependencyView::Package(pk, m) => {
                assert(r2.packages.contains_key(pk) && r2.packages[pk].modules.contains_key(m));
                assert(r2.packages[pk] == package_drop(r1.packages[pk], t, w));
                assert(r2.packages[pk].modules[m].1 == module_drop(r1.packages[pk].modules[m].1, t, w));
                assert(r1.packages.contains_key(pk));
                assert(r1.packages[pk] == r.packages[pk]);
                assert(r.packages.contains_key(pk) && r.packages[pk].modules.contains_key(m));
                lemma_drop_sub(r1.packages[pk].modules[m].1.dependencies, t, w);
                assert(deps_of(r, x).contains_key(kk));
            },
            _ => {},
        }
    }
    lemma_acyclic_fewer_edges(r, r2);
}

pub proof fn lemma_without_module_valid(r: RegistryView, p: Seq<char>)
    requires
        valid(r),
    ensures
        valid(without_module(r, p)),
{
    let r1 = RegistryView { modules: r.modules.remove(p), ..r };
    lemma_cascade_valid(r, r1, DependencyView::Standalone(p), false);
}

pub proof fn lemma_without_package_valid(r: RegistryView, pk: Seq<char>)
    requires
        valid(r),
    ensures
        valid(without_package(r, pk)),
{
    let r1 = RegistryView { packages: r.packages.remove(pk), ..r };
    lemma_cascade_valid(r, r1, DependencyView::Package(pk, Seq::empty()), true);
}

/// Standalone module identifiers in use.
pub open spec fn module_id_taken(r: RegistryView, id: Seq<char>) -> bool {
    exists|p: Seq<char>| #[trigger] r.modules.contains_key(p) && r.modules[p].identifier == id
}

/// Registering a module without edges under a fresh source path and a fresh
/// identifier keeps the invariants.
pub proof fn lemma_with_module_valid(r: RegistryView, p: Seq<char>, m: ModuleView)
    requires
        valid(r),
        !r.modules.contains_key(p),
        !module_id_taken(r, m.identifier),
        m.dependencies == Map::<Seq<char>, DependencyView>::empty(),
    ensures
        valid(RegistryView { modules: r.modules.insert(p, m), ..r }),
{
    let r2 = RegistryView { modules: r.modules.insert(p, m), ..r };
    assert forall|k: Seq<char>, v: DependencyView| edge_ok(r, k, v) implies #[trigger] edge_ok(r2, k, v) by {}
    assert forall|q: Seq<char>| #[trigger] r2.modules.contains_key(q) implies deps_ok(r2, r2.modules[q].dependencies) by {
        if q != p {
            assert(deps_ok(r, r.modules[q].dependencies));
        }
    }
    assert forall|q: Seq<char>| #[trigger] r2.executables.contains_key(q) implies deps_ok(r2, r2.executables[q]) by {
        assert(deps_ok(r, r.executables[q]));
    }
    assert forall|pk: Seq<char>, x: Seq<char>|
        #[trigger] r2.packages.contains_key(pk) && #[trigger] r2.packages[pk].modules.contains_key(x)
        implies deps_ok(r2, r2.packages[pk].modules[x].1.dependencies) by {
        assert(deps_ok(r, r.packages[pk].modules[x].1.dependencies));
    }
    assert forall|a: Seq<char>, b: Seq<char>|
        #[trigger] r2.modules.contains_key(a) && #[trigger] r2.modules.contains_key(b) && a != b
        implies r2.modules[a].identifier != r2.modules[b].identifier by {
        if a == p {
            assert(r.modules.contains_key(b));
        } else if b == p {
            assert(r.modules.contains_key(a));
        }
    }
    assert forall|x: DependencyView, y: DependencyView| #[trigger] edge(r2, x, y) implies edge(r, x, y) by {
        assert(deps_of(r2, x) == deps_of(r, x));
    }
    lemma_acyclic_fewer_edges(r, r2);
}

/// Registering an executable without edges keeps the invariants.
pub proof fn lemma_with_executable_valid(r: RegistryView, p: Seq<char>)
    requires
        valid(r),
    ensures
        valid(RegistryView { executables: r.executables.insert(p, Map::empty()), ..r }),
{
    let r2 = RegistryView { executables: r.executables.insert(p, Map::empty()), ..r };
    assert forall|q: Seq<char>| #[trigger] r2.executables.contains_key(q) implies deps_ok(r2, r2.executables[q]) by {
        if q != p {
            assert(deps_ok(r, r.executables[q]));
        }
    }
    assert forall|x: DependencyView, y: DependencyView| #[trigger] edge(r2, x, y) implies edge(r, x, y) by {
        assert(deps_of(r2, x) == deps_of(r, x));
    }
    lemma_acyclic_fewer_edges(r, r2);
}

/// Removing an executable keeps the invariants: nothing depends on it.
pub proof fn lemma_without_executable_valid(r: RegistryView, p: Seq<char>)
    requires
        valid(r),
    ensures
        valid(RegistryView { executables: r.executables.remove(p), ..r }),
{
    let r2 = RegistryView { executables: r.executables.remove(p), ..r };
    assert forall|q: Seq<char>| #[trigger] r2.executables.contains_key(q) implies deps_ok(r2, r2.executables[q]) by {
        assert(deps_ok(r, r.executables[q]));
    }
    assert forall|x: DependencyView, y: DependencyView| #[trigger] edge(r2, x, y) implies edge(r, x, y) by {
        assert(deps_of(r2, x) == deps_of(r, x));
    }
    lemma_acyclic_fewer_edges(r, r2);
}

/// The standalone modules under `root`: source path to identifier.
pub open spec fn moved_modules(r: RegistryView, root: Seq<char>) -> Map<Seq<char>, Seq<char>> {
    Map::new(|p: Seq<char>| r.modules.contains_key(p) && under_root(p, root), |p: Seq<char>| r.modules[p].identifier)
}

/// Where the build output of package module `m` goes, relative to the package root.
pub open spec fn package_output(m: Seq<char>) -> Seq<char> {
    joined(m, "output"@)
}

/// The source path of the moved module with identifier `m`.
pub open spec fn moved_source(r: RegistryView, root: Seq<char>, m: Seq<char>) -> Seq<char> {
    choose|p: Seq<char>| #[trigger] moved_modules(r, root).contains_key(p) && moved_modules(r, root)[p] == m
}

/// The modules of the new package: each standalone module under `root`, by
/// identifier, with its source path relative to the root, its output under
/// the package, and its edges.
pub open spec fn package_modules(r: RegistryView, root: Seq<char>) -> Map<Seq<char>, (Seq<char>, ModuleView)> {
    Map::new(
        |m: Seq<char>| exists|p: Seq<char>| #[trigger] moved_modules(r, root).contains_key(p) && moved_modules(r, root)[p] == m,
        |m: Seq<char>| (
            relative_to(moved_source(r, root, m), root),
            ModuleView {
                identifier: m,
                output_location: package_output(m),
                dependencies: r.modules[moved_source(r, root, m)].dependencies,
            },
        ),
    )
}

/// `r` after the standalone modules under `root` became the modules of a new
/// package `id`, and every edge to one of them was redirected into the package.
pub open spec fn packaged(r: RegistryView, id: Seq<char>, root: Seq<char>, compiler: Seq<char>, option: Seq<char>) -> RegistryView {
    let mv = moved_modules(r, root);
    RegistryView {
        modules: Map::new(
            |p: Seq<char>| r.modules.contains_key(p) && !under_root(p, root),
            |p: Seq<char>| ModuleView {
                dependencies: r.modules[p].dependencies.map_values(|v: DependencyView| promoted(mv, id, v)),
                ..r.modules[p]
            },
        ),
        executables: r.executables.map_values(|x: DependencyMap| x.map_values(|v: DependencyView| promoted(mv, id, v))),
        packages: r.packages.insert(
            id,
            PackageView {
                identifier: id,
                package_root: root,
                version: Version::NotVersioned,
                compiler_command_name: compiler,
                output_option: option,
                remote_location: None,
                modules: package_modules(r, root),
            },
        ),
    }
}

/// What packaging answers: the package must be new, and every module under
/// the root may depend on package modules only.
pub open spec fn package_result(r: RegistryView, id: Seq<char>, root: Seq<char>) -> Result<(), PackageError> {
    if r.packages.contains_key(id) {
        Err(PackageError::PackageAlreadyInRegistry)
    } else if exists|p: Seq<char>| #[trigger] moved_modules(r, root).contains_key(p) && !only_package_edges(r.modules[p].dependencies) {
        Err(PackageError::NonPackageDependency)
    } else {
        Ok(())
    }
}

pub proof fn lemma_moved_source(r: RegistryView, root: Seq<char>, q: Seq<char>)
    requires
        valid(r),
        moved_modules(r, root).contains_key(q),
    ensures
        moved_source(r, root, r.modules[q].identifier) == q,
        package_modules(r, root).contains_key(r.modules[q].identifier),
{
    let mv = moved_modules(r, root);
    let m = r.modules[q].identifier;
    assert(mv.contains_key(q) && mv[q] == m);
    let q2 = moved_source(r, root, m);
    assert(mv.contains_key(q2) && mv[q2] == m);
    assert(r.modules.contains_key(q2) && r.modules.contains_key(q));
}

pub proof fn lemma_package_module_source(r: RegistryView, root: Seq<char>, m: Seq<char>)
    requires
        package_modules(r, root).contains_key(m),
    ensures
        moved_modules(r, root).contains_key(moved_source(r, root, m)),
        moved_modules(r, root)[moved_source(r, root, m)] == m,
        r.modules.contains_key(moved_source(r, root, m)),
        r.modules[moved_source(r, root, m)].identifier == m,
{
}

/// An edge that was well keyed and resolved still is, once redirected.
proof fn lemma_promoted_edge_ok(r: RegistryView, id: Seq<char>, root: Seq<char>, compiler: Seq<char>, option: Seq<char>, k: Seq<char>, v: DependencyView)
    requires
        valid(r),
        !r.packages.contains_key(id),
        edge_ok(r, k, v),
    ensures
        edge_ok(packaged(r, id, root, compiler, option), k, promoted(moved_modules(r, root), id, v)),
{
    let r2 = packaged(r, id, root, compiler, option);
    let mv = moved_modules(r, root);
    match v {
        DependencyView::Standalone(q) => {
            if mv.contains_key(q) {
                lemma_moved_source(r, root, q);
            } else {
                assert(r2.modules.contains_key(q));
            }
        },
        DependencyView::Package(pk, m) => {
            assert(pk != id);
            assert(r2.packages[pk] == r.packages[pk]);
        },
        _ => {},
    }
}

/// Packaging keeps every invariant.
pub proof fn lemma_packaged_valid(r: RegistryView, id: Seq<char>, root: Seq<char>, compiler: Seq<char>, option: Seq<char>)
    requires
        valid(r),
        package_result(r, id, root) is Ok,
    ensures
        valid(packaged(r, id, root, compiler, option)),
{
    let r2 = packaged(r, id, root, compiler, option);
    let mv = moved_modules(r, root);
    assert(integrity(r2)) by {
        assert forall|p: Seq<char>| #[trigger] r2.modules.contains_key(p) implies deps_ok(r2, r2.modules[p].dependencies) by {
            assert(deps_ok(r, r.modules[p].dependencies));
            assert forall|k: Seq<char>| #[trigger] r2.modules[p].dependencies.contains_key(k) implies edge_ok(r2, k, r2.modules[p].dependencies[k]) by {
                lemma_promoted_edge_ok(r, id, root, compiler, option, k, r.modules[p].dependencies[k]);
            }
        }
        assert forall|p: Seq<char>| #[trigger] r2.executables.contains_key(p) implies deps_ok(r2, r2.executables[p]) by {
            assert(deps_ok(r, r.executables[p]));
            assert forall|k: Seq<char>| #[trigger] r2.executables[p].contains_key(k) implies edge_ok(r2, k, r2.executables[p][k]) by {
                lemma_promoted_edge_ok(r, id, root, compiler, option, k, r.executables[p][k]);
            }
        }
        assert forall|pk: Seq<char>, m: Seq<char>|
            #[trigger] r2.packages.contains_key(pk) && #[trigger] r2.packages[pk].modules.contains_key(m)
            implies deps_ok(r2, r2.packages[pk].modules[m].1.dependencies) by {
            let deps = r2.packages[pk].modules[m].1.dependencies;
            if pk == id {
                lemma_package_module_source(r, root, m);
                let q = moved_source(r, root, m);
                assert(deps_ok(r, r.modules[q].dependencies));
                assert(only_package_edges(r.modules[q].dependencies));
                assert forall|k: Seq<char>| #[trigger] deps.contains_key(k) implies edge_ok(r2, k, deps[k]) by {
                    lemma_promoted_edge_ok(r, id, root, compiler, option, k, deps[k]);
                }
            } else {
                assert(r2.packages[pk] == r.packages[pk]);
                assert(deps_ok(r, deps));
                assert(only_package_edges(deps));
                assert forall|k: Seq<char>| #[trigger] deps.contains_key(k) implies edge_ok(r2, k, deps[k]) by {
                    lemma_promoted_edge_ok(r, id, root, compiler, option, k, deps[k]);
                }
            }
        }
    }
    assert(identifiers_unique(r2)) by {
        assert forall|pk: Seq<char>, m: Seq<char>|
            #[trigger] r2.packages.contains_key(pk) && #[trigger] r2.packages[pk].modules.contains_key(m)
            implies r2.packages[pk].modules[m].1.identifier == m by {
            if pk != id {
                assert(r2.packages[pk] == r.packages[pk]);
            }
        }
        assert forall|pk: Seq<char>| #[trigger] r2.packages.contains_key(pk) implies r2.packages[pk].identifier == pk by {}
    }
    assert(package_modules_closed(r2)) by {
        assert forall|pk: Seq<char>, m: Seq<char>|
            #[trigger] r2.packages.contains_key(pk) && #[trigger] r2.packages[pk].modules.contains_key(m)
            implies only_package_edges(r2.packages[pk].modules[m].1.dependencies) by {
            if pk == id {
                lemma_package_module_source(r, root, m);
            } else {
                assert(r2.packages[pk] == r.packages[pk]);
            }
        }
    }
    let g = |x: DependencyView| match x {
        DependencyView::Package(pk, m) => if pk == id {
            DependencyView::Standalone(moved_source(r, root, m))
        } else {
            x
        },
        _ => x,
    };
    assert forall|x: DependencyView, y: DependencyView| #[trigger] edge(r2, x, y) implies edge(r, g(x), g(y)) by {
        let deps = deps_of(r2, x);
        let kk = choose|kk: Seq<char>| #[trigger] deps.contains_key(kk) && deps[kk] == y;
        match x {
            DependencyView::Standalone(p) => {
                let v = r.modules[p].dependencies[kk];
                assert(deps_of(r, x).contains_key(kk));
                assert(edge(r, x, v));
                lemma_edge_resolves(r, x, v);
                if let DependencyView::Standalone(q) = v {
                    if mv.contains_key(q) {
                        lemma_moved_source(r, root, q);
                    }
                }
                assert(g(y) == v);
            },
            DependencyView::Package(pk, m) => {
                if pk == id {
                    lemma_package_module_source(r, root, m);
                    let q = moved_source(r, root, m);
                    assert(deps_of(r, g(x)) == r.modules[q].dependencies);
                    assert(deps_of(r, g(x)).contains_key(kk));
                    assert(edge(r, g(x), y));
                    lemma_edge_resolves(r, g(x), y);
                    assert(only_package_edges(r.modules[q].dependencies));
                } else {
                    assert(r2.packages[pk] == r.packages[pk]);
                    assert(deps_of(r, x).contains_key(kk));
                    assert(edge(r, x, y));
                    lemma_edge_resolves(r, x, y);
                    assert(package_modules_closed(r));
                    assert(only_package_edges(r.packages[pk].modules[m].1.dependencies));
                }
            },
            _ => {},
        }
    }
    lemma_acyclic_renamed(r, r2, g);
}

/// Changing what a package records about itself (its version, its remote)
/// keeps the invariants.
pub proof fn lemma_package_meta_valid(r: RegistryView, pk: Seq<char>, pv: PackageView)
    requires
        valid(r),
        r.packages.contains_key(pk),
        pv.identifier == r.packages[pk].identifier,
        pv.modules == r.packages[pk].modules,
    ensures
        valid(RegistryView { packages: r.packages.insert(pk, pv), ..r }),
{
    let r2 = RegistryView { packages: r.packages.insert(pk, pv), ..r };
    assert forall|k: Seq<char>, v: DependencyView| edge_ok(r, k, v) implies #[trigger] edge_ok(r2, k, v) by {}
    assert forall|p: Seq<char>| #[trigger] r2.modules.contains_key(p) implies deps_ok(r2, r2.modules[p].dependencies) by {
        assert(deps_ok(r, r.modules[p].dependencies));
    }
    assert forall|p: Seq<char>| #[trigger] r2.executables.contains_key(p) implies deps_ok(r2, r2.executables[p]) by {
        assert(deps_ok(r, r.executables[p]));
    }
    assert forall|q: Seq<char>, m: Seq<char>|
        #[trigger] r2.packages.contains_key(q) && #[trigger] r2.packages[q].modules.contains_key(m)
        implies deps_ok(r2, r2.packages[q].modules[m].1.dependencies) by {
        assert(deps_ok(r, r.packages[q].modules[m].1.dependencies));
    }
    assert forall|q: Seq<char>, m: Seq<char>|
        #[trigger] r2.packages.contains_key(q) && #[trigger] r2.packages[q].modules.contains_key(m)
        implies only_package_edges(r2.packages[q].modules[m].1.dependencies) && r2.packages[q].modules[m].1.identifier == m by {
        assert(r.packages[q].modules.contains_key(m));
    }
    assert forall|x: DependencyView, y: DependencyView| #[trigger] edge(r2, x, y) implies edge(r, x, y) by {
        assert(deps_of(r2, x) == deps_of(r, x));
    }
    lemma_acyclic_fewer_edges(r, r2);
}

/// Registering a new package whose modules have no edges yet keeps the invariants.
pub proof fn lemma_with_package_valid(r: RegistryView, pk: Seq<char>, pv: PackageView)
    requires
        valid(r),
        !r.packages.contains_key(pk),
        pv.identifier == pk,
        forall|m: Seq<char>| #[trigger] pv.modules.contains_key(m) ==> pv.modules[m].1.identifier == m
            && pv.modules[m].1.dependencies == Map::<Seq<char>, DependencyView>::empty(),
    ensures
        valid(RegistryView { packages: r.packages.insert(pk, pv), ..r }),
{
    let r2 = RegistryView { packages: r.packages.insert(pk, pv), ..r };
    assert forall|k: Seq<char>, v: DependencyView| edge_ok(r, k, v) implies #[trigger] edge_ok(r2, k, v) by {
        if let DependencyView::Package(q, m) = v {
            assert(q != pk);
        }
    }
    assert forall|p: Seq<char>| #[trigger] r2.modules.contains_key(p) implies deps_ok(r2, r2.modules[p].dependencies) by {
        assert(deps_ok(r, r.modules[p].dependencies));
    }
    assert forall|p: Seq<char>| #[trigger] r2.executables.contains_key(p) implies deps_ok(r2, r2.executables[p]) by {
        assert(deps_ok(r, r.executables[p]));
    }
    assert forall|q: Seq<char>, m: Seq<char>|
        #[trigger] r2.packages.contains_key(q) && #[trigger] r2.packages[q].modules.contains_key(m)
        implies deps_ok(r2, r2.packages[q].modules[m].1.dependencies) && only_package_edges(r2.packages[q].modules[m].1.dependencies)
            && r2.packages[q].modules[m].1.identifier == m by {
        if q != pk {
            assert(deps_ok(r, r.packages[q].modules[m].1.dependencies));
            assert(r.packages[q].modules.contains_key(m));
        }
    }
    assert forall|x: DependencyView, y: DependencyView| #[trigger] edge(r2, x, y) implies edge(r, x, y) by {
        let deps = deps_of(r2, x);
        let kk = choose|kk: Seq<char>| #[trigger] deps.contains_key(kk) && deps[kk] == y;
        if let DependencyView::Package(q, m) = x {
            if q == pk {
                assert(deps == Map::<Seq<char>, DependencyView>::empty());
            }
        }
        assert(deps_of(r2, x) == deps_of(r, x));
    }
    lemma_acyclic_fewer_edges(r, r2);
}

/// Removing one edge of a unit keeps the invariants.
pub proof fn lemma_remove_edge_valid(r: RegistryView, e: EntryView, id: Seq<char>, d: DependencyView)
    requires
        valid(r),
        owner_exists(r, e),
    ensures
        valid(with_owner_deps(r, e, without_edge(owner_deps(r, e), id, d))),
{
    let deps = without_edge(owner_deps(r, e), id, d);
    let r2 = with_owner_deps(r, e, deps);
    lemma_same_shape(r, e, deps);
    assert forall|k: Seq<char>| #[trigger] deps.contains_key(k) implies owner_deps(r, e).contains_key(k) && deps[k] == owner_deps(r, e)[k] by {}
    assert(integrity(r2)) by {
        assert forall|p: Seq<char>| #[trigger] r2.modules.contains_key(p) implies deps_ok(r2, r2.modules[p].dependencies) by {
            assert(deps_ok(r, r.modules[p].dependencies));
        }
        assert forall|p: Seq<char>| #[trigger] r2.executables.contains_key(p) implies deps_ok(r2, r2.executables[p]) by {
            assert(deps_ok(r, r.executables[p]));
        }
        assert forall|pk: Seq<char>, m: Seq<char>|
            #[trigger] r2.packages.contains_key(pk) && #[trigger] r2.packages[pk].modules.contains_key(m)
            implies deps_ok(r2, r2.packages[pk].modules[m].1.dependencies) by {
            assert(r.packages[pk].modules.contains_key(m));
            assert(deps_ok(r, r.packages[pk].modules[m].1.dependencies));
        }
    }
    assert(identifiers_unique(r2)) by {
        assert forall|pk: Seq<char>, m: Seq<char>|
            #[trigger] r2.packages.contains_key(pk) && #[trigger] r2.packages[pk].modules.contains_key(m)
            implies r2.packages[pk].modules[m].1.identifier == m by {
            assert(r.packages[pk].modules.contains_key(m));
        }
    }
    assert(package_modules_closed(r2)) by {
        assert forall|pk: Seq<char>, m: Seq<char>|
            #[trigger] r2.packages.contains_key(pk) && #[trigger] r2.packages[pk].modules.contains_key(m)
            implies only_package_edges(r2.packages[pk].modules[m].1.dependencies) by {
            assert(r.packages[pk].modules.contains_key(m));
            assert(only_package_edges(r.packages[pk].modules[m].1.dependencies));
        }
    }
    assert forall|x: DependencyView, y: DependencyView| #[trigger] edge(r2, x, y) implies edge(r, x, y) by {
        lemma_deps_of_changed(r, e, deps, x);
        if owner_node(e) == Some(x) {
            let kk = choose|kk: Seq<char>| #[trigger] deps.contains_key(kk) && deps[kk] == y;
            assert(deps_of(r, x).contains_key(kk));
        }
    }
    lemma_acyclic_fewer_edges(r, r2);
}

} // verus!

use vstd::prelude::*;
use crate::dependency::{DependencyView, only_package_edges, promoted};
use crate::entry::EntryView;
use crate::error::ModuleError;
use crate::graph::{
    RegistryView, acyclic, add_dependency_result, deps_of, deps_ok, edge, edge_key, edge_ok,
    integrity, is_path, lemma_add_edge_valid, lemma_moved_source, lemma_package_module_source,
    lemma_packaged_valid, lemma_reaches_self, lemma_without_module_valid,
    lemma_without_package_valid, moved_modules, owner_deps, owner_node, package_result, packaged,
    reaches, resolves, step, valid, with_edge, with_owner_deps, without_module, without_package,
};
use crate::text::under_root;
use crate::module::ModuleView;
use crate::package::PackageView;

verus! {

/// Every edge stored at a unit of `r`.
pub open spec fn stored_edge(r: RegistryView, d: DependencyView) -> bool {
    ||| exists|p: Seq<char>, k: Seq<char>| #[trigger] r.modules.contains_key(p)
        && #[trigger] r.modules[p].dependencies.contains_key(k) && r.modules[p].dependencies[k] == d
    ||| exists|p: Seq<char>, k: Seq<char>| #[trigger] r.executables.contains_key(p)
        && #[trigger] r.executables[p].contains_key(k) && r.executables[p][k] == d
    ||| exists|pk: Seq<char>, m: Seq<char>, k: Seq<char>| #[trigger] r.packages.contains_key(pk)
        && #[trigger] r.packages[pk].modules.contains_key(m)
        && #[trigger] r.packages[pk].modules[m].1.dependencies.contains_key(k)
        && r.packages[pk].modules[m].1.dependencies[k] == d
}

/// Referential integrity: in a registry that keeps its invariants, every
/// edge stored anywhere names a unit that exists (stray edges aside).
pub proof fn law_edges_resolve(r: RegistryView, d: DependencyView)
    requires
        valid(r),
        stored_edge(r, d),
    ensures
        resolves(r, d),
{
    if exists|p: Seq<char>, k: Seq<char>| #[trigger] r.modules.contains_key(p)
        && #[trigger] r.modules[p].dependencies.contains_key(k) && r.modules[p].dependencies[k] == d {
        let (p, k) = choose|p: Seq<char>, k: Seq<char>| #[trigger] r.modules.contains_key(p)
            && #[trigger] r.modules[p].dependencies.contains_key(k) && r.modules[p].dependencies[k] == d;
        assert(deps_ok(r, r.modules[p].dependencies));
        assert(edge_ok(r, k, d));
    } else if exists|p: Seq<char>, k: Seq<char>| #[trigger] r.executables.contains_key(p)
        && #[trigger] r.executables[p].contains_key(k) && r.executables[p][k] == d {
        let (p, k) = choose|p: Seq<char>, k: Seq<char>| #[trigger] r.executables.contains_key(p)
            && #[trigger] r.executables[p].contains_key(k) && r.executables[p][k] == d;
        assert(deps_ok(r, r.executables[p]));
        assert(edge_ok(r, k, d));
    } else {
        let (pk, m, k) = choose|pk: Seq<char>, m: Seq<char>, k: Seq<char>| #[trigger] r.packages.contains_key(pk)
            && #[trigger] r.packages[pk].modules.contains_key(m)
            && #[trigger] r.packages[pk].modules[m].1.dependencies.contains_key(k)
            && r.packages[pk].modules[m].1.dependencies[k] == d;
        assert(deps_ok(r, r.packages[pk].modules[m].1.dependencies));
        assert(edge_ok(r, k, d));
    }
}

/// After a standalone module is removed no edge names it any more.
pub proof fn law_no_dangling_after_module_removal(r: RegistryView, p: Seq<char>)
    requires
        valid(r),
        r.modules.contains_key(p),
    ensures
        valid(without_module(r, p)),
        !stored_edge(without_module(r, p), DependencyView::Standalone(p)),
{
    lemma_without_module_valid(r, p);
    if stored_edge(without_module(r, p), DependencyView::Standalone(p)) {
        law_edges_resolve(without_module(r, p), DependencyView::Standalone(p));
    }
}

/// After a package is removed no edge names one of its modules any more.
pub proof fn law_no_dangling_after_package_removal(r: RegistryView, pk: Seq<char>, m: Seq<char>)
    requires
        valid(r),
        r.packages.contains_key(pk),
    ensures
        valid(without_package(r, pk)),
        !stored_edge(without_package(r, pk), DependencyView::Package(pk, m)),
{
    lemma_without_package_valid(r, pk);
    if stored_edge(without_package(r, pk), DependencyView::Package(pk, m)) {
        law_edges_resolve(without_package(r, pk), DependencyView::Package(pk, m));
    }
}

/// Acyclicity: an addition that succeeds leaves a registry that keeps every
/// invariant, acyclicity among them.
pub proof fn law_add_keeps_acyclic(r: RegistryView, e: EntryView, d: DependencyView)
    requires
        valid(r),
        add_dependency_result(r, e, d) is Ok,
    ensures
        valid(with_edge(r, e, d)),
        acyclic(with_edge(r, e, d)),
{
    lemma_add_edge_valid(r, e, d);
}

/// A module cannot depend on itself.
pub proof fn law_self_dependency_rejected(r: RegistryView, a: Seq<char>)
    requires
        valid(r),
        r.modules.contains_key(a),
    ensures
        add_dependency_result(r, EntryView::StandaloneModule(a), DependencyView::Standalone(a))
            == Err::<(), ModuleError>(ModuleError::CyclicDependency),
{
    lemma_reaches_self(r, DependencyView::Standalone(a));
}

/// Once `a` depends on `b`, adding the reverse edge `b -> a` fails as cyclic.
pub proof fn law_reverse_dependency_rejected(r: RegistryView, a: Seq<char>, b: Seq<char>)
    requires
        valid(r),
        r.modules.contains_key(a),
        r.modules.contains_key(b),
        add_dependency_result(r, EntryView::StandaloneModule(a), DependencyView::Standalone(b)) is Ok,
    ensures
        add_dependency_result(
            with_edge(r, EntryView::StandaloneModule(a), DependencyView::Standalone(b)),
            EntryView::StandaloneModule(b),
            DependencyView::Standalone(a),
        ) == Err::<(), ModuleError>(ModuleError::CyclicDependency),
{
    let e = EntryView::StandaloneModule(a);
    let da = DependencyView::Standalone(a);
    let db = DependencyView::Standalone(b);
    let r2 = with_edge(r, e, db);
    lemma_add_edge_valid(r, e, db);
    let k = edge_key(r, db);
    assert(deps_of(r2, da).contains_key(k) && deps_of(r2, da)[k] == db);
    assert(edge(r2, da, db));
    let p = seq![da, db];
    assert(step(r2, p, 0));
    assert(is_path(r2, p));
    assert(reaches(r2, da, db));
}

/// Adding an edge twice is the same as adding it once, and the second
/// addition succeeds too.
pub proof fn law_idempotent_add(r: RegistryView, e: EntryView, d: DependencyView)
    requires
        valid(r),
        add_dependency_result(r, e, d) is Ok,
    ensures
        add_dependency_result(with_edge(r, e, d), e, d) is Ok,
        with_edge(with_edge(r, e, d), e, d) == with_edge(r, e, d),
{
    let r2 = with_edge(r, e, d);
    lemma_add_edge_valid(r, e, d);
    assert(edge_key(r2, d) == edge_key(r, d));
    assert(owner_deps(r2, e) == owner_deps(r, e).insert(edge_key(r, d), d));
    assert(owner_deps(r2, e).insert(edge_key(r, d), d) =~= owner_deps(r2, e));
    if d.is_unit() && owner_node(e) is Some {
        let o = owner_node(e).unwrap();
        assert(deps_of(r2, o).contains_key(edge_key(r, d)));
        assert(edge(r2, o, d));
        if reaches(r2, d, o) {
            let p = choose|p: Seq<DependencyView>| #[trigger] is_path(r2, p) && p[0] == d && p.last() == o;
            let q = seq![o] + p;
            assert forall|i: int| 0 <= i < q.len() - 1 implies #[trigger] step(r2, q, i) by {
                if i > 0 {
                    assert(step(r2, p, i - 1));
                }
            }
            assert(is_path(r2, q));
            assert(q.last() == o);
        }
    }
    assert(with_edge(r2, e, d) == with_owner_deps(r2, e, owner_deps(r2, e)));
    match e {
        EntryView::Executable(p) => {
            assert(r2.executables.insert(p, r2.executables[p]) =~= r2.executables);
        },
        EntryView::StandaloneModule(p) => {
            assert(r2.modules.insert(p, ModuleView { dependencies: r2.modules[p].dependencies, ..r2.modules[p] }) =~= r2.modules);
        },
        EntryView::PackageModule(pk, m) => {
            let pv = r2.packages[pk];
            assert(pv.modules.insert(m, (pv.modules[m].0, ModuleView { dependencies: pv.modules[m].1.dependencies, ..pv.modules[m].1 })) =~= pv.modules);
            assert(r2.packages.insert(pk, PackageView { modules: pv.modules, ..pv }) =~= r2.packages);
        },
    }
}

/// Promotion: once the standalone modules under `root` become package `id`,
/// each of them is a module of `id` and no longer standalone, and no module
/// of `id` has an edge to a standalone module.
pub proof fn law_promotion_moves_modules(r: RegistryView, id: Seq<char>, root: Seq<char>, compiler: Seq<char>, option: Seq<char>, q: Seq<char>)
    requires
        valid(r),
        package_result(r, id, root) is Ok,
        r.modules.contains_key(q),
        under_root(q, root),
    ensures
        valid(packaged(r, id, root, compiler, option)),
        packaged(r, id, root, compiler, option).packages[id].modules.contains_key(r.modules[q].identifier),
        packaged(r, id, root, compiler, option).packages[id].modules[r.modules[q].identifier].1.dependencies == r.modules[q].dependencies,
        !packaged(r, id, root, compiler, option).modules.contains_key(q),
        forall|m: Seq<char>| #[trigger] packaged(r, id, root, compiler, option).packages[id].modules.contains_key(m)
            ==> only_package_edges(packaged(r, id, root, compiler, option).packages[id].modules[m].1.dependencies),
{
    lemma_packaged_valid(r, id, root, compiler, option);
    assert(moved_modules(r, root).contains_key(q));
    lemma_moved_source(r, root, q);
    let r2 = packaged(r, id, root, compiler, option);
    assert forall|m: Seq<char>| #[trigger] r2.packages[id].modules.contains_key(m)
        implies only_package_edges(r2.packages[id].modules[m].1.dependencies) by {
        lemma_package_module_source(r, root, m);
    }
}

/// Promotion: a module outside `root` that depended on a module under `root`
/// now depends, under the same key, on that module in package `id`.
pub proof fn law_promotion_redirects_edges(r: RegistryView, id: Seq<char>, root: Seq<char>, compiler: Seq<char>, option: Seq<char>, c: Seq<char>, k: Seq<char>, q: Seq<char>)
    requires
        valid(r),
        package_result(r, id, root) is Ok,
        r.modules.contains_key(c),
        !under_root(c, root),
        r.modules.contains_key(q),
        under_root(q, root),
        r.modules[c].dependencies.contains_key(k),
        r.modules[c].dependencies[k] == DependencyView::Standalone(q),
    ensures
        packaged(r, id, root, compiler, option).modules.contains_key(c),
        packaged(r, id, root, compiler, option).modules[c].dependencies.contains_key(k),
        packaged(r, id, root, compiler, option).modules[c].dependencies[k] == DependencyView::Package(id, r.modules[q].identifier),
{
    assert(moved_modules(r, root).contains_key(q));
    assert(promoted(moved_modules(r, root), id, DependencyView::Standalone(q)) == DependencyView::Package(id, r.modules[q].identifier));
}

} // verus!

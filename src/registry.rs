use vstd::prelude::*;
use crate::dependency::{Dependency, DependencyView};
use crate::entry::Entry;
use crate::error::{ModuleError, PackageError, RegistryError};
use crate::graph::{
    RegistryView, add_dependency_result, cascade, lemma_without_module_valid,
    lemma_without_package_valid, without_module, without_package, lemma_with_module_valid,
    lemma_with_executable_valid, lemma_without_executable_valid, module_id_taken,
    lemma_packaged_valid, moved_modules, package_modules, package_result, packaged,
    lemma_moved_source, moved_source, lemma_package_meta_valid, lemma_with_package_valid, lemma_remove_edge_valid, deps_of, edge, edge_key, empty_registry,
    lemma_add_edge_valid, lemma_closed_set, lemma_edge_resolves, lemma_empty_valid, lemma_reaches_self,
    lemma_reaches_step, owner_deps, owner_exists, owner_node, reaches, resolves, valid,
    with_edge, with_owner_deps,
};
use crate::module::{Executable, ModuleView, PackageModule, StandaloneModule};
use crate::package::{Package, PackageView, module_drop, package_drop};
use crate::version::{SemVerIncrement, Version, incrementable, incremented};
use crate::text::{absolute_path, extension, extension_of, is_absolute};
use crate::dependency::only_package_edges;
use crate::dependency::{DependencyMap, drop_edges, promoted, without_edge};
use crate::table::Table;
use crate::text::{join, starts_with, str_eq, strip_root, under_root, relative_to};

verus! {

/// All standalone modules, executables and packages, with the dependency
/// edges between them.
pub struct Registry {
    modules: Table<StandaloneModule>,
    executables: Table<Executable>,
    packages: Table<Package>,
}

impl View for Registry {
    type V = RegistryView;

    closed spec fn view(&self) -> RegistryView {
        RegistryView {
            modules: self.modules@,
            executables: self.executables@,
            packages: self.packages@,
        }
    }
}

/// Where a registry may be stored: an absolute path to a file with the
/// extension `json`.
pub open spec fn registry_path_result(path: Seq<char>) -> Result<(), RegistryError> {
    if !absolute_path(path) {
        Err(RegistryError::RegistryPathNotAbsolute)
    } else if extension_of(path) is None {
        Err(RegistryError::RegistryPathNotFile)
    } else if extension_of(path) != Some("json"@) {
        Err(RegistryError::RegistryPathNotJSON)
    } else {
        Ok(())
    }
}

/// Checks a location for the registry file before it is written.
pub fn check_registry_path(path: &str) -> (r: Result<(), RegistryError>)
    ensures
        r == registry_path_result(path@),
{
    if !is_absolute(path) {
        return Err(RegistryError::RegistryPathNotAbsolute);
    }
    match extension(path) {
        None => Err(RegistryError::RegistryPathNotFile),
        Some(e) => if str_eq(e.as_str(), "json") {
            Ok(())
        } else {
            Err(RegistryError::RegistryPathNotJSON)
        },
    }
}

/// Number of `false` entries.
spec fn count_false(s: Seq<bool>) -> nat
    decreases s.len(),
{
    if s.len() == 0 {
        0
    } else {
        count_false(s.drop_last()) + if s.last() {
            0nat
        } else {
            1nat
        }
    }
}

proof fn lemma_count_false_set(s: Seq<bool>, i: int)
    requires
        0 <= i < s.len(),
        !s[i],
    ensures
        count_false(s.update(i, true)) + 1 == count_false(s),
    decreases s.len(),
{
    if i == s.len() - 1 {
        assert(s.update(i, true).drop_last() =~= s.drop_last());
    } else {
        lemma_count_false_set(s.drop_last(), i);
        assert(s.update(i, true).drop_last() =~= s.drop_last().update(i, true));
    }
}

/// The units whose positions are marked in `visited`.
spec fn marked(nodes: Seq<Dependency>, visited: Seq<bool>) -> Set<DependencyView> {
    Set::new(|c: DependencyView| exists|l: int| 0 <= l < nodes.len() && visited[l] && #[trigger] nodes[l]@ == c)
}

/// Every unit that the unit at position `i` depends on is marked.
spec fn expanded(r: RegistryView, nodes: Seq<Dependency>, visited: Seq<bool>, i: int) -> bool {
    forall|c: DependencyView| #[trigger] edge(r, nodes[i]@, c) ==> marked(nodes, visited).contains(c)
}

/// `nodes` lists exactly the units of `r`.
spec fn lists_units(r: RegistryView, nodes: Seq<Dependency>) -> bool {
    &&& forall|i: int| 0 <= i < nodes.len() ==> (#[trigger] nodes[i])@.is_unit() && resolves(r, nodes[i]@)
    &&& forall|d: DependencyView| d.is_unit() && resolves(r, d) ==> #[trigger] has_unit(nodes, d)
}

/// Some entry of `v` has the value `d`.
spec fn has_unit(v: Seq<Dependency>, d: DependencyView) -> bool {
    exists|l: int| 0 <= l < v.len() && #[trigger] v[l]@ == d
}

proof fn lemma_has_unit_push(v: Seq<Dependency>, x: Dependency)
    ensures
        forall|d: DependencyView| has_unit(v, d) ==> #[trigger] has_unit(v.push(x), d),
        has_unit(v.push(x), x@),
{
    assert forall|d: DependencyView| has_unit(v, d) implies #[trigger] has_unit(v.push(x), d) by {
        let l = choose|l: int| 0 <= l < v.len() && #[trigger] v[l]@ == d;
        assert(v.push(x)[l]@ == d);
    }
    assert(v.push(x)[v.len() as int]@ == x@);
}

/// Position of the entry of `nodes` equal to `d`, if any.
fn position(nodes: &Vec<Dependency>, d: &Dependency) -> (r: Option<usize>)
    ensures
        r matches Some(i) ==> i < nodes.len() && nodes@[i as int]@ == d@,
        r is None ==> !has_unit(nodes@, d@),
{
    let mut i: usize = 0;
    while i < nodes.len()
        invariant
            i <= nodes.len(),
            forall|j: int| 0 <= j < i ==> (#[trigger] nodes@[j])@ != d@,
        decreases nodes.len() - i,
    {
        if nodes[i].same_as(d) {
            return Some(i);
        }
        i = i + 1;
    }
    None
}

proof fn lemma_marked_set(nodes: Seq<Dependency>, visited: Seq<bool>, c: int)
    requires
        0 <= c < nodes.len(),
        visited.len() == nodes.len(),
    ensures
        marked(nodes, visited.update(c, true)) == marked(nodes, visited).insert(nodes[c]@),
{
    let a = marked(nodes, visited.update(c, true));
    let b = marked(nodes, visited).insert(nodes[c]@);
    assert forall|x: DependencyView| a.contains(x) implies b.contains(x) by {
        let l = choose|l: int| 0 <= l < nodes.len() && visited.update(c, true)[l] && #[trigger] nodes[l]@ == x;
        if l != c {
            assert(visited[l]);
        }
    }
    assert forall|x: DependencyView| b.contains(x) implies a.contains(x) by {
        if x == nodes[c]@ {
            assert(visited.update(c, true)[c]);
        } else {
            let l = choose|l: int| 0 <= l < nodes.len() && visited[l] && #[trigger] nodes[l]@ == x;
            assert(visited.update(c, true)[l]);
        }
    }
    assert(a =~= b);
}

impl Registry {
    pub closed spec fn tables_ok(&self) -> bool {
        &&& self.modules.wf()
        &&& self.modules.all(|m: StandaloneModule| m.wf())
        &&& self.executables.wf()
        &&& self.executables.all(|e: Executable| e.wf())
        &&& self.packages.wf()
        &&& self.packages.all(|p: Package| p.wf())
    }

    /// The registry is well formed and keeps its invariants.
    pub open spec fn wf(&self) -> bool {
        self.tables_ok() && valid(self@)
    }

    /// An empty registry.
    pub fn initialize() -> (r: Registry)
        ensures
            r.wf(),
            r@ == empty_registry(),
    {
        let r = Registry { modules: Table::new(), executables: Table::new(), packages: Table::new() };
        proof {
            lemma_empty_valid();
        }
        r
    }

    /// The dependency table of the module that `d` names, if it names one.
    fn deps_table(&self, d: &Dependency) -> (t: Option<&Table<Dependency>>)
        requires
            self.tables_ok(),
        ensures
            t matches Some(t) ==> t.wf() && t@ == deps_of(self@, d@),
            t is None ==> deps_of(self@, d@) == Map::<Seq<char>, DependencyView>::empty(),
    {
        match d {
            Dependency::Stray(_, _) => None,
            Dependency::Standalone(p) => match self.modules.get(p.as_str()) {
                Some(m) => Some(&m.dependencies),
                None => None,
            },
            Dependency::Package(pk, id) => match self.packages.get(pk.as_str()) {
                Some(package) => match package.modules.get(id.as_str()) {
                    Some(e) => Some(&e.1.dependencies),
                    None => None,
                },
                None => None,
            },
        }
    }

    /// Every unit of the registry, each once.
    fn unit_nodes(&self) -> (v: Vec<Dependency>)
        requires
            self.wf(),
        ensures
            lists_units(self@, v@),
    {
        let mut v: Vec<Dependency> = Vec::new();
        let mut i: usize = 0;
        proof {
            self.modules.lemma_view();
        }
        while i < self.modules.len()
            invariant
                self.wf(),
                i <= self.modules.size(),
                forall|j: int| 0 <= j < v.len() ==> (#[trigger] v@[j])@.is_unit() && resolves(self@, v@[j]@),
                forall|j: int| 0 <= j < i ==> has_unit(v@, DependencyView::Standalone(#[trigger] self.modules.key_at(j))),
            decreases self.modules.size() - i,
        {
            proof {
                self.modules.lemma_view();
            }
            let d = Dependency::Standalone(self.modules.key(i).clone());
            let ghost v0 = v@;
            proof {
                lemma_has_unit_push(v0, d);
            }
            v.push(d);
            i = i + 1;
        }
        let mut i: usize = 0;
        proof {
            self.packages.lemma_view();
        }
        while i < self.packages.len()
            invariant
                self.wf(),
                i <= self.packages.size(),
                forall|j: int| 0 <= j < v.len() ==> (#[trigger] v@[j])@.is_unit() && resolves(self@, v@[j]@),
                forall|j: int| 0 <= j < self.modules.size() ==> has_unit(v@, DependencyView::Standalone(#[trigger] self.modules.key_at(j))),
                forall|j: int, m: Seq<char>| 0 <= j < i && #[trigger] self.packages.val_at(j)@.modules.contains_key(m) ==> has_unit(v@, DependencyView::Package(self.packages.key_at(j), m)),
            decreases self.packages.size() - i,
        {
            proof {
                self.packages.lemma_view();
            }
            let package = self.packages.value(i);
            let pk = self.packages.key(i);
            let mut j: usize = 0;
            proof {
                package.modules.lemma_view();
            }
            while j < package.modules.len()
                invariant
                    self.wf(),
                    i < self.packages.size(),
                    *package == self.packages.val_at(i as int),
                    pk@ == self.packages.key_at(i as int),
                    package.wf(),
                    j <= package.modules.size(),
                    forall|jj: int| 0 <= jj < v.len() ==> (#[trigger] v@[jj])@.is_unit() && resolves(self@, v@[jj]@),
                    forall|jj: int| 0 <= jj < self.modules.size() ==> has_unit(v@, DependencyView::Standalone(#[trigger] self.modules.key_at(jj))),
                    forall|jj: int, m: Seq<char>| 0 <= jj < i && #[trigger] self.packages.val_at(jj)@.modules.contains_key(m) ==> has_unit(v@, DependencyView::Package(self.packages.key_at(jj), m)),
                    forall|jj: int| 0 <= jj < j ==> has_unit(v@, DependencyView::Package(pk@, #[trigger] package.modules.key_at(jj))),
                decreases package.modules.size() - j,
            {
                proof {
                    package.modules.lemma_view();
                    self.packages.lemma_view();
                }
                let d = Dependency::Package(pk.clone(), package.modules.key(j).clone());
                let ghost v0 = v@;
                proof {
                    lemma_has_unit_push(v0, d);
                }
                v.push(d);
                proof {
                    assert(self@.packages.contains_key(pk@));
                    assert(self@.packages[pk@] == package@);
                    assert(package@.modules.contains_key(package.modules.key_at(j as int)));
                }
                j = j + 1;
            }
            proof {
                package.modules.lemma_view();
                assert forall|jj: int, m: Seq<char>| 0 <= jj < i + 1 && #[trigger] self.packages.val_at(jj)@.modules.contains_key(m) implies has_unit(v@, DependencyView::Package(self.packages.key_at(jj), m)) by {
                    if jj == i {
                        let x = package.modules.index_of(m);
                        assert(package.modules.key_at(x) == m);
                    }
                }
            }
            i = i + 1;
        }
        proof {
            self.modules.lemma_view();
            self.packages.lemma_view();
            assert forall|d: DependencyView| d.is_unit() && resolves(self@, d) implies has_unit(v@, d) by {
                match d {
                    DependencyView::Stray(_, _) => {},
                    DependencyView::Standalone(p) => {
                        let j = self.modules.index_of(p);
                        assert(self.modules.key_at(j) == p);
                    },
                    DependencyView::Package(pk, m) => {
                        let j = self.packages.index_of(pk);
                        assert(self.packages.key_at(j) == pk);
                        assert(self.packages.val_at(j)@.modules.contains_key(m));
                    },
                }
            }
        }
        v
    }

    /// Whether `to` can be reached from the unit `from` along dependency edges.
    fn reaches_unit(&self, from: &Dependency, to: &Dependency) -> (r: bool)
        requires
            self.wf(),
            from@.is_unit(),
            resolves(self@, from@),
        ensures
            r == reaches(self@, from@, to@),
    {
        if from.same_as(to) {
            proof {
                lemma_reaches_self(self@, from@);
            }
            return true;
        }
        let nodes = self.unit_nodes();
        let n = nodes.len();
        let start = match position(&nodes, from) {
            Some(s) => s,
            None => {
                return false;
            },
        };
        let mut visited: Vec<bool> = Vec::new();
        let mut i: usize = 0;
        while i < n
            invariant
                i <= n,
                visited.len() == i,
                forall|j: int| 0 <= j < i ==> !visited@[j],
            decreases n - i,
        {
            visited.push(false);
            i = i + 1;
        }
        proof {
            lemma_count_false_set(visited@, start as int);
            lemma_reaches_self(self@, from@);
        }
        visited.set(start, true);
        let mut stack: Vec<usize> = Vec::new();
        stack.push(start);
        proof {
            assert(stack@[0] == start);
            assert(stack@.contains(start));
        }
        while stack.len() > 0
            invariant
                self.wf(),
                lists_units(self@, nodes@),
                n == nodes.len(),
                visited.len() == n,
                start < n,
                nodes@[start as int]@ == from@,
                from@ != to@,
                visited@[start as int],
                forall|j: int| 0 <= j < stack.len() ==> #[trigger] stack@[j] < n && visited@[stack@[j] as int],
                forall|j: int| 0 <= j < n && #[trigger] visited@[j] ==> reaches(self@, from@, nodes@[j]@) && nodes@[j]@ != to@,
                forall|j: int| 0 <= j < n && #[trigger] visited@[j] && !stack@.contains(j as usize) ==> expanded(self@, nodes@, visited@, j),
            decreases 2 * count_false(visited@) + stack.len(),
        {
            let ghost measure = 2 * count_false(visited@) + stack.len();
            let ghost stack0 = stack@;
            let b = stack.pop().unwrap();
            proof {
                assert(stack0 =~= stack@.push(b));
                assert forall|j: int| 0 <= j < n && #[trigger] visited@[j] && !stack@.contains(j as usize) && j != b implies expanded(self@, nodes@, visited@, j) by {
                    if stack0.contains(j as usize) {
                        let x = choose|x: int| 0 <= x < stack0.len() && stack0[x] == j as usize;
                        assert(stack@[x] == j as usize);
                    }
                }
            }
            match self.deps_table(&nodes[b]) {
                None => {
                    proof {
                        assert forall|c: DependencyView| #[trigger] edge(self@, nodes@[b as int]@, c) implies marked(nodes@, visited@).contains(c) by {
                            let deps = deps_of(self@, nodes@[b as int]@);
                            let k = choose|k: Seq<char>| #[trigger] deps.contains_key(k) && deps[k] == c;
                        }
                    }
                },
                Some(deps) => {
                    let mut k: usize = 0;
                    while k < deps.len()
                        invariant
                            self.wf(),
                            lists_units(self@, nodes@),
                            n == nodes.len(),
                            visited.len() == n,
                            b < n,
                            start < n,
                            nodes@[start as int]@ == from@,
                            visited@[start as int],
                            visited@[b as int],
                            from@ != to@,
                            deps.wf(),
                            deps@ == deps_of(self@, nodes@[b as int]@),
                            k <= deps.size(),
                            2 * count_false(visited@) + stack.len() < measure,
                            forall|j: int| 0 <= j < stack.len() ==> #[trigger] stack@[j] < n && visited@[stack@[j] as int],
                            forall|j: int| 0 <= j < n && #[trigger] visited@[j] ==> reaches(self@, from@, nodes@[j]@) && nodes@[j]@ != to@,
                            forall|j: int| 0 <= j < n && #[trigger] visited@[j] && !stack@.contains(j as usize) && j != b ==> expanded(self@, nodes@, visited@, j),
                            forall|j: int| 0 <= j < k && (#[trigger] deps.val_at(j))@.is_unit() ==> marked(nodes@, visited@).contains(deps.val_at(j)@),
                        decreases deps.size() - k,
                    {
                        let d = deps.value(k);
                        proof {
                            deps.lemma_view();
                        }
                        if d.is_unit() {
                            proof {
                                assert(deps@.contains_key(deps.key_at(k as int)));
                                assert(edge(self@, nodes@[b as int]@, d@));
                                lemma_edge_resolves(self@, nodes@[b as int]@, d@);
                            }
                            match position(&nodes, d) {
                                None => {},
                                Some(c) => {
                                    if !visited[c] {
                                        proof {
                                            lemma_reaches_step(self@, from@, nodes@[b as int]@, d@);
                                        }
                                        if d.same_as(to) {
                                            return true;
                                        }
                                        let ghost v0 = visited@;
                                        let ghost s0 = stack@;
                                        proof {
                                            lemma_count_false_set(visited@, c as int);
                                            lemma_marked_set(nodes@, visited@, c as int);
                                        }
                                        visited.set(c, true);
                                        stack.push(c);
                                        proof {
                                            assert(stack@[stack.len() - 1] == c);
                                            assert forall|j: int| 0 <= j < n && #[trigger] visited@[j] && !stack@.contains(j as usize) && j != b implies expanded(self@, nodes@, visited@, j) by {
                                                assert(j != c);
                                                if s0.contains(j as usize) {
                                                    let x = choose|x: int| 0 <= x < s0.len() && s0[x] == j as usize;
                                                    assert(stack@[x] == j as usize);
                                                }
                                                assert(v0[j]);
                                                assert(expanded(self@, nodes@, v0, j));
                                                assert forall|cc: DependencyView| #[trigger] edge(self@, nodes@[j]@, cc) implies marked(nodes@, visited@).contains(cc) by {
                                                    assert(marked(nodes@, v0).contains(cc));
                                                }
                                            }
                                            assert forall|j: int| 0 <= j < k + 1 && (#[trigger] deps.val_at(j))@.is_unit() implies marked(nodes@, visited@).contains(deps.val_at(j)@) by {
                                                if j < k {
                                                    assert(marked(nodes@, v0).contains(deps.val_at(j)@));
                                                }
                                            }
                                        }
                                    }
                                },
                            }
                        }
                        k = k + 1;
                    }
                    proof {
                        deps.lemma_view();
                        assert forall|c: DependencyView| #[trigger] edge(self@, nodes@[b as int]@, c) implies marked(nodes@, visited@).contains(c) by {
                            let kk = choose|kk: Seq<char>| #[trigger] deps@.contains_key(kk) && deps@[kk] == c;
                            let j = deps.index_of(kk);
                            assert(deps.val_at(j)@ == c);
                        }
                        assert(expanded(self@, nodes@, visited@, b as int));
                    }
                },
            }
        }
        proof {
            let s = marked(nodes@, visited@);
            assert(s.contains(from@));
            assert(!s.contains(to@));
            if reaches(self@, from@, to@) {
                lemma_closed_set(self@, from@, s, to@);
            }
        }
        false
    }

    /// Whether the unit that `entry` names is registered.
    pub fn has_entry(&self, entry: &Entry) -> (r: bool)
        requires
            self.tables_ok(),
        ensures
            r == owner_exists(self@, entry@),
    {
        match entry {
            Entry::Executable(p) => self.executables.contains_key(p.as_str()),
            Entry::StandaloneModule(p) => self.modules.contains_key(p.as_str()),
            Entry::PackageModule(pk, m) => match self.packages.get(pk.as_str()) {
                Some(package) => package.has_module_id(m.as_str()),
                None => false,
            },
        }
    }

    /// Whether `dependency` names an existing unit (a stray reference always does).
    pub fn dependency_exists(&self, dependency: &Dependency) -> (r: bool)
        requires
            self.tables_ok(),
        ensures
            r == resolves(self@, dependency@),
    {
        match dependency {
            Dependency::Stray(_, _) => true,
            Dependency::Standalone(p) => self.modules.contains_key(p.as_str()),
            Dependency::Package(pk, m) => match self.packages.get(pk.as_str()) {
                Some(package) => package.has_module_id(m.as_str()),
                None => false,
            },
        }
    }

    /// The key for an edge to `dependency`: the identifier of what it names.
    fn edge_key_of(&self, dependency: &Dependency) -> (r: String)
        requires
            self.tables_ok(),
            resolves(self@, dependency@),
        ensures
            r@ == edge_key(self@, dependency@),
    {
        match dependency {
            Dependency::Stray(id, _) => id.clone(),
            Dependency::Standalone(p) => self.modules.get(p.as_str()).unwrap().identifier.clone(),
            Dependency::Package(_, m) => m.clone(),
        }
    }

    /// Stores the edge `identifier -> dependency` at the unit `entry`.
    fn insert_edge(&mut self, entry: &Entry, identifier: String, dependency: Dependency)
        requires
            old(self).tables_ok(),
            owner_exists(old(self)@, entry@),
        ensures
            final(self).tables_ok(),
            final(self)@ == with_owner_deps(
                old(self)@,
                entry@,
                owner_deps(old(self)@, entry@).insert(identifier@, dependency@),
            ),
    {
        proof {
            self.modules.lemma_view();
            self.executables.lemma_view();
            self.packages.lemma_view();
        }
        match entry {
            Entry::Executable(p) => {
                let i = self.executables.find(p.as_str()).unwrap();
                let x = self.executables.value_mut(i);
                x.add_dependency(identifier, dependency);
                proof {
                    Table::lemma_update(&old(self).executables, &self.executables, i as int);
                    assert(self.executables.all(|e: Executable| e.wf()));
                    assert(self@ =~= with_owner_deps(old(self)@, entry@, owner_deps(old(self)@, entry@).insert(identifier@, dependency@)));
                }
            },
            Entry::StandaloneModule(p) => {
                let i = self.modules.find(p.as_str()).unwrap();
                let m = self.modules.value_mut(i);
                m.add_dependency(identifier, dependency);
                proof {
                    Table::lemma_update(&old(self).modules, &self.modules, i as int);
                    assert(self.modules.all(|m: StandaloneModule| m.wf()));
                    assert(self@ =~= with_owner_deps(old(self)@, entry@, owner_deps(old(self)@, entry@).insert(identifier@, dependency@)));
                }
            },
            Entry::PackageModule(pk, id) => {
                let i = self.packages.find(pk.as_str()).unwrap();
                let package = self.packages.value_mut(i);
                package.add_module_dependency(id.as_str(), identifier, dependency);
                proof {
                    Table::lemma_update(&old(self).packages, &self.packages, i as int);
                    assert(self.packages.all(|p: Package| p.wf()));
                    assert(self@ =~= with_owner_deps(old(self)@, entry@, owner_deps(old(self)@, entry@).insert(identifier@, dependency@)));
                }
            },
        }
    }

    /// The graph node of a module entry.
    fn entry_node(entry: &Entry) -> (r: Option<Dependency>)
        ensures
            r.is_some() == owner_node(entry@).is_some(),
            r matches Some(d) ==> owner_node(entry@) == Some(d@),
    {
        match entry {
            Entry::Executable(_) => None,
            Entry::StandaloneModule(p) => Some(Dependency::Standalone(p.clone())),
            Entry::PackageModule(pk, m) => Some(Dependency::Package(pk.clone(), m.clone())),
        }
    }

    /// Adds an edge from the unit `owner` to `dependency`, keyed by the
    /// identifier of what `dependency` names. Fails if the owner is not
    /// registered, if a package module would get an edge to anything but a
    /// package module, if the target does not exist, or if the edge would
    /// close a cycle. Adding an edge that is already there changes nothing.
    pub fn add_dependency(&mut self, owner: &Entry, dependency: Dependency) -> (res: Result<(), ModuleError>)
        requires
            old(self).wf(),
        ensures
            final(self).wf(),
            res == add_dependency_result(old(self)@, owner@, dependency@),
            res is Ok ==> final(self)@ == with_edge(old(self)@, owner@, dependency@),
            res is Err ==> final(self)@ == old(self)@,
    {
        if !self.has_entry(owner) {
            return Err(ModuleError::ReferencedUnitMissing);
        }
        let to_package_module = match owner {
            Entry::PackageModule(_, _) => true,
            _ => false,
        };
        if to_package_module && !dependency.is_package_module() {
            return Err(ModuleError::NotAPackageDependency);
        }
        if !self.dependency_exists(&dependency) {
            return Err(ModuleError::NoSuchDependency);
        }
        if dependency.is_unit() {
            match Self::entry_node(owner) {
                Some(node) => {
                    if self.reaches_unit(&dependency, &node) {
                        return Err(ModuleError::CyclicDependency);
                    }
                },
                None => {},
            }
        }
        let key = self.edge_key_of(&dependency);
        proof {
            lemma_add_edge_valid(self@, owner@, dependency@);
        }
        self.insert_edge(owner, key, dependency);
        Ok(())
    }

    /// Drops from every unit the edges hit by a removal of `target`.
    fn cascade_edges(&mut self, target: &Dependency, whole_package: bool)
        requires
            old(self).tables_ok(),
        ensures
            final(self).tables_ok(),
            final(self)@ == cascade(old(self)@, target@, whole_package),
    {
        let mut i: usize = 0;
        while i < self.modules.len()
            invariant
                old(self).tables_ok(),
                self.modules.wf(),
                self.executables == old(self).executables,
                self.packages == old(self).packages,
                self.modules.size() == old(self).modules.size(),
                i <= self.modules.size(),
                forall|j: int| 0 <= j < self.modules.size() ==> #[trigger] self.modules.key_at(j) == old(self).modules.key_at(j),
                forall|j: int| 0 <= j < self.modules.size() ==> (#[trigger] self.modules.val_at(j)).wf(),
                forall|j: int| 0 <= j < i ==> (#[trigger] self.modules.val_at(j))@ == module_drop(old(self).modules.val_at(j)@, target@, whole_package),
                forall|j: int| i <= j < self.modules.size() ==> #[trigger] self.modules.val_at(j) == old(self).modules.val_at(j),
            decreases self.modules.size() - i,
        {
            let ghost before = self.modules;
            let m = self.modules.value_mut(i);
            m.dependencies.remove_edges_to(target, whole_package);
            proof {
                Table::lemma_update(&before, &self.modules, i as int);
            }
            i = i + 1;
        }
        proof {
            Table::lemma_map_values(&old(self).modules, &self.modules, |m: crate::module::ModuleView| module_drop(m, target@, whole_package));
            assert(self.modules.all(|m: StandaloneModule| m.wf()));
        }
        let mut i: usize = 0;
        while i < self.executables.len()
            invariant
                old(self).tables_ok(),
                self.executables.wf(),
                self.packages == old(self).packages,
                self.modules.wf(),
                self.modules.all(|m: StandaloneModule| m.wf()),
                self.modules@ == old(self).modules@.map_values(|m: crate::module::ModuleView| module_drop(m, target@, whole_package)),
                self.executables.size() == old(self).executables.size(),
                i <= self.executables.size(),
                forall|j: int| 0 <= j < self.executables.size() ==> #[trigger] self.executables.key_at(j) == old(self).executables.key_at(j),
                forall|j: int| 0 <= j < self.executables.size() ==> (#[trigger] self.executables.val_at(j)).wf(),
                forall|j: int| 0 <= j < i ==> (#[trigger] self.executables.val_at(j))@ == drop_edges(old(self).executables.val_at(j)@, target@, whole_package),
                forall|j: int| i <= j < self.executables.size() ==> #[trigger] self.executables.val_at(j) == old(self).executables.val_at(j),
            decreases self.executables.size() - i,
        {
            let ghost before = self.executables;
            let x = self.executables.value_mut(i);
            x.dependencies.remove_edges_to(target, whole_package);
            proof {
                Table::lemma_update(&before, &self.executables, i as int);
            }
            i = i + 1;
        }
        let mut i: usize = 0;
        while i < self.packages.len()
            invariant
                old(self).tables_ok(),
                self.packages.wf(),
                self.modules.wf(),
                self.modules.all(|m: StandaloneModule| m.wf()),
                self.modules@ == old(self).modules@.map_values(|m: crate::module::ModuleView| module_drop(m, target@, whole_package)),
                self.executables.wf(),
                self.executables.size() == old(self).executables.size(),
                forall|j: int| 0 <= j < self.executables.size() ==> #[trigger] self.executables.key_at(j) == old(self).executables.key_at(j),
                forall|j: int| 0 <= j < self.executables.size() ==> (#[trigger] self.executables.val_at(j)).wf(),
                forall|j: int| 0 <= j < self.executables.size() ==> (#[trigger] self.executables.val_at(j))@ == drop_edges(old(self).executables.val_at(j)@, target@, whole_package),
                self.packages.size() == old(self).packages.size(),
                i <= self.packages.size(),
                forall|j: int| 0 <= j < self.packages.size() ==> #[trigger] self.packages.key_at(j) == old(self).packages.key_at(j),
                forall|j: int| 0 <= j < self.packages.size() ==> (#[trigger] self.packages.val_at(j)).wf(),
                forall|j: int| 0 <= j < i ==> (#[trigger] self.packages.val_at(j))@ == package_drop(old(self).packages.val_at(j)@, target@, whole_package),
                forall|j: int| i <= j < self.packages.size() ==> #[trigger] self.packages.val_at(j) == old(self).packages.val_at(j),
            decreases self.packages.size() - i,
        {
            let ghost before = self.packages;
            let p = self.packages.value_mut(i);
            p.remove_edges_to(target, whole_package);
            proof {
                Table::lemma_update(&before, &self.packages, i as int);
            }
            i = i + 1;
        }
        proof {
            Table::lemma_map_values(&old(self).executables, &self.executables, |x: crate::dependency::DependencyMap| drop_edges(x, target@, whole_package));
            Table::lemma_map_values(&old(self).packages, &self.packages, |pv: crate::package::PackageView| package_drop(pv, target@, whole_package));
            assert(self@ =~= cascade(old(self)@, target@, whole_package));
        }
    }

    /// Whether some standalone module has identifier `identifier`.
    fn standalone_id_taken(&self, identifier: &str) -> (r: bool)
        requires
            self.tables_ok(),
        ensures
            r == module_id_taken(self@, identifier@),
    {
        let mut i: usize = 0;
        proof {
            self.modules.lemma_view();
        }
        while i < self.modules.len()
            invariant
                self.tables_ok(),
                i <= self.modules.size(),
                forall|j: int| 0 <= j < i ==> (#[trigger] self.modules.val_at(j))@.identifier != identifier@,
            decreases self.modules.size() - i,
        {
            if str_eq(self.modules.value(i).identifier.as_str(), identifier) {
                proof {
                    self.modules.lemma_view();
                    assert(self@.modules.contains_key(self.modules.key_at(i as int)));
                }
                return true;
            }
            i = i + 1;
        }
        proof {
            self.modules.lemma_view();
            assert forall|p: Seq<char>| #[trigger] self@.modules.contains_key(p) implies self@.modules[p].identifier != identifier@ by {
                let j = self.modules.index_of(p);
            }
        }
        false
    }

    /// Registers `module`, which has no edges yet, under its source path.
    /// Fails if a module is registered at that path or under that identifier.
    pub fn add_module(&mut self, source_file: String, module: StandaloneModule) -> (res: Result<(), RegistryError>)
        requires
            old(self).wf(),
            module.wf(),
            module@.dependencies == Map::<Seq<char>, DependencyView>::empty(),
        ensures
            final(self).wf(),
            res is Err <==> old(self)@.modules.contains_key(source_file@) || module_id_taken(old(self)@, module@.identifier),
            res is Err ==> res == Err::<(), RegistryError>(RegistryError::ModuleAlreadyInRegistry) && final(self)@ == old(self)@,
            res is Ok ==> final(self)@ == (RegistryView { modules: old(self)@.modules.insert(source_file@, module@), ..old(self)@ }),
    {
        if self.modules.contains_key(source_file.as_str()) || self.standalone_id_taken(module.identifier.as_str()) {
            return Err(RegistryError::ModuleAlreadyInRegistry);
        }
        proof {
            lemma_with_module_valid(self@, source_file@, module@);
        }
        self.modules.insert(source_file, module);
        Ok(())
    }

    /// Registers an executable without edges at `source_file`, replacing any
    /// executable registered there.
    pub fn add_executable(&mut self, source_file: String)
        requires
            old(self).wf(),
        ensures
            final(self).wf(),
            final(self)@ == (RegistryView { executables: old(self)@.executables.insert(source_file@, Map::empty()), ..old(self)@ }),
    {
        proof {
            lemma_with_executable_valid(self@, source_file@);
        }
        self.executables.insert(source_file, Executable::create());
    }

    /// Removes the standalone module at `source_file` and every edge to it.
    pub fn remove_module(&mut self, source_file: &str) -> (r: Option<StandaloneModule>)
        requires
            old(self).wf(),
        ensures
            final(self).wf(),
            r.is_some() == old(self)@.modules.contains_key(source_file@),
            r matches Some(m) ==> m@ == old(self)@.modules[source_file@] && final(self)@ == without_module(old(self)@, source_file@),
            r is None ==> final(self)@ == old(self)@,
    {
        let removed = self.modules.remove(source_file);
        match removed {
            Some(m) => {
                proof {
                    lemma_without_module_valid(old(self)@, source_file@);
                }
                self.cascade_edges(&Dependency::Standalone(source_file.to_owned()), false);
                Some(m)
            },
            None => {
                assert(self.modules@ =~= old(self).modules@);
                assert(self@ =~= old(self)@);
                None
            },
        }
    }

    /// Removes the executable at `source_file`; nothing depends on it.
    pub fn remove_executable(&mut self, source_file: &str) -> (r: bool)
        requires
            old(self).wf(),
        ensures
            final(self).wf(),
            r == old(self)@.executables.contains_key(source_file@),
            final(self)@ == (RegistryView { executables: old(self)@.executables.remove(source_file@), ..old(self)@ }),
    {
        proof {
            lemma_without_executable_valid(self@, source_file@);
        }
        self.executables.remove(source_file).is_some()
    }

    /// Removes the unit at `source_file`: the standalone module there, with
    /// every edge to it, or else the executable there.
    pub fn remove_item(&mut self, source_file: &str) -> (r: Option<StandaloneModule>)
        requires
            old(self).wf(),
        ensures
            final(self).wf(),
            old(self)@.modules.contains_key(source_file@) ==> r is Some && r.unwrap()@ == old(self)@.modules[source_file@]
                && final(self)@ == without_module(old(self)@, source_file@),
            !old(self)@.modules.contains_key(source_file@) ==> r is None
                && final(self)@ == (RegistryView { executables: old(self)@.executables.remove(source_file@), ..old(self)@ }),
    {
        if self.modules.contains_key(source_file) {
            self.remove_module(source_file)
        } else {
            self.remove_executable(source_file);
            None
        }
    }

    /// Removes the package `identifier` and every edge to one of its modules.
    pub fn remove_package(&mut self, identifier: &str) -> (r: Option<Package>)
        requires
            old(self).wf(),
        ensures
            final(self).wf(),
            r.is_some() == old(self)@.packages.contains_key(identifier@),
            r matches Some(p) ==> p@ == old(self)@.packages[identifier@] && final(self)@ == without_package(old(self)@, identifier@),
            r is None ==> final(self)@ == old(self)@,
    {
        let removed = self.packages.remove(identifier);
        match removed {
            Some(p) => {
                proof {
                    lemma_without_package_valid(old(self)@, identifier@);
                }
                self.cascade_edges(&Dependency::Package(identifier.to_owned(), String::new()), true);
                Some(p)
            },
            None => {
                assert(self.packages@ =~= old(self).packages@);
                assert(self@ =~= old(self)@);
                None
            },
        }
    }

    /// Redirects, in every standalone module and executable, the edges to a
    /// module in `moved` (source path to identifier) into package `pkg`.
    fn promote_all(&mut self, moved: &Table<String>, pkg: &str)
        requires
            old(self).tables_ok(),
            moved.wf(),
        ensures
            final(self).tables_ok(),
            final(self)@ == (RegistryView {
                modules: old(self)@.modules.map_values(|m: ModuleView| ModuleView {
                    dependencies: m.dependencies.map_values(|v: DependencyView| promoted(moved@, pkg@, v)),
                    ..m
                }),
                executables: old(self)@.executables.map_values(|x: DependencyMap| x.map_values(|v: DependencyView| promoted(moved@, pkg@, v))),
                ..old(self)@
            }),
    {
        let ghost fm = |m: ModuleView| ModuleView {
            dependencies: m.dependencies.map_values(|v: DependencyView| promoted(moved@, pkg@, v)),
            ..m
        };
        let ghost fx = |x: DependencyMap| x.map_values(|v: DependencyView| promoted(moved@, pkg@, v));
        let mut i: usize = 0;
        while i < self.modules.len()
            invariant
                old(self).tables_ok(),
                moved.wf(),
                self.modules.wf(),
                self.executables == old(self).executables,
                self.packages == old(self).packages,
                self.modules.size() == old(self).modules.size(),
                i <= self.modules.size(),
                forall|j: int| 0 <= j < self.modules.size() ==> #[trigger] self.modules.key_at(j) == old(self).modules.key_at(j),
                forall|j: int| 0 <= j < self.modules.size() ==> (#[trigger] self.modules.val_at(j)).wf(),
                forall|j: int| 0 <= j < i ==> (#[trigger] self.modules.val_at(j))@ == (ModuleView {
                    dependencies: old(self).modules.val_at(j)@.dependencies.map_values(|v: DependencyView| promoted(moved@, pkg@, v)),
                    ..old(self).modules.val_at(j)@
                }),
                forall|j: int| i <= j < self.modules.size() ==> #[trigger] self.modules.val_at(j) == old(self).modules.val_at(j),
            decreases self.modules.size() - i,
        {
            let ghost before = self.modules;
            let m = self.modules.value_mut(i);
            m.dependencies.promote_edges(moved, pkg);
            proof {
                Table::lemma_update(&before, &self.modules, i as int);
            }
            i = i + 1;
        }
        proof {
            Table::lemma_map_values(&old(self).modules, &self.modules, fm);
            assert(self.modules.all(|m: StandaloneModule| m.wf()));
        }
        let mut i: usize = 0;
        while i < self.executables.len()
            invariant
                old(self).tables_ok(),
                moved.wf(),
                self.executables.wf(),
                self.packages == old(self).packages,
                self.modules.wf(),
                self.modules.all(|m: StandaloneModule| m.wf()),
                self.modules@ == old(self).modules@.map_values(fm),
                self.executables.size() == old(self).executables.size(),
                i <= self.executables.size(),
                forall|j: int| 0 <= j < self.executables.size() ==> #[trigger] self.executables.key_at(j) == old(self).executables.key_at(j),
                forall|j: int| 0 <= j < self.executables.size() ==> (#[trigger] self.executables.val_at(j)).wf(),
                forall|j: int| 0 <= j < i ==> (#[trigger] self.executables.val_at(j))@ == old(self).executables.val_at(j)@.map_values(|v: DependencyView| promoted(moved@, pkg@, v)),
                forall|j: int| i <= j < self.executables.size() ==> #[trigger] self.executables.val_at(j) == old(self).executables.val_at(j),
            decreases self.executables.size() - i,
        {
            let ghost before = self.executables;
            let x = self.executables.value_mut(i);
            x.dependencies.promote_edges(moved, pkg);
            proof {
                Table::lemma_update(&before, &self.executables, i as int);
            }
            i = i + 1;
        }
        proof {
            Table::lemma_map_values(&old(self).executables, &self.executables, fx);
            assert(self.executables.all(|e: Executable| e.wf()));
            assert(self@ =~= RegistryView { modules: old(self)@.modules.map_values(fm), executables: old(self)@.executables.map_values(fx), ..old(self)@ });
        }
    }

    /// The standalone modules under `package_root` (source path to
    /// identifier), or `None` if one of them depends on something that is not
    /// a package module.
    fn modules_under(&self, package_root: &str) -> (r: Option<Table<String>>)
        requires
            self.tables_ok(),
        ensures
            r is None <==> exists|p: Seq<char>| #[trigger] moved_modules(self@, package_root@).contains_key(p)
                && !only_package_edges(self@.modules[p].dependencies),
            r matches Some(t) ==> t.wf() && t@ == moved_modules(self@, package_root@),
    {
        let mut moved: Table<String> = Table::new();
        let mut i: usize = 0;
        proof {
            self.modules.lemma_view();
        }
        while i < self.modules.len()
            invariant
                self.tables_ok(),
                moved.wf(),
                i <= self.modules.size(),
                forall|p: Seq<char>| #[trigger] moved@.contains_key(p) ==> moved_modules(self@, package_root@).contains_key(p)
                    && moved@[p] == self@.modules[p].identifier && self.modules.index_of(p) < i,
                forall|j: int| 0 <= j < i && under_root(#[trigger] self.modules.key_at(j), package_root@) ==> moved@.contains_key(self.modules.key_at(j))
                    && only_package_edges(self.modules.val_at(j)@.dependencies),
            decreases self.modules.size() - i,
        {
            proof {
                self.modules.lemma_view();
            }
            let key = self.modules.key(i);
            if starts_with(key.as_str(), package_root) {
                let m = self.modules.value(i);
                if !m.has_only_package_module_dependencies() {
                    proof {
                        assert(moved_modules(self@, package_root@).contains_key(key@));
                    }
                    return None;
                }
                moved.insert(key.clone(), m.identifier.clone());
            }
            i = i + 1;
        }
        proof {
            self.modules.lemma_view();
            assert forall|p: Seq<char>| #[trigger] moved_modules(self@, package_root@).contains_key(p) implies moved@.contains_key(p)
                && only_package_edges(self@.modules[p].dependencies) by {
                let j = self.modules.index_of(p);
                assert(self.modules.key_at(j) == p);
            }
            assert(moved@ =~= moved_modules(self@, package_root@));
        }
        Some(moved)
    }

    /// Turns every standalone module under `package_root` into a module of a
    /// new package `identifier`, with its output under the package root, and
    /// redirects every edge to one of them into the package. Fails, changing
    /// nothing, if the package exists or if one of those modules depends on
    /// something that is not a package module.
    pub fn package(
        &mut self,
        identifier: &str,
        package_root: &str,
        compiler_command_name: String,
        output_option: String,
    ) -> (res: Result<(), PackageError>)
        requires
            old(self).wf(),
        ensures
            final(self).wf(),
            res == package_result(old(self)@, identifier@, package_root@),
            res is Ok ==> final(self)@ == packaged(old(self)@, identifier@, package_root@, compiler_command_name@, output_option@),
            res is Err ==> final(self)@ == old(self)@,
    {
        if self.packages.contains_key(identifier) {
            return Err(PackageError::PackageAlreadyInRegistry);
        }
        let moved = match self.modules_under(package_root) {
            Some(t) => t,
            None => {
                return Err(PackageError::NonPackageDependency);
            },
        };
        let ghost r0 = self@;
        proof {
            lemma_packaged_valid(r0, identifier@, package_root@, compiler_command_name@, output_option@);
        }
        let mut package = Package::create(identifier.to_owned(), package_root.to_owned(), compiler_command_name, output_option);
        let ghost base = package@;
        let mut i: usize = 0;
        proof {
            moved.lemma_view();
        }
        while i < moved.len()
            invariant
                valid(r0),
                moved.wf(),
                moved@ == moved_modules(r0, package_root@),
                self.modules.wf(),
                self.modules.all(|m: StandaloneModule| m.wf()),
                self.executables == old(self).executables,
                self.packages == old(self).packages,
                r0 == old(self)@,
                old(self).tables_ok(),
                i <= moved.size(),
                forall|p: Seq<char>| #[trigger] self.modules@.contains_key(p) <==> r0.modules.contains_key(p)
                    && !(moved@.contains_key(p) && moved.index_of(p) < i),
                forall|p: Seq<char>| #[trigger] self.modules@.contains_key(p) ==> self.modules@[p] == r0.modules[p],
                package.wf(),
                package@ == (PackageView { modules: package@.modules, ..base }),
                base.identifier == identifier@,
                forall|mm: Seq<char>| #[trigger] package@.modules.contains_key(mm) ==> package_modules(r0, package_root@).contains_key(mm)
                    && package@.modules[mm] == package_modules(r0, package_root@)[mm],
                forall|j: int| 0 <= j < i ==> package@.modules.contains_key(#[trigger] moved.val_at(j)@),
            decreases moved.size() - i,
        {
            proof {
                moved.lemma_view();
            }
            let key = moved.key(i);
            let ghost q = key@;
            proof {
                assert(moved@.contains_key(q));
                assert(moved.index_of(q) == i);
                assert(self.modules@.contains_key(q));
                lemma_moved_source(r0, package_root@, q);
            }
            let m = self.modules.remove(key.as_str()).unwrap();
            let out = join(m.identifier.as_str(), "output");
            let rel = strip_root(key.as_str(), package_root);
            let pm = PackageModule { identifier: m.identifier, output_location: out, dependencies: m.dependencies };
            package.add_module(rel, pm);
            proof {
                assert forall|p: Seq<char>| #[trigger] self.modules@.contains_key(p) <==> r0.modules.contains_key(p)
                    && !(moved@.contains_key(p) && moved.index_of(p) < i + 1) by {
                    if moved@.contains_key(p) && moved.index_of(p) == i {
                        assert(moved.key_at(i as int) == p);
                    }
                }
                assert(package_modules(r0, package_root@)[moved@[q]] == package@.modules[moved@[q]]);
            }
            i = i + 1;
        }
        proof {
            moved.lemma_view();
            assert forall|mm: Seq<char>| #[trigger] package_modules(r0, package_root@).contains_key(mm) implies package@.modules.contains_key(mm) by {
                let q = moved_source(r0, package_root@, mm);
                let j = moved.index_of(q);
                assert(moved.val_at(j)@ == mm);
            }
            assert(package@.modules =~= package_modules(r0, package_root@));
            assert forall|p: Seq<char>| #[trigger] self.modules@.contains_key(p) <==> r0.modules.contains_key(p) && !under_root(p, package_root@) by {
                if moved@.contains_key(p) {
                    assert(moved.index_of(p) < moved.size());
                }
            }
            assert(self.modules@ =~= Map::new(|p: Seq<char>| r0.modules.contains_key(p) && !under_root(p, package_root@), |p: Seq<char>| r0.modules[p]));
        }
        self.promote_all(&moved, identifier);
        self.packages.insert(identifier.to_owned(), package);
        proof {
            assert(self@.modules =~= packaged(r0, identifier@, package_root@, compiler_command_name@, output_option@).modules);
            assert(self@ =~= packaged(r0, identifier@, package_root@, compiler_command_name@, output_option@));
        }
        Ok(())
    }

    /// Adds an edge from the unit at `source_file` (the standalone module
    /// there, or else the executable there); see [`Registry::add_dependency`].
    pub fn add_dependency_to_item(&mut self, source_file: &str, dependency: Dependency) -> (res: Result<(), ModuleError>)
        requires
            old(self).wf(),
        ensures
            final(self).wf(),
            ({
                let e = if old(self)@.modules.contains_key(source_file@) {
                    crate::entry::EntryView::StandaloneModule(source_file@)
                } else {
                    crate::entry::EntryView::Executable(source_file@)
                };
                &&& res == add_dependency_result(old(self)@, e, dependency@)
                &&& res is Ok ==> final(self)@ == with_edge(old(self)@, e, dependency@)
                &&& res is Err ==> final(self)@ == old(self)@
            }),
    {
        let owner = if self.modules.contains_key(source_file) {
            Entry::StandaloneModule(source_file.to_owned())
        } else {
            Entry::Executable(source_file.to_owned())
        };
        self.add_dependency(&owner, dependency)
    }

    /// Adds an edge from module `module_identifier` of package
    /// `package_identifier`; see [`Registry::add_dependency`].
    pub fn add_dependency_to_package_module(
        &mut self,
        package_identifier: &str,
        module_identifier: &str,
        dependency: Dependency,
    ) -> (res: Result<(), ModuleError>)
        requires
            old(self).wf(),
        ensures
            final(self).wf(),
            ({
                let e = crate::entry::EntryView::PackageModule(package_identifier@, module_identifier@);
                &&& res == add_dependency_result(old(self)@, e, dependency@)
                &&& res is Ok ==> final(self)@ == with_edge(old(self)@, e, dependency@)
                &&& res is Err ==> final(self)@ == old(self)@
            }),
    {
        let owner = Entry::PackageModule(package_identifier.to_owned(), module_identifier.to_owned());
        self.add_dependency(&owner, dependency)
    }

    pub fn get_module(&self, source_file: &str) -> (r: Option<&StandaloneModule>)
        requires
            self.wf(),
        ensures
            r.is_some() == self@.modules.contains_key(source_file@),
            r matches Some(m) ==> m@ == self@.modules[source_file@],
    {
        self.modules.get(source_file)
    }

    pub fn get_executable(&self, source_file: &str) -> (r: Option<&Executable>)
        requires
            self.wf(),
        ensures
            r.is_some() == self@.executables.contains_key(source_file@),
            r matches Some(x) ==> x@ == self@.executables[source_file@],
    {
        self.executables.get(source_file)
    }

    pub fn get_package(&self, identifier: &str) -> (r: Option<&Package>)
        requires
            self.wf(),
        ensures
            r.is_some() == self@.packages.contains_key(identifier@),
            r matches Some(p) ==> p@ == self@.packages[identifier@],
    {
        self.packages.get(identifier)
    }

    /// The edge under `dependency_identifier` of the unit at `source_file`
    /// (the standalone module there, or else the executable there).
    pub fn get_dependency(&self, source_file: &str, dependency_identifier: &str) -> (r: Option<&Dependency>)
        requires
            self.wf(),
        ensures
            ({
                let deps = if self@.modules.contains_key(source_file@) {
                    self@.modules[source_file@].dependencies
                } else if self@.executables.contains_key(source_file@) {
                    self@.executables[source_file@]
                } else {
                    Map::empty()
                };
                &&& r.is_some() == deps.contains_key(dependency_identifier@)
                &&& r matches Some(d) ==> d@ == deps[dependency_identifier@]
            }),
    {
        match self.modules.get(source_file) {
            Some(m) => m.get_dependency(dependency_identifier),
            None => match self.executables.get(source_file) {
                Some(x) => x.get_dependency(dependency_identifier),
                None => None,
            },
        }
    }

    /// Whether the unit at `source_file` has an edge under `dependency_identifier`.
    pub fn has_dependency(&self, source_file: &str, dependency_identifier: &str) -> (r: bool)
        requires
            self.wf(),
        ensures
            r == (self@.modules.contains_key(source_file@) && self@.modules[source_file@].dependencies.contains_key(dependency_identifier@)
                || !self@.modules.contains_key(source_file@) && self@.executables.contains_key(source_file@)
                    && self@.executables[source_file@].contains_key(dependency_identifier@)),
    {
        self.get_dependency(source_file, dependency_identifier).is_some()
    }

    /// Whether a standalone module or an executable is registered at `source_file`.
    pub fn has_item_source(&self, source_file: &str) -> (r: bool)
        requires
            self.wf(),
        ensures
            r == (self@.modules.contains_key(source_file@) || self@.executables.contains_key(source_file@)),
    {
        self.modules.contains_key(source_file) || self.executables.contains_key(source_file)
    }

    pub fn has_executable_source(&self, source_file: &str) -> (r: bool)
        requires
            self.wf(),
        ensures
            r == self@.executables.contains_key(source_file@),
    {
        self.executables.contains_key(source_file)
    }

    pub fn has_package(&self, identifier: &str) -> (r: bool)
        requires
            self.wf(),
        ensures
            r == self@.packages.contains_key(identifier@),
    {
        self.packages.contains_key(identifier)
    }

    /// Whether a module has its source at `source_file`: a standalone module
    /// registered there, or a module of a package whose root contains it.
    pub fn has_module_source(&self, source_file: &str) -> (r: bool)
        requires
            self.wf(),
        ensures
            r == (self@.modules.contains_key(source_file@) || exists|pk: Seq<char>, m: Seq<char>|
                #[trigger] self@.packages.contains_key(pk) && under_root(source_file@, self@.packages[pk].package_root)
                    && #[trigger] self@.packages[pk].modules.contains_key(m)
                    && self@.packages[pk].modules[m].0 == relative_to(source_file@, self@.packages[pk].package_root)),
    {
        if self.modules.contains_key(source_file) {
            return true;
        }
        let mut i: usize = 0;
        proof {
            self.packages.lemma_view();
        }
        while i < self.packages.len()
            invariant
                self.wf(),
                !self@.modules.contains_key(source_file@),
                i <= self.packages.size(),
                forall|j: int, m: Seq<char>| 0 <= j < i && under_root(source_file@, self.packages.val_at(j)@.package_root)
                    ==> !(#[trigger] self.packages.val_at(j)@.modules.contains_key(m)
                    && self.packages.val_at(j)@.modules[m].0 == relative_to(source_file@, self.packages.val_at(j)@.package_root)),
            decreases self.packages.size() - i,
        {
            proof {
                self.packages.lemma_view();
            }
            let package = self.packages.value(i);
            if starts_with(source_file, package.package_root.as_str()) && package.has_module_source(source_file) {
                proof {
                    let pk = self.packages.key_at(i as int);
                    assert(self@.packages.contains_key(pk));
                    let m = choose|m: Seq<char>| #[trigger] package@.modules.contains_key(m) && package@.modules[m].0 == relative_to(source_file@, package@.package_root);
                    assert(self@.packages[pk].modules.contains_key(m));
                }
                return true;
            }
            i = i + 1;
        }
        proof {
            self.packages.lemma_view();
            assert forall|pk: Seq<char>, m: Seq<char>|
                #[trigger] self@.packages.contains_key(pk) && under_root(source_file@, self@.packages[pk].package_root)
                    && #[trigger] self@.packages[pk].modules.contains_key(m)
                implies self@.packages[pk].modules[m].0 != relative_to(source_file@, self@.packages[pk].package_root) by {
                let j = self.packages.index_of(pk);
                assert(self.packages.val_at(j)@ == self@.packages[pk]);
            }
        }
        false
    }

    /// Whether a module with identifier `identifier` exists: a standalone
    /// module, or a module of some package.
    pub fn has_module_id(&self, identifier: &str) -> (r: bool)
        requires
            self.wf(),
        ensures
            r == (module_id_taken(self@, identifier@) || exists|pk: Seq<char>|
                #[trigger] self@.packages.contains_key(pk) && self@.packages[pk].modules.contains_key(identifier@)),
    {
        if self.standalone_id_taken(identifier) {
            return true;
        }
        let mut i: usize = 0;
        while i < self.packages.len()
            invariant
                self.wf(),
                i <= self.packages.size(),
                forall|j: int| 0 <= j < i ==> !(#[trigger] self.packages.val_at(j))@.modules.contains_key(identifier@),
            decreases self.packages.size() - i,
        {
            if self.packages.value(i).has_module_id(identifier) {
                proof {
                    self.packages.lemma_view();
                    assert(self@.packages.contains_key(self.packages.key_at(i as int)));
                }
                return true;
            }
            i = i + 1;
        }
        proof {
            self.packages.lemma_view();
            assert forall|pk: Seq<char>| #[trigger] self@.packages.contains_key(pk) implies !self@.packages[pk].modules.contains_key(identifier@) by {
                let j = self.packages.index_of(pk);
            }
        }
        false
    }

    /// The source paths of the standalone modules with identifier `identifier`.
    pub fn search_modules_by_id(&self, identifier: &str) -> (r: Vec<String>)
        requires
            self.wf(),
        ensures
            forall|i: int| 0 <= i < r.len() ==> #[trigger] self@.modules.contains_key(r@[i]@) && self@.modules[r@[i]@].identifier == identifier@,
            forall|p: Seq<char>| #[trigger] self@.modules.contains_key(p) && self@.modules[p].identifier == identifier@
                ==> exists|i: int| 0 <= i < r.len() && #[trigger] r@[i]@ == p,
    {
        let mut found: Vec<String> = Vec::new();
        let mut i: usize = 0;
        proof {
            self.modules.lemma_view();
        }
        while i < self.modules.len()
            invariant
                self.wf(),
                i <= self.modules.size(),
                forall|k: int| 0 <= k < found.len() ==> self@.modules.contains_key(#[trigger] found@[k]@) && self@.modules[found@[k]@].identifier == identifier@,
                forall|j: int| 0 <= j < i && (#[trigger] self.modules.val_at(j))@.identifier == identifier@
                    ==> exists|k: int| 0 <= k < found.len() && #[trigger] found@[k]@ == self.modules.key_at(j),
            decreases self.modules.size() - i,
        {
            proof {
                self.modules.lemma_view();
            }
            if str_eq(self.modules.value(i).identifier.as_str(), identifier) {
                let ghost f0 = found@;
                found.push(self.modules.key(i).clone());
                proof {
                    assert(found@[found.len() - 1]@ == self.modules.key_at(i as int));
                    assert(self@.modules.contains_key(self.modules.key_at(i as int)));
                    assert forall|k: int| 0 <= k < found.len() implies self@.modules.contains_key(#[trigger] found@[k]@) && self@.modules[found@[k]@].identifier == identifier@ by {
                        if k < f0.len() {
                            assert(found@[k] == f0[k]);
                        }
                    }
                    assert forall|j: int| 0 <= j < i && (#[trigger] self.modules.val_at(j))@.identifier == identifier@
                        implies exists|k: int| 0 <= k < found.len() && #[trigger] found@[k]@ == self.modules.key_at(j) by {
                        let k = choose|k: int| 0 <= k < f0.len() && #[trigger] f0[k]@ == self.modules.key_at(j);
                        assert(found@[k]@ == self.modules.key_at(j));
                    }
                }
            }
            i = i + 1;
        }
        proof {
            self.modules.lemma_view();
            assert forall|p: Seq<char>| #[trigger] self@.modules.contains_key(p) && self@.modules[p].identifier == identifier@
                implies exists|i: int| 0 <= i < found.len() && #[trigger] found@[i]@ == p by {
                let j = self.modules.index_of(p);
                assert(self.modules.val_at(j)@.identifier == identifier@);
            }
        }
        found
    }

    /// The identifiers of the packages that have a module `identifier`.
    pub fn search_package_modules(&self, identifier: &str) -> (r: Vec<String>)
        requires
            self.wf(),
        ensures
            forall|i: int| 0 <= i < r.len() ==> #[trigger] self@.packages.contains_key(r@[i]@) && self@.packages[r@[i]@].modules.contains_key(identifier@),
            forall|pk: Seq<char>| #[trigger] self@.packages.contains_key(pk) && self@.packages[pk].modules.contains_key(identifier@)
                ==> exists|i: int| 0 <= i < r.len() && #[trigger] r@[i]@ == pk,
    {
        let mut found: Vec<String> = Vec::new();
        let mut i: usize = 0;
        proof {
            self.packages.lemma_view();
        }
        while i < self.packages.len()
            invariant
                self.wf(),
                i <= self.packages.size(),
                forall|k: int| 0 <= k < found.len() ==> self@.packages.contains_key(#[trigger] found@[k]@) && self@.packages[found@[k]@].modules.contains_key(identifier@),
                forall|j: int| 0 <= j < i && (#[trigger] self.packages.val_at(j))@.modules.contains_key(identifier@)
                    ==> exists|k: int| 0 <= k < found.len() && #[trigger] found@[k]@ == self.packages.key_at(j),
            decreases self.packages.size() - i,
        {
            proof {
                self.packages.lemma_view();
            }
            if self.packages.value(i).has_module_id(identifier) {
                let ghost f0 = found@;
                found.push(self.packages.key(i).clone());
                proof {
                    assert(found@[found.len() - 1]@ == self.packages.key_at(i as int));
                    assert(self@.packages.contains_key(self.packages.key_at(i as int)));
                    assert forall|k: int| 0 <= k < found.len() implies self@.packages.contains_key(#[trigger] found@[k]@) && self@.packages[found@[k]@].modules.contains_key(identifier@) by {
                        if k < f0.len() {
                            assert(found@[k] == f0[k]);
                        }
                    }
                    assert forall|j: int| 0 <= j < i && (#[trigger] self.packages.val_at(j))@.modules.contains_key(identifier@)
                        implies exists|k: int| 0 <= k < found.len() && #[trigger] found@[k]@ == self.packages.key_at(j) by {
                        let k = choose|k: int| 0 <= k < f0.len() && #[trigger] f0[k]@ == self.packages.key_at(j);
                        assert(found@[k]@ == self.packages.key_at(j));
                    }
                }
            }
            i = i + 1;
        }
        proof {
            self.packages.lemma_view();
            assert forall|pk: Seq<char>| #[trigger] self@.packages.contains_key(pk) && self@.packages[pk].modules.contains_key(identifier@)
                implies exists|i: int| 0 <= i < found.len() && #[trigger] found@[i]@ == pk by {
                let j = self.packages.index_of(pk);
                assert(self.packages.val_at(j)@.modules.contains_key(identifier@));
            }
        }
        found
    }

    pub fn count_packages(&self) -> (r: usize)
        requires
            self.wf(),
        ensures
            r == self@.packages.dom().len(),
    {
        proof {
            self.packages.lemma_size();
        }
        self.packages.len()
    }

    /// Whether no unit at all is registered.
    pub fn is_empty(&self) -> (r: bool)
        requires
            self.wf(),
        ensures
            r == (self@.modules.is_empty() && self@.executables.is_empty() && self@.packages.is_empty()),
    {
        proof {
            self.modules.lemma_size();
            self.executables.lemma_size();
            self.packages.lemma_size();
        }
        self.modules.len() == 0 && self.executables.len() == 0 && self.packages.len() == 0
    }

    /// Raises the version of package `identifier` by `increment` and hands
    /// back the new version.
    pub fn publish(&mut self, identifier: &str, increment: SemVerIncrement) -> (res: Result<Version, PackageError>)
        requires
            old(self).wf(),
            old(self)@.packages.contains_key(identifier@) ==> incrementable(old(self)@.packages[identifier@].version, increment),
        ensures
            final(self).wf(),
            !old(self)@.packages.contains_key(identifier@) ==> res == Err::<Version, PackageError>(PackageError::NoSuchPackage)
                && final(self)@ == old(self)@,
            old(self)@.packages.contains_key(identifier@) ==> ({
                let v = incremented(old(self)@.packages[identifier@].version, increment);
                &&& res == Ok::<Version, PackageError>(v)
                &&& final(self)@ == (RegistryView {
                    packages: old(self)@.packages.insert(identifier@, PackageView { version: v, ..old(self)@.packages[identifier@] }),
                    ..old(self)@
                })
            }),
    {
        match self.packages.find(identifier) {
            None => Err(PackageError::NoSuchPackage),
            Some(i) => {
                proof {
                    self.packages.lemma_view();
                    lemma_package_meta_valid(self@, identifier@, PackageView {
                        version: incremented(self@.packages[identifier@].version, increment),
                        ..self@.packages[identifier@]
                    });
                }
                let package = self.packages.value_mut(i);
                package.increment_version(increment);
                let v = package.get_version();
                proof {
                    Table::lemma_update(&old(self).packages, &self.packages, i as int);
                    assert(self.packages.all(|p: Package| p.wf()));
                    assert(self@ =~= RegistryView {
                        packages: old(self)@.packages.insert(identifier@, PackageView { version: v, ..old(self)@.packages[identifier@] }),
                        ..old(self)@
                    });
                }
                Ok(v)
            },
        }
    }

    /// Records `git_url` as the remote location of package `identifier`
    /// unless it has one already. Fails if there is no such package, or if it
    /// has no remote location and none is given.
    pub fn upload(&mut self, identifier: &str, git_url: Option<url::Url>) -> (res: Result<(), PackageError>)
        requires
            old(self).wf(),
        ensures
            final(self).wf(),
            !old(self)@.packages.contains_key(identifier@) ==> res == Err::<(), PackageError>(PackageError::NoSuchPackage),
            old(self)@.packages.contains_key(identifier@) && old(self)@.packages[identifier@].remote_location is None && git_url is None
                ==> res == Err::<(), PackageError>(PackageError::NoRemoteLocation),
            res is Err ==> final(self)@ == old(self)@,
            res is Ok <==> old(self)@.packages.contains_key(identifier@)
                && (old(self)@.packages[identifier@].remote_location is Some || git_url is Some),
            res is Ok && old(self)@.packages[identifier@].remote_location is Some ==> final(self)@ == old(self)@,
            res is Ok && old(self)@.packages[identifier@].remote_location is None ==> final(self)@ == (RegistryView {
                packages: old(self)@.packages.insert(identifier@, PackageView { remote_location: git_url, ..old(self)@.packages[identifier@] }),
                ..old(self)@
            }),
    {
        match self.packages.find(identifier) {
            None => Err(PackageError::NoSuchPackage),
            Some(i) => {
                proof {
                    self.packages.lemma_view();
                }
                if self.packages.value(i).get_remote_location().is_some() {
                    return Ok(());
                }
                match git_url {
                    None => Err(PackageError::NoRemoteLocation),
                    Some(url) => {
                        proof {
                            lemma_package_meta_valid(self@, identifier@, PackageView {
                                remote_location: Some(url),
                                ..self@.packages[identifier@]
                            });
                        }
                        let package = self.packages.value_mut(i);
                        package.set_remote_location(url);
                        proof {
                            Table::lemma_update(&old(self).packages, &self.packages, i as int);
                            assert(self.packages.all(|p: Package| p.wf()));
                            assert(self@ =~= RegistryView {
                                packages: old(self)@.packages.insert(identifier@, PackageView { remote_location: Some(url), ..old(self)@.packages[identifier@] }),
                                ..old(self)@
                            });
                        }
                        Ok(())
                    },
                }
            },
        }
    }

    /// Registers `package`, whose modules must have no edges yet and be keyed
    /// by their identifiers. Fails if a package with that identifier exists,
    /// or if the modules are not so.
    pub fn add(&mut self, package: Package) -> (res: Result<(), PackageError>)
        requires
            old(self).wf(),
            package.wf(),
        ensures
            final(self).wf(),
            old(self)@.packages.contains_key(package@.identifier) ==> res == Err::<(), PackageError>(PackageError::PackageAlreadyInRegistry),
            !old(self)@.packages.contains_key(package@.identifier) ==> (res is Ok <==> forall|m: Seq<char>| #[trigger] package@.modules.contains_key(m)
                ==> package@.modules[m].1.identifier == m && package@.modules[m].1.dependencies == Map::<Seq<char>, DependencyView>::empty()),
            res is Err ==> final(self)@ == old(self)@,
            res is Ok ==> final(self)@ == (RegistryView { packages: old(self)@.packages.insert(package@.identifier, package@), ..old(self)@ }),
    {
        if self.packages.contains_key(package.identifier.as_str()) {
            return Err(PackageError::PackageAlreadyInRegistry);
        }
        let mut i: usize = 0;
        proof {
            package.modules.lemma_view();
        }
        while i < package.modules.len()
            invariant
                self.wf(),
                !self@.packages.contains_key(package@.identifier),
                package.wf(),
                i <= package.modules.size(),
                forall|j: int| 0 <= j < i ==> (#[trigger] package.modules.val_at(j))@.1.identifier == package.modules.key_at(j)
                    && package.modules.val_at(j)@.1.dependencies == Map::<Seq<char>, DependencyView>::empty(),
            decreases package.modules.size() - i,
        {
            proof {
                package.modules.lemma_view();
            }
            let e = package.modules.value(i);
            let bad = !str_eq(e.1.identifier.as_str(), package.modules.key(i).as_str()) || e.1.dependencies.len() != 0;
            if bad {
                proof {
                    e.1.dependencies.lemma_size();
                    let k = package.modules.key_at(i as int);
                    assert(package@.modules.contains_key(k));
                    if e.1.dependencies.size() != 0 {
                        assert(e.1.dependencies@.dom().len() != 0);
                    }
                }
                return Err(PackageError::InvalidManifest);
            }
            proof {
                e.1.dependencies.lemma_size();
                assert(e.1.dependencies@ =~= Map::<Seq<char>, DependencyView>::empty());
            }
            i = i + 1;
        }
        proof {
            package.modules.lemma_view();
            assert forall|m: Seq<char>| #[trigger] package@.modules.contains_key(m) implies package@.modules[m].1.identifier == m
                && package@.modules[m].1.dependencies == Map::<Seq<char>, DependencyView>::empty() by {
                let j = package.modules.index_of(m);
            }
            lemma_with_package_valid(self@, package@.identifier, package@);
        }
        self.packages.insert(package.identifier.clone(), package);
        Ok(())
    }

    /// The standalone modules, by source path.
    pub fn modules(&self) -> (r: &Table<StandaloneModule>)
        ensures
            r@ == self@.modules,
    {
        &self.modules
    }

    /// The executables, by source path.
    pub fn executables(&self) -> (r: &Table<Executable>)
        ensures
            r@ == self@.executables,
    {
        &self.executables
    }

    /// The packages, by identifier.
    pub fn packages(&self) -> (r: &Table<Package>)
        ensures
            r@ == self@.packages,
    {
        &self.packages
    }

    /// Removes the edge under `identifier` of the unit `owner`, but only if it
    /// equals `dependency`. Fails if the owner is not registered.
    pub fn remove_dependency(&mut self, owner: &Entry, identifier: &str, dependency: &Dependency) -> (res: Result<(), ModuleError>)
        requires
            old(self).wf(),
        ensures
            final(self).wf(),
            res is Ok <==> owner_exists(old(self)@, owner@),
            res is Err ==> res == Err::<(), ModuleError>(ModuleError::ReferencedUnitMissing) && final(self)@ == old(self)@,
            res is Ok ==> final(self)@ == with_owner_deps(old(self)@, owner@, without_edge(owner_deps(old(self)@, owner@), identifier@, dependency@)),
    {
        if !self.has_entry(owner) {
            return Err(ModuleError::ReferencedUnitMissing);
        }
        proof {
            lemma_remove_edge_valid(self@, owner@, identifier@, dependency@);
            self.modules.lemma_view();
            self.executables.lemma_view();
            self.packages.lemma_view();
        }
        let ghost target = with_owner_deps(old(self)@, owner@, without_edge(owner_deps(old(self)@, owner@), identifier@, dependency@));
        match owner {
            Entry::Executable(p) => {
                let i = self.executables.find(p.as_str()).unwrap();
                let x = self.executables.value_mut(i);
                x.remove_dependency(identifier, dependency);
                proof {
                    Table::lemma_update(&old(self).executables, &self.executables, i as int);
                    assert(self.executables.all(|e: Executable| e.wf()));
                    assert(self@ =~= target);
                }
            },
            Entry::StandaloneModule(p) => {
                let i = self.modules.find(p.as_str()).unwrap();
                let m = self.modules.value_mut(i);
                m.remove_dependency(identifier, dependency);
                proof {
                    Table::lemma_update(&old(self).modules, &self.modules, i as int);
                    assert(self.modules.all(|m: StandaloneModule| m.wf()));
                    assert(self@ =~= target);
                }
            },
            Entry::PackageModule(pk, id) => {
                let i = self.packages.find(pk.as_str()).unwrap();
                let package = self.packages.value_mut(i);
                package.remove_module_dependency(id.as_str(), identifier, dependency);
                proof {
                    Table::lemma_update(&old(self).packages, &self.packages, i as int);
                    assert(self.packages.all(|p: Package| p.wf()));
                    assert(self@ =~= target);
                }
            },
        }
        Ok(())
    }
}

} // verus!

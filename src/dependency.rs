use vstd::prelude::*;
use crate::table::Table;
use crate::text::str_eq;

verus! {

/// A reference from one build unit to another.
#[derive(Clone, Debug, PartialEq, Eq, Hash)]
pub enum Dependency {
    /// An artifact outside the registry: its identifier and output location.
    Stray(String, String),
    /// A registered standalone module, by source path.
    Standalone(String),
    /// A module of a package: package identifier, module identifier.
    Package(String, String),
}

/// The mathematical value of a [`Dependency`].
pub enum DependencyView {
    Stray(Seq<char>, Seq<char>),
    Standalone(Seq<char>),
    Package(Seq<char>, Seq<char>),
}

impl DependencyView {
    /// Whether this reference names a module (a node of the dependency graph).
    pub open spec fn is_unit(self) -> bool {
        !(self is Stray)
    }
}

impl View for Dependency {
    type V = DependencyView;

    open spec fn view(&self) -> DependencyView {
        match self {
            Dependency::Stray(i, o) => DependencyView::Stray(i@, o@),
            Dependency::Standalone(p) => DependencyView::Standalone(p@),
            Dependency::Package(p, m) => DependencyView::Package(p@, m@),
        }
    }
}

/// The dependency edges of one build unit, keyed by the identifier of the target.
pub type DependencyMap = Map<Seq<char>, DependencyView>;

/// Every edge of `deps` is a reference to a package module.
pub open spec fn only_package_edges(deps: DependencyMap) -> bool {
    forall|k: Seq<char>| #[trigger] deps.contains_key(k) ==> deps[k] is Package
}

/// The edges after a removal request for `(id, dep)`: the edge goes only if it
/// is stored exactly so.
pub open spec fn without_edge(deps: DependencyMap, id: Seq<char>, dep: DependencyView) -> DependencyMap {
    if deps.contains_key(id) && deps[id] == dep {
        deps.remove(id)
    } else {
        deps
    }
}

/// Whether an edge to `v` is hit by a removal of `target`: an edge equal to
/// it, or, for a whole package, an edge to any module of that package.
pub open spec fn hits(v: DependencyView, target: DependencyView, whole_package: bool) -> bool {
    if whole_package {
        v is Package && target is Package && v->Package_0 == target->Package_0
    } else {
        v == target
    }
}

/// The edges of `deps` that are not hit by a removal of `target`.
pub open spec fn drop_edges(deps: DependencyMap, target: DependencyView, whole_package: bool) -> DependencyMap {
    Map::new(|k: Seq<char>| deps.contains_key(k) && !hits(deps[k], target, whole_package), |k: Seq<char>| deps[k])
}

/// The edge value after the modules at source paths in `moved` became modules
/// of package `pkg`: a reference to a moved module now names it in the package.
pub open spec fn promoted(moved: Map<Seq<char>, Seq<char>>, pkg: Seq<char>, v: DependencyView) -> DependencyView {
    match v {
        DependencyView::Standalone(q) => if moved.contains_key(q) {
            DependencyView::Package(pkg, moved[q])
        } else {
            v
        },
        _ => v,
    }
}

impl Dependency {
    /// True for a reference to a package module.
    pub fn is_package_module(&self) -> (r: bool)
        ensures
            r == (self@ is Package),
    {
        match self {
            Dependency::Stray(_, _) | Dependency::Standalone(_) => false,
            Dependency::Package(_, _) => true,
        }
    }

    /// True for a reference to a module (anything but a stray artifact).
    pub fn is_unit(&self) -> (r: bool)
        ensures
            r == self@.is_unit(),
    {
        match self {
            Dependency::Stray(_, _) => false,
            _ => true,
        }
    }

    /// A copy with the same value.
    pub fn duplicate(&self) -> (r: Dependency)
        ensures
            r@ == self@,
    {
        match self {
            Dependency::Stray(i, o) => Dependency::Stray(i.clone(), o.clone()),
            Dependency::Standalone(p) => Dependency::Standalone(p.clone()),
            Dependency::Package(p, m) => Dependency::Package(p.clone(), m.clone()),
        }
    }

    /// Value equality.
    pub fn same_as(&self, other: &Dependency) -> (r: bool)
        ensures
            r == (self@ == other@),
    {
        match (self, other) {
            (Dependency::Stray(a, b), Dependency::Stray(c, d)) => str_eq(a.as_str(), c.as_str())
                && str_eq(b.as_str(), d.as_str()),
            (Dependency::Standalone(a), Dependency::Standalone(c)) => str_eq(a.as_str(), c.as_str()),
            (Dependency::Package(a, b), Dependency::Package(c, d)) => str_eq(a.as_str(), c.as_str())
                && str_eq(b.as_str(), d.as_str()),
            _ => false,
        }
    }
}

impl Table<Dependency> {
    /// Inserts the edge, replacing any edge under the same identifier.
    pub fn add_dependency(&mut self, identifier: String, dependency: Dependency)
        requires
            old(self).wf(),
        ensures
            final(self).wf(),
            final(self)@ == old(self)@.insert(identifier@, dependency@),
    {
        self.insert(identifier, dependency);
    }

    pub fn get_dependency(&self, identifier: &str) -> (r: Option<&Dependency>)
        requires
            self.wf(),
        ensures
            r.is_some() == self@.contains_key(identifier@),
            r matches Some(d) ==> d@ == self@[identifier@],
    {
        self.get(identifier)
    }

    pub fn has_dependency(&self, identifier: &str) -> (r: bool)
        requires
            self.wf(),
        ensures
            r == self@.contains_key(identifier@),
    {
        self.contains_key(identifier)
    }

    /// Removes the edge under `identifier`, but only if it equals `dependency`.
    pub fn remove_dependency(&mut self, identifier: &str, dependency: &Dependency)
        requires
            old(self).wf(),
        ensures
            final(self).wf(),
            final(self)@ == without_edge(old(self)@, identifier@, dependency@),
    {
        let matches = match self.get(identifier) {
            None => false,
            Some(d) => d.same_as(dependency),
        };
        if matches {
            self.remove(identifier);
        }
    }

    /// True when every edge is a reference to a package module.
    pub fn has_only_package_module_dependencies(&self) -> (r: bool)
        requires
            self.wf(),
        ensures
            r == only_package_edges(self@),
    {
        proof {
            self.lemma_view();
        }
        let mut i: usize = 0;
        while i < self.len()
            invariant
                self.wf(),
                i <= self.size(),
                forall|j: int| 0 <= j < i ==> #[trigger] self.val_at(j)@ is Package,
            decreases self.size() - i,
        {
            if !self.value(i).is_package_module() {
                proof {
                    self.lemma_view();
                }
                assert(self@[self.key_at(i as int)] == self.val_at(i as int)@);
                return false;
            }
            i = i + 1;
        }
        proof {
            self.lemma_view();
        }
        true
    }

    /// Drops every edge hit by a removal of `target` (see [`hits`]).
    pub fn remove_edges_to(&mut self, target: &Dependency, whole_package: bool)
        requires
            old(self).wf(),
        ensures
            final(self).wf(),
            final(self)@ == drop_edges(old(self)@, target@, whole_package),
    {
        let mut kept: Table<Dependency> = Table::new();
        let mut i: usize = 0;
        proof {
            self.lemma_view();
        }
        while i < self.len()
            invariant
                self.wf(),
                kept.wf(),
                i <= self.size(),
                forall|k: Seq<char>| #[trigger] kept@.contains_key(k) ==> self@.contains_key(k) && !hits(self@[k], target@, whole_package) && kept@[k] == self@[k] && 0 <= self.index_of(k) < i,
                forall|j: int| 0 <= j < i && !hits(self.val_at(j)@, target@, whole_package) ==> kept@.contains_key(#[trigger] self.key_at(j)),
            decreases self.size() - i,
        {
            proof {
                self.lemma_view();
            }
            let hit = match (self.value(i), target) {
                (Dependency::Package(a, _), Dependency::Package(b, _)) => if whole_package {
                    str_eq(a.as_str(), b.as_str())
                } else {
                    self.value(i).same_as(target)
                },
                _ => !whole_package && self.value(i).same_as(target),
            };
            if !hit {
                kept.insert(self.key(i).clone(), self.value(i).duplicate());
            }
            i = i + 1;
        }
        proof {
            self.lemma_view();
            assert(kept@ =~= drop_edges(self@, target@, whole_package)) by {
                assert forall|k: Seq<char>| #[trigger] drop_edges(self@, target@, whole_package).contains_key(k) implies kept@.contains_key(k) by {
                    let j = self.index_of(k);
                    assert(self.key_at(j) == k);
                }
            }
        }
        *self = kept;
    }

    /// A copy with the same edges.
    pub fn duplicate(&self) -> (r: Table<Dependency>)
        requires
            self.wf(),
        ensures
            r.wf(),
            r@ == self@,
    {
        let mut copy: Table<Dependency> = Table::new();
        let mut i: usize = 0;
        proof {
            self.lemma_view();
        }
        while i < self.len()
            invariant
                self.wf(),
                copy.wf(),
                i <= self.size(),
                forall|k: Seq<char>| #[trigger] copy@.contains_key(k) ==> self@.contains_key(k) && copy@[k] == self@[k] && 0 <= self.index_of(k) < i,
                forall|j: int| 0 <= j < i ==> copy@.contains_key(#[trigger] self.key_at(j)),
            decreases self.size() - i,
        {
            proof {
                self.lemma_view();
            }
            copy.insert(self.key(i).clone(), self.value(i).duplicate());
            i = i + 1;
        }
        proof {
            self.lemma_view();
            assert forall|k: Seq<char>| #[trigger] self@.contains_key(k) implies copy@.contains_key(k) by {
                let j = self.index_of(k);
            }
            assert(copy@ =~= self@);
        }
        copy
    }

    /// Redirects every edge to a module in `moved` (source path to identifier)
    /// to that module in package `pkg`.
    pub fn promote_edges(&mut self, moved: &Table<String>, pkg: &str)
        requires
            old(self).wf(),
            moved.wf(),
        ensures
            final(self).wf(),
            final(self)@ == old(self)@.map_values(|v: DependencyView| promoted(moved@, pkg@, v)),
    {
        let mut i: usize = 0;
        while i < self.len()
            invariant
                self.wf(),
                old(self).wf(),
                moved.wf(),
                self.size() == old(self).size(),
                i <= self.size(),
                forall|j: int| 0 <= j < self.size() ==> #[trigger] self.key_at(j) == old(self).key_at(j),
                forall|j: int| 0 <= j < i ==> (#[trigger] self.val_at(j))@ == promoted(moved@, pkg@, old(self).val_at(j)@),
                forall|j: int| i <= j < self.size() ==> #[trigger] self.val_at(j) == old(self).val_at(j),
            decreases self.size() - i,
        {
            let ghost before = *self;
            let target = match self.value(i) {
                Dependency::Standalone(q) => match moved.get(q.as_str()) {
                    Some(id) => Some(Dependency::Package(pkg.to_owned(), id.clone())),
                    None => None,
                },
                _ => None,
            };
            match target {
                Some(d) => {
                    let v = self.value_mut(i);
                    *v = d;
                    proof {
                        Table::lemma_update(&before, self, i as int);
                    }
                },
                None => {},
            }
            i = i + 1;
        }
        proof {
            Table::lemma_map_values(old(self), self, |v: DependencyView| promoted(moved@, pkg@, v));
        }
    }
}

} // verus!

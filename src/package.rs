use vstd::prelude::*;
use crate::dependency::{Dependency, DependencyView, drop_edges, without_edge};
use crate::module::{ModuleView, PackageModule};
use crate::table::Table;
use crate::text::{join, joined, relative_to, strip_root, under_root};
use crate::version::{SemVerIncrement, Version, incrementable, incremented};

verus! {

/// Declares `url::Url`, the remote location of a package, which is carried
/// through unchanged.
#[verifier::external_type_specification]
#[verifier::external_body]
pub struct ExUrl(url::Url);

/// How the compiler of a package is invoked.
pub struct Language {
    pub compiler_command_name: String,
    pub output_option: String,
}

/// A versioned set of modules under one root directory.
pub struct Package {
    pub identifier: String,
    pub package_root: String,
    pub version: Version,
    pub language: Language,
    pub remote_location: Option<url::Url>,
    /// Module identifier to (source path relative to the root, module).
    pub modules: Table<(String, PackageModule)>,
}

/// The mathematical value of a [`Package`].
pub struct PackageView {
    pub identifier: Seq<char>,
    pub package_root: Seq<char>,
    pub version: Version,
    pub compiler_command_name: Seq<char>,
    pub output_option: Seq<char>,
    pub remote_location: Option<url::Url>,
    pub modules: Map<Seq<char>, (Seq<char>, ModuleView)>,
}

impl View for Package {
    type V = PackageView;

    open spec fn view(&self) -> PackageView {
        PackageView {
            identifier: self.identifier@,
            package_root: self.package_root@,
            version: self.version,
            compiler_command_name: self.language.compiler_command_name@,
            output_option: self.language.output_option@,
            remote_location: self.remote_location,
            modules: self.modules@,
        }
    }
}

/// A module without the edges hit by a removal of `t`.
pub open spec fn module_drop(m: ModuleView, t: DependencyView, w: bool) -> ModuleView {
    ModuleView { dependencies: drop_edges(m.dependencies, t, w), ..m }
}

/// A package whose modules lose the edges hit by a removal of `t`.
pub open spec fn package_drop(pv: PackageView, t: DependencyView, w: bool) -> PackageView {
    PackageView {
        modules: pv.modules.map_values(|e: (Seq<char>, ModuleView)| (e.0, module_drop(e.1, t, w))),
        ..pv
    }
}

impl Package {
    pub open spec fn wf(&self) -> bool {
        &&& self.modules.wf()
        &&& self.modules.all(|e: (String, PackageModule)| e.1.wf())
    }

    /// A package without modules that has never been versioned.
    pub fn create(
        identifier: String,
        package_root: String,
        compiler_command_name: String,
        output_option: String,
    ) -> (r: Self)
        ensures
            r.wf(),
            r@ == (PackageView {
                identifier: identifier@,
                package_root: package_root@,
                version: Version::NotVersioned,
                compiler_command_name: compiler_command_name@,
                output_option: output_option@,
                remote_location: None,
                modules: Map::empty(),
            }),
    {
        Package {
            identifier,
            package_root,
            version: Version::NotVersioned,
            language: Language { compiler_command_name, output_option },
            remote_location: None,
            modules: Table::new(),
        }
    }

    /// Adds `module` under its identifier, with its source path relative to the root.
    pub fn add_module(&mut self, relative_path: String, module: PackageModule)
        requires
            old(self).wf(),
            module.wf(),
        ensures
            final(self).wf(),
            final(self)@ == (PackageView {
                modules: old(self)@.modules.insert(module@.identifier, (relative_path@, module@)),
                ..old(self)@
            }),
    {
        let id = module.identifier.clone();
        self.modules.insert(id, (relative_path, module));
    }

    pub fn has_module_id(&self, identifier: &str) -> (r: bool)
        requires
            self.wf(),
        ensures
            r == self@.modules.contains_key(identifier@),
    {
        self.modules.contains_key(identifier)
    }

    pub fn get_module(&self, identifier: &str) -> (r: Option<&PackageModule>)
        requires
            self.wf(),
        ensures
            r.is_some() == self@.modules.contains_key(identifier@),
            r matches Some(m) ==> m@ == self@.modules[identifier@].1,
    {
        match self.modules.get(identifier) {
            Some(e) => Some(&e.1),
            None => None,
        }
    }

    /// Whether one of the modules has its source at `source_file`, which must
    /// lie under the package root.
    pub fn has_module_source(&self, source_file: &str) -> (r: bool)
        requires
            self.wf(),
            under_root(source_file@, self@.package_root),
        ensures
            r == exists|k: Seq<char>|
                #[trigger] self@.modules.contains_key(k) && self@.modules[k].0 == relative_to(
                    source_file@,
                    self@.package_root,
                ),
    {
        let stripped = strip_root(source_file, self.package_root.as_str());
        proof {
            self.modules.lemma_view();
        }
        let mut i: usize = 0;
        while i < self.modules.len()
            invariant
                self.wf(),
                i <= self.modules.size(),
                stripped@ == relative_to(source_file@, self@.package_root),
                forall|j: int| 0 <= j < i ==> (#[trigger] self.modules.val_at(j)).0@ != stripped@,
            decreases self.modules.size() - i,
        {
            if self.modules.value(i).0 == stripped {
                proof {
                    self.modules.lemma_view();
                    assert(self@.modules.contains_key(self.modules.key_at(i as int)));
                }
                return true;
            }
            i = i + 1;
        }
        proof {
            self.modules.lemma_view();
            assert forall|k: Seq<char>| #[trigger] self@.modules.contains_key(k) implies self@.modules[k].0 != stripped@ by {
                let j = self.modules.index_of(k);
                assert(self.modules.val_at(j)@.0 == self.modules.val_at(j).0@);
            }
        }
        false
    }

    /// Raises the version by `kind`.
    pub fn increment_version(&mut self, kind: SemVerIncrement)
        requires
            incrementable(old(self)@.version, kind),
        ensures
            final(self).modules == old(self).modules,
            final(self)@ == (PackageView { version: incremented(old(self)@.version, kind), ..old(self)@ }),
    {
        self.version = self.version.increment(kind);
    }

    pub fn get_version(&self) -> (r: Version)
        ensures
            r == self@.version,
    {
        self.version
    }

    /// Records `git_url` as the remote location unless one is recorded already.
    pub fn set_remote_location(&mut self, git_url: url::Url)
        ensures
            final(self).modules == old(self).modules,
            old(self)@.remote_location is Some ==> final(self)@ == old(self)@,
            old(self)@.remote_location is None ==> final(self)@ == (PackageView {
                remote_location: Some(git_url),
                ..old(self)@
            }),
    {
        if self.remote_location.is_none() {
            self.remote_location = Some(git_url);
        }
    }

    pub fn get_remote_location(&self) -> (r: &Option<url::Url>)
        ensures
            *r == self@.remote_location,
    {
        &self.remote_location
    }

    /// Inserts an edge into the dependencies of the module `module_id`.
    pub fn add_module_dependency(&mut self, module_id: &str, identifier: String, dependency: Dependency)
        requires
            old(self).wf(),
            old(self)@.modules.contains_key(module_id@),
        ensures
            final(self).wf(),
            final(self)@ == (PackageView {
                modules: old(self)@.modules.insert(
                    module_id@,
                    (
                        old(self)@.modules[module_id@].0,
                        ModuleView {
                            dependencies: old(self)@.modules[module_id@].1.dependencies.insert(
                                identifier@,
                                dependency@,
                            ),
                            ..old(self)@.modules[module_id@].1
                        },
                    ),
                ),
                ..old(self)@
            }),
    {
        let j = self.modules.find(module_id).unwrap();
        proof {
            self.modules.lemma_view();
        }
        let e = self.modules.value_mut(j);
        e.1.add_dependency(identifier, dependency);
        proof {
            Table::lemma_update(&old(self).modules, &self.modules, j as int);
        }
    }

    /// Drops, from every module, the edges hit by a removal of `target`.
    pub fn remove_edges_to(&mut self, target: &Dependency, whole_package: bool)
        requires
            old(self).wf(),
        ensures
            final(self).wf(),
            final(self)@ == package_drop(old(self)@, target@, whole_package),
    {
        let mut i: usize = 0;
        while i < self.modules.len()
            invariant
                self.modules.wf(),
                self.identifier == old(self).identifier,
                self.package_root == old(self).package_root,
                self.version == old(self).version,
                self.language == old(self).language,
                self.remote_location == old(self).remote_location,
                self.modules.size() == old(self).modules.size(),
                i <= self.modules.size(),
                old(self).wf(),
                forall|j: int| 0 <= j < self.modules.size() ==> #[trigger] self.modules.key_at(j) == old(self).modules.key_at(j),
                forall|j: int| 0 <= j < self.modules.size() ==> (#[trigger] self.modules.val_at(j)).1.wf(),
                forall|j: int| 0 <= j < i ==> (#[trigger] self.modules.val_at(j))@ == (old(self).modules.val_at(j)@.0, module_drop(old(self).modules.val_at(j)@.1, target@, whole_package)),
                forall|j: int| i <= j < self.modules.size() ==> #[trigger] self.modules.val_at(j) == old(self).modules.val_at(j),
            decreases self.modules.size() - i,
        {
            let ghost before = *self;
            let e = self.modules.value_mut(i);
            e.1.dependencies.remove_edges_to(target, whole_package);
            proof {
                Table::lemma_update(&before.modules, &self.modules, i as int);
            }
            i = i + 1;
        }
        proof {
            Table::lemma_map_values(&old(self).modules, &self.modules, |e: (Seq<char>, ModuleView)| (e.0, module_drop(e.1, target@, whole_package)));
        }
    }

    /// The arguments of one compiler run per module: the source file and the
    /// output location, both resolved against the package root, with the
    /// output option between them.
    pub fn build_plan(&self) -> (r: Vec<(String, String, String)>)
        requires
            self.wf(),
        ensures
            r.len() == self.modules.size(),
            forall|i: int| 0 <= i < r.len() ==> (#[trigger] r@[i])@ == (
                joined(self@.package_root, self.modules.val_at(i)@.0),
                self@.output_option,
                joined(self@.package_root, self.modules.val_at(i)@.1.output_location),
            ),
    {
        let mut plan: Vec<(String, String, String)> = Vec::new();
        let mut i: usize = 0;
        while i < self.modules.len()
            invariant
                self.wf(),
                i <= self.modules.size(),
                plan.len() == i,
                forall|j: int| 0 <= j < i ==> (#[trigger] plan@[j])@ == (
                    joined(self@.package_root, self.modules.val_at(j)@.0),
                    self@.output_option,
                    joined(self@.package_root, self.modules.val_at(j)@.1.output_location),
                ),
            decreases self.modules.size() - i,
        {
            let e = self.modules.value(i);
            let source = join(self.package_root.as_str(), e.0.as_str());
            let output = join(self.package_root.as_str(), e.1.output_location.as_str());
            plan.push((source, self.language.output_option.clone(), output));
            i = i + 1;
        }
        plan
    }

    /// Removes the edge under `identifier` of module `module_id`, but only if
    /// it equals `dependency`.
    pub fn remove_module_dependency(&mut self, module_id: &str, identifier: &str, dependency: &Dependency)
        requires
            old(self).wf(),
            old(self)@.modules.contains_key(module_id@),
        ensures
            final(self).wf(),
            final(self)@ == (PackageView {
                modules: old(self)@.modules.insert(
                    module_id@,
                    (
                        old(self)@.modules[module_id@].0,
                        ModuleView {
                            dependencies: without_edge(old(self)@.modules[module_id@].1.dependencies, identifier@, dependency@),
                            ..old(self)@.modules[module_id@].1
                        },
                    ),
                ),
                ..old(self)@
            }),
    {
        let j = self.modules.find(module_id).unwrap();
        proof {
            self.modules.lemma_view();
        }
        let e = self.modules.value_mut(j);
        e.1.remove_dependency(identifier, dependency);
        proof {
            Table::lemma_update(&old(self).modules, &self.modules, j as int);
        }
    }
}

} // verus!

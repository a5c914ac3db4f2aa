use vstd::prelude::*;
use crate::dependency::{Dependency, DependencyMap, DependencyView, only_package_edges, without_edge};
use crate::error::ModuleError;
use crate::table::Table;
use crate::text::{absolute_path, is_absolute};

verus! {

/// The mathematical value of a module: its identifier, where its build output
/// goes, and its dependency edges.
pub struct ModuleView {
    pub identifier: Seq<char>,
    pub output_location: Seq<char>,
    pub dependencies: DependencyMap,
}

/// A module that belongs to no package, registered under its source path.
pub struct StandaloneModule {
    pub identifier: String,
    pub output_location: String,
    pub dependencies: Table<Dependency>,
}

/// A module owned by a package, addressed by package and module identifier.
pub struct PackageModule {
    pub identifier: String,
    pub output_location: String,
    pub dependencies: Table<Dependency>,
}

/// A program, registered under its source path; nothing depends on it.
pub struct Executable {
    pub dependencies: Table<Dependency>,
}

impl View for StandaloneModule {
    type V = ModuleView;

    open spec fn view(&self) -> ModuleView {
        ModuleView {
            identifier: self.identifier@,
            output_location: self.output_location@,
            dependencies: self.dependencies@,
        }
    }
}

impl View for PackageModule {
    type V = ModuleView;

    open spec fn view(&self) -> ModuleView {
        ModuleView {
            identifier: self.identifier@,
            output_location: self.output_location@,
            dependencies: self.dependencies@,
        }
    }
}

impl View for Executable {
    type V = DependencyMap;

    open spec fn view(&self) -> DependencyMap {
        self.dependencies@
    }
}

impl StandaloneModule {
    pub open spec fn wf(&self) -> bool {
        self.dependencies.wf()
    }

    /// A module without dependencies. The output location must be absolute
    /// and name an existing directory; the caller tells whether it exists and
    /// whether it is a directory.
    pub fn create(identifier: &str, output_location: &str, exists: bool, is_directory: bool) -> (r:
        Result<Self, ModuleError>)
        ensures
            !absolute_path(output_location@) ==> r == Err::<Self, _>(
                ModuleError::OutputLocationNotAbsolute,
            ),
            absolute_path(output_location@) && !exists ==> r == Err::<Self, _>(
                ModuleError::OutputLocationDoesNotExist,
            ),
            absolute_path(output_location@) && exists && !is_directory ==> r == Err::<Self, _>(
                ModuleError::OutputLocationNotADirectory,
            ),
            r.is_ok() <==> absolute_path(output_location@) && exists && is_directory,
            r matches Ok(m) ==> m.wf() && m@ == (ModuleView {
                identifier: identifier@,
                output_location: output_location@,
                dependencies: Map::empty(),
            }),
    {
        if !is_absolute(output_location) {
            return Err(ModuleError::OutputLocationNotAbsolute);
        }
        if !exists {
            return Err(ModuleError::OutputLocationDoesNotExist);
        }
        if !is_directory {
            return Err(ModuleError::OutputLocationNotADirectory);
        }
        Ok(StandaloneModule {
            identifier: identifier.to_owned(),
            output_location: output_location.to_owned(),
            dependencies: Table::new(),
        })
    }

    pub fn add_dependency(&mut self, identifier: String, dependency: Dependency)
        requires
            old(self).wf(),
        ensures
            final(self).wf(),
            final(self)@ == (ModuleView {
                dependencies: old(self)@.dependencies.insert(identifier@, dependency@),
                ..old(self)@
            }),
    {
        self.dependencies.add_dependency(identifier, dependency);
    }

    pub fn get_dependency(&self, identifier: &str) -> (r: Option<&Dependency>)
        requires
            self.wf(),
        ensures
            r.is_some() == self@.dependencies.contains_key(identifier@),
            r matches Some(d) ==> d@ == self@.dependencies[identifier@],
    {
        self.dependencies.get_dependency(identifier)
    }

    pub fn has_dependency(&self, identifier: &str) -> (r: bool)
        requires
            self.wf(),
        ensures
            r == self@.dependencies.contains_key(identifier@),
    {
        self.dependencies.has_dependency(identifier)
    }

    /// Removes the edge under `identifier` only if it equals `dependency`.
    pub fn remove_dependency(&mut self, identifier: &str, dependency: &Dependency)
        requires
            old(self).wf(),
        ensures
            final(self).wf(),
            final(self)@ == (ModuleView {
                dependencies: without_edge(old(self)@.dependencies, identifier@, dependency@),
                ..old(self)@
            }),
    {
        self.dependencies.remove_dependency(identifier, dependency);
    }

    pub fn has_only_package_module_dependencies(&self) -> (r: bool)
        requires
            self.wf(),
        ensures
            r == only_package_edges(self@.dependencies),
    {
        self.dependencies.has_only_package_module_dependencies()
    }
}

impl PackageModule {
    pub open spec fn wf(&self) -> bool {
        self.dependencies.wf()
    }

    /// A package module without dependencies.
    pub fn create(identifier: &str, output_location: &str) -> (r: Self)
        ensures
            r.wf(),
            r@ == (ModuleView {
                identifier: identifier@,
                output_location: output_location@,
                dependencies: Map::empty(),
            }),
    {
        PackageModule {
            identifier: identifier.to_owned(),
            output_location: output_location.to_owned(),
            dependencies: Table::new(),
        }
    }

    pub fn get_identifier(&self) -> (r: String)
        ensures
            r@ == self@.identifier,
    {
        self.identifier.clone()
    }

    pub fn add_dependency(&mut self, identifier: String, dependency: Dependency)
        requires
            old(self).wf(),
        ensures
            final(self).wf(),
            final(self)@ == (ModuleView {
                dependencies: old(self)@.dependencies.insert(identifier@, dependency@),
                ..old(self)@
            }),
    {
        self.dependencies.add_dependency(identifier, dependency);
    }

    pub fn get_dependency(&self, identifier: &str) -> (r: Option<&Dependency>)
        requires
            self.wf(),
        ensures
            r.is_some() == self@.dependencies.contains_key(identifier@),
            r matches Some(d) ==> d@ == self@.dependencies[identifier@],
    {
        self.dependencies.get_dependency(identifier)
    }

    pub fn has_dependency(&self, identifier: &str) -> (r: bool)
        requires
            self.wf(),
        ensures
            r == self@.dependencies.contains_key(identifier@),
    {
        self.dependencies.has_dependency(identifier)
    }

    /// Removes the edge under `identifier` only if it equals `dependency`.
    pub fn remove_dependency(&mut self, identifier: &str, dependency: &Dependency)
        requires
            old(self).wf(),
        ensures
            final(self).wf(),
            final(self)@ == (ModuleView {
                dependencies: without_edge(old(self)@.dependencies, identifier@, dependency@),
                ..old(self)@
            }),
    {
        self.dependencies.remove_dependency(identifier, dependency);
    }
}

impl Executable {
    pub open spec fn wf(&self) -> bool {
        self.dependencies.wf()
    }

    /// An executable without dependencies.
    pub fn create() -> (r: Self)
        ensures
            r.wf(),
            r@ == Map::<Seq<char>, DependencyView>::empty(),
    {
        Executable { dependencies: Table::new() }
    }

    pub fn add_dependency(&mut self, identifier: String, dependency: Dependency)
        requires
            old(self).wf(),
        ensures
            final(self).wf(),
            final(self)@ == old(self)@.insert(identifier@, dependency@),
    {
        self.dependencies.add_dependency(identifier, dependency);
    }

    pub fn get_dependency(&self, identifier: &str) -> (r: Option<&Dependency>)
        requires
            self.wf(),
        ensures
            r.is_some() == self@.contains_key(identifier@),
            r matches Some(d) ==> d@ == self@[identifier@],
    {
        self.dependencies.get_dependency(identifier)
    }

    pub fn has_dependency(&self, identifier: &str) -> (r: bool)
        requires
            self.wf(),
        ensures
            r == self@.contains_key(identifier@),
    {
        self.dependencies.has_dependency(identifier)
    }

    /// Removes the edge under `identifier` only if it equals `dependency`.
    pub fn remove_dependency(&mut self, identifier: &str, dependency: &Dependency)
        requires
            old(self).wf(),
        ensures
            final(self).wf(),
            final(self)@ == without_edge(old(self)@, identifier@, dependency@),
    {
        self.dependencies.remove_dependency(identifier, dependency);
    }
}

} // verus!

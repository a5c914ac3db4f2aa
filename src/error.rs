use vstd::prelude::*;

verus! {

/// The unit named is not a package.
#[derive(Debug, PartialEq, Eq, Structural)]
pub struct NotAPackageError;

/// Failures of operations on packages.
#[derive(Debug, Clone, Copy, PartialEq, Eq, Structural)]
pub enum PackageError {
    NoRemoteLocation,
    NotARepository,
    PackageRootNotADirectory,
    DownloadFailed,
    InvalidManifest,
    /// A package with that identifier is already registered.
    PackageAlreadyInRegistry,
    /// No package with that identifier is registered.
    NoSuchPackage,
    /// A module to be packaged still depends on something that is not a package module.
    NonPackageDependency,
}

/// Failures of the registry itself and of its persistence.
#[derive(Debug, Clone, Copy, PartialEq, Eq, Structural)]
pub enum RegistryError {
    RegistryPathNotAbsolute,
    RegistryPathNotJSON,
    RegistryPathNotFile,
    NoRegistryFound,
    InvalidRegistry,
    ModuleAlreadyInRegistry,
}

/// Failures of operations on modules and their dependency edges.
#[derive(Debug, Clone, Copy, PartialEq, Eq, Structural)]
pub enum ModuleError {
    OutputLocationNotAbsolute,
    OutputLocationNotRelative,
    OutputLocationDoesNotExist,
    OutputLocationNotADirectory,
    /// The edge would close a cycle.
    CyclicDependency,
    /// The dependency does not resolve to a registered unit.
    NoSuchDependency,
    /// The unit that should receive the edge is not registered.
    ReferencedUnitMissing,
    /// A package module may only depend on package modules.
    NotAPackageDependency,
    RegistryError(RegistryError),
}

/// Failures when locating a dependency.
#[derive(Debug, Clone, Copy, PartialEq, Eq, Structural)]
pub enum DependencyError {
    LocationNotRelative,
    DoesNotExist,
    LocationNotAbsolute,
}

} // verus!

use knapsac::dependency::Dependency;
use knapsac::entry::Entry;
use knapsac::error::{ModuleError, PackageError, RegistryError};
use knapsac::module::{PackageModule, StandaloneModule};
use knapsac::package::Package;
use knapsac::registry::{check_registry_path, Registry};
use knapsac::version::{SemVerIncrement, Version};

fn module(id: &str, out: &str) -> StandaloneModule {
    StandaloneModule::create(id, out, true, true).unwrap()
}

fn registry_with(mods: &[(&str, &str)]) -> Registry {
    let mut r = Registry::initialize();
    for (source, id) in mods {
        r.add_module(source.to_string(), module(id, &format!("/tmp/{}", id))).unwrap();
    }
    r
}

fn standalone(p: &str) -> Dependency {
    Dependency::Standalone(p.to_string())
}

#[test]
fn test_save_panic_is_relative() {
    assert_eq!(check_registry_path("./registry.json").err(), Some(RegistryError::RegistryPathNotAbsolute));
}

#[test]
fn registry_path_must_be_json_file() {
    assert_eq!(check_registry_path("/tmp/registry.txt").err(), Some(RegistryError::RegistryPathNotJSON));
    assert_eq!(check_registry_path("/tmp/registry").err(), Some(RegistryError::RegistryPathNotFile));
    assert_eq!(check_registry_path("/tmp/registry.json"), Ok(()));
}

#[test]
fn scenario_add_cycle_remove() {
    let mut r = registry_with(&[("/src/a.sac", "a"), ("/src/b.sac", "b")]);
    assert_eq!(r.add_dependency_to_item("/src/a.sac", standalone("/src/b.sac")), Ok(()));
    assert_eq!(
        r.add_dependency_to_item("/src/b.sac", standalone("/src/a.sac")),
        Err(ModuleError::CyclicDependency)
    );
    assert!(r.remove_item("/src/b.sac").is_some());
    assert!(!r.has_dependency("/src/a.sac", "b"));
    assert!(r.get_module("/src/a.sac").unwrap().get_dependency("b").is_none());
}

#[test]
fn self_dependency_is_cyclic() {
    let mut r = registry_with(&[("/src/a.sac", "a")]);
    assert_eq!(
        r.add_dependency_to_item("/src/a.sac", standalone("/src/a.sac")),
        Err(ModuleError::CyclicDependency)
    );
    assert!(!r.has_dependency("/src/a.sac", "a"));
}

#[test]
fn longer_cycle_is_rejected() {
    let mut r = registry_with(&[("/src/a.sac", "a"), ("/src/b.sac", "b"), ("/src/c.sac", "c")]);
    assert_eq!(r.add_dependency_to_item("/src/a.sac", standalone("/src/b.sac")), Ok(()));
    assert_eq!(r.add_dependency_to_item("/src/b.sac", standalone("/src/c.sac")), Ok(()));
    assert_eq!(
        r.add_dependency_to_item("/src/c.sac", standalone("/src/a.sac")),
        Err(ModuleError::CyclicDependency)
    );
    assert_eq!(r.add_dependency_to_item("/src/a.sac", standalone("/src/c.sac")), Ok(()));
}

#[test]
fn adding_twice_is_idempotent() {
    let mut r = registry_with(&[("/src/a.sac", "a"), ("/src/b.sac", "b")]);
    assert_eq!(r.add_dependency_to_item("/src/a.sac", standalone("/src/b.sac")), Ok(()));
    assert_eq!(r.add_dependency_to_item("/src/a.sac", standalone("/src/b.sac")), Ok(()));
    let m = r.get_module("/src/a.sac").unwrap();
    assert_eq!(m.dependencies.len(), 1);
    assert_eq!(m.get_dependency("b"), Some(&standalone("/src/b.sac")));
}

#[test]
fn stray_and_missing_dependencies() {
    let mut r = registry_with(&[("/src/a.sac", "a")]);
    let stray = Dependency::Stray("json".to_string(), "/opt/json".to_string());
    assert_eq!(r.add_dependency_to_item("/src/a.sac", stray.clone()), Ok(()));
    assert_eq!(r.get_dependency("/src/a.sac", "json"), Some(&stray));
    assert_eq!(
        r.add_dependency_to_item("/src/a.sac", standalone("/src/missing.sac")),
        Err(ModuleError::NoSuchDependency)
    );
    let owner = Entry::StandaloneModule("/src/none.sac".to_string());
    assert_eq!(r.add_dependency(&owner, stray), Err(ModuleError::ReferencedUnitMissing));
}

#[test]
fn executables_depend_on_modules() {
    let mut r = registry_with(&[("/src/a.sac", "a")]);
    r.add_executable("/src/main.sac".to_string());
    assert!(r.has_executable_source("/src/main.sac"));
    assert!(r.has_item_source("/src/main.sac"));
    assert_eq!(r.add_dependency_to_item("/src/main.sac", standalone("/src/a.sac")), Ok(()));
    assert!(r.has_dependency("/src/main.sac", "a"));
    r.remove_item("/src/a.sac");
    assert!(!r.has_dependency("/src/main.sac", "a"));
    assert!(r.remove_item("/src/main.sac").is_none());
    assert!(!r.has_item_source("/src/main.sac"));
    assert!(r.is_empty());
}

#[test]
fn duplicate_modules_are_refused() {
    let mut r = registry_with(&[("/src/a.sac", "a")]);
    assert_eq!(
        r.add_module("/src/a.sac".to_string(), module("z", "/tmp/z")),
        Err(RegistryError::ModuleAlreadyInRegistry)
    );
    assert_eq!(
        r.add_module("/src/other.sac".to_string(), module("a", "/tmp/a")),
        Err(RegistryError::ModuleAlreadyInRegistry)
    );
    assert_eq!(r.search_modules_by_id("a"), vec!["/src/a.sac".to_string()]);
    assert!(r.has_module_id("a"));
    assert!(!r.has_module_id("z"));
}

#[test]
fn module_creation_checks_output_location() {
    assert_eq!(
        StandaloneModule::create("a", "src/a", true, true).err(),
        Some(ModuleError::OutputLocationNotAbsolute)
    );
    assert_eq!(
        StandaloneModule::create("a", "/tmp/nonexistent", false, false).err(),
        Some(ModuleError::OutputLocationDoesNotExist)
    );
    assert_eq!(
        StandaloneModule::create("a", "/tmp/file", true, false).err(),
        Some(ModuleError::OutputLocationNotADirectory)
    );
    let m = StandaloneModule::create("a", "/tmp/a", true, true).unwrap();
    assert_eq!(m.identifier, "a");
    assert_eq!(m.output_location, "/tmp/a");
}

#[test]
fn promotion_redirects_edges() {
    let mut r = registry_with(&[("/pkg/a.sac", "a"), ("/pkg/b.sac", "b"), ("/src/c.sac", "c")]);
    assert_eq!(r.add_dependency_to_item("/src/c.sac", standalone("/pkg/a.sac")), Ok(()));
    assert_eq!(r.package("P", "/pkg", "sac2c".to_string(), "-o".to_string()), Ok(()));
    assert!(r.has_package("P"));
    assert!(r.get_module("/pkg/a.sac").is_none());
    assert!(r.get_module("/pkg/b.sac").is_none());
    let p = r.get_package("P").unwrap();
    assert!(p.has_module_id("a"));
    assert!(p.has_module_id("b"));
    assert_eq!(p.get_module("a").unwrap().output_location, "a/output");
    assert!(p.has_module_source("/pkg/a.sac"));
    assert!(r.has_module_source("/pkg/b.sac"));
    assert_eq!(
        r.get_dependency("/src/c.sac", "a"),
        Some(&Dependency::Package("P".to_string(), "a".to_string()))
    );
    assert_eq!(r.search_package_modules("a"), vec!["P".to_string()]);
    assert_eq!(r.count_packages(), 1);
}

#[test]
fn promotion_refuses_standalone_edges() {
    let mut r = registry_with(&[("/pkg/a.sac", "a"), ("/pkg/b.sac", "b")]);
    assert_eq!(r.add_dependency_to_item("/pkg/a.sac", standalone("/pkg/b.sac")), Ok(()));
    assert_eq!(
        r.package("P", "/pkg", "sac2c".to_string(), "-o".to_string()),
        Err(PackageError::NonPackageDependency)
    );
    assert!(!r.has_package("P"));
    assert!(r.get_module("/pkg/a.sac").is_some());
}

#[test]
fn promotion_refuses_existing_package() {
    let mut r = registry_with(&[("/pkg/a.sac", "a")]);
    assert_eq!(r.package("P", "/pkg", "sac2c".to_string(), "-o".to_string()), Ok(()));
    assert_eq!(
        r.package("P", "/other", "sac2c".to_string(), "-o".to_string()),
        Err(PackageError::PackageAlreadyInRegistry)
    );
}

#[test]
fn package_modules_take_package_edges_only() {
    let mut r = registry_with(&[("/p/a.sac", "a"), ("/q/b.sac", "b"), ("/src/c.sac", "c")]);
    r.package("P", "/p", "sac2c".to_string(), "-o".to_string()).unwrap();
    r.package("Q", "/q", "sac2c".to_string(), "-o".to_string()).unwrap();
    assert_eq!(
        r.add_dependency_to_package_module("P", "a", standalone("/src/c.sac")),
        Err(ModuleError::NotAPackageDependency)
    );
    let qb = Dependency::Package("Q".to_string(), "b".to_string());
    assert_eq!(r.add_dependency_to_package_module("P", "a", qb.clone()), Ok(()));
    let pa = Dependency::Package("P".to_string(), "a".to_string());
    assert_eq!(
        r.add_dependency_to_package_module("Q", "b", pa.clone()),
        Err(ModuleError::CyclicDependency)
    );
    assert_eq!(r.add_dependency_to_item("/src/c.sac", pa), Ok(()));
    assert!(r.remove_package("Q").is_some());
    let p = r.get_package("P").unwrap();
    assert!(!p.get_module("a").unwrap().has_dependency("b"));
    assert!(r.remove_package("P").is_some());
    assert!(!r.has_dependency("/src/c.sac", "a"));
    assert!(r.remove_package("P").is_none());
}

#[test]
fn version_increments_do_not_reset() {
    let v = Version::NotVersioned;
    let v = v.increment(SemVerIncrement::Major);
    assert_eq!(v, Version::SemVer(1, 0, 0));
    let v = v.increment(SemVerIncrement::Minor);
    assert_eq!(v, Version::SemVer(1, 1, 0));
    let v = v.increment(SemVerIncrement::Patch);
    assert_eq!(v, Version::SemVer(1, 1, 1));
    let v = v.increment(SemVerIncrement::Major);
    assert_eq!(v, Version::SemVer(2, 1, 1));
    assert_eq!(Version::NotVersioned.increment(SemVerIncrement::Minor), Version::SemVer(0, 1, 0));
    assert_eq!(Version::NotVersioned.increment(SemVerIncrement::Patch), Version::SemVer(0, 0, 1));
    assert!(!Version::SemVer(usize::MAX, 0, 0).can_increment(SemVerIncrement::Major));
}

#[test]
fn publish_and_upload() {
    let mut r = registry_with(&[("/p/a.sac", "a")]);
    assert_eq!(r.publish("P", SemVerIncrement::Major), Err(PackageError::NoSuchPackage));
    r.package("P", "/p", "sac2c".to_string(), "-o".to_string()).unwrap();
    assert_eq!(r.publish("P", SemVerIncrement::Minor), Ok(Version::SemVer(0, 1, 0)));
    assert_eq!(r.get_package("P").unwrap().get_version(), Version::SemVer(0, 1, 0));
    assert_eq!(r.upload("P", None), Err(PackageError::NoRemoteLocation));
    let url = url::Url::parse("https://example.org/p.git").unwrap();
    assert_eq!(r.upload("P", Some(url.clone())), Ok(()));
    assert_eq!(r.get_package("P").unwrap().get_remote_location(), &Some(url.clone()));
    let other = url::Url::parse("https://example.org/q.git").unwrap();
    assert_eq!(r.upload("P", Some(other)), Ok(()));
    assert_eq!(r.get_package("P").unwrap().get_remote_location(), &Some(url));
    assert_eq!(r.upload("Q", None), Err(PackageError::NoSuchPackage));
}

#[test]
fn stale_edge_removal_is_ignored() {
    let mut r = registry_with(&[("/src/a.sac", "a"), ("/src/b.sac", "b")]);
    r.add_dependency_to_item("/src/a.sac", standalone("/src/b.sac")).unwrap();
    let owner = Entry::StandaloneModule("/src/a.sac".to_string());
    let stale = Dependency::Stray("b".to_string(), "/tmp/b".to_string());
    assert_eq!(r.remove_dependency(&owner, "b", &stale), Ok(()));
    assert!(r.has_dependency("/src/a.sac", "b"));
    assert_eq!(r.remove_dependency(&owner, "b", &standalone("/src/b.sac")), Ok(()));
    assert!(!r.has_dependency("/src/a.sac", "b"));
    let missing = Entry::Executable("/src/none.sac".to_string());
    assert_eq!(
        r.remove_dependency(&missing, "b", &standalone("/src/b.sac")),
        Err(ModuleError::ReferencedUnitMissing)
    );
}

#[test]
fn packages_are_added_whole() {
    let mut r = Registry::initialize();
    let mut p = Package::create("P".to_string(), "/p".to_string(), "sac2c".to_string(), "-o".to_string());
    p.add_module("src/a.sac".to_string(), PackageModule::create("a", "a/output"));
    let plan = p.build_plan();
    assert_eq!(plan, vec![("/p/src/a.sac".to_string(), "-o".to_string(), "/p/a/output".to_string())]);
    assert_eq!(r.add(p), Ok(()));
    assert!(r.has_module_id("a"));
    assert!(r.has_module_source("/p/src/a.sac"));
    assert!(!r.has_module_source("/q/src/a.sac"));
    let again = Package::create("P".to_string(), "/q".to_string(), "sac2c".to_string(), "-o".to_string());
    assert_eq!(r.add(again), Err(PackageError::PackageAlreadyInRegistry));
    let mut bad = Package::create("Q".to_string(), "/q".to_string(), "sac2c".to_string(), "-o".to_string());
    let mut m = PackageModule::create("b", "b/output");
    m.add_dependency("a".to_string(), Dependency::Package("P".to_string(), "a".to_string()));
    bad.add_module("b.sac".to_string(), m);
    assert_eq!(r.add(bad), Err(PackageError::InvalidManifest));
    assert_eq!(r.count_packages(), 1);
}

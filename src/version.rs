use vstd::prelude::*;

verus! {

/// The version of a package.
#[derive(Debug, Clone, Copy, PartialEq, Eq, Structural)]
pub enum Version {
    NotVersioned,
    SemVer(usize, usize, usize),
}

/// Which component of a version to raise.
#[derive(Debug, Clone, Copy, PartialEq, Eq, Structural)]
pub enum SemVerIncrement {
    Major,
    Minor,
    Patch,
}

/// The version after raising `kind` in `v`: an unversioned package gets the
/// first version of that kind; otherwise that component goes up by one and
/// the others stay as they are.
pub open spec fn incremented(v: Version, kind: SemVerIncrement) -> Version {
    match v {
        Version::NotVersioned => match kind {
            SemVerIncrement::Major => Version::SemVer(1, 0, 0),
            SemVerIncrement::Minor => Version::SemVer(0, 1, 0),
            SemVerIncrement::Patch => Version::SemVer(0, 0, 1),
        },
        Version::SemVer(major, minor, patch) => match kind {
            SemVerIncrement::Major => Version::SemVer((major + 1) as usize, minor, patch),
            SemVerIncrement::Minor => Version::SemVer(major, (minor + 1) as usize, patch),
            SemVerIncrement::Patch => Version::SemVer(major, minor, (patch + 1) as usize),
        },
    }
}

/// The component that `kind` raises is below the largest `usize`.
pub open spec fn incrementable(v: Version, kind: SemVerIncrement) -> bool {
    match v {
        Version::NotVersioned => true,
        Version::SemVer(major, minor, patch) => match kind {
            SemVerIncrement::Major => major < usize::MAX,
            SemVerIncrement::Minor => minor < usize::MAX,
            SemVerIncrement::Patch => patch < usize::MAX,
        },
    }
}

impl Version {
    pub fn can_increment(&self, kind: SemVerIncrement) -> (r: bool)
        ensures
            r == incrementable(*self, kind),
    {
        match *self {
            Version::NotVersioned => true,
            Version::SemVer(major, minor, patch) => match kind {
                SemVerIncrement::Major => major < usize::MAX,
                SemVerIncrement::Minor => minor < usize::MAX,
                SemVerIncrement::Patch => patch < usize::MAX,
            },
        }
    }

    pub fn increment(&self, kind: SemVerIncrement) -> (r: Version)
        requires
            incrementable(*self, kind),
        ensures
            r == incremented(*self, kind),
            r != Version::NotVersioned,
    {
        match *self {
            Version::NotVersioned => match kind {
                SemVerIncrement::Major => Version::SemVer(1, 0, 0),
                SemVerIncrement::Minor => Version::SemVer(0, 1, 0),
                SemVerIncrement::Patch => Version::SemVer(0, 0, 1),
            },
            Version::SemVer(major, minor, patch) => match kind {
                SemVerIncrement::Major => Version::SemVer(major + 1, minor, patch),
                SemVerIncrement::Minor => Version::SemVer(major, minor + 1, patch),
                SemVerIncrement::Patch => Version::SemVer(major, minor, patch + 1),
            },
        }
    }
}

} // verus!

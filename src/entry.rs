use vstd::prelude::*;

verus! {

/// Names a build unit of the registry.
#[derive(Clone, Debug, PartialEq, Eq)]
pub enum Entry {
    /// An executable, by source path.
    Executable(String),
    /// A standalone module, by source path.
    StandaloneModule(String),
    /// A module of a package: package identifier, module identifier.
    PackageModule(String, String),
}

/// The mathematical value of an [`Entry`].
pub enum EntryView {
    Executable(Seq<char>),
    StandaloneModule(Seq<char>),
    PackageModule(Seq<char>, Seq<char>),
}

impl View for Entry {
    type V = EntryView;

    open spec fn view(&self) -> EntryView {
        match self {
            Entry::Executable(p) => EntryView::Executable(p@),
            Entry::StandaloneModule(p) => EntryView::StandaloneModule(p@),
            Entry::PackageModule(pk, m) => EntryView::PackageModule(pk@, m@),
        }
    }
}

} // verus!

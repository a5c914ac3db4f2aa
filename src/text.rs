use vstd::prelude::*;

verus! {

/// Relies on `<str as PartialEq>::eq`: two string slices are equal exactly
/// when they hold the same characters.
#[verifier::external_body]
pub(crate) fn str_eq(a: &str, b: &str) -> (r: bool)
    ensures
        r == (a@ == b@),
{
    a == b
}

/// Whether the path is absolute, as `std::path::Path::is_absolute` decides.
pub uninterp spec fn absolute_path(p: Seq<char>) -> bool;

/// Whether `root` is a leading run of whole components of `p`, as
/// `std::path::Path::starts_with` decides.
pub uninterp spec fn under_root(p: Seq<char>, root: Seq<char>) -> bool;

/// What is left of `p` once the leading components `root` are taken off.
pub uninterp spec fn relative_to(p: Seq<char>, root: Seq<char>) -> Seq<char>;

/// The extension of the last component of `p`, if it has one.
pub uninterp spec fn extension_of(p: Seq<char>) -> Option<Seq<char>>;

/// Relies on `std::path::Path::is_absolute`.
#[verifier::external_body]
pub fn is_absolute(p: &str) -> (r: bool)
    ensures
        r == absolute_path(p@),
{
    std::path::Path::new(p).is_absolute()
}

/// Relies on `std::path::Path::starts_with`: component-wise prefix test.
#[verifier::external_body]
pub fn starts_with(p: &str, root: &str) -> (r: bool)
    ensures
        r == under_root(p@, root@),
{
    std::path::Path::new(p).starts_with(root)
}

/// Relies on `std::path::Path::strip_prefix`, which succeeds exactly when
/// `starts_with` holds; a path built from a `str` converts back losslessly.
#[verifier::external_body]
pub fn strip_root(p: &str, root: &str) -> (r: String)
    requires
        under_root(p@, root@),
    ensures
        r@ == relative_to(p@, root@),
{
    std::path::Path::new(p).strip_prefix(root).unwrap().to_string_lossy().into_owned()
}

/// Relies on `std::path::Path::extension`.
#[verifier::external_body]
pub fn extension(p: &str) -> (r: Option<String>)
    ensures
        r.is_some() == extension_of(p@).is_some(),
        r matches Some(e) ==> extension_of(p@) == Some(e@),
{
    match std::path::Path::new(p).extension() {
        Some(e) => Some(e.to_string_lossy().into_owned()),
        None => None,
    }
}

/// The path `base` followed by the component `leaf`.
pub uninterp spec fn joined(base: Seq<char>, leaf: Seq<char>) -> Seq<char>;

/// Relies on `std::path::Path::join`.
#[verifier::external_body]
pub fn join(base: &str, leaf: &str) -> (r: String)
    ensures
        r@ == joined(base@, leaf@),
{
    std::path::Path::new(base).join(leaf).to_string_lossy().into_owned()
}

} // verus!

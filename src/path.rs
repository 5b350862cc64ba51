use vstd::prelude::*;

verus! {

/// What `std::path::Path::strip_prefix` leaves of `path` once `prefix` is
/// taken off, compared component by component; `None` when `prefix` is not a
/// leading part of `path`.
pub uninterp spec fn stripped_of(path: Seq<char>, prefix: Seq<char>) -> Option<Seq<char>>;

/// The last component of a path as `std::path::Path::file_name` gives it.
pub uninterp spec fn file_name_of(path: Seq<char>) -> Option<Seq<char>>;

/// Relies on `std::path::Path::strip_prefix`: the rest of `path` after the
/// components of `prefix`, or an error when `prefix` is not a leading part.
/// A suffix of a UTF-8 path converts back to UTF-8.
#[verifier::external_body]
fn strip_prefix(path: &str, prefix: &str) -> (r: Option<String>)
    ensures
        match r {
            Some(s) => stripped_of(path@, prefix@) == Some(s@),
            None => stripped_of(path@, prefix@) is None,
        },
{
    std::path::Path::new(path).strip_prefix(prefix).ok().and_then(|p| p.to_str()).map(
        String::from,
    )
}

/// Relies on `std::path::Path::file_name`: the final component of a path,
/// if there is one.
#[verifier::external_body]
pub(crate) fn file_name(path: &str) -> (r: Option<String>)
    ensures
        match r {
            Some(s) => file_name_of(path@) == Some(s@),
            None => file_name_of(path@) is None,
        },
{
    std::path::Path::new(path).file_name().and_then(|n| n.to_str()).map(String::from)
}

/// A location together with the root that the backup is relative to.
#[derive(Debug)]
pub struct Path {
    prefix: String,
    path: String,
}

impl Clone for Path {
    fn clone(&self) -> (r: Path)
        ensures
            r@ == self@,
    {
        Path { prefix: self.prefix.clone(), path: self.path.clone() }
    }
}

impl View for Path {
    type V = (Seq<char>, Seq<char>);

    /// The prefix and the full path.
    closed spec fn view(&self) -> (Seq<char>, Seq<char>) {
        (self.prefix@, self.path@)
    }
}

impl Path {
    /// A path with the given root and an empty location.
    pub fn with_prefix(prefix: &str) -> (r: Path)
        ensures
            r@.0 == prefix@,
            r@.1 == Seq::<char>::empty(),
    {
        Path { prefix: prefix.to_owned(), path: String::new() }
    }

    /// A path with the root of `template` and an empty location.
    pub fn with_template(template: &Path) -> (r: Path)
        ensures
            r@.0 == template@.0,
            r@.1 == Seq::<char>::empty(),
    {
        Path { prefix: template.prefix.clone(), path: String::new() }
    }

    /// The same root with a new location.
    pub fn path(self, path: &str) -> (r: Path)
        ensures
            r@.0 == self@.0,
            r@.1 == path@,
    {
        Path { prefix: self.prefix, path: path.to_owned() }
    }

    /// The full location.
    pub fn as_str(&self) -> (r: &str)
        ensures
            r@ == self@.1,
    {
        self.path.as_str()
    }

    /// The root.
    pub fn prefix(&self) -> (r: &str)
        ensures
            r@ == self@.0,
    {
        self.prefix.as_str()
    }

    /// The location relative to the root; `None` when the location does not
    /// lie under the root.
    pub fn logical(&self) -> (r: Option<String>)
        ensures
            match r {
                Some(s) => stripped_of(self@.1, self@.0) == Some(s@),
                None => stripped_of(self@.1, self@.0) is None,
            },
    {
        make_logical_path(self.prefix.as_str(), self.path.as_str())
    }

    /// Whether the location of `other` lies under (or is) the location of
    /// `self`. Both are compared as they are stored, so callers that want the
    /// file system's view pass canonical forms.
    pub fn is_ancestor(&self, other: &Path) -> (r: bool)
        ensures
            r == stripped_of(other@.1, self@.1) is Some,
    {
        strip_prefix(other.path.as_str(), self.path.as_str()).is_some()
    }
}

/// `path` relative to `prefix`, or `None` when it does not lie under it.
pub fn make_logical_path(prefix: &str, path: &str) -> (r: Option<String>)
    ensures
        match r {
            Some(s) => stripped_of(path@, prefix@) == Some(s@),
            None => stripped_of(path@, prefix@) is None,
        },
{
    strip_prefix(path, prefix)
}

} // verus!

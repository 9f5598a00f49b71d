//! The questions the explorer asks of a path, answered by `std::path`.

use vstd::prelude::*;

verus! {

/// What `Path::file_name` gives for a path (as text).
pub uninterp spec fn file_name_of(path: Seq<char>) -> Option<Seq<char>>;

/// What `Path::parent` gives for a path (as text).
pub uninterp spec fn parent_of(path: Seq<char>) -> Option<Seq<char>>;

/// What `Path::components` gives for a path, each component as its text.
pub uninterp spec fn components_of(path: Seq<char>) -> Seq<Seq<char>>;

/// The pieces of `p` between `/` separators, in order, empty pieces
/// included.
pub open spec fn slash_pieces(p: Seq<char>) -> Seq<Seq<char>>
    decreases p.len(),
{
    if p.len() == 0 {
        seq![Seq::empty()]
    } else if p.last() == '/' {
        slash_pieces(p.drop_last()).push(Seq::empty())
    } else {
        let s = slash_pieces(p.drop_last());
        s.update(s.len() - 1, s.last().push(p.last()))
    }
}

/// A piece that names a step: neither empty nor `.`.
pub open spec fn names_a_step(s: Seq<char>) -> bool {
    s.len() > 0 && s != seq!['.']
}

/// The pieces of `p` that name steps, in order: repeated separators, a
/// trailing separator and `.` pieces name nothing.
pub open spec fn named_pieces(p: Seq<char>) -> Seq<Seq<char>> {
    slash_pieces(p).filter(|s: Seq<char>| names_a_step(s))
}

/// Path text that every platform splits the same way: no backslash, which
/// Windows takes for a separator, and no `:`, which it takes for a drive.
pub open spec fn portable(p: Seq<char>) -> bool {
    !p.contains('\\') && !p.contains(':')
}

/// Path text that starts at a root.
pub open spec fn rooted(p: Seq<char>) -> bool {
    p.len() > 0 && p[0] == '/'
}

/// A component text that only a normal component (a file or directory
/// name) can have: not `.` or `..`, and no separator or drive mark in it.
pub open spec fn plain_name(s: Seq<char>) -> bool {
    &&& s.len() > 0
    &&& s != seq!['.']
    &&& s != seq!['.', '.']
    &&& !s.contains('/')
    &&& !s.contains('\\')
    &&& !s.contains(':')
}

/// Calls `std::path::Path::components` and gives each component as its text
/// (a root as the separator, `.` and `..` as themselves, a prefix as
/// written); the result is named `components_of` of the path. `Path`'s `==`
/// compares these components, so two paths are equal as `Path`s exactly
/// when their component texts are. For portable text the contract also
/// states what the documentation of `components` gives: repeated
/// separators, a trailing separator and `.` (except at the start of a
/// relative path) are normalised away, and a leading `/` gives one root
/// component before the names.
#[verifier::external_body]
pub fn path_components(path: &str) -> (r: Vec<String>)
    ensures
        r.deep_view() == components_of(path@),
        portable(path@) && path@.len() > 0 && path@[0] == '/' ==> r.deep_view().len() == 1
            + named_pieces(path@).len() && r.deep_view().skip(1) == named_pieces(path@),
        portable(path@) && !(path@.len() > 0 && path@[0] == '/') ==> r.deep_view() == if slash_pieces(
            path@,
        )[0] == seq!['.'] {
            seq![seq!['.']] + named_pieces(path@)
        } else {
            named_pieces(path@)
        },
{
    let mut parts = Vec::new();
    for component in std::path::Path::new(path).components() {
        parts.push(component.as_os_str().to_string_lossy().into_owned());
    }
    parts
}

/// Calls `std::path::Path::file_name`: the final component of the path
/// where that is a normal component (a file or directory name), none where
/// the path has no components or ends in `.` or `..`. The result is named
/// `file_name_of` of the path.
#[verifier::external_body]
pub fn path_file_name(path: &str) -> (r: Option<String>)
    ensures
        r.deep_view() == file_name_of(path@),
        components_of(path@).len() == 0 ==> r is None,
        components_of(path@).len() > 0 && plain_name(components_of(path@).last())
            ==> r.deep_view() == Some(components_of(path@).last()),
        components_of(path@).len() > 0 && (components_of(path@).last() == seq!['.']
            || components_of(path@).last() == seq!['.', '.']) ==> r is None,
        portable(path@) && named_pieces(path@).len() > 0 && plain_name(named_pieces(path@).last())
            ==> r.deep_view() == Some(named_pieces(path@).last()),
{
    match std::path::Path::new(path).file_name() {
        Some(name) => Some(name.to_string_lossy().into_owned()),
        None => None,
    }
}

/// Calls `std::path::Path::parent`: the path without its final component,
/// or none where the path is a root or empty. The result is named
/// `parent_of` of the path.
#[verifier::external_body]
pub fn path_parent(path: &str) -> (r: Option<String>)
    ensures
        r.deep_view() == parent_of(path@),
{
    match std::path::Path::new(path).parent() {
        Some(parent) => Some(parent.to_string_lossy().into_owned()),
        None => None,
    }
}

} // verus!

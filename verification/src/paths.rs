//! Paths, carried as text with `/` as the separator.
//!
//! Joining and the absolute-path test are short enough to state and are
//! implemented here; the component-wise operations of `std::path::Path`
//! (parent, final component, ancestors, prefix stripping) and Unicode lower
//! casing are called through the trusted wrappers at the end of this file.
use vstd::prelude::*;
use std::path::Path;

verus! {

/// A path is absolute when it starts at the root (`Path::is_absolute` on Unix).
pub open spec fn is_absolute_path(p: Seq<char>) -> bool {
    p.len() > 0 && p[0] == '/'
}

/// Whether the text ends with the path separator.
pub open spec fn ends_with_separator(p: Seq<char>) -> bool {
    p.len() > 0 && p.last() == '/'
}

/// `base` joined with `rel` (`Path::join` on Unix): an absolute `rel`
/// replaces `base`; otherwise a separator is put between the two unless
/// `base` is empty or already ends with one.
pub open spec fn joined(base: Seq<char>, rel: Seq<char>) -> Seq<char> {
    if is_absolute_path(rel) {
        rel
    } else if base.len() > 0 && !ends_with_separator(base) {
        base + seq!['/'] + rel
    } else {
        base + rel
    }
}

/// Whether `p` is an absolute path.
pub fn is_absolute(p: &str) -> (r: bool)
    ensures
        r == is_absolute_path(p@),
{
    p.unicode_len() > 0 && p.get_char(0) == '/'
}

/// Whether `p` ends with the path separator.
pub fn has_trailing_separator(p: &str) -> (r: bool)
    ensures
        r == ends_with_separator(p@),
{
    let n = p.unicode_len();
    n > 0 && p.get_char(n - 1) == '/'
}

/// `base` joined with `rel`.
pub fn join_path(base: &str, rel: &str) -> (r: String)
    ensures
        r@ == joined(base@, rel@),
{
    if is_absolute(rel) {
        return rel.to_owned();
    }
    let mut out = base.to_owned();
    if base.unicode_len() > 0 && !has_trailing_separator(base) {
        out.append("/");
        proof {
            reveal_strlit("/");
        }
    }
    out.append(rel);
    out
}

/// What `Path::parent` gives for a path: the path without its final
/// component, if it has one.
pub uninterp spec fn parent_of(p: Seq<char>) -> Option<Seq<char>>;

/// What `Path::file_name` gives for a path: its final component, unless it
/// ends in `..` or has no components.
pub uninterp spec fn file_name_of(p: Seq<char>) -> Option<Seq<char>>;

/// The number of items `Path::ancestors` yields for a path: the path itself
/// and each parent in turn.
pub uninterp spec fn ancestor_count_of(p: Seq<char>) -> nat;

/// What `Path::strip_prefix` gives: the rest of `p` when `base` is a prefix of
/// it component by component, else nothing.
pub uninterp spec fn stripped_prefix(p: Seq<char>, base: Seq<char>) -> Option<Seq<char>>;

/// What `str::to_lowercase` gives: the Unicode lower-case form of the text
/// (character by character, except that a capital sigma becomes a final
/// sigma where it ends a word).
pub uninterp spec fn lowercased(s: Seq<char>) -> Seq<char>;

/// Calls `Path::parent`; the result is the name `parent_of` of the argument.
/// The parent of a `str` path is a slice of it, so converting it back to text
/// loses nothing.
#[verifier::external_body]
pub(crate) fn path_parent(p: &str) -> (r: Option<String>)
    ensures
        r matches Some(q) ==> parent_of(p@) == Some(q@),
        r is None ==> parent_of(p@) is None,
{
    match Path::new(p).parent() {
        Some(q) => Some(q.to_string_lossy().into_owned()),
        None => None,
    }
}

/// Calls `Path::file_name`; the result is the name `file_name_of` of the
/// argument.
#[verifier::external_body]
pub(crate) fn path_file_name(p: &str) -> (r: Option<String>)
    ensures
        r matches Some(q) ==> file_name_of(p@) == Some(q@),
        r is None ==> file_name_of(p@) is None,
{
    match Path::new(p).file_name() {
        Some(q) => Some(q.to_string_lossy().into_owned()),
        None => None,
    }
}

/// Calls `Path::ancestors` and counts what it yields; the count is the name
/// `ancestor_count_of` of the argument.
#[verifier::external_body]
pub(crate) fn path_ancestor_count(p: &str) -> (r: usize)
    ensures
        r as nat == ancestor_count_of(p@),
{
    Path::new(p).ancestors().count()
}

/// Calls `Path::strip_prefix`; the result is the name `stripped_prefix` of
/// the two arguments.
#[verifier::external_body]
pub(crate) fn path_strip_prefix(p: &str, base: &str) -> (r: Option<String>)
    ensures
        r matches Some(q) ==> stripped_prefix(p@, base@) == Some(q@),
        r is None ==> stripped_prefix(p@, base@) is None,
{
    match Path::new(p).strip_prefix(base) {
        Ok(q) => Some(q.to_string_lossy().into_owned()),
        Err(_) => None,
    }
}

/// Calls `str::to_lowercase`; the result is the name `lowercased` of the
/// argument.
#[verifier::external_body]
pub(crate) fn to_lowercase(s: &str) -> (r: String)
    ensures
        r@ == lowercased(s@),
{
    s.to_lowercase()
}

} // verus!

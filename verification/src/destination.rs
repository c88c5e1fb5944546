//! What the destination field of a transfer dialog means: the path that typed
//! text resolves to, the text a chosen folder is written back as, and the
//! folder listing that completes a partly typed path.
use vstd::prelude::*;
use crate::paths::{
    ends_with_separator, file_name_of, has_trailing_separator, is_absolute, is_absolute_path, join_path,
    joined, lowercased, parent_of, path_file_name, path_parent, path_strip_prefix, stripped_prefix,
    to_lowercase,
};
use crate::text::{
    is_white_space, trim_start, lemma_trailing_white_space, lemma_trim_end_of_non_white_end, lemma_trim_idempotent, trim, trim_end, trimmed, trimmed_end,
};

verus! {

/// The destination that `input` names, relative to the folder `base` and the
/// home folder `home`: surrounding white space is ignored, `~` alone is the
/// home folder, `~/rest` is `rest` inside the home folder, an absolute path
/// stands for itself and any other text is relative to `base`.
pub open spec fn resolved_destination(input: Seq<char>, base: Seq<char>, home: Seq<char>) -> Seq<
    char,
> {
    let t = trim(input);
    if t == seq!['~'] {
        home
    } else if t.len() >= 2 && t[0] == '~' && t[1] == '/' {
        joined(home, t.skip(2))
    } else if is_absolute_path(t) {
        t
    } else {
        joined(base, t)
    }
}

/// The path that the text `input` of a destination field names.
pub fn resolve_destination_path(input: &str, base: &str, home: &str) -> (r: String)
    ensures
        r@ == resolved_destination(input@, base@, home@),
{
    let t = trimmed(input);
    let n = t.unicode_len();
    if n == 1 && t.get_char(0) == '~' {
        assert(t@ =~= seq!['~']);
        home.to_owned()
    } else if n >= 2 && t.get_char(0) == '~' && t.get_char(1) == '/' {
        assert(t@ != seq!['~']);
        let rest = t.substring_char(2, n);
        assert(rest@ =~= t@.skip(2));
        join_path(home, rest)
    } else if is_absolute(t) {
        assert(t@ != seq!['~']);
        t.to_owned()
    } else {
        assert(t@ != seq!['~']) by {
            if t@ == seq!['~'] {
                assert(t@.len() == 1);
            }
        }
        join_path(base, t)
    }
}

/// The text that a chosen folder is written back into the field as: its
/// display form with one trailing separator, so that completion continues
/// inside the folder.
pub open spec fn folder_input(display: Seq<char>) -> Seq<char> {
    if ends_with_separator(display) {
        display
    } else {
        display.push('/')
    }
}

/// The field text for a folder whose display form is `display`.
pub fn folder_input_path(display: &str) -> (r: String)
    ensures
        r@ == folder_input(display@),
{
    let mut out = display.to_owned();
    if !has_trailing_separator(display) {
        out.append("/");
        proof {
            reveal_strlit("/");
        }
    }
    out
}

/// The folder to list and the lower-cased name prefix that listed folders
/// must start with.
pub struct ListingQuery {
    pub directory: String,
    pub prefix: String,
}

/// Whether the text, without trailing white space, ends with a separator: the
/// user has finished typing a folder and wants its contents.
pub open spec fn names_folder_contents(input: Seq<char>) -> bool {
    ends_with_separator(trim_end(input))
}

/// The folder whose children complete `input`: the resolved path itself when
/// the text ends with a separator, else its parent (or `base` when it has
/// none).
pub open spec fn listing_directory(input: Seq<char>, base: Seq<char>, home: Seq<char>) -> Seq<char> {
    let resolved = resolved_destination(input, base, home);
    if names_folder_contents(input) {
        resolved
    } else {
        match parent_of(resolved) {
            Some(parent) => parent,
            None => base,
        }
    }
}

/// The lower-cased start of a name typed after the last separator; empty when
/// the text ends with a separator or the resolved path has no final name.
pub open spec fn listing_prefix(input: Seq<char>, base: Seq<char>, home: Seq<char>) -> Seq<char> {
    let resolved = resolved_destination(input, base, home);
    if names_folder_contents(input) {
        Seq::empty()
    } else {
        match file_name_of(resolved) {
            Some(name) => lowercased(name),
            None => Seq::empty(),
        }
    }
}

/// The folder to list and the prefix to match for the text `input`.
pub fn path_listing_query(input: &str, base: &str, home: &str) -> (q: ListingQuery)
    ensures
        q.directory@ == listing_directory(input@, base@, home@),
        q.prefix@ == listing_prefix(input@, base@, home@),
{
    let resolved = resolve_destination_path(input, base, home);
    if has_trailing_separator(trimmed_end(input)) {
        ListingQuery { directory: resolved, prefix: String::new() }
    } else {
        let directory = match path_parent(resolved.as_str()) {
            Some(parent) => parent,
            None => base.to_owned(),
        };
        let prefix = match path_file_name(resolved.as_str()) {
            Some(name) => to_lowercase(name.as_str()),
            None => String::new(),
        };
        ListingQuery { directory, prefix }
    }
}

/// A canonical folder lies within a canonical root when the root is a prefix
/// of it, component by component.
pub open spec fn lies_within(root: Seq<char>, candidate: Seq<char>) -> bool {
    stripped_prefix(candidate, root) is Some
}

/// `candidate` when it lies within `root` (both canonical), else nothing.
pub fn directory_within(root: &str, candidate: &str) -> (r: Option<String>)
    ensures
        r matches Some(q) ==> q@ == candidate@,
        r is Some <==> lies_within(root@, candidate@),
{
    match path_strip_prefix(candidate, root) {
        Some(_) => Some(candidate.to_owned()),
        None => None,
    }
}

/// Where a folder chosen under the root a dialog was opened with lies under
/// the root's current canonical form: the same path relative to the root,
/// joined to `current_root`. Nothing when the folder was not under the root.
pub open spec fn rebound_path(opened_root: Seq<char>, selected: Seq<char>, current_root: Seq<char>) -> Option<
    Seq<char>,
> {
    match stripped_prefix(selected, opened_root) {
        Some(relative) => Some(joined(current_root, relative)),
        None => None,
    }
}

/// The path under `current_root` that corresponds to `selected` under
/// `opened_root`.
pub fn rebind_candidate(opened_root: &str, selected: &str, current_root: &str) -> (r: Option<String>)
    ensures
        r matches Some(q) ==> rebound_path(opened_root@, selected@, current_root@) == Some(q@),
        r is None ==> rebound_path(opened_root@, selected@, current_root@) is None,
{
    match path_strip_prefix(selected, opened_root) {
        Some(relative) => Some(join_path(current_root, relative.as_str())),
        None => None,
    }
}

/// Law: white space around the typed text does not change the destination.
pub proof fn lemma_resolution_ignores_surrounding_white_space(
    input: Seq<char>,
    base: Seq<char>,
    home: Seq<char>,
)
    ensures
        resolved_destination(trim(input), base, home) == resolved_destination(input, base, home),
{
    lemma_trim_idempotent(input);
}

/// Law: with an absolute base folder and home folder, every destination is an
/// absolute path.
pub proof fn lemma_resolution_is_absolute(input: Seq<char>, base: Seq<char>, home: Seq<char>)
    requires
        is_absolute_path(base),
        is_absolute_path(home),
    ensures
        is_absolute_path(resolved_destination(input, base, home)),
{
    let t = trim(input);
    let rest = t.skip(2);
    assert((home + seq!['/'] + rest)[0] == home[0]);
    assert((home + rest)[0] == home[0]);
    assert((base + seq!['/'] + t)[0] == base[0]);
    assert((base + t)[0] == base[0]);
}

/// Law: the text a chosen folder is written back as ends with a separator, so
/// it names that folder's contents, and writing it back again changes
/// nothing.
pub proof fn lemma_folder_input_names_contents(display: Seq<char>)
    ensures
        ends_with_separator(folder_input(display)),
        names_folder_contents(folder_input(display)),
        folder_input(folder_input(display)) == folder_input(display),
{
    let f = folder_input(display);
    assert(f.last() == '/');
    lemma_trim_end_of_non_white_end(f);
}

/// Law: when the text names a folder's contents, that folder is listed and
/// every child name matches the (empty) prefix.
pub proof fn lemma_contents_listing(input: Seq<char>, base: Seq<char>, home: Seq<char>)
    requires
        names_folder_contents(input),
    ensures
        listing_directory(input, base, home) == resolved_destination(input, base, home),
        listing_prefix(input, base, home).len() == 0,
{
}

/// Text that starts and ends with characters that are not white space is
/// its own trimmed form.
proof fn lemma_trim_of_non_white_ends(t: Seq<char>)
    requires
        t.len() > 0,
        !is_white_space(t[0]),
        !is_white_space(t.last()),
    ensures
        trim(t) == t,
{
    assert(trim_start(t) == t);
}

/// How a folder inside the home folder is displayed: `~` for the home folder
/// itself, `~/rel` for `rel` inside it.
pub open spec fn home_relative_display(rel: Seq<char>) -> Seq<char> {
    if rel.len() == 0 {
        seq!['~']
    } else {
        seq!['~', '/'] + rel
    }
}

/// Law: the text written back for a folder displayed as an absolute path
/// resolves to that path (with one trailing separator), whatever the base
/// and home folders.
pub proof fn lemma_written_back_absolute_folder_resolves_to_it(
    display: Seq<char>,
    base: Seq<char>,
    home: Seq<char>,
)
    requires
        is_absolute_path(display),
    ensures
        resolved_destination(folder_input(display), base, home) == folder_input(display),
{
    let f = folder_input(display);
    assert(f[0] == '/');
    assert(f.last() == '/');
    lemma_trim_of_non_white_ends(f);
    assert(f != seq!['~']);
}

/// Law: the text written back for a folder displayed relative to the home
/// folder (`~` or `~/rel`) resolves to that folder (`rel` joined to the home
/// folder, with one trailing separator), whatever the base folder. It holds
/// when the home folder is absolute and does not end with a separator and
/// `rel` does not start with one.
pub proof fn lemma_written_back_home_folder_resolves_to_it(
    rel: Seq<char>,
    base: Seq<char>,
    home: Seq<char>,
)
    requires
        is_absolute_path(home),
        !ends_with_separator(home),
        !is_absolute_path(rel),
    ensures
        resolved_destination(folder_input(home_relative_display(rel)), base, home) == folder_input(
            joined(home, rel),
        ),
{
    let d = home_relative_display(rel);
    let f = folder_input(d);
    assert(f[0] == '~');
    assert(f.last() == '/');
    lemma_trim_of_non_white_ends(f);
    if rel.len() == 0 {
        assert(f =~= seq!['~', '/']);
        assert(f.skip(2) =~= Seq::<char>::empty());
        assert(home + seq!['/'] + Seq::<char>::empty() =~= home + seq!['/']);
        assert(joined(home, rel) =~= home + seq!['/']);
    } else {
        let fr = folder_input(rel);
        assert(f =~= seq!['~', '/'] + fr);
        assert(f.skip(2) =~= fr);
        assert(fr[0] == rel[0]);
        assert(f != seq!['~']);
        assert(folder_input(home + seq!['/'] + rel) =~= home + seq!['/'] + fr);
    }
}

/// Law: the text names a folder's contents exactly when some `/` in it is
/// followed by nothing but white space. Any other text (the empty text, text
/// of white space only, or text whose last visible character is not `/`)
/// lists the parent of the resolved path (or `base` when it has none) for the
/// lower-cased final name.
pub proof fn lemma_contents_only_after_final_separator(
    input: Seq<char>,
    base: Seq<char>,
    home: Seq<char>,
)
    ensures
        names_folder_contents(input) <==> exists|i: int|
            0 <= i < input.len() && input[i] == '/' && forall|j: int|
                i < j < input.len() ==> is_white_space(#[trigger] input[j]),
        !(exists|i: int|
            0 <= i < input.len() && input[i] == '/' && forall|j: int|
                i < j < input.len() ==> is_white_space(#[trigger] input[j])) ==> {
            let resolved = resolved_destination(input, base, home);
            &&& listing_directory(input, base, home) == match parent_of(resolved) {
                Some(parent) => parent,
                None => base,
            }
            &&& listing_prefix(input, base, home) == match file_name_of(resolved) {
                Some(name) => lowercased(name),
                None => Seq::empty(),
            }
        },
{
    let m = lemma_trailing_white_space(input);
    let te = trim_end(input);
    assert(!is_white_space('/'));
    if names_folder_contents(input) {
        assert(te.last() == input[m - 1]);
        assert forall|j: int| m - 1 < j < input.len() implies is_white_space(#[trigger] input[j]) by {
        }
    }
    if exists|i: int|
        0 <= i < input.len() && input[i] == '/' && forall|j: int|
            i < j < input.len() ==> is_white_space(#[trigger] input[j]) {
        let i = choose|i: int|
            0 <= i < input.len() && input[i] == '/' && forall|j: int|
                i < j < input.len() ==> is_white_space(#[trigger] input[j]);
        if i >= m {
            assert(is_white_space(input[i]));
        }
        if i < m - 1 {
            assert(is_white_space(input[m - 1]));
        }
        assert(i == m - 1);
        assert(te.last() == input[m - 1]);
    }
}

} // verus!

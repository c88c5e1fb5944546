//! Which folders the destination field offers as completions, in which
//! order, and how each is labelled.
use vstd::prelude::*;
use crate::ordering::{
    SortKey, keyed_view, lemma_sorted_by_key_is_ordered, lemma_sorted_by_key_permutes,
    lemma_sorted_entry_is_input_entry, sort_by_key_stable, sorted_by_key,
};
use crate::paths::{
    ancestor_count_of, file_name_of, lowercased, parent_of, path_ancestor_count, path_file_name,
    path_parent, to_lowercase,
};
use crate::text::{starts_with, starts_with_char, starts_with_text};
use crate::destination::lies_within;

verus! {

/// The most completions offered at once.
pub const MAX_SUGGESTIONS: usize = 8;

/// A path that might be offered: where it was found, whether it is a folder,
/// and the path it would be offered as (the path itself when the dialog has
/// no root folder, else its canonical form when that lies inside the root,
/// else nothing).
pub struct Candidate {
    pub path: String,
    pub is_directory: bool,
    pub offered: Option<String>,
}

/// The leading entries of an ordered list, at most `MAX_SUGGESTIONS` of them,
/// without their keys.
pub open spec fn leading_values<KV, V>(s: Seq<(KV, V)>) -> Seq<V> {
    let n = if s.len() > MAX_SUGGESTIONS {
        MAX_SUGGESTIONS as int
    } else {
        s.len() as int
    };
    s.take(n).map_values(|e: (KV, V)| e.1)
}

/// The leading entries of an exec list, without their keys.
fn take_leading_values<K: SortKey, V>(sorted: Vec<(K, V)>) -> (r: Vec<V>)
    ensures
        r@ == leading_values(keyed_view(sorted@)),
{
    let ghost orig = sorted@;
    let mut sorted = sorted;
    sorted.truncate(MAX_SUGGESTIONS);
    let ghost kept = sorted@;
    let mut out: Vec<V> = Vec::new();
    for e in it: sorted
        invariant
            it.seq() == kept,
            out@ == kept.take(it.index() as int).map_values(|e: (K, V)| e.1),
    {
        proof {
            let k = it.index() as int;
            assert(kept.take(k + 1) =~= kept.take(k).push(e));
        }
        out.push(e.1);
        proof {
            let k = it.index() as int;
            assert(out@ =~= kept.take(k + 1).map_values(|e: (K, V)| e.1));
        }
    }
    assert(kept.take(kept.len() as int) =~= kept);
    assert(out@ =~= leading_values(keyed_view(orig)));
    out
}

/// The paths that search results are offered as: each folder result that has
/// a path to offer, in the order the search reported them.
pub open spec fn offered_folders(hits: Seq<Candidate>) -> Seq<String>
    decreases hits.len(),
{
    if hits.len() == 0 {
        Seq::empty()
    } else {
        let rest = offered_folders(hits.drop_last());
        let h = hits.last();
        if h.is_directory && h.offered is Some {
            rest.push(h.offered->0)
        } else {
            rest
        }
    }
}

/// Paths keyed by how deep they lie: the number of ancestors of each.
pub open spec fn keyed_by_depth(paths: Seq<String>) -> Seq<(usize, String)> {
    paths.map_values(|p: String| (ancestor_count_of(p@) as usize, p))
}

/// The folders offered for search results: the shallowest first (results
/// of equal depth in the order the search reported them), at most
/// `MAX_SUGGESTIONS`.
pub open spec fn search_suggestions(hits: Seq<Candidate>) -> Seq<String> {
    leading_values(sorted_by_key::<usize, String>(keyed_by_depth(offered_folders(hits))))
}

/// The folders to offer for the results of a search.
pub fn rank_search_suggestions(hits: Vec<Candidate>) -> (r: Vec<String>)
    ensures
        r@ == search_suggestions(hits@),
{
    let ghost all = hits@;
    let mut entries: Vec<(usize, String)> = Vec::new();
    for h in it: hits
        invariant
            it.seq() == all,
            keyed_view(entries@) == keyed_by_depth(offered_folders(all.take(it.index() as int))),
    {
        let ghost k = it.index() as int;
        proof {
            assert(all.take(k + 1).drop_last() =~= all.take(k));
            assert(all.take(k + 1).last() == h);
        }
        if h.is_directory {
            if let Some(p) = h.offered {
                let depth = path_ancestor_count(p.as_str());
                let ghost before = entries@;
                entries.push((depth, p));
                proof {
                    assert(keyed_view(entries@) =~= keyed_view(before).push((depth, p)));
                    assert(keyed_by_depth(offered_folders(all.take(k)).push(p)) =~= keyed_by_depth(
                        offered_folders(all.take(k)),
                    ).push((depth, p)));
                }
            }
        }
    }
    proof {
        assert(all.take(all.len() as int) =~= all);
        assert(keyed_view(entries@) =~= entries@);
    }
    let sorted = sort_by_key_stable(entries);
    proof {
        assert(keyed_view(sorted@) =~= sorted@);
    }
    take_leading_values(sorted)
}

/// Whether a name is hidden (starts with a dot).
pub open spec fn is_hidden_name(name: Seq<char>) -> bool {
    name.len() > 0 && name[0] == '.'
}

/// Whether a listed child completes the typed prefix: it is a folder whose
/// lower-cased name starts with `prefix`, and it is not hidden unless the
/// prefix itself asks for hidden names.
pub open spec fn completes_prefix(prefix: Seq<char>, path: Seq<char>, is_directory: bool) -> bool {
    is_directory && match file_name_of(path) {
        Some(name) => {
            let name = lowercased(name);
            (is_hidden_name(prefix) || !is_hidden_name(name)) && starts_with(name, prefix)
        },
        None => false,
    }
}

/// Whether the child at `path` completes `prefix`.
pub fn completes(prefix: &str, path: &str, is_directory: bool) -> (r: bool)
    ensures
        r == completes_prefix(prefix@, path@, is_directory),
{
    if !is_directory {
        return false;
    }
    match path_file_name(path) {
        Some(name) => {
            let name = to_lowercase(name.as_str());
            (starts_with_char(prefix, '.') || !starts_with_char(name.as_str(), '.'))
                && starts_with_text(name.as_str(), prefix)
        },
        None => false,
    }
}

/// The paths that listed children are offered as: each child that completes
/// `prefix` and has a path to offer, in listing order.
pub open spec fn offered_completions(prefix: Seq<char>, children: Seq<Candidate>) -> Seq<String>
    decreases children.len(),
{
    if children.len() == 0 {
        Seq::empty()
    } else {
        let rest = offered_completions(prefix, children.drop_last());
        let c = children.last();
        if completes_prefix(prefix, c.path@, c.is_directory) && c.offered is Some {
            rest.push(c.offered->0)
        } else {
            rest
        }
    }
}

/// The lower-cased final name of a path, or nothing when it has none.
pub open spec fn name_key(p: Seq<char>) -> Seq<char> {
    match file_name_of(p) {
        Some(name) => lowercased(name),
        None => Seq::empty(),
    }
}

/// Paths keyed by their lower-cased final names.
pub open spec fn keyed_by_name(paths: Seq<String>) -> Seq<(Seq<char>, String)> {
    paths.map_values(|p: String| (name_key(p@), p))
}

/// The folders offered to complete a typed path: the children of the listed
/// folder that complete `prefix`, ordered by lower-cased name (equal names in
/// listing order), at most `MAX_SUGGESTIONS`.
pub open spec fn completion_suggestions(prefix: Seq<char>, children: Seq<Candidate>) -> Seq<
    String,
> {
    leading_values(sorted_by_key::<String, String>(keyed_by_name(offered_completions(prefix, children))))
}

/// The lower-cased final name of `p`.
fn name_key_of(p: &str) -> (r: String)
    ensures
        r@ == name_key(p@),
{
    match path_file_name(p) {
        Some(name) => to_lowercase(name.as_str()),
        None => String::new(),
    }
}

/// The folders to offer among the children of a listed folder.
pub fn select_path_suggestions(prefix: &str, children: Vec<Candidate>) -> (r: Vec<String>)
    ensures
        r@ == completion_suggestions(prefix@, children@),
{
    let ghost all = children@;
    let mut entries: Vec<(String, String)> = Vec::new();
    for c in it: children
        invariant
            it.seq() == all,
            keyed_view(entries@) == keyed_by_name(offered_completions(prefix@, all.take(it.index() as int))),
    {
        let ghost k = it.index() as int;
        proof {
            assert(all.take(k + 1).drop_last() =~= all.take(k));
            assert(all.take(k + 1).last() == c);
        }
        if completes(prefix, c.path.as_str(), c.is_directory) {
            if let Some(p) = c.offered {
                let key = name_key_of(p.as_str());
                let ghost before = entries@;
                let ghost kv = key@;
                entries.push((key, p));
                proof {
                    assert(keyed_view(entries@) =~= keyed_view(before).push((kv, p)));
                    assert(keyed_by_name(offered_completions(prefix@, all.take(k)).push(p))
                        =~= keyed_by_name(offered_completions(prefix@, all.take(k))).push((kv, p)));
                }
            }
        }
    }
    proof {
        assert(all.take(all.len() as int) =~= all);
    }
    let sorted = sort_by_key_stable(entries);
    take_leading_values(sorted)
}

/// Each path offered for search results is the offered path of a folder
/// result.
proof fn lemma_offered_folder_source(hits: Seq<Candidate>, k: int)
    requires
        0 <= k < offered_folders(hits).len(),
    ensures
        exists|j: int|
            0 <= j < hits.len() && (#[trigger] hits[j]).is_directory && hits[j].offered == Some(
                offered_folders(hits)[k],
            ),
    decreases hits.len(),
{
    let d = hits.drop_last();
    let h = hits.last();
    if k < offered_folders(d).len() {
        lemma_offered_folder_source(d, k);
        let j = choose|j: int|
            0 <= j < d.len() && (#[trigger] d[j]).is_directory && d[j].offered == Some(
                offered_folders(d)[k],
            );
        assert(hits[j] == d[j]);
    } else {
        assert(hits[hits.len() - 1] == h);
    }
}

/// Each path offered to complete a typed path is the offered path of a child
/// that completes the prefix.
proof fn lemma_offered_completion_source(prefix: Seq<char>, children: Seq<Candidate>, k: int)
    requires
        0 <= k < offered_completions(prefix, children).len(),
    ensures
        exists|j: int|
            0 <= j < children.len() && completes_prefix(
                prefix,
                (#[trigger] children[j]).path@,
                children[j].is_directory,
            ) && children[j].offered == Some(offered_completions(prefix, children)[k]),
    decreases children.len(),
{
    let d = children.drop_last();
    if k < offered_completions(prefix, d).len() {
        lemma_offered_completion_source(prefix, d, k);
        let j = choose|j: int|
            0 <= j < d.len() && completes_prefix(prefix, (#[trigger] d[j]).path@, d[j].is_directory)
                && d[j].offered == Some(offered_completions(prefix, d)[k]);
        assert(children[j] == d[j]);
    } else {
        assert(children[children.len() - 1] == children.last());
    }
}

/// Law: at most `MAX_SUGGESTIONS` search results are offered (all of them when
/// there are no more), shallower folders before deeper ones, and each is the
/// offered path of a folder result.
#[verifier::spinoff_prover]
pub proof fn lemma_search_suggestions_shape(hits: Seq<Candidate>)
    ensures
        ({
            let r = search_suggestions(hits);
            let n = offered_folders(hits).len();
            &&& r.len() == if n > MAX_SUGGESTIONS {
                MAX_SUGGESTIONS as nat
            } else {
                n
            }
            &&& forall|i: int, j: int|
                0 <= i < j < r.len() ==> (ancestor_count_of((#[trigger] r[i])@) as usize) <= (
                ancestor_count_of((#[trigger] r[j])@) as usize)
            &&& forall|i: int|
                0 <= i < r.len() ==> exists|j: int|
                    0 <= j < hits.len() && (#[trigger] hits[j]).is_directory && hits[j].offered
                        == Some(#[trigger] r[i])
        }),
{
    let o = offered_folders(hits);
    let t = keyed_by_depth(o);
    let s = sorted_by_key::<usize, String>(t);
    let r = search_suggestions(hits);
    lemma_sorted_by_key_permutes::<usize, String>(t);
    lemma_sorted_by_key_is_ordered::<usize, String>(t);
    assert forall|i: int| 0 <= i < r.len() implies r[i] == s[i].1 && s[i].0 == ancestor_count_of(
        r[i]@,
    ) as usize && o.contains(r[i]) by {
        lemma_sorted_entry_is_input_entry::<usize, String>(t, i);
        let k = choose|k: int| 0 <= k < t.len() && t[k] == s[i];
        assert(t[k] == (ancestor_count_of(o[k]@) as usize, o[k]));
    }
    assert forall|i: int, j: int| 0 <= i < j < r.len() implies (ancestor_count_of(
        (#[trigger] r[i])@,
    ) as usize) <= (ancestor_count_of((#[trigger] r[j])@) as usize) by {
        assert(s[i].0 <= s[j].0);
    }
    assert forall|i: int| 0 <= i < r.len() implies exists|j: int|
        0 <= j < hits.len() && (#[trigger] hits[j]).is_directory && hits[j].offered == Some(
            #[trigger] r[i],
        ) by {
        let k = choose|k: int| 0 <= k < o.len() && o[k] == r[i];
        lemma_offered_folder_source(hits, k);
    }
}

/// Law: at most `MAX_SUGGESTIONS` completions are offered (all of them when
/// there are no more), in order of their lower-cased names, and each is the
/// offered path of a child that completes the prefix; so no hidden folder is
/// offered unless the prefix starts with a dot.
#[verifier::spinoff_prover]
pub proof fn lemma_completion_suggestions_shape(prefix: Seq<char>, children: Seq<Candidate>)
    ensures
        ({
            let r = completion_suggestions(prefix, children);
            let n = offered_completions(prefix, children).len();
            &&& r.len() == if n > MAX_SUGGESTIONS {
                MAX_SUGGESTIONS as nat
            } else {
                n
            }
            &&& forall|i: int, j: int|
                0 <= i < j < r.len() ==> String::key_le(
                    name_key((#[trigger] r[i])@),
                    name_key((#[trigger] r[j])@),
                )
            &&& forall|i: int|
                0 <= i < r.len() ==> exists|j: int|
                    0 <= j < children.len() && completes_prefix(
                        prefix,
                        (#[trigger] children[j]).path@,
                        children[j].is_directory,
                    ) && children[j].offered == Some(#[trigger] r[i])
        }),
{
    let o = offered_completions(prefix, children);
    let t = keyed_by_name(o);
    let s = sorted_by_key::<String, String>(t);
    let r = completion_suggestions(prefix, children);
    lemma_sorted_by_key_permutes::<String, String>(t);
    lemma_sorted_by_key_is_ordered::<String, String>(t);
    assert forall|i: int| 0 <= i < r.len() implies r[i] == s[i].1 && s[i].0 == name_key(r[i]@)
        && o.contains(r[i]) by {
        lemma_sorted_entry_is_input_entry::<String, String>(t, i);
        let k = choose|k: int| 0 <= k < t.len() && t[k] == s[i];
        assert(t[k] == (name_key(o[k]@), o[k]));
    }
    assert forall|i: int, j: int| 0 <= i < j < r.len() implies String::key_le(
        name_key((#[trigger] r[i])@),
        name_key((#[trigger] r[j])@),
    ) by {
        assert(String::key_le(s[i].0, s[j].0));
    }
    assert forall|i: int| 0 <= i < r.len() implies exists|j: int|
        0 <= j < children.len() && completes_prefix(
            prefix,
            (#[trigger] children[j]).path@,
            children[j].is_directory,
        ) && children[j].offered == Some(#[trigger] r[i]) by {
        let k = choose|k: int| 0 <= k < o.len() && o[k] == r[i];
        lemma_offered_completion_source(prefix, children, k);
    }
}

/// Law: when every candidate is offered only as a folder inside `root`, every
/// suggestion, for a search or for a typed path, lies inside `root`.
#[verifier::spinoff_prover]
pub proof fn lemma_suggestions_stay_within_root(
    root: Seq<char>,
    prefix: Seq<char>,
    candidates: Seq<Candidate>,
)
    requires
        forall|j: int|
            0 <= j < candidates.len() && (#[trigger] candidates[j]).offered is Some ==> lies_within(
                root,
                candidates[j].offered->0@,
            ),
    ensures
        forall|i: int|
            0 <= i < search_suggestions(candidates).len() ==> lies_within(
                root,
                (#[trigger] search_suggestions(candidates)[i])@,
            ),
        forall|i: int|
            0 <= i < completion_suggestions(prefix, candidates).len() ==> lies_within(
                root,
                (#[trigger] completion_suggestions(prefix, candidates)[i])@,
            ),
{
    lemma_search_suggestions_shape(candidates);
    lemma_completion_suggestions_shape(prefix, candidates);
    let r = search_suggestions(candidates);
    assert forall|i: int| 0 <= i < r.len() implies lies_within(root, (#[trigger] r[i])@) by {
        let j = choose|j: int|
            0 <= j < candidates.len() && (#[trigger] candidates[j]).is_directory
                && candidates[j].offered == Some(r[i]);
    }
    let c = completion_suggestions(prefix, candidates);
    assert forall|i: int| 0 <= i < c.len() implies lies_within(root, (#[trigger] c[i])@) by {
        let j = choose|j: int|
            0 <= j < candidates.len() && completes_prefix(
                prefix,
                (#[trigger] candidates[j]).path@,
                candidates[j].is_directory,
            ) && candidates[j].offered == Some(c[i]);
    }
}

/// A folder result with a path to offer.
pub open spec fn offerable_folder() -> spec_fn(Candidate) -> bool {
    |h: Candidate| h.is_directory && h.offered is Some
}

/// A child folder with a path to offer whose whole lower-cased final name
/// starts with the whole of `prefix`, and which is not hidden unless `prefix`
/// starts with a dot.
pub open spec fn offerable_match(prefix: Seq<char>) -> spec_fn(Candidate) -> bool {
    |c: Candidate|
        c.is_directory && c.offered is Some && match file_name_of(c.path@) {
            Some(n) => {
                &&& lowercased(n).len() >= prefix.len()
                &&& lowercased(n).take(prefix.len() as int) == prefix
                &&& (prefix.len() > 0 && prefix[0] == '.') || !(lowercased(n).len() > 0
                    && lowercased(n)[0] == '.')
            },
            None => false,
        }
}

proof fn lemma_offered_folders_count(hits: Seq<Candidate>)
    ensures
        offered_folders(hits).len() == hits.filter(offerable_folder()).len(),
        forall|j: int|
            0 <= j < hits.len() && offerable_folder()(#[trigger] hits[j]) ==> offered_folders(
                hits,
            ).contains(hits[j].offered->0),
    decreases hits.len(),
{
    reveal(Seq::filter);
    if hits.len() > 0 {
        let d = hits.drop_last();
        lemma_offered_folders_count(d);
        let o = offered_folders(hits);
        assert forall|j: int|
            0 <= j < hits.len() && offerable_folder()(#[trigger] hits[j]) implies o.contains(
            hits[j].offered->0,
        ) by {
            if j == hits.len() - 1 {
                assert(o[o.len() - 1] == hits[j].offered->0);
            } else {
                assert(hits[j] == d[j]);
                let k = choose|k: int|
                    0 <= k < offered_folders(d).len() && offered_folders(d)[k]
                        == d[j].offered->0;
                assert(o[k] == offered_folders(d)[k]);
            }
        }
    }
}

proof fn lemma_offered_completions_count(prefix: Seq<char>, children: Seq<Candidate>)
    ensures
        offered_completions(prefix, children).len() == children.filter(
            offerable_match(prefix),
        ).len(),
        forall|j: int|
            0 <= j < children.len() && offerable_match(prefix)(#[trigger] children[j])
                ==> offered_completions(prefix, children).contains(children[j].offered->0),
    decreases children.len(),
{
    reveal(Seq::filter);
    if children.len() > 0 {
        let d = children.drop_last();
        lemma_offered_completions_count(prefix, d);
        let o = offered_completions(prefix, children);
        let c = children.last();
        assert(offerable_match(prefix)(c) == (completes_prefix(prefix, c.path@, c.is_directory)
            && c.offered is Some));
        assert forall|j: int|
            0 <= j < children.len() && offerable_match(prefix)(#[trigger] children[j])
                implies o.contains(children[j].offered->0) by {
            if j == children.len() - 1 {
                assert(o[o.len() - 1] == children[j].offered->0);
            } else {
                assert(children[j] == d[j]);
                let k = choose|k: int|
                    0 <= k < offered_completions(prefix, d).len() && offered_completions(
                        prefix,
                        d,
                    )[k] == d[j].offered->0;
                assert(o[k] == offered_completions(prefix, d)[k]);
            }
        }
    }
}

/// When no more than `MAX_SUGGESTIONS` are keyed, every keyed value is
/// offered.
proof fn lemma_leading_values_keep_all<K: SortKey>(o: Seq<String>, t: Seq<(K::V, String)>)
    requires
        t.len() == o.len(),
        o.len() <= MAX_SUGGESTIONS,
        forall|k: int| 0 <= k < t.len() ==> (#[trigger] t[k]).1 == o[k],
    ensures
        forall|k: int|
            0 <= k < o.len() ==> leading_values(sorted_by_key::<K, String>(t)).contains(
                #[trigger] o[k],
            ),
{
    broadcast use vstd::seq_lib::group_to_multiset_ensures;

    let s = sorted_by_key::<K, String>(t);
    lemma_sorted_by_key_permutes::<K, String>(t);
    let r = leading_values(s);
    assert forall|k: int| 0 <= k < o.len() implies r.contains(#[trigger] o[k]) by {
        assert(t.contains(t[k]));
        assert(s.to_multiset().count(t[k]) > 0);
        assert(s.contains(t[k]));
        let i = choose|i: int| 0 <= i < s.len() && s[i] == t[k];
        assert(r[i] == s[i].1);
    }
}

/// Law: every folder result with a path to offer is kept until the cap: the
/// number offered is the number of such results, at most `MAX_SUGGESTIONS`,
/// and when there are no more than that, each of their paths is offered.
#[verifier::spinoff_prover]
pub proof fn lemma_search_keeps_every_folder_result(hits: Seq<Candidate>)
    ensures
        ({
            let n = hits.filter(offerable_folder()).len();
            let r = search_suggestions(hits);
            &&& r.len() == if n > MAX_SUGGESTIONS {
                MAX_SUGGESTIONS as nat
            } else {
                n
            }
            &&& n <= MAX_SUGGESTIONS ==> forall|j: int|
                0 <= j < hits.len() && (#[trigger] hits[j]).is_directory && hits[j].offered is Some
                    ==> r.contains(hits[j].offered->0)
        }),
{
    lemma_offered_folders_count(hits);
    lemma_search_suggestions_shape(hits);
    let o = offered_folders(hits);
    let t = keyed_by_depth(o);
    if o.len() <= MAX_SUGGESTIONS {
        lemma_leading_values_keep_all::<usize>(o, t);
        assert forall|j: int|
            0 <= j < hits.len() && (#[trigger] hits[j]).is_directory && hits[j].offered is Some
                implies search_suggestions(hits).contains(hits[j].offered->0) by {
            assert(offerable_folder()(hits[j]));
            let k = choose|k: int| 0 <= k < o.len() && o[k] == hits[j].offered->0;
        }
    }
}

/// Law: a child folder is offered only when its whole lower-cased name starts
/// with the whole typed prefix (and it is not hidden unless the prefix starts
/// with a dot); and when no more than `MAX_SUGGESTIONS` children match, every
/// one of them is offered.
#[verifier::spinoff_prover]
pub proof fn lemma_completions_match_whole_prefix(prefix: Seq<char>, children: Seq<Candidate>)
    ensures
        ({
            let r = completion_suggestions(prefix, children);
            let n = children.filter(offerable_match(prefix)).len();
            &&& forall|i: int|
                0 <= i < r.len() ==> exists|j: int|
                    0 <= j < children.len() && offerable_match(prefix)(#[trigger] children[j])
                        && children[j].offered == Some(#[trigger] r[i])
            &&& r.len() == if n > MAX_SUGGESTIONS {
                MAX_SUGGESTIONS as nat
            } else {
                n
            }
            &&& n <= MAX_SUGGESTIONS ==> forall|j: int|
                0 <= j < children.len() && offerable_match(prefix)(#[trigger] children[j])
                    ==> r.contains(children[j].offered->0)
        }),
{
    lemma_offered_completions_count(prefix, children);
    lemma_completion_suggestions_shape(prefix, children);
    let r = completion_suggestions(prefix, children);
    assert forall|i: int| 0 <= i < r.len() implies exists|j: int|
        0 <= j < children.len() && offerable_match(prefix)(#[trigger] children[j])
            && children[j].offered == Some(#[trigger] r[i]) by {
        let j = choose|j: int|
            0 <= j < children.len() && completes_prefix(
                prefix,
                (#[trigger] children[j]).path@,
                children[j].is_directory,
            ) && children[j].offered == Some(r[i]);
        assert(offerable_match(prefix)(children[j]));
    }
    let o = offered_completions(prefix, children);
    let t = keyed_by_name(o);
    if o.len() <= MAX_SUGGESTIONS {
        lemma_leading_values_keep_all::<String>(o, t);
        assert forall|j: int|
            0 <= j < children.len() && offerable_match(prefix)(#[trigger] children[j])
                implies r.contains(children[j].offered->0) by {
            let k = choose|k: int| 0 <= k < o.len() && o[k] == children[j].offered->0;
        }
    }
}

/// The label a suggested folder is shown with: its final name, or the whole
/// path when it has none.
pub open spec fn suggestion_name(p: Seq<char>) -> Seq<char> {
    match file_name_of(p) {
        Some(name) => name,
        None => p,
    }
}

/// The label for the suggested folder `path`.
pub fn suggestion_label(path: &str) -> (r: String)
    ensures
        r@ == suggestion_name(path@),
{
    match path_file_name(path) {
        Some(name) => name,
        None => path.to_owned(),
    }
}

/// The folder that contains the suggested folder `path`, shown beside it.
pub fn suggestion_parent(path: &str) -> (r: Option<String>)
    ensures
        r matches Some(q) ==> parent_of(path@) == Some(q@),
        r is None ==> parent_of(path@) is None,
{
    path_parent(path)
}

} // verus!

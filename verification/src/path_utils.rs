//! Paths as they are spelled in source text: separators, the search for the
//! file that a reference names, and the names to leave out.

use vstd::prelude::*;
use crate::name_filter::{NameFilter, pattern_matches};
use crate::platform::{file_name_of, joined, path_exists, path_file_name, path_join, view_of};
use crate::text::chars_of;

verus! {

/// Whether a directory entry of this name is hidden: its name begins with a
/// dot.
pub open spec fn hidden(name: Seq<char>) -> bool {
    name.len() > 0 && name[0] == '.'
}

/// Whether a directory entry of this name is hidden.
pub fn is_hidden(file_name: &str) -> (b: bool)
    ensures
        b == hidden(file_name@),
{
    file_name.unicode_len() > 0 && file_name.get_char(0) == '.'
}

/// A character that parts the segments of a spelled path: a slash or a
/// backslash, whichever the platform uses itself.
pub open spec fn is_separator(c: char) -> bool {
    c == '/' || c == '\\'
}

/// The first position at or after `from` that holds a separator, or the
/// length of the path where none does.
pub open spec fn segment_end(path: Seq<char>, from: int) -> int
    decreases path.len() - from,
{
    if 0 <= from < path.len() && !is_separator(path[from]) {
        segment_end(path, from + 1)
    } else {
        from
    }
}

/// `acc` with the segments of `path` from position `from` on adjoined one by
/// one, a segment being what stands between two separators.
pub open spec fn adjoin_segments(acc: Seq<char>, path: Seq<char>, from: int) -> Seq<char>
    decreases path.len() - from,
{
    let end = segment_end(path, from);
    let next = joined(acc, path.subrange(from, end));
    if 0 <= from <= end < path.len() {
        adjoin_segments(next, path, end + 1)
    } else {
        next
    }
}

/// A path spelled with slashes or backslashes, rebuilt with the separators of
/// the platform.
pub open spec fn normalized(path: Seq<char>) -> Seq<char> {
    adjoin_segments(Seq::empty(), path, 0)
}

/// Rebuilds a path that is spelled with slashes or backslashes so that it
/// uses the separators of the platform: the segments between the separators
/// are adjoined one by one, starting from the empty path.
pub fn normalize_path_separators(path: &str) -> (out: String)
    ensures
        out@ == normalized(path@),
{
    let chars = chars_of(path);
    let len = chars.len();
    let mut composite_path = String::new();
    let mut from: usize = 0;
    let mut at: usize = 0;
    loop
        invariant
            chars@ == path@,
            len == path@.len(),
            from <= at <= len,
            segment_end(path@, at as int) == segment_end(path@, from as int),
            normalized(path@) == adjoin_segments(composite_path@, path@, from as int),
        decreases len - at,
    {
        if at < len && chars[at] != '/' && chars[at] != '\\' {
            at += 1;
        } else {
            proof {
                assert(segment_end(path@, at as int) == at);
            }
            let seg = path.substring_char(from, at);
            composite_path = path_join(composite_path.as_str(), seg);
            if at < len {
                at += 1;
                from = at;
            } else {
                return composite_path;
            }
        }
    }
}

/// The places where a reference is looked for, in the order of the search:
/// beside the referring file first, then under each search path in turn.
pub open spec fn candidates(
    relative: Seq<char>,
    local_dir: Seq<char>,
    search_paths: Seq<Seq<char>>,
) -> Seq<Seq<char>> {
    Seq::new(
        search_paths.len() + 1,
        |i: int|
            if i == 0 {
                joined(local_dir, relative)
            } else {
                joined(search_paths[i - 1], relative)
            },
    )
}

/// The first candidate that is present, if any: `present[i]` says whether
/// candidate `i` is.
pub open spec fn first_present(candidates: Seq<Seq<char>>, present: Seq<bool>) -> Option<Seq<char>>
    decreases candidates.len(),
{
    if candidates.len() == 0 || present.len() == 0 {
        None
    } else if present[0] {
        Some(candidates[0])
    } else {
        first_present(candidates.drop_first(), present.drop_first())
    }
}

/// The views of a list of strings.
pub open spec fn views(list: Seq<String>) -> Seq<Seq<char>> {
    list.map_values(|s: String| s@)
}

/// The search order: a reference found beside the referring file resolves to
/// that file, whatever the search paths hold.
pub proof fn lemma_local_candidate_wins(
    relative: Seq<char>,
    local_dir: Seq<char>,
    search_paths: Seq<Seq<char>>,
    present: Seq<bool>,
)
    requires
        present.len() > 0,
        present[0],
    ensures
        first_present(candidates(relative, local_dir, search_paths), present) == Some(joined(local_dir, relative)),
{
}

/// What `first_present` returns: the candidate at the first position marked
/// present, and nothing where no position is.
pub proof fn lemma_first_present(candidates: Seq<Seq<char>>, present: Seq<bool>)
    ensures
        match first_present(candidates, present) {
            Some(hit) => exists|i: int|
                0 <= i < candidates.len() && i < present.len() && present[i] && #[trigger] candidates[i] == hit
                    && forall|j: int| 0 <= j < i ==> !#[trigger] present[j],
            None => forall|j: int| 0 <= j < candidates.len() && j < present.len() ==> !#[trigger] present[j],
        },
    decreases candidates.len(),
{
    if candidates.len() == 0 || present.len() == 0 {
    } else if present[0] {
        assert(candidates[0] == candidates[0]);
    } else {
        let c = candidates.drop_first();
        let p = present.drop_first();
        lemma_first_present(c, p);
        match first_present(c, p) {
            Some(hit) => {
                let i = choose|i: int|
                    0 <= i < c.len() && i < p.len() && p[i] && #[trigger] c[i] == hit && forall|j: int|
                        0 <= j < i ==> !#[trigger] p[j];
                assert(candidates[i + 1] == hit);
                assert forall|j: int| 0 <= j < i + 1 implies !#[trigger] present[j] by {
                    if j > 0 {
                        assert(!p[j - 1]);
                    }
                }
            },
            None => {
                assert forall|j: int| 0 <= j < candidates.len() && j < present.len() implies !#[trigger] present[j] by {
                    if j > 0 {
                        assert(!p[j - 1]);
                    }
                }
            },
        }
    }
}

/// Picks the first candidate that a probe found present. `present` holds the
/// answers for the candidates in order, and may stop short of the end.
pub fn select_candidate(candidates: &Vec<String>, present: &Vec<bool>) -> (found: Option<String>)
    ensures
        view_of(found) == first_present(views(candidates@), present@),
{
    let mut i: usize = 0;
    proof {
        assert(views(candidates@).skip(0) =~= views(candidates@));
        assert(present@.skip(0) =~= present@);
    }
    while i < candidates.len() && i < present.len()
        invariant
            i <= candidates.len(),
            i <= present.len(),
            first_present(views(candidates@), present@) == first_present(
                views(candidates@).skip(i as int),
                present@.skip(i as int),
            ),
        decreases candidates.len() - i,
    {
        if present[i] {
            proof {
                assert(views(candidates@).skip(i as int)[0] == candidates@[i as int]@);
            }
            return Some(candidates[i].clone());
        }
        proof {
            assert(views(candidates@).skip(i as int).drop_first() =~= views(candidates@).skip(i as int + 1));
            assert(present@.skip(i as int).drop_first() =~= present@.skip(i as int + 1));
        }
        i += 1;
    }
    None
}

/// Looks for the file that a reference names: beside the referring file
/// first, then under each search path in turn. Each candidate is probed on
/// the file system, in that order and only until one is found; what comes
/// back is the first candidate that a probe found, or nothing where every
/// probe failed.
pub fn convert_to_absolute_path(
    relative_path: &str,
    local_search_path: &str,
    system_search_paths: &Vec<String>,
) -> (found: Option<String>)
    ensures
        exists|present: Seq<bool>| view_of(found) == #[trigger] first_present(
            candidates(relative_path@, local_search_path@, views(system_search_paths@)),
            present,
        ),
{
    let ghost all = candidates(relative_path@, local_search_path@, views(system_search_paths@));
    let mut tried: Vec<String> = Vec::new();
    let mut present: Vec<bool> = Vec::new();
    let full_path = path_join(local_search_path, relative_path);
    let hit = path_exists(full_path.as_str());
    tried.push(full_path);
    present.push(hit);
    let mut i: usize = 0;
    while !hit_last(&present) && i < system_search_paths.len()
        invariant
            i <= system_search_paths.len(),
            tried@.len() == i + 1,
            present@.len() == i + 1,
            all == candidates(relative_path@, local_search_path@, views(system_search_paths@)),
            views(tried@) == all.take(i + 1),
        decreases system_search_paths.len() - i,
    {
        let full_path = path_join(system_search_paths[i].as_str(), relative_path);
        let hit = path_exists(full_path.as_str());
        tried.push(full_path);
        present.push(hit);
        i += 1;
        proof {
            assert(views(tried@) =~= all.take(i + 1));
        }
    }
    let found = select_candidate(&tried, &present);
    proof {
        lemma_first_present_prefix(all, tried@.len() as int, present@);
    }
    found
}

/// Whether the last probe found its candidate.
fn hit_last(present: &Vec<bool>) -> (hit: bool)
    ensures
        hit == (present@.len() > 0 && present@.last()),
{
    present.len() > 0 && present[present.len() - 1]
}

/// Candidates beyond the answers at hand do not matter.
pub proof fn lemma_first_present_prefix(candidates: Seq<Seq<char>>, n: int, present: Seq<bool>)
    requires
        0 <= n <= candidates.len(),
        present.len() <= n,
    ensures
        first_present(candidates.take(n), present) == first_present(candidates, present),
    decreases candidates.len(),
{
    if candidates.len() == 0 || present.len() == 0 {
    } else if present[0] {
    } else {
        assert(candidates.take(n).drop_first() =~= candidates.drop_first().take(n - 1));
        lemma_first_present_prefix(candidates.drop_first(), n - 1, present.drop_first());
    }
}

/// Whether the final component of `path` matches the filter. A missing
/// filter matches nothing, and a path without a final component counts as
/// the empty name.
pub fn filename_matches_regex(regex: &Option<NameFilter>, path: &str) -> (is_match: bool)
    ensures
        is_match == match regex {
            Some(filter) => pattern_matches(
                filter.pattern(),
                match file_name_of(path@) {
                    Some(name) => name,
                    None => Seq::empty(),
                },
            ),
            None => false,
        },
{
    match regex {
        Some(filter) => {
            match path_file_name(path) {
                Some(name) => filter.matches(name.as_str()),
                None => {
                    let empty = String::new();
                    filter.matches(empty.as_str())
                },
            }
        },
        None => false,
    }
}

/// Whether `name`, as it is spelled, matches the filter. A missing filter
/// matches nothing.
pub fn name_matches_regex(regex: &Option<NameFilter>, name: &str) -> (is_match: bool)
    ensures
        is_match == match regex {
            Some(filter) => pattern_matches(filter.pattern(), name@),
            None => false,
        },
{
    match regex {
        Some(filter) => filter.matches(name),
        None => false,
    }
}

} // verus!

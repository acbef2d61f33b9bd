//! Finding the directives of a text, and building the graph of a tree from
//! the texts of its files.

use vstd::prelude::*;
use vstd::slice::slice_subrange;
use crate::file_node::{FileNode, NodeKey};
use crate::hash_graph::{HashGraph, keys_after, with_key};
use crate::name_filter::{NameFilter, pattern_matches};
use crate::path_utils::{
    candidates, convert_to_absolute_path, first_present, name_matches_regex, normalize_path_separators, normalized, views,
};
use crate::text::chars_of;
use crate::platform::{parent_of, path_parent, view_of};

verus! {

/// A space or a tab.
pub open spec fn is_blank(c: char) -> bool {
    c == ' ' || c == '\t'
}

/// A character that can end a reference: `>` or `"`.
pub open spec fn is_closer(c: char) -> bool {
    c == '>' || c == '"'
}

/// The word that follows the `#` of a directive.
pub open spec fn keyword() -> Seq<char> {
    seq!['i', 'n', 'c', 'l', 'u', 'd', 'e']
}

/// The first position at or after `from` that holds no blank.
pub open spec fn skip_blanks(line: Seq<char>, from: int) -> int
    decreases line.len() - from,
{
    if 0 <= from < line.len() && is_blank(line[from]) {
        skip_blanks(line, from + 1)
    } else {
        from
    }
}

/// The last position at or after `from` that holds a closer, or -1.
pub open spec fn last_closer(line: Seq<char>, from: int) -> int
    decreases line.len(),
{
    if line.len() <= from || line.len() == 0 {
        -1
    } else if is_closer(line.last()) {
        line.len() - 1
    } else {
        last_closer(line.drop_last(), from)
    }
}

/// Whether the keyword stands at position `at`.
pub open spec fn has_keyword_at(line: Seq<char>, at: int) -> bool {
    0 <= at && at + 7 <= line.len() && line.subrange(at, at + 7) == keyword()
}

/// Where the reference of a directive lies in a line, and whether it stands
/// between angle brackets; nothing where the line holds no directive.
///
/// A directive is, from the start of the line: blanks, `#`, blanks, the
/// keyword, blanks, then `<` or `"`, the reference, and `>` or `"`. The
/// reference runs up to the last closer of the line, and the closer need not
/// pair with the opener.
pub open spec fn directive_span(line: Seq<char>) -> Option<(int, int, bool)> {
    let hash = skip_blanks(line, 0);
    let word = skip_blanks(line, hash + 1);
    let open = skip_blanks(line, word + 7);
    let close = last_closer(line, open + 1);
    if hash < line.len() && line[hash] == '#' && has_keyword_at(line, word) && open < line.len() && (line[open]
        == '<' || line[open] == '"') && close >= 0 {
        Some((open + 1, close, line[open] == '<'))
    } else {
        None
    }
}

/// The reference that a line's directive names, if the line holds one.
pub open spec fn directive_in(line: Seq<char>) -> Option<NodeKey> {
    match directive_span(line) {
        Some((from, to, is_system)) => Some((line.subrange(from, to), is_system)),
        None => None,
    }
}

/// The first position at or after `from` that holds a line feed, or the
/// length of the text where none does.
pub open spec fn line_end(text: Seq<char>, from: int) -> int
    decreases text.len() - from,
{
    if 0 <= from < text.len() && text[from] != '\n' {
        line_end(text, from + 1)
    } else {
        from
    }
}

/// The references of the directives in the lines that begin at or after
/// position `from`, which is the start of a line.
pub open spec fn includes_from(text: Seq<char>, from: int) -> Seq<NodeKey>
    decreases text.len() - from,
{
    let end = line_end(text, from);
    let rest = if 0 <= from <= end < text.len() {
        includes_from(text, end + 1)
    } else {
        Seq::empty()
    };
    match directive_in(text.subrange(from, end)) {
        Some(key) => seq![key] + rest,
        None => rest,
    }
}

/// The references of all directives in a text, in the order of their lines.
pub open spec fn includes_in(text: Seq<char>) -> Seq<NodeKey> {
    includes_from(text, 0)
}

/// The identities of a list of nodes.
pub open spec fn keys_of(list: Seq<FileNode>) -> Seq<NodeKey> {
    list.map_values(|n: FileNode| n@)
}

/// Whether every character is a blank.
pub open spec fn all_blank(text: Seq<char>) -> bool {
    forall|i: int| 0 <= i < text.len() ==> is_blank(#[trigger] text[i])
}

/// What a line holds of its directive, as a list of none or one.
pub open spec fn found_in(line: Seq<char>) -> Seq<NodeKey> {
    match directive_in(line) {
        Some(key) => seq![key],
        None => Seq::empty(),
    }
}

/// Blanks up to a position that holds none are skipped up to there.
proof fn lemma_skip_blanks(line: Seq<char>, from: int, to: int)
    requires
        0 <= from <= to <= line.len(),
        forall|i: int| from <= i < to ==> is_blank(#[trigger] line[i]),
        to == line.len() || !is_blank(line[to]),
    ensures
        skip_blanks(line, from) == to,
    decreases to - from,
{
    if from < to {
        lemma_skip_blanks(line, from + 1, to);
    }
}

/// A closer with none after it is the last one.
proof fn lemma_last_closer(line: Seq<char>, from: int, at: int)
    requires
        0 <= from <= at < line.len(),
        is_closer(line[at]),
        forall|i: int| at < i < line.len() ==> !is_closer(#[trigger] line[i]),
    ensures
        last_closer(line, from) == at,
    decreases line.len(),
{
    if at < line.len() - 1 {
        let shorter = line.drop_last();
        assert(!is_closer(line[line.len() - 1]));
        assert(shorter[at] == line[at]);
        assert forall|i: int| at < i < shorter.len() implies !is_closer(#[trigger] shorter[i]) by {
            assert(shorter[i] == line[i]);
        }
        lemma_last_closer(shorter, from, at);
    }
}

/// A line runs up to the first line feed.
proof fn lemma_line_end(text: Seq<char>, from: int, to: int)
    requires
        0 <= from <= to <= text.len(),
        forall|i: int| from <= i < to ==> #[trigger] text[i] != '\n',
        to == text.len() || text[to] == '\n',
    ensures
        line_end(text, from) == to,
    decreases to - from,
{
    if from < to {
        lemma_line_end(text, from + 1, to);
    }
}

/// A line ends inside the text, at a line feed or at the end.
proof fn lemma_line_end_bounds(text: Seq<char>, from: int)
    requires
        0 <= from <= text.len(),
    ensures
        from <= line_end(text, from) <= text.len(),
        forall|i: int| from <= i < line_end(text, from) ==> #[trigger] text[i] != '\n',
        line_end(text, from) == text.len() || text[line_end(text, from)] == '\n',
    decreases text.len() - from,
{
    if from < text.len() && text[from] != '\n' {
        lemma_line_end_bounds(text, from + 1);
    }
}

/// The scan of a text from a line start on depends on nothing before it.
proof fn lemma_includes_shift(text: Seq<char>, tail: Seq<char>, off: int, from: int)
    requires
        0 <= off <= text.len(),
        tail == text.subrange(off, text.len() as int),
        0 <= from <= tail.len(),
    ensures
        includes_from(text, off + from) == includes_from(tail, from),
    decreases tail.len() - from,
{
    lemma_line_end_bounds(tail, from);
    let end = line_end(tail, from);
    assert forall|i: int| off + from <= i < off + end implies #[trigger] text[i] != '\n' by {
        assert(tail[i - off] == text[i]);
    }
    if end < tail.len() {
        assert(tail[end] == text[off + end]);
    }
    lemma_line_end(text, off + from, off + end);
    assert(text.subrange(off + from, off + end) =~= tail.subrange(from, end));
    if end < tail.len() {
        lemma_includes_shift(text, tail, off, end + 1);
    }
}

/// The shape of a directive decides what is read from it: whatever blanks
/// stand before the `#`, after it and after the keyword, the reference is
/// what stands between the opener and the last closer of the line, and it is
/// a system reference exactly when the opener is `<`.
pub proof fn lemma_directive_shape(
    lead: Seq<char>,
    gap: Seq<char>,
    space: Seq<char>,
    opener: char,
    path: Seq<char>,
    closer: char,
    tail: Seq<char>,
)
    requires
        all_blank(lead),
        all_blank(gap),
        all_blank(space),
        opener == '<' || opener == '"',
        is_closer(closer),
        forall|i: int| 0 <= i < tail.len() ==> !is_closer(#[trigger] tail[i]),
    ensures
        directive_in(lead + seq!['#'] + gap + keyword() + space + seq![opener] + path + seq![closer] + tail) == Some(
            (path, opener == '<'),
        ),
{
    let line = lead + seq!['#'] + gap + keyword() + space + seq![opener] + path + seq![closer] + tail;
    let hash = lead.len() as int;
    let word = hash + 1 + gap.len();
    let open = word + 7 + space.len();
    let close = open + 1 + path.len();
    assert(line.len() == close + 1 + tail.len());
    assert forall|i: int| 0 <= i < hash implies is_blank(#[trigger] line[i]) by {
        assert(line[i] == lead[i]);
    }
    assert(line[hash] == '#');
    lemma_skip_blanks(line, 0, hash);
    assert forall|i: int| hash + 1 <= i < word implies is_blank(#[trigger] line[i]) by {
        assert(line[i] == gap[i - hash - 1]);
    }
    assert(line[word] == keyword()[0]);
    lemma_skip_blanks(line, hash + 1, word);
    assert(line.subrange(word, word + 7) =~= keyword()) by {
        assert forall|i: int| 0 <= i < 7 implies line[word + i] == keyword()[i] by {}
    }
    assert forall|i: int| word + 7 <= i < open implies is_blank(#[trigger] line[i]) by {
        assert(line[i] == space[i - word - 7]);
    }
    assert(line[open] == opener);
    lemma_skip_blanks(line, word + 7, open);
    assert(line[close] == closer);
    assert forall|i: int| close < i < line.len() implies !is_closer(#[trigger] line[i]) by {
        assert(line[i] == tail[i - close - 1]);
    }
    lemma_last_closer(line, open + 1, close);
    assert(line.subrange(open + 1, close) =~= path);
}

/// A text of one line holds what that line holds.
pub proof fn lemma_single_line(line: Seq<char>)
    requires
        forall|i: int| 0 <= i < line.len() ==> #[trigger] line[i] != '\n',
    ensures
        includes_in(line) == found_in(line),
{
    lemma_line_end(line, 0, line.len() as int);
    assert(line.subrange(0, line.len() as int) =~= line);
    assert(found_in(line) + Seq::<NodeKey>::empty() =~= found_in(line));
}

/// Lines are scanned apart: a text holds what its first line holds, then
/// what the text after the line feed holds.
pub proof fn lemma_lines_are_scanned_apart(line: Seq<char>, rest: Seq<char>)
    requires
        forall|i: int| 0 <= i < line.len() ==> #[trigger] line[i] != '\n',
    ensures
        includes_in(line + seq!['\n'] + rest) == found_in(line) + includes_in(rest),
{
    let text = line + seq!['\n'] + rest;
    let end = line.len() as int;
    assert forall|i: int| 0 <= i < end implies #[trigger] text[i] != '\n' by {
        assert(text[i] == line[i]);
    }
    assert(text[end] == '\n');
    lemma_line_end(text, 0, end);
    assert(text.subrange(0, end) =~= line);
    assert(text.subrange(end + 1, text.len() as int) =~= rest);
    lemma_includes_shift(text, rest, end + 1, 0);
    assert(includes_in(text) =~= found_in(line) + includes_in(rest));
}

/// Where the line that begins at `from` ends.
fn find_line_end(text: &Vec<char>, from: usize) -> (end: usize)
    requires
        from <= text.len(),
    ensures
        end == line_end(text@, from as int),
        from <= end <= text.len(),
{
    let mut at = from;
    while at < text.len() && text[at] != '\n'
        invariant
            from <= at <= text.len(),
            line_end(text@, at as int) == line_end(text@, from as int),
        decreases text.len() - at,
    {
        at += 1;
    }
    at
}

/// The first position at or after `from` that holds no blank.
fn find_non_blank(line: &[char], from: usize) -> (at: usize)
    requires
        from <= line@.len(),
    ensures
        at == skip_blanks(line@, from as int),
        from <= at <= line@.len(),
{
    let mut at = from;
    while at < line.len() && (line[at] == ' ' || line[at] == '\t')
        invariant
            from <= at <= line@.len(),
            skip_blanks(line@, at as int) == skip_blanks(line@, from as int),
        decreases line@.len() - at,
    {
        at += 1;
    }
    at
}

/// The last position at or after `from` that holds a closer.
fn find_last_closer(line: &[char], from: usize) -> (at: Option<usize>)
    requires
        from <= line@.len(),
    ensures
        match at {
            Some(k) => k == last_closer(line@, from as int) && from <= k < line@.len(),
            None => last_closer(line@, from as int) == -1,
        },
{
    let mut end = line.len();
    proof {
        assert(line@.take(end as int) =~= line@);
    }
    while end > from
        invariant
            from <= end <= line@.len(),
            last_closer(line@, from as int) == last_closer(line@.take(end as int), from as int),
        decreases end,
    {
        if line[end - 1] == '>' || line[end - 1] == '"' {
            return Some(end - 1);
        }
        proof {
            assert(line@.take(end as int).drop_last() =~= line@.take(end as int - 1));
        }
        end -= 1;
    }
    None
}

/// Reads one line: where the reference of its directive lies, and whether it
/// stands between angle brackets.
pub fn parse_directive(line: &[char]) -> (span: Option<(usize, usize, bool)>)
    ensures
        match span {
            Some((from, to, is_system)) => directive_span(line@) == Some((from as int, to as int, is_system)) && from
                <= to < line@.len(),
            None => directive_span(line@) is None,
        },
{
    let len = line.len();
    let hash = find_non_blank(line, 0);
    if hash >= len || line[hash] != '#' {
        return None;
    }
    let word = find_non_blank(line, hash + 1);
    if len - word < 7 {
        return None;
    }
    if line[word] != 'i' || line[word + 1] != 'n' || line[word + 2] != 'c' || line[word + 3] != 'l' || line[word + 4]
        != 'u' || line[word + 5] != 'd' || line[word + 6] != 'e' {
        proof {
            let w = line@.subrange(word as int, word + 7);
            assert(w[0] == line@[word as int]);
            assert(w[1] == line@[word + 1]);
            assert(w[2] == line@[word + 2]);
            assert(w[3] == line@[word + 3]);
            assert(w[4] == line@[word + 4]);
            assert(w[5] == line@[word + 5]);
            assert(w[6] == line@[word + 6]);
        }
        return None;
    }
    proof {
        assert(line@.subrange(word as int, word + 7) =~= keyword());
    }
    let open = find_non_blank(line, word + 7);
    if open >= len {
        return None;
    }
    let is_system = line[open] == '<';
    if !is_system && line[open] != '"' {
        return None;
    }
    match find_last_closer(line, open + 1) {
        Some(close) => Some((open + 1, close, is_system)),
        None => None,
    }
}

/// Finds the directives of a text. The scan is lexical and line by line: it
/// knows nothing of comments, strings or conditional sections, so a directive
/// inside any of them is reported like every other.
pub fn scan_text_for_includes(text: &str) -> (includes: Vec<FileNode>)
    ensures
        keys_of(includes@) == includes_in(text@),
{
    let chars = chars_of(text);
    let mut includes: Vec<FileNode> = Vec::new();
    let mut from: usize = 0;
    proof {
        assert(keys_of(includes@) + includes_from(text@, 0) =~= includes_in(text@));
    }
    loop
        invariant
            chars@ == text@,
            from <= chars.len(),
            includes_in(text@) == keys_of(includes@) + includes_from(text@, from as int),
        decreases chars.len() - from,
    {
        let end = find_line_end(&chars, from);
        let line = slice_subrange(chars.as_slice(), from, end);
        let ghost before = includes@;
        let ghost rest = if end < chars.len() {
            includes_from(text@, end + 1)
        } else {
            Seq::empty()
        };
        match parse_directive(line) {
            Some((a, b, is_system)) => {
                let name = text.substring_char(from + a, from + b);
                includes.push(FileNode::new(name, is_system));
                proof {
                    assert(text@.subrange(from + a, from + b) =~= line@.subrange(a as int, b as int));
                    let key = (line@.subrange(a as int, b as int), is_system);
                    assert(keys_of(includes@) =~= keys_of(before).push(key));
                    assert(keys_of(before) + (seq![key] + rest) =~= keys_of(includes@) + rest);
                }
            },
            None => {},
        }
        if end < chars.len() {
            from = end + 1;
        } else {
            proof {
                assert(keys_of(includes@) + rest =~= keys_of(includes@));
            }
            return includes;
        }
    }
}

/// A file to scan: its path, the directory that holds it, and its text.
pub struct SourceFile {
    pub path: String,
    pub dir: String,
    pub text: String,
}

impl SourceFile {
    /// A file to scan, with the directory taken from its path; nothing where
    /// the path names no file inside a directory.
    pub fn new(path: String, text: String) -> (file: Option<SourceFile>)
        ensures
            match file {
                Some(f) => f.path == path && f.text == text && parent_of(path@) == Some(f.dir@),
                None => parent_of(path@) is None,
            },
    {
        match path_parent(path.as_str()) {
            Some(dir) => Some(SourceFile { path, dir, text }),
            None => None,
        }
    }
}

/// A reference that was found nowhere: the referring file, and the reference
/// as it is spelled there.
#[derive(Debug, PartialEq, Eq)]
pub struct Unresolved {
    pub file: String,
    pub reference: String,
}

impl View for Unresolved {
    type V = (Seq<char>, Seq<char>);

    open spec fn view(&self) -> (Seq<char>, Seq<char>) {
        (self.file@, self.reference@)
    }
}

/// The views of a list of reports.
pub open spec fn reports(list: Seq<Unresolved>) -> Seq<(Seq<char>, Seq<char>)> {
    list.map_values(|u: Unresolved| u@)
}

/// What a scan of a tree produces: the graph, and the references that were
/// found nowhere, in the order in which they were met.
pub struct TreeScan {
    pub graph: HashGraph,
    pub unresolved: Vec<Unresolved>,
}

/// The pattern of a filter, if there is a filter.
pub open spec fn pattern_of(exclude: Option<NameFilter>) -> Option<Seq<char>> {
    match exclude {
        Some(filter) => Some(filter.pattern()),
        None => None,
    }
}

/// Whether a reference is followed: its kind is among the kinds asked for,
/// and its spelled name does not match the filter.
pub open spec fn wanted(key: NodeKey, user: bool, system: bool, exclude: Option<Seq<char>>) -> bool {
    &&& (!key.1 && user) || (key.1 && system)
    &&& match exclude {
        Some(pattern) => !pattern_matches(pattern, key.0),
        None => true,
    }
}

/// The references among `keys` that are followed, in their order.
pub open spec fn keep_wanted(
    keys: Seq<NodeKey>,
    user: bool,
    system: bool,
    exclude: Option<Seq<char>>,
) -> Seq<NodeKey>
    decreases keys.len(),
{
    if keys.len() == 0 {
        Seq::empty()
    } else if wanted(keys.last(), user, system, exclude) {
        keep_wanted(keys.drop_last(), user, system, exclude).push(keys.last())
    } else {
        keep_wanted(keys.drop_last(), user, system, exclude)
    }
}

/// The node that stands for a reference once the search has ended: the file
/// that was found, with the kind of the reference, or the reference as it is
/// spelled where nothing was found. The flag says whether a file was found.
pub open spec fn resolution(reference: NodeKey, found: Option<Seq<char>>) -> (NodeKey, bool) {
    match found {
        Some(path) => ((path, reference.1), true),
        None => (reference, false),
    }
}

/// Whether `outcome` is a possible end of the search for `reference` from a
/// file in `dir`: one of the candidates, or the reference itself with the
/// flag down.
pub open spec fn may_resolve(
    reference: NodeKey,
    dir: Seq<char>,
    search_paths: Seq<Seq<char>>,
    outcome: (NodeKey, bool),
) -> bool {
    exists|present: Seq<bool>|
        outcome == resolution(
            reference,
            #[trigger] first_present(candidates(normalized(reference.0), dir, search_paths), present),
        )
}

/// Whether `outcomes` holds a possible end of the search for each of `refs`.
pub open spec fn explains(
    refs: Seq<NodeKey>,
    dir: Seq<char>,
    search_paths: Seq<Seq<char>>,
    outcomes: Seq<(NodeKey, bool)>,
) -> bool {
    &&& outcomes.len() == refs.len()
    &&& forall|k: int| 0 <= k < refs.len() ==> may_resolve(refs[k], dir, search_paths, #[trigger] outcomes[k])
}

/// The edges from the file at `path` to each of `outcomes`.
pub open spec fn edges_to(path: Seq<char>, outcomes: Seq<(NodeKey, bool)>) -> Seq<(NodeKey, NodeKey)> {
    Seq::new(outcomes.len(), |k: int| ((path, false), outcomes[k].0))
}

/// The reports for the file at `path`: one for each outcome with the flag
/// down, in their order.
pub open spec fn failures_in(path: Seq<char>, outcomes: Seq<(NodeKey, bool)>) -> Seq<(Seq<char>, Seq<char>)>
    decreases outcomes.len(),
{
    if outcomes.len() == 0 {
        Seq::empty()
    } else if outcomes.last().1 {
        failures_in(path, outcomes.drop_last())
    } else {
        failures_in(path, outcomes.drop_last()).push((path, outcomes.last().0.0))
    }
}

/// The references of a file that are followed.
pub open spec fn refs_of(file: SourceFile, user: bool, system: bool, exclude: Option<Seq<char>>) -> Seq<NodeKey> {
    keep_wanted(includes_in(file.text@), user, system, exclude)
}

/// The identities that a graph holds after the files were scanned in order,
/// `parts` holding the outcomes of each file's references.
pub open spec fn tree_keys(files: Seq<SourceFile>, parts: Seq<Seq<(NodeKey, bool)>>) -> Seq<NodeKey>
    decreases files.len(),
{
    if files.len() == 0 || parts.len() == 0 {
        Seq::empty()
    } else {
        keys_after(
            with_key(tree_keys(files.drop_last(), parts.drop_last()), (files.last().path@, false)),
            edges_to(files.last().path@, parts.last()),
        )
    }
}

/// The edges of that graph, as pairs of identities.
pub open spec fn tree_edges(files: Seq<SourceFile>, parts: Seq<Seq<(NodeKey, bool)>>) -> Seq<(NodeKey, NodeKey)>
    decreases files.len(),
{
    if files.len() == 0 || parts.len() == 0 {
        Seq::empty()
    } else {
        tree_edges(files.drop_last(), parts.drop_last()) + edges_to(files.last().path@, parts.last())
    }
}

/// The reports of that scan.
pub open spec fn tree_failures(
    files: Seq<SourceFile>,
    parts: Seq<Seq<(NodeKey, bool)>>,
) -> Seq<(Seq<char>, Seq<char>)>
    decreases files.len(),
{
    if files.len() == 0 || parts.len() == 0 {
        Seq::empty()
    } else {
        tree_failures(files.drop_last(), parts.drop_last()) + failures_in(files.last().path@, parts.last())
    }
}

/// Whether a reference is followed.
pub fn is_wanted(
    reference: &FileNode,
    parse_user_includes: bool,
    parse_system_includes: bool,
    exclude_regex: &Option<NameFilter>,
) -> (keep: bool)
    ensures
        keep == wanted(reference@, parse_user_includes, parse_system_includes, pattern_of(*exclude_regex)),
{
    ((!reference.is_system && parse_user_includes) || (reference.is_system && parse_system_includes))
        && !name_matches_regex(exclude_regex, reference.path.as_str())
}

/// The node for a reference once the search has ended, and whether a file
/// was found.
pub fn resolve_reference(reference: &FileNode, found: Option<String>) -> (out: (FileNode, bool))
    ensures
        (out.0@, out.1) == resolution(reference@, view_of(found)),
{
    match found {
        Some(path_buf) => (FileNode::from_path(path_buf.as_str(), reference.is_system), true),
        None => (reference.clone(), false),
    }
}

/// Searches for the file that a reference names, from a file in `local_dir`:
/// the spelled path is normalized, then looked for beside the referring file
/// and under the search paths. What the file system holds decides which
/// candidate comes back, if any.
pub fn find_absolute_include_path(
    reference: &FileNode,
    local_dir: &str,
    system_search_paths: &Vec<String>,
) -> (out: (FileNode, bool))
    ensures
        may_resolve(reference@, local_dir@, views(system_search_paths@), (out.0@, out.1)),
{
    let normalized_path = normalize_path_separators(reference.path.as_str());
    let found = convert_to_absolute_path(normalized_path.as_str(), local_dir, system_search_paths);
    resolve_reference(reference, found)
}

/// Scans one file into the graph: the file becomes a node, and each
/// reference of it that is followed becomes an edge from the file to the
/// file found for it, or to a node that carries the reference as spelled
/// where none was found; each such failure is reported.
pub fn add_file_includes(
    graph: &mut HashGraph,
    unresolved: &mut Vec<Unresolved>,
    file: &SourceFile,
    search_paths: &Vec<String>,
    parse_user_includes: bool,
    parse_system_includes: bool,
    exclude_regex: &Option<NameFilter>,
)
    requires
        old(graph).wf(),
    ensures
        final(graph).wf(),
        exists|outcomes: Seq<(NodeKey, bool)>|
            {
                &&& #[trigger] explains(
                    refs_of(*file, parse_user_includes, parse_system_includes, pattern_of(*exclude_regex)),
                    file.dir@,
                    views(search_paths@),
                    outcomes,
                )
                &&& final(graph).keys() == keys_after(
                    with_key(old(graph).keys(), (file.path@, false)),
                    edges_to(file.path@, outcomes),
                )
                &&& final(graph).edge_keys() == old(graph).edge_keys() + edges_to(file.path@, outcomes)
                &&& reports(final(unresolved)@) == reports(old(unresolved)@) + failures_in(file.path@, outcomes)
            },
{
    let ghost exclude = pattern_of(*exclude_regex);
    let ghost start = with_key(graph.keys(), (file.path@, false));
    let ghost path = file.path@;
    let includes = scan_text_for_includes(file.text.as_str());
    graph.require_node(FileNode::from_path(file.path.as_str(), false));
    let ghost outcomes: Seq<(NodeKey, bool)> = Seq::empty();
    proof {
        assert(keys_of(includes@).take(0) =~= Seq::<NodeKey>::empty());
        assert(graph.keys() =~= start);
        assert(graph.edge_keys() =~= old(graph).edge_keys() + edges_to(path, outcomes)) by {
            assert forall|e: int| 0 <= e < graph.edge_keys().len() implies graph.edge_keys()[e] == old(graph).edge_keys()[e] by {
                assert(old(graph).edges()[e].0 < old(graph).keys().len());
            }
        }
        assert(reports(unresolved@) =~= reports(old(unresolved)@) + failures_in(path, outcomes));
    }
    let mut k: usize = 0;
    while k < includes.len()
        invariant
            k <= includes.len(),
            graph.wf(),
            path == file.path@,
            exclude == pattern_of(*exclude_regex),
            explains(
                keep_wanted(keys_of(includes@).take(k as int), parse_user_includes, parse_system_includes, exclude),
                file.dir@,
                views(search_paths@),
                outcomes,
            ),
            graph.keys() == keys_after(start, edges_to(path, outcomes)),
            graph.edge_keys() == old(graph).edge_keys() + edges_to(path, outcomes),
            reports(unresolved@) == reports(old(unresolved)@) + failures_in(path, outcomes),
        decreases includes.len() - k,
    {
        let inc = &includes[k];
        proof {
            assert(keys_of(includes@).take(k + 1).drop_last() =~= keys_of(includes@).take(k as int));
            assert(keys_of(includes@).take(k + 1).last() == inc@);
        }
        if is_wanted(inc, parse_user_includes, parse_system_includes, exclude_regex) {
            let (dst_node, resolved) = find_absolute_include_path(inc, file.dir.as_str(), search_paths);
            let ghost outcome = (dst_node@, resolved);
            let ghost before = outcomes;
            let ghost listed = unresolved@;
            if !resolved {
                unresolved.push(Unresolved { file: file.path.clone(), reference: inc.path.clone() });
            }
            let src_node = FileNode::from_path(file.path.as_str(), false);
            graph.add_edge(src_node, dst_node);
            proof {
                outcomes = before.push(outcome);
                assert(outcomes.drop_last() =~= before);
                assert(edges_to(path, outcomes) =~= edges_to(path, before).push(((path, false), outcome.0)));
                assert(edges_to(path, outcomes).drop_last() =~= edges_to(path, before));
                assert(graph.edge_keys() =~= old(graph).edge_keys() + edges_to(path, outcomes));
                if !resolved {
                    assert(reports(unresolved@) =~= reports(listed).push((path, inc@.0)));
                }
                assert(reports(unresolved@) =~= reports(old(unresolved)@) + failures_in(path, outcomes));
            }
        }
        k += 1;
    }
    proof {
        assert(keys_of(includes@).take(k as int) =~= keys_of(includes@));
        assert(explains(
            refs_of(*file, parse_user_includes, parse_system_includes, pattern_of(*exclude_regex)),
            file.dir@,
            views(search_paths@),
            outcomes,
        ));
    }
}

/// Builds the graph of a tree from its files, which were read beforehand:
/// the files are scanned in order with `add_file_includes` into a graph that
/// starts out empty.
pub fn find_includes_in_tree(
    files: &Vec<SourceFile>,
    search_paths: &Vec<String>,
    parse_user_includes: bool,
    parse_system_includes: bool,
    exclude_regex: &Option<NameFilter>,
) -> (scan: TreeScan)
    ensures
        scan.graph.wf(),
        exists|parts: Seq<Seq<(NodeKey, bool)>>|
            {
                &&& parts.len() == files@.len()
                &&& forall|i: int|
                    0 <= i < files@.len() ==> explains(
                        refs_of(files@[i], parse_user_includes, parse_system_includes, pattern_of(*exclude_regex)),
                        files@[i].dir@,
                        views(search_paths@),
                        #[trigger] parts[i],
                    )
                &&& scan.graph.keys() == #[trigger] tree_keys(files@, parts)
                &&& scan.graph.edge_keys() == tree_edges(files@, parts)
                &&& reports(scan.unresolved@) == tree_failures(files@, parts)
            },
{
    let mut hash_graph = HashGraph::new();
    let mut unresolved: Vec<Unresolved> = Vec::new();
    let ghost parts: Seq<Seq<(NodeKey, bool)>> = Seq::empty();
    let ghost exclude = pattern_of(*exclude_regex);
    proof {
        assert(hash_graph.keys() =~= Seq::<NodeKey>::empty());
        assert(hash_graph.edge_keys() =~= Seq::<(NodeKey, NodeKey)>::empty());
        assert(reports(unresolved@) =~= Seq::<(Seq<char>, Seq<char>)>::empty());
    }
    let mut i: usize = 0;
    while i < files.len()
        invariant
            i <= files.len(),
            hash_graph.wf(),
            exclude == pattern_of(*exclude_regex),
            parts.len() == i,
            forall|j: int|
                0 <= j < i ==> explains(
                    refs_of(files@[j], parse_user_includes, parse_system_includes, exclude),
                    files@[j].dir@,
                    views(search_paths@),
                    #[trigger] parts[j],
                ),
            hash_graph.keys() == tree_keys(files@.take(i as int), parts),
            hash_graph.edge_keys() == tree_edges(files@.take(i as int), parts),
            reports(unresolved@) == tree_failures(files@.take(i as int), parts),
        decreases files.len() - i,
    {
        let ghost before = hash_graph;
        let ghost listed = unresolved@;
        add_file_includes(
            &mut hash_graph,
            &mut unresolved,
            &files[i],
            search_paths,
            parse_user_includes,
            parse_system_includes,
            exclude_regex,
        );
        proof {
            let file = files@[i as int];
            let outcomes = choose|outcomes: Seq<(NodeKey, bool)>|
                {
                    &&& #[trigger] explains(
                        refs_of(file, parse_user_includes, parse_system_includes, exclude),
                        file.dir@,
                        views(search_paths@),
                        outcomes,
                    )
                    &&& hash_graph.keys() == keys_after(
                        with_key(before.keys(), (file.path@, false)),
                        edges_to(file.path@, outcomes),
                    )
                    &&& hash_graph.edge_keys() == before.edge_keys() + edges_to(file.path@, outcomes)
                    &&& reports(unresolved@) == reports(listed) + failures_in(file.path@, outcomes)
                };
            let earlier = parts;
            parts = earlier.push(outcomes);
            assert(parts.drop_last() =~= earlier);
            assert(files@.take(i + 1).drop_last() =~= files@.take(i as int));
            assert(files@.take(i + 1).last() == file);
        }
        i += 1;
    }
    proof {
        assert(files@.take(i as int) =~= files@);
    }
    TreeScan { graph: hash_graph, unresolved }
}

} // verus!

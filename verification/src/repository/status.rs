//! Status: what differs between the last commit, the index and the working
//! directory.

use crate::error::XitError;
use crate::hexcode::is_address;
use crate::objects::commit::commit_written;
use crate::objects::read::{
    commit_tree, entry_plain, files_in_tree, get_commit_tree_hash, is_file_mode, joined,
    lemma_flatten_files_only, lemma_stored_commit_names_tree, lemma_stored_tree_round_trip,
    list_files_in_tree, listed_files, read_back, tree_at, MAX_TREE_DEPTH,
};
use crate::objects::store::{lemma_object_address, ObjectKind};
use crate::objects::tree::{
    lemma_sorted_already, names_ascend_strictly, tree_payload, TreeEntryView,
};
use crate::path_map::{
    among, ascending, lemma_among_all, lemma_among_step, lemma_map_of_entry, lemma_overlaid,
    map_of, PathMap, PathSet,
};
use crate::repository::add::{hash_content, index_or_empty, staged_address};
use crate::repository::commit::{
    commit_plan, committed, hashes_ok, index_entry, index_tree_written,
    lemma_commit_clears_staging, planned_commit_bytes, staged_tree_bytes,
};
use crate::repository::config::opt_text;
use crate::repository::refs::{head_commit, resolve_head};
use crate::repository::repo::{Repository, RepositoryView};
use crate::repository::utils::{
    free_or_same, hex_bytes, is_lower_hex, lemma_lower_hex_round_trip, survives_compression,
};
use crate::scan::{find_char, lemma_find_from_bounds};
use crate::text::{
    chars_of, lines, split_lines, starts_with, str_eq, string_of, text_lt, trim, trimmed, views,
};
use vstd::prelude::*;
use vstd::slice::slice_subrange;

verus! {

/// The three classifications of a repository's state.
pub struct StatusResult {
    /// What the next commit would change: from each path to `new file`,
    /// `modified` or `deleted`.
    pub staged: PathMap,
    /// What the working directory has changed since it was staged: from each
    /// path to `modified` or `deleted`.
    pub unstaged: PathMap,
    /// The files of the working directory that nothing tracks.
    pub untracked: PathSet,
}

impl StatusResult {
    /// Each classification is well formed.
    pub open spec fn wf(&self) -> bool {
        self.staged.wf() && self.unstaged.wf() && self.untracked.wf()
    }
}

/// The staged changes: every path whose staged address differs from the one
/// in the last commit or that only one of the two holds. A path that only the
/// index holds is a new file, one that only the last commit holds is
/// deleted, and one with two addresses is modified.
pub open spec fn staged_changes(
    index: Map<Seq<char>, Seq<char>>,
    head: Map<Seq<char>, Seq<char>>,
) -> Map<Seq<char>, Seq<char>> {
    Map::new(
        |p: Seq<char>|
            (index.contains_key(p) && (!head.contains_key(p) || head[p] != index[p])) || (
            head.contains_key(p) && !index.contains_key(p)),
        |p: Seq<char>|
            if !index.contains_key(p) {
                "deleted"@
            } else if !head.contains_key(p) {
                "new file"@
            } else {
                "modified"@
            },
    )
}

/// The unstaged changes: every staged path whose file is gone from the
/// working directory, which is deleted, or has another address there than
/// the staged one, which is modified.
pub open spec fn unstaged_changes(
    index: Map<Seq<char>, Seq<char>>,
    working: Map<Seq<char>, Seq<char>>,
) -> Map<Seq<char>, Seq<char>> {
    Map::new(
        |p: Seq<char>| index.contains_key(p) && (!working.contains_key(p) || working[p] != index[p]),
        |p: Seq<char>|
            if !working.contains_key(p) {
                "deleted"@
            } else {
                "modified"@
            },
    )
}

/// The part of `path` from `a` to `b` is one of its segments: it lies
/// between slashes or the ends of the path and holds no slash.
pub open spec fn is_segment(path: Seq<char>, a: int, b: int) -> bool {
    &&& 0 <= a <= b <= path.len()
    &&& a == 0 || path[a - 1] == '/'
    &&& b == path.len() || path[b] == '/'
    &&& forall|k: int| a <= k < b ==> path[k] != '/'
}

/// A path is ignored where one of its segments is a pattern.
pub open spec fn is_ignored_path(path: Seq<char>, patterns: Set<Seq<char>>) -> bool {
    exists|a: int, b: int| #[trigger]
        is_segment(path, a, b) && patterns.contains(path.subrange(a, b))
}

/// The untracked files: every file of the working directory that is not
/// ignored, not staged, and not among the staged changes.
pub open spec fn untracked_files(
    index: Map<Seq<char>, Seq<char>>,
    staged: Map<Seq<char>, Seq<char>>,
    working: Map<Seq<char>, Seq<char>>,
    patterns: Set<Seq<char>>,
) -> Set<Seq<char>> {
    Set::new(
        |p: Seq<char>|
            working.contains_key(p) && !is_ignored_path(p, patterns) && !index.contains_key(p)
                && !staged.contains_key(p),
    )
}

/// A file never shows as untracked where a segment of its path is one of the
/// patterns, whatever the index and the working directory hold.
pub proof fn lemma_ignored_never_untracked(
    index: Map<Seq<char>, Seq<char>>,
    staged: Map<Seq<char>, Seq<char>>,
    working: Map<Seq<char>, Seq<char>>,
    patterns: Set<Seq<char>>,
    path: Seq<char>,
    a: int,
    b: int,
)
    requires
        is_segment(path, a, b),
        patterns.contains(path.subrange(a, b)),
    ensures
        !untracked_files(index, staged, working, patterns).contains(path),
{
    assert(is_ignored_path(path, patterns));
}

/// Whether a segment of `path` is one of the patterns.
pub fn is_ignored(path: &str, patterns: &PathSet) -> (b: bool)
    requires
        patterns.wf(),
    ensures
        b == is_ignored_path(path@, patterns@),
{
    let chars = chars_of(path);
    let mut start: usize = 0;
    loop
        invariant
            start <= chars.len(),
            chars@ == path@,
            patterns.wf(),
            start == 0 || chars[start - 1] == '/',
            forall|a: int, b: int|
                a < start && #[trigger] is_segment(path@, a, b) ==> !patterns@.contains(
                    path@.subrange(a, b),
                ),
        decreases chars.len() - start,
    {
        let end: usize = find_char(chars.as_slice(), start, '/');
        proof {
            lemma_find_from_bounds(chars@, start as int, '/');
            assert(is_segment(path@, start as int, end as int));
        }
        let segment = string_of(slice_subrange(chars.as_slice(), start, end));
        if patterns.contains(segment.as_str()) {
            return true;
        }
        proof {
            assert forall|a: int, b: int| a < end + 1 && #[trigger] is_segment(path@, a, b) implies
                !patterns@.contains(path@.subrange(a, b)) by {
                if a >= start {
                    if a > start {
                        assert(path@[a - 1] == '/');
                    }
                    if b < end {
                        assert(path@[b] == '/');
                    }
                    if b > end {
                        assert(path@[end as int] == '/');
                    }
                    assert(a == start && b == end);
                }
            }
        }
        if end >= chars.len() {
            proof {
                assert forall|a: int, b: int| #[trigger] is_segment(path@, a, b) implies
                    !patterns@.contains(path@.subrange(a, b)) by {
                    assert(a < end + 1);
                }
            }
            return false;
        }
        start = end + 1;
    }
}

/// The segments that a path below a root may not have: the empty one, and
/// the two that name a directory itself and the one above it.
pub open spec fn climbing_segments() -> Set<Seq<char>> {
    set![""@, "."@, ".."@]
}

/// Whether the path stays below the root it is joined to: none of its
/// segments is empty, `.` or `..`.
pub fn is_plain_path(path: &str) -> (b: bool)
    ensures
        b == !is_ignored_path(path@, climbing_segments()),
{
    let mut climbing = PathSet::new();
    climbing.insert("".to_owned());
    climbing.insert(".".to_owned());
    climbing.insert("..".to_owned());
    proof {
        assert(climbing@ =~= climbing_segments());
    }
    !is_ignored(path, &climbing)
}

/// A file of the working directory matters to the status where it is staged
/// or is not ignored: a file that is ignored and not staged shows in none of
/// the classifications.
pub open spec fn file_matters(
    index: Map<Seq<char>, Seq<char>>,
    patterns: Set<Seq<char>>,
    path: Seq<char>,
) -> bool {
    index.contains_key(path) || !is_ignored_path(path, patterns)
}

/// Whether the file at `path` matters to the status: whether it is staged,
/// under its path relative to the root, or is not ignored.
pub fn working_file_matters(index: &PathMap, patterns: &PathSet, path: &str) -> (b: bool)
    requires
        index.wf(),
        patterns.wf(),
    ensures
        b == file_matters(index@, patterns@, relative_path(path@)),
{
    let relative = path_to_string(path);
    index.contains_key(relative.as_str()) || !is_ignored(relative.as_str(), patterns)
}

/// Only the files that matter count: two working directories that hold the
/// same files that matter, with the same addresses, have the same unstaged
/// changes and the same untracked files.
pub proof fn lemma_only_files_that_matter(
    index: Map<Seq<char>, Seq<char>>,
    staged: Map<Seq<char>, Seq<char>>,
    working: Map<Seq<char>, Seq<char>>,
    other: Map<Seq<char>, Seq<char>>,
    patterns: Set<Seq<char>>,
)
    requires
        forall|p: Seq<char>| #[trigger]
            file_matters(index, patterns, p) ==> {
                &&& working.contains_key(p) == other.contains_key(p)
                &&& working.contains_key(p) ==> working[p] == other[p]
            },
    ensures
        unstaged_changes(index, working) == unstaged_changes(index, other),
        untracked_files(index, staged, working, patterns) == untracked_files(
            index,
            staged,
            other,
            patterns,
        ),
{
    assert forall|p: Seq<char>| index.contains_key(p) implies (working.contains_key(p)
        == other.contains_key(p) && (working.contains_key(p) ==> working[p] == other[p])) by {
        assert(file_matters(index, patterns, p));
    }
    assert(unstaged_changes(index, working) =~= unstaged_changes(index, other));
    assert forall|p: Seq<char>|
        untracked_files(index, staged, working, patterns).contains(p) == untracked_files(
            index,
            staged,
            other,
            patterns,
        ).contains(p) by {
        if !is_ignored_path(p, patterns) {
            assert(file_matters(index, patterns, p));
        }
    }
    assert(untracked_files(index, staged, working, patterns) =~= untracked_files(
        index,
        staged,
        other,
        patterns,
    ));
}

/// The names that are ignored whatever the user asks for: the metadata root
/// and the directory of build output.
pub open spec fn implicit_patterns() -> Set<Seq<char>> {
    set![".xit"@, "target"@]
}

/// The patterns after the given lines of an ignore file were read. A line
/// adds what it holds between white space, unless that is nothing or the
/// line begins with `#`.
pub open spec fn patterns_of_lines(all: Seq<Seq<char>>) -> Set<Seq<char>>
    decreases all.len(),
{
    if all.len() == 0 {
        implicit_patterns()
    } else {
        let earlier = patterns_of_lines(all.drop_last());
        let line = all.last();
        if trimmed(line).len() > 0 && !(line.len() > 0 && line[0] == '#') {
            earlier.insert(trimmed(line))
        } else {
            earlier
        }
    }
}

/// The patterns that the text of an ignore file gives, together with the
/// names that are always ignored. No file gives only those.
pub open spec fn ignore_patterns(text: Option<Seq<char>>) -> Set<Seq<char>> {
    match text {
        Some(t) => patterns_of_lines(lines(t)),
        None => implicit_patterns(),
    }
}

/// The patterns to ignore: `.xit` and `target`, and one for each line of the
/// ignore file that is neither empty nor a comment.
pub fn read_ignore_file(text: Option<&str>) -> (patterns: PathSet)
    ensures
        patterns.wf(),
        patterns@ == ignore_patterns(opt_text(text)),
{
    let mut patterns = PathSet::new();
    patterns.insert(".xit".to_owned());
    patterns.insert("target".to_owned());
    proof {
        assert(patterns@ =~= implicit_patterns());
    }
    let text = match text {
        Some(t) => t,
        None => {
            return patterns;
        },
    };
    let chars = chars_of(text);
    let all = split_lines(chars.as_slice());
    let mut i: usize = 0;
    proof {
        assert(views(all@).take(0) =~= Seq::<Seq<char>>::empty());
    }
    while i < all.len()
        invariant
            i <= all.len(),
            patterns.wf(),
            patterns@ == patterns_of_lines(views(all@).take(i as int)),
        decreases all.len() - i,
    {
        proof {
            assert(views(all@).take(i + 1).drop_last() =~= views(all@).take(i as int));
            assert(views(all@).take(i + 1).last() == all@[i as int]@);
        }
        let line = all[i].as_slice();
        let kept = trim(line);
        if kept.len() > 0 && !(line.len() > 0 && line[0] == '#') {
            patterns.insert(string_of(kept));
        }
        i += 1;
    }
    proof {
        assert(views(all@).take(i as int) =~= views(all@));
    }
    patterns
}

/// A path as the index names it: without `./` at its start.
pub open spec fn relative_path(path: Seq<char>) -> Seq<char> {
    if seq!['.', '/'].is_prefix_of(path) {
        path.skip(2)
    } else {
        path
    }
}

/// The path relative to the root of the repository: a `./` at the start is
/// left out.
pub fn path_to_string(path: &str) -> (relative: String)
    ensures
        relative@ == relative_path(path@),
{
    let chars = chars_of(path);
    let here: [char; 2] = ['.', '/'];
    proof {
        assert(here@ =~= seq!['.', '/']);
    }
    if starts_with(chars.as_slice(), here.as_slice()) {
        let rest = slice_subrange(chars.as_slice(), 2, chars.len());
        proof {
            assert(rest@ =~= path@.skip(2));
        }
        string_of(rest)
    } else {
        path.to_owned()
    }
}

/// Notes a file of the working directory: its path, relative to the root,
/// with the address under which its content would be staged.
pub fn record_working_file(working: &mut PathMap, path: &str, content: &[u8])
    requires
        old(working).wf(),
    ensures
        final(working).wf(),
        final(working)@ == old(working)@.insert(relative_path(path@), staged_address(content@)),
{
    working.insert(path_to_string(path), hash_content(content));
}

/// A file that was staged and stands unchanged in the working directory is
/// no unstaged change and is not untracked, whatever way its path was
/// written when it was staged and when it was found.
pub proof fn lemma_staged_file_is_clean(
    repo: RepositoryView,
    staged_as: Seq<char>,
    found_as: Seq<char>,
    content: Seq<u8>,
    working: Map<Seq<char>, Seq<char>>,
    patterns: Set<Seq<char>>,
)
    requires
        relative_path(staged_as) == relative_path(found_as),
        crate::repository::add::staged(repo, staged_as, content).0 is Ok,
    ensures
        ({
            let index = index_or_empty(
                crate::repository::add::staged(repo, staged_as, content).1.index,
            );
            let files = working.insert(relative_path(found_as), staged_address(content));
            &&& index.contains_key(relative_path(found_as))
            &&& !unstaged_changes(index, files).contains_key(relative_path(found_as))
            &&& forall|changes: Map<Seq<char>, Seq<char>>|
                !(#[trigger] untracked_files(index, changes, files, patterns)).contains(
                    relative_path(found_as),
                )
        }),
{
}

/// The staged entries: those of the index, or none where there is no index.
pub fn get_index_entries(repo: &Repository) -> (index: PathMap)
    requires
        repo.wf(),
    ensures
        index.wf(),
        index@ == index_or_empty(repo@.index),
{
    match &repo.index {
        Some(index) => index.copy(),
        None => PathMap::new(),
    }
}

/// The files of the last commit: those under the tree of the commit that
/// `HEAD` resolves to, or none where nothing was committed yet.
pub open spec fn head_files(repo: RepositoryView) -> Result<Map<Seq<char>, Seq<char>>, XitError> {
    match head_commit(repo.refs) {
        Err(e) => Err(e),
        Ok(None) => Ok(Map::empty()),
        Ok(Some(commit)) => match commit_tree(repo.objects, commit) {
            Err(e) => Err(e),
            Ok(tree) => files_in_tree(repo.objects, tree),
        },
    }
}

/// Staged entries that read back from a tree as they are: every address is
/// forty lower-case hexadecimal digits, and no path holds a NUL.
pub open spec fn staged_plain(staged: Seq<(Seq<char>, Seq<char>)>) -> bool {
    forall|i: int|
        0 <= i < staged.len() ==> {
            &&& is_address((#[trigger] staged[i]).1)
            &&& is_lower_hex(staged[i].1)
            &&& !staged[i].0.contains('\0')
        }
}

/// The last commit holds what was staged: after a commit that succeeded, the
/// files of the last commit are the entries that the index held.
///
/// This holds for an index of plain entries, wherever the encoded bytes of
/// the tree and of the commit survive compression, and the store did not
/// already hold other bytes under their addresses.
pub proof fn lemma_head_lists_what_was_committed(
    repo: RepositoryView,
    staged: Seq<(Seq<char>, Seq<char>)>,
    message: Seq<char>,
    global: Option<Seq<char>>,
)
    requires
        ascending(staged),
        staged_plain(staged),
        committed(repo, staged, message, global).0 matches Ok(Some(_)),
        survives_compression(staged_tree_bytes(staged)),
        free_or_same(
            repo.objects,
            index_tree_written(repo.objects, staged).0->Ok_0,
            staged_tree_bytes(staged),
        ),
        survives_compression(planned_commit_bytes(repo, staged, message, global)),
        free_or_same(
            index_tree_written(repo.objects, staged).1,
            committed(repo, staged, message, global).0->Ok_0->0,
            planned_commit_bytes(repo, staged, message, global),
        ),
    ensures
        head_files(committed(repo, staged, message, global).1) == Ok::<
            _,
            XitError,
        >(map_of(staged)),
{
    let plan = commit_plan(repo, message, global)->Ok_0->0;
    let entries = staged.map_values(|e: (Seq<char>, Seq<char>)| index_entry(e));
    let (tree, with_tree) = index_tree_written(repo.objects, staged);
    let tree_address = tree->Ok_0;
    let (commit, with_commit) = commit_written(
        with_tree,
        tree_address,
        plan.parent,
        plan.author,
        plan.author,
        message,
    );
    let address = commit->Ok_0;
    let after = committed(repo, staged, message, global).1;

    // the tree holds the staged entries as they stand in the index
    assert(names_ascend_strictly(entries)) by {
        assert forall|a: int, b: int| 0 <= a < b < entries.len() implies text_lt(
            #[trigger] entries[a].name,
            #[trigger] entries[b].name,
        ) by {
            assert(entries[a].name == staged[a].0 && entries[b].name == staged[b].0);
        }
    }
    lemma_sorted_already(entries);
    lemma_staged_entries_plain(staged);
    assert forall|i: int| 0 <= i < entries.len() implies entry_plain(#[trigger] entries[i]) by {
        assert(entries[i] == index_entry(staged[i]));
    }
    let payload = tree_payload(entries);
    lemma_object_address(ObjectKind::Tree, payload);
    lemma_stored_tree_round_trip(repo.objects, entries);
    let read = entries.map_values(|e: TreeEntryView| read_back(e));
    assert(tree_at(with_tree, tree_address) == Ok::<_, XitError>(read));

    // the commit names the tree, and storing it leaves the tree in place
    lemma_stored_commit_names_tree(
        with_tree,
        tree_address,
        plan.parent,
        plan.author,
        plan.author,
        message,
    );
    assert(with_tree.contains_key(tree_address));
    assert(with_commit[tree_address] == with_tree[tree_address]);
    assert(tree_at(with_commit, tree_address) == Ok::<_, XitError>(read));

    // HEAD resolves to the commit
    lemma_commit_clears_staging(repo, staged, message, global);
    assert(after.objects == with_commit);

    // the tree flattens to the staged entries
    assert forall|i: int| 0 <= i < read.len() implies (#[trigger] read[i]).kind
        == ObjectKind::Blob by {
        assert(entries[i] == index_entry(staged[i]));
    }
    lemma_flatten_files_only(
        with_commit,
        read,
        0,
        Seq::empty(),
        Map::empty(),
        MAX_TREE_DEPTH as nat,
    );
    let listed = listed_files(read, Seq::empty());
    assert(listed =~= staged) by {
        assert forall|i: int| 0 <= i < staged.len() implies listed[i] == staged[i] by {
            assert(read[i] == read_back(entries[i]));
            assert(entries[i] == index_entry(staged[i]));
            lemma_lower_hex_round_trip(staged[i].1);
            assert(joined(Seq::empty(), staged[i].0) == staged[i].0);
        }
    }
    assert(staged.take(0) =~= Seq::<(Seq<char>, Seq<char>)>::empty());
    assert(map_of(staged.take(0)) =~= Map::<Seq<char>, Seq<char>>::empty());
    lemma_overlaid(Map::empty(), staged, 0);
}

/// The tree entries of plain staged entries are plain and are files.
proof fn lemma_staged_entries_plain(staged: Seq<(Seq<char>, Seq<char>)>)
    requires
        staged_plain(staged),
    ensures
        hashes_ok(staged),
        forall|i: int|
            0 <= i < staged.len() ==> {
                &&& entry_plain(index_entry(#[trigger] staged[i]))
                &&& read_back(index_entry(staged[i])).kind == ObjectKind::Blob
            },
{
    reveal_strlit("100644");
    let mode = "100644"@;
    assert(mode.len() == 6);
    assert(mode[0] == '1' && mode[1] == '0' && mode[2] == '0');
    assert(!mode.contains(' '));
    assert(vstd::utf8::is_ascii_chars(mode));
    vstd::utf8::is_ascii_chars_encode_utf8(mode);
    let bytes = vstd::utf8::encode_utf8(mode);
    assert(bytes[0] == mode[0] as u8 && bytes[1] == mode[1] as u8 && bytes[2] == mode[2] as u8);
    assert(is_file_mode(bytes));
    assert forall|i: int| 0 <= i < staged.len() implies hex_bytes(
        #[trigger] staged[i].1,
    ) is Some by {
        assert(is_address(staged[i].1));
    }
    assert forall|i: int| 0 <= i < staged.len() implies {
        &&& entry_plain(index_entry(#[trigger] staged[i]))
        &&& read_back(index_entry(staged[i])).kind == ObjectKind::Blob
    } by {
        assert(is_address(staged[i].1));
        assert(hex_bytes(staged[i].1)->0.len() == 20);
    }
}

/// The files of the last commit, from each path to the address of its blob;
/// none where nothing was committed yet.
///
/// Fails where `HEAD` cannot be resolved, where the commit cannot be read or
/// names no tree, and where the tree or one below it cannot be read.
pub fn get_head_tree_entries(repo: &Repository) -> (r: Result<PathMap, XitError>)
    requires
        repo.wf(),
    ensures
        match r {
            Ok(files) => files.wf() && head_files(repo@) == Ok::<_, XitError>(files@),
            Err(e) => head_files(repo@) == Err::<Map<Seq<char>, Seq<char>>, _>(e),
        },
{
    let commit = match resolve_head(&repo.refs) {
        Err(e) => {
            return Err(e);
        },
        Ok(None) => {
            return Ok(PathMap::new());
        },
        Ok(Some(commit)) => commit,
    };
    let tree = match get_commit_tree_hash(&repo.objects, commit.as_str()) {
        Err(e) => {
            return Err(e);
        },
        Ok(tree) => tree,
    };
    list_files_in_tree(&repo.objects, tree.as_str())
}

/// The staged changes between the last commit and the index.
pub fn get_staged_changes(index_entries: &PathMap, head_tree_entries: &PathMap) -> (staged: PathMap)
    requires
        index_entries.wf(),
        head_tree_entries.wf(),
    ensures
        staged.wf(),
        staged@ == staged_changes(index_entries@, head_tree_entries@),
{
    let ghost index = index_entries@;
    let ghost head = head_tree_entries@;
    let ghost wanted = staged_changes(index, head);
    let mut staged = PathMap::new();
    let mut i: usize = 0;
    proof {
        assert forall|p: Seq<char>| !among(index_entries.entries(), 0, p) by {
            lemma_among_all(index_entries.entries(), p);
        }
    }
    while i < index_entries.len()
        invariant
            i <= index_entries.entries().len(),
            index_entries.wf(),
            head_tree_entries.wf(),
            staged.wf(),
            index == index_entries@,
            head == head_tree_entries@,
            wanted == staged_changes(index, head),
            forall|p: Seq<char>|
                #![trigger among(index_entries.entries(), i as int, p)]
                #![trigger staged@.contains_key(p)]
                staged@.contains_key(p) <==> (among(index_entries.entries(), i as int, p)
                    && wanted.contains_key(p)),
            forall|p: Seq<char>|
                staged@.contains_key(p) ==> wanted.contains_key(p) && staged@[p] == wanted[p],
        decreases index_entries.entries().len() - i,
    {
        let path = index_entries.key_at(i);
        let hash = index_entries.value_at(i);
        let ghost before = staged@;
        proof {
            lemma_map_of_entry(index_entries.entries(), i as int);
        }
        match head_tree_entries.get(path) {
            Some(committed) => {
                if !str_eq(committed, hash) {
                    staged.insert(path.to_owned(), "modified".to_owned());
                }
            },
            None => {
                staged.insert(path.to_owned(), "new file".to_owned());
            },
        }
        proof {
            assert forall|p: Seq<char>|
                #![trigger among(index_entries.entries(), i + 1, p)]
                #![trigger staged@.contains_key(p)]
                staged@.contains_key(p) <==> (among(index_entries.entries(), i + 1, p)
                    && wanted.contains_key(p)) by {
                lemma_among_step(index_entries.entries(), i as int, p);
                assert(before.contains_key(p) <==> (among(index_entries.entries(), i as int, p)
                    && wanted.contains_key(p)));
            }
            assert forall|p: Seq<char>| staged@.contains_key(p) implies wanted.contains_key(p)
                && staged@[p] == wanted[p] by {
                if p != path@ {
                    assert(before.contains_key(p));
                }
            }
        }
        i += 1;
    }
    let mut j: usize = 0;
    proof {
        assert forall|p: Seq<char>| !among(head_tree_entries.entries(), 0, p) by {
            lemma_among_all(head_tree_entries.entries(), p);
        }
        assert forall|p: Seq<char>|
            among(index_entries.entries(), i as int, p) <==> index.contains_key(p) by {
            lemma_among_all(index_entries.entries(), p);
        }
    }
    while j < head_tree_entries.len()
        invariant
            j <= head_tree_entries.entries().len(),
            index_entries.wf(),
            head_tree_entries.wf(),
            staged.wf(),
            index == index_entries@,
            head == head_tree_entries@,
            wanted == staged_changes(index, head),
            forall|p: Seq<char>|
                #![trigger among(head_tree_entries.entries(), j as int, p)]
                #![trigger staged@.contains_key(p)]
                staged@.contains_key(p) <==> (wanted.contains_key(p) && (index.contains_key(p)
                    || among(head_tree_entries.entries(), j as int, p))),
            forall|p: Seq<char>|
                staged@.contains_key(p) ==> wanted.contains_key(p) && staged@[p] == wanted[p],
        decreases head_tree_entries.entries().len() - j,
    {
        let path = head_tree_entries.key_at(j);
        let ghost before = staged@;
        proof {
            lemma_map_of_entry(head_tree_entries.entries(), j as int);
        }
        if !index_entries.contains_key(path) {
            staged.insert(path.to_owned(), "deleted".to_owned());
        }
        j += 1;
        proof {
            assert forall|p: Seq<char>|
                #![trigger among(head_tree_entries.entries(), j as int, p)]
                #![trigger staged@.contains_key(p)]
                staged@.contains_key(p) <==> (wanted.contains_key(p) && (index.contains_key(p)
                    || among(head_tree_entries.entries(), j as int, p))) by {
                lemma_among_step(head_tree_entries.entries(), j - 1, p);
                assert(before.contains_key(p) <==> (wanted.contains_key(p) && (index.contains_key(p)
                    || among(head_tree_entries.entries(), j - 1, p))));
            }
            assert forall|p: Seq<char>| staged@.contains_key(p) implies wanted.contains_key(p)
                && staged@[p] == wanted[p] by {
                if p != path@ {
                    assert(before.contains_key(p));
                }
            }
        }
    }
    proof {
        assert forall|p: Seq<char>| staged@.contains_key(p) <==> wanted.contains_key(p) by {
            lemma_among_all(head_tree_entries.entries(), p);
            assert(staged@.contains_key(p) <==> (wanted.contains_key(p) && (index.contains_key(p)
                || among(head_tree_entries.entries(), j as int, p))));
        }
        assert(staged@ =~= wanted);
    }
    staged
}

/// The unstaged changes between the index and the working directory, and the
/// files of the working directory that are neither ignored nor staged.
/// `working` holds, for each file, the address under which its content would
/// be staged.
pub fn get_unstaged_and_untracked(
    index_entries: &PathMap,
    ignore_patterns: &PathSet,
    working: &PathMap,
) -> (r: (PathMap, PathSet))
    requires
        index_entries.wf(),
        ignore_patterns.wf(),
        working.wf(),
    ensures
        r.0.wf(),
        r.1.wf(),
        r.0@ == unstaged_changes(index_entries@, working@),
        r.1@ == untracked_files(
            index_entries@,
            Map::<Seq<char>, Seq<char>>::empty(),
            working@,
            ignore_patterns@,
        ),
{
    let ghost index = index_entries@;
    let ghost files = working@;
    let ghost wanted = unstaged_changes(index, files);
    let ghost loose = untracked_files(
        index,
        Map::<Seq<char>, Seq<char>>::empty(),
        files,
        ignore_patterns@,
    );
    let mut unstaged = PathMap::new();
    let mut i: usize = 0;
    proof {
        assert forall|p: Seq<char>| !among(index_entries.entries(), 0, p) by {
            lemma_among_all(index_entries.entries(), p);
        }
    }
    while i < index_entries.len()
        invariant
            i <= index_entries.entries().len(),
            index_entries.wf(),
            working.wf(),
            unstaged.wf(),
            index == index_entries@,
            files == working@,
            wanted == unstaged_changes(index, files),
            forall|p: Seq<char>|
                #![trigger among(index_entries.entries(), i as int, p)]
                #![trigger unstaged@.contains_key(p)]
                unstaged@.contains_key(p) <==> (among(index_entries.entries(), i as int, p)
                    && wanted.contains_key(p)),
            forall|p: Seq<char>|
                unstaged@.contains_key(p) ==> wanted.contains_key(p) && unstaged@[p] == wanted[p],
        decreases index_entries.entries().len() - i,
    {
        let path = index_entries.key_at(i);
        let hash = index_entries.value_at(i);
        let ghost before = unstaged@;
        proof {
            lemma_map_of_entry(index_entries.entries(), i as int);
        }
        match working.get(path) {
            Some(current) => {
                if !str_eq(current, hash) {
                    unstaged.insert(path.to_owned(), "modified".to_owned());
                }
            },
            None => {
                unstaged.insert(path.to_owned(), "deleted".to_owned());
            },
        }
        proof {
            assert forall|p: Seq<char>|
                #![trigger among(index_entries.entries(), i + 1, p)]
                #![trigger unstaged@.contains_key(p)]
                unstaged@.contains_key(p) <==> (among(index_entries.entries(), i + 1, p)
                    && wanted.contains_key(p)) by {
                lemma_among_step(index_entries.entries(), i as int, p);
                assert(before.contains_key(p) <==> (among(index_entries.entries(), i as int, p)
                    && wanted.contains_key(p)));
            }
            assert forall|p: Seq<char>| unstaged@.contains_key(p) implies wanted.contains_key(p)
                && unstaged@[p] == wanted[p] by {
                if p != path@ {
                    assert(before.contains_key(p));
                }
            }
        }
        i += 1;
    }
    proof {
        assert forall|p: Seq<char>| unstaged@.contains_key(p) <==> wanted.contains_key(p) by {
            lemma_among_all(index_entries.entries(), p);
            assert(unstaged@.contains_key(p) <==> (among(index_entries.entries(), i as int, p)
                && wanted.contains_key(p)));
        }
        assert(unstaged@ =~= wanted);
    }
    let mut untracked = PathSet::new();
    let mut j: usize = 0;
    proof {
        assert forall|p: Seq<char>| !among(working.entries(), 0, p) by {
            lemma_among_all(working.entries(), p);
        }
    }
    while j < working.len()
        invariant
            j <= working.entries().len(),
            index_entries.wf(),
            ignore_patterns.wf(),
            working.wf(),
            untracked.wf(),
            index == index_entries@,
            files == working@,
            loose == untracked_files(
                index,
                Map::<Seq<char>, Seq<char>>::empty(),
                files,
                ignore_patterns@,
            ),
            forall|p: Seq<char>|
                #![trigger among(working.entries(), j as int, p)]
                #![trigger untracked@.contains(p)]
                untracked@.contains(p) <==> (among(working.entries(), j as int, p)
                    && loose.contains(p)),
        decreases working.entries().len() - j,
    {
        let path = working.key_at(j);
        let ghost before = untracked@;
        proof {
            lemma_map_of_entry(working.entries(), j as int);
        }
        if !is_ignored(path, ignore_patterns) && !index_entries.contains_key(path) {
            untracked.insert(path.to_owned());
        }
        proof {
            assert forall|p: Seq<char>|
                #![trigger among(working.entries(), j + 1, p)]
                #![trigger untracked@.contains(p)]
                untracked@.contains(p) <==> (among(working.entries(), j + 1, p)
                    && loose.contains(p)) by {
                lemma_among_step(working.entries(), j as int, p);
                assert(before.contains(p) <==> (among(working.entries(), j as int, p)
                    && loose.contains(p)));
            }
        }
        j += 1;
    }
    proof {
        assert forall|p: Seq<char>| untracked@.contains(p) <==> loose.contains(p) by {
            lemma_among_all(working.entries(), p);
            assert(untracked@.contains(p) <==> (among(working.entries(), j as int, p)
                && loose.contains(p)));
        }
        assert(untracked@ =~= loose);
    }
    (unstaged, untracked)
}

/// The status of a repository against the files of its working directory.
///
/// `working` holds, for each file of the working directory, the address
/// under which its content would be staged; `ignore_text` is the text of the
/// ignore file, where there is one. The result classifies the staged
/// changes, the unstaged changes, and the untracked files, which are the
/// files that are neither ignored, nor staged, nor among the staged changes.
/// Every classification is held in ascending byte-wise order of the paths.
///
/// Fails as `get_head_tree_entries` does.
pub fn check_status(repo: &Repository, working: &PathMap, ignore_text: Option<&str>) -> (r: Result<
    StatusResult,
    XitError,
>)
    requires
        repo.wf(),
        working.wf(),
    ensures
        match r {
            Ok(status) => {
                let index = index_or_empty(repo@.index);
                &&& status.wf()
                &&& head_files(repo@) is Ok
                &&& status.staged@ == staged_changes(index, head_files(repo@)->Ok_0)
                &&& status.unstaged@ == unstaged_changes(index, working@)
                &&& status.untracked@ == untracked_files(
                    index,
                    status.staged@,
                    working@,
                    ignore_patterns(opt_text(ignore_text)),
                )
            },
            Err(e) => head_files(repo@) == Err::<Map<Seq<char>, Seq<char>>, _>(e),
        },
{
    let index_entries = get_index_entries(repo);
    let head_tree_entries = match get_head_tree_entries(repo) {
        Ok(files) => files,
        Err(e) => {
            return Err(e);
        },
    };
    let patterns = read_ignore_file(ignore_text);
    let (unstaged, mut untracked) = get_unstaged_and_untracked(&index_entries, &patterns, working);
    let staged = get_staged_changes(&index_entries, &head_tree_entries);
    let ghost raw = untracked@;
    let mut i: usize = 0;
    proof {
        assert forall|p: Seq<char>| !among(staged.entries(), 0, p) by {
            lemma_among_all(staged.entries(), p);
        }
    }
    while i < staged.len()
        invariant
            i <= staged.entries().len(),
            staged.wf(),
            untracked.wf(),
            forall|p: Seq<char>|
                #![trigger among(staged.entries(), i as int, p)]
                #![trigger untracked@.contains(p)]
                untracked@.contains(p) <==> (raw.contains(p) && !among(
                    staged.entries(),
                    i as int,
                    p,
                )),
        decreases staged.entries().len() - i,
    {
        let ghost before = untracked@;
        untracked.remove(staged.key_at(i));
        i += 1;
        proof {
            assert forall|p: Seq<char>|
                #![trigger among(staged.entries(), i as int, p)]
                #![trigger untracked@.contains(p)]
                untracked@.contains(p) <==> (raw.contains(p) && !among(
                    staged.entries(),
                    i as int,
                    p,
                )) by {
                lemma_among_step(staged.entries(), i - 1, p);
                assert(before.contains(p) <==> (raw.contains(p) && !among(
                    staged.entries(),
                    i - 1,
                    p,
                )));
            }
        }
    }
    proof {
        let wanted = untracked_files(
            index_entries@,
            staged@,
            working@,
            ignore_patterns(opt_text(ignore_text)),
        );
        assert forall|p: Seq<char>| untracked@.contains(p) <==> wanted.contains(p) by {
            lemma_among_all(staged.entries(), p);
            assert(untracked@.contains(p) <==> (raw.contains(p) && !among(
                staged.entries(),
                i as int,
                p,
            )));
        }
        assert(untracked@ =~= wanted);
    }
    Ok(StatusResult { staged, unstaged, untracked })
}

} // verus!

//! Reference pointers: files that hold the address of a commit, one line
//! each, under the names of branches and tags.
//!
//! The references of a repository are a map from the path of each pointer
//! file, relative to the metadata root, to its content.

use crate::error::XitError;
use crate::hexcode::{hex_value, is_address, is_address_text};
use crate::path_map::{has_key, PathMap};
use crate::scan::{find_char, lemma_find_from_bounds};
use crate::text::{
    chars_of, is_space, push_char, starts_with, str_eq, string_of, text_lt, trim, trimmed,
    trimmed_end, trimmed_start,
};
use vstd::prelude::*;
use vstd::slice::slice_subrange;
use vstd::string::StringExecFns;

verus! {

/// The content of a pointer file: the address and a line feed.
pub open spec fn pointer_line(address: Seq<char>) -> Seq<char> {
    address + seq!['\n']
}

/// What pointing the reference at `path` to `address` comes to: the result,
/// and the references afterwards. Where the path is empty or the address is
/// not forty hexadecimal digits, the result is `InputValidation` and the
/// references are as they were; otherwise the file at the path holds the
/// address and a line feed.
pub open spec fn pointed(
    refs: Map<Seq<char>, Seq<char>>,
    path: Seq<char>,
    address: Seq<char>,
) -> (Result<(), XitError>, Map<Seq<char>, Seq<char>>) {
    if path.len() == 0 || !is_address(address) {
        (Err(XitError::InputValidation), refs)
    } else {
        (Ok(()), refs.insert(path, pointer_line(address)))
    }
}

/// Points the reference at `ref_path` to `commit_hash`: its file then holds
/// the address and a line feed, whatever it held before.
///
/// Fails with `InputValidation`, and changes nothing, where the path is
/// empty or the address is not forty hexadecimal digits.
pub fn update_reference(refs: &mut PathMap, ref_path: &str, commit_hash: &str) -> (r: Result<
    (),
    XitError,
>)
    requires
        old(refs).wf(),
    ensures
        final(refs).wf(),
        (r, final(refs)@) == pointed(old(refs)@, ref_path@, commit_hash@),
{
    if ref_path.is_empty() {
        return Err(XitError::InputValidation);
    }
    let hash = chars_of(commit_hash);
    if !is_address_text(hash.as_slice()) {
        return Err(XitError::InputValidation);
    }
    let mut line = commit_hash.to_owned();
    push_char(&mut line, '\n');
    proof {
        assert(line@ =~= pointer_line(commit_hash@));
    }
    refs.insert(ref_path.to_owned(), line);
    Ok(())
}

/// The path of the pointer that names what is checked out.
pub open spec fn head_path() -> Seq<char> {
    "HEAD"@
}

/// Points `HEAD` itself at `commit_hash`.
///
/// Fails with `InputValidation`, and changes nothing, where the address is
/// not forty hexadecimal digits.
pub fn update_head(refs: &mut PathMap, commit_hash: &str) -> (r: Result<(), XitError>)
    requires
        old(refs).wf(),
    ensures
        final(refs).wf(),
        (r, final(refs)@) == pointed(old(refs)@, head_path(), commit_hash@),
{
    proof {
        reveal_strlit("HEAD");
    }
    update_reference(refs, "HEAD", commit_hash)
}

/// The characters that the name of a branch or a tag may not hold.
pub open spec fn is_forbidden(c: char) -> bool {
    c == '/' || c == '\\' || c == ':' || c == '*' || c == '?' || c == '"' || c == '<' || c == '>'
        || c == '|' || c == ' '
}

/// A name that is not empty and holds no forbidden character.
pub open spec fn name_ok(name: Seq<char>) -> bool {
    name.len() > 0 && forall|i: int| 0 <= i < name.len() ==> !is_forbidden(#[trigger] name[i])
}

/// The names that no branch may have.
pub open spec fn is_reserved(name: Seq<char>) -> bool {
    name == "HEAD"@ || name == "ORIGIN_HEAD"@ || name == "FETCH_HEAD"@ || name == "MERGE_HEAD"@
}

/// The path of the pointer of a branch.
pub open spec fn branch_path(name: Seq<char>) -> Seq<char> {
    "refs/heads/"@ + name
}

/// The path of the pointer of a tag.
pub open spec fn tag_path(name: Seq<char>) -> Seq<char> {
    "refs/tags/"@ + name
}

/// Whether the name is not empty and holds no forbidden character.
pub fn check_name(name: &[char]) -> (b: bool)
    ensures
        b == name_ok(name@),
{
    if name.len() == 0 {
        return false;
    }
    let mut i: usize = 0;
    while i < name.len()
        invariant
            i <= name.len(),
            name.len() > 0,
            forall|j: int| 0 <= j < i ==> !is_forbidden(#[trigger] name[j]),
        decreases name.len() - i,
    {
        let c = name[i];
        if c == '/' || c == '\\' || c == ':' || c == '*' || c == '?' || c == '"' || c == '<' || c
            == '>' || c == '|' || c == ' ' {
            return false;
        }
        i += 1;
    }
    true
}

/// Whether no branch may have the name.
pub fn check_reserved(name: &str) -> (b: bool)
    ensures
        b == is_reserved(name@),
{
    str_eq(name, "HEAD") || str_eq(name, "ORIGIN_HEAD")
        || str_eq(name, "FETCH_HEAD") || str_eq(name, "MERGE_HEAD")
}

/// The path of the pointer of the branch `name`.
pub fn branch_path_of(name: &str) -> (path: String)
    ensures
        path@ == branch_path(name@),
{
    let mut path = "refs/heads/".to_owned();
    path.append(name);
    path
}

/// The path of the pointer of the tag `name`.
pub fn tag_path_of(name: &str) -> (path: String)
    ensures
        path@ == tag_path(name@),
{
    let mut path = "refs/tags/".to_owned();
    path.append(name);
    path
}

/// What pointing a branch at an address comes to. A name that is empty,
/// holds a forbidden character or is reserved gives `InputValidation` and
/// leaves the references as they were.
pub open spec fn branch_pointed(
    refs: Map<Seq<char>, Seq<char>>,
    name: Seq<char>,
    address: Seq<char>,
) -> (Result<(), XitError>, Map<Seq<char>, Seq<char>>) {
    if name_ok(name) && !is_reserved(name) {
        pointed(refs, branch_path(name), address)
    } else {
        (Err(XitError::InputValidation), refs)
    }
}

/// What pointing a tag at an address comes to. A name that is empty or holds
/// a forbidden character gives `InputValidation` and leaves the references
/// as they were.
pub open spec fn tag_pointed(
    refs: Map<Seq<char>, Seq<char>>,
    name: Seq<char>,
    address: Seq<char>,
) -> (Result<(), XitError>, Map<Seq<char>, Seq<char>>) {
    if name_ok(name) {
        pointed(refs, tag_path(name), address)
    } else {
        (Err(XitError::InputValidation), refs)
    }
}

/// Points the branch `branch_name` at `commit_hash`.
///
/// Fails with `InputValidation`, and changes nothing, where the name is
/// empty, holds a forbidden character or is reserved, or the address is not
/// forty hexadecimal digits.
pub fn update_branch(refs: &mut PathMap, branch_name: &str, commit_hash: &str) -> (r: Result<
    (),
    XitError,
>)
    requires
        old(refs).wf(),
    ensures
        final(refs).wf(),
        (r, final(refs)@) == branch_pointed(old(refs)@, branch_name@, commit_hash@),
{
    let name = chars_of(branch_name);
    if !check_name(name.as_slice()) || check_reserved(branch_name) {
        return Err(XitError::InputValidation);
    }
    let path = branch_path_of(branch_name);
    update_reference(refs, path.as_str(), commit_hash)
}

/// Points the tag `tag_name` at `commit_hash`.
///
/// Fails with `InputValidation`, and changes nothing, where the name is empty
/// or holds a forbidden character, or the address is not forty hexadecimal
/// digits.
pub fn update_tag(refs: &mut PathMap, tag_name: &str, commit_hash: &str) -> (r: Result<
    (),
    XitError,
>)
    requires
        old(refs).wf(),
    ensures
        final(refs).wf(),
        (r, final(refs)@) == tag_pointed(old(refs)@, tag_name@, commit_hash@),
{
    let name = chars_of(tag_name);
    if !check_name(name.as_slice()) {
        return Err(XitError::InputValidation);
    }
    let path = tag_path_of(tag_name);
    update_reference(refs, path.as_str(), commit_hash)
}

/// Makes the branch `branch_name`, pointing at `commit_hash`.
///
/// Fails with `AlreadyExists` where the branch has a pointer; otherwise as
/// `update_branch` does. A failure changes nothing.
pub fn create_branch(refs: &mut PathMap, branch_name: &str, commit_hash: &str) -> (r: Result<
    (),
    XitError,
>)
    requires
        old(refs).wf(),
    ensures
        final(refs).wf(),
        (r, final(refs)@) == (if old(refs)@.contains_key(branch_path(branch_name@)) {
            (Err(XitError::AlreadyExists), old(refs)@)
        } else {
            branch_pointed(old(refs)@, branch_name@, commit_hash@)
        }),
{
    let path = branch_path_of(branch_name);
    if refs.contains_key(path.as_str()) {
        return Err(XitError::AlreadyExists);
    }
    update_branch(refs, branch_name, commit_hash)
}

/// Makes the tag `tag_name`, pointing at `commit_hash`.
///
/// Fails with `AlreadyExists` where the tag has a pointer; otherwise as
/// `update_tag` does. A failure changes nothing.
pub fn create_tag(refs: &mut PathMap, tag_name: &str, commit_hash: &str) -> (r: Result<
    (),
    XitError,
>)
    requires
        old(refs).wf(),
    ensures
        final(refs).wf(),
        (r, final(refs)@) == (if old(refs)@.contains_key(tag_path(tag_name@)) {
            (Err(XitError::AlreadyExists), old(refs)@)
        } else {
            tag_pointed(old(refs)@, tag_name@, commit_hash@)
        }),
{
    let path = tag_path_of(tag_name);
    if refs.contains_key(path.as_str()) {
        return Err(XitError::AlreadyExists);
    }
    update_tag(refs, tag_name, commit_hash)
}

/// What deleting the pointer at `path` for a name comes to: the result, and
/// the references afterwards. An empty name gives `InputValidation` and a
/// missing pointer `NotFound`, and either leaves the references as they
/// were.
pub open spec fn deleted(
    refs: Map<Seq<char>, Seq<char>>,
    name: Seq<char>,
    path: Seq<char>,
) -> (Result<(), XitError>, Map<Seq<char>, Seq<char>>) {
    if name.len() == 0 {
        (Err(XitError::InputValidation), refs)
    } else if !refs.contains_key(path) {
        (Err(XitError::NotFound), refs)
    } else {
        (Ok(()), refs.remove(path))
    }
}

/// Deletes the branch `branch_name`.
///
/// Fails with `InputValidation` where the name is empty and with `NotFound`
/// where the branch has no pointer; a failure changes nothing.
pub fn delete_branch(refs: &mut PathMap, branch_name: &str) -> (r: Result<(), XitError>)
    requires
        old(refs).wf(),
    ensures
        final(refs).wf(),
        (r, final(refs)@) == deleted(old(refs)@, branch_name@, branch_path(branch_name@)),
{
    if branch_name.is_empty() {
        return Err(XitError::InputValidation);
    }
    let path = branch_path_of(branch_name);
    if refs.remove(path.as_str()) {
        Ok(())
    } else {
        proof {
            assert(refs@ =~= old(refs)@);
        }
        Err(XitError::NotFound)
    }
}

/// Deletes the tag `tag_name`.
///
/// Fails with `InputValidation` where the name is empty and with `NotFound`
/// where the tag has no pointer; a failure changes nothing.
pub fn delete_tag(refs: &mut PathMap, tag_name: &str) -> (r: Result<(), XitError>)
    requires
        old(refs).wf(),
    ensures
        final(refs).wf(),
        (r, final(refs)@) == deleted(old(refs)@, tag_name@, tag_path(tag_name@)),
{
    if tag_name.is_empty() {
        return Err(XitError::InputValidation);
    }
    let path = tag_path_of(tag_name);
    if refs.remove(path.as_str()) {
        Ok(())
    } else {
        proof {
            assert(refs@ =~= old(refs)@);
        }
        Err(XitError::NotFound)
    }
}

/// What the pointer at `path` resolves to: nothing where there is no such
/// pointer, and else the address that its content holds between white space.
/// Content that is not an address is corrupt.
pub open spec fn resolved(refs: Map<Seq<char>, Seq<char>>, path: Seq<char>) -> Result<
    Option<Seq<char>>,
    XitError,
> {
    if !refs.contains_key(path) {
        Ok(None)
    } else if is_address(trimmed(refs[path])) {
        Ok(Some(trimmed(refs[path])))
    } else {
        Err(XitError::CorruptRef)
    }
}

/// No hexadecimal digit is white space.
pub proof fn lemma_digit_not_space(c: char)
    requires
        hex_value(c) is Some,
    ensures
        !is_space(c),
{
}

/// A pointer that was set to an address resolves to that address.
pub proof fn lemma_resolve_after_update(
    refs: Map<Seq<char>, Seq<char>>,
    path: Seq<char>,
    address: Seq<char>,
)
    requires
        is_address(address),
    ensures
        trimmed(pointer_line(address)) == address,
        resolved(refs.insert(path, pointer_line(address)), path) == Ok::<_, XitError>(
            Some(address),
        ),
{
    let line = pointer_line(address);
    assert(hex_value(address[0]) is Some);
    lemma_digit_not_space(line[0]);
    assert(trimmed_start(line) =~= line);
    assert(line.drop_last() =~= address);
    assert(hex_value(address[39]) is Some);
    lemma_digit_not_space(address.last());
    assert(trimmed_end(line) == trimmed_end(address));
}

/// The view of an optional string.
pub open spec fn opt_string_view(s: Option<String>) -> Option<Seq<char>> {
    match s {
        Some(t) => Some(t@),
        None => None,
    }
}

/// Resolves the reference at `ref_path` to the address of a commit, or to
/// `None` where it has no pointer yet.
///
/// Fails with `CorruptRef` where the pointer holds anything but forty
/// hexadecimal digits between white space.
pub fn resolve(refs: &PathMap, ref_path: &str) -> (r: Result<Option<String>, XitError>)
    requires
        refs.wf(),
    ensures
        match r {
            Ok(address) => resolved(refs@, ref_path@) == Ok::<_, XitError>(
                opt_string_view(address),
            ),
            Err(e) => resolved(refs@, ref_path@) == Err::<Option<Seq<char>>, _>(e),
        },
{
    match refs.get(ref_path) {
        None => Ok(None),
        Some(content) => {
            let chars = chars_of(content);
            let address = trim(chars.as_slice());
            if is_address_text(address) {
                Ok(Some(string_of(address)))
            } else {
                Err(XitError::CorruptRef)
            }
        },
    }
}

/// Reads the reference at `ref_path` and returns the address it holds.
///
/// Fails with `InputValidation` where the path is empty, with `NotFound`
/// where there is no such pointer, and with `CorruptRef` where the pointer
/// holds anything but forty hexadecimal digits between white space.
pub fn read_reference(refs: &PathMap, ref_path: &str) -> (r: Result<String, XitError>)
    requires
        refs.wf(),
    ensures
        match r {
            Ok(address) => ref_path@.len() > 0 && resolved(refs@, ref_path@) == Ok::<_, XitError>(
                Some(address@),
            ),
            Err(e) => if ref_path@.len() == 0 {
                e == XitError::InputValidation
            } else if !refs@.contains_key(ref_path@) {
                e == XitError::NotFound
            } else {
                e == XitError::CorruptRef && resolved(refs@, ref_path@) is Err
            },
        },
{
    if ref_path.is_empty() {
        return Err(XitError::InputValidation);
    }
    match resolve(refs, ref_path) {
        Ok(Some(address)) => Ok(address),
        Ok(None) => Err(XitError::NotFound),
        Err(e) => Err(e),
    }
}

/// Whether a pointer exists at `ref_path`. The empty path names none.
pub fn reference_exists(refs: &PathMap, ref_path: &str) -> (b: bool)
    requires
        refs.wf(),
    ensures
        b == (ref_path@.len() > 0 && refs@.contains_key(ref_path@)),
{
    if ref_path.is_empty() {
        return false;
    }
    refs.contains_key(ref_path)
}

/// A name listed under the directory `prefix`: the references hold a pointer
/// at `prefix` followed by the name, and the name is a single path segment.
pub open spec fn listed(refs: Map<Seq<char>, Seq<char>>, prefix: Seq<char>, name: Seq<char>) -> bool {
    name.len() > 0 && !name.contains('/') && refs.contains_key(prefix + name)
}

/// The texts that the strings hold.
pub open spec fn string_views(v: Seq<String>) -> Seq<Seq<char>> {
    v.map_values(|s: String| s@)
}

/// The texts ascend strictly in byte-wise order.
pub open spec fn texts_ascend(s: Seq<Seq<char>>) -> bool {
    forall|a: int, b: int| 0 <= a < b < s.len() ==> text_lt(#[trigger] s[a], #[trigger] s[b])
}

/// Among the first `i` entries one has the key `prefix` followed by `name`,
/// and `name` is a single path segment.
pub open spec fn listed_among(
    entries: Seq<(Seq<char>, Seq<char>)>,
    i: int,
    prefix: Seq<char>,
    name: Seq<char>,
) -> bool {
    name.len() > 0 && !name.contains('/') && exists|j: int|
        0 <= j < i && j < entries.len() && #[trigger] entries[j].0 == prefix + name
}

/// What one more entry adds to the names listed among the entries before it.
proof fn lemma_listed_step(
    entries: Seq<(Seq<char>, Seq<char>)>,
    i: int,
    prefix: Seq<char>,
    name: Seq<char>,
)
    requires
        0 <= i < entries.len(),
    ensures
        listed_among(entries, i + 1, prefix, name) <==> (listed_among(entries, i, prefix, name) || (
        name.len() > 0 && !name.contains('/') && entries[i].0 == prefix + name)),
{
    if listed_among(entries, i + 1, prefix, name) {
        let j = choose|j: int|
            0 <= j < i + 1 && j < entries.len() && #[trigger] entries[j].0 == prefix + name;
        if j < i {
            assert(listed_among(entries, i, prefix, name));
        }
    }
    if listed_among(entries, i, prefix, name) {
        let j = choose|j: int|
            0 <= j < i && j < entries.len() && #[trigger] entries[j].0 == prefix + name;
        assert(0 <= j < i + 1 && entries[j].0 == prefix + name);
    }
    if name.len() > 0 && !name.contains('/') && entries[i].0 == prefix + name {
        assert(0 <= i < i + 1 && entries[i].0 == prefix + name);
    }
}

/// The names listed under `prefix`, in ascending order.
pub fn list_names(refs: &PathMap, prefix: &str) -> (names: Vec<String>)
    requires
        refs.wf(),
    ensures
        texts_ascend(string_views(names@)),
        forall|n: Seq<char>| string_views(names@).contains(n) <==> listed(refs@, prefix@, n),
{
    let p = chars_of(prefix);
    let mut found = PathMap::new();
    let mut i: usize = 0;
    while i < refs.len()
        invariant
            i <= refs.entries().len(),
            refs.wf(),
            found.wf(),
            p@ == prefix@,
            forall|n: Seq<char>|
                found@.contains_key(n) <==> #[trigger] listed_among(
                    refs.entries(),
                    i as int,
                    prefix@,
                    n,
                ),
        decreases refs.entries().len() - i,
    {
        let key = chars_of(refs.key_at(i));
        let ghost before = found@;
        let ghost k = refs.entries()[i as int].0;
        let ghost mut added: Option<Seq<char>> = None;
        if key.len() > p.len() && starts_with(key.as_slice(), p.as_slice()) {
            let rest = slice_subrange(key.as_slice(), p.len(), key.len());
            let slash: usize = find_char(rest, 0, '/');
            proof {
                lemma_find_from_bounds(rest@, 0, '/');
                assert(k =~= prefix@ + rest@);
            }
            if slash >= rest.len() {
                found.insert(string_of(rest), String::new());
                proof {
                    added = Some(rest@);
                    assert(!rest@.contains('/'));
                }
            } else {
                proof {
                    assert(rest@[slash as int] == '/');
                    assert(rest@.contains('/'));
                    assert forall|n: Seq<char>| k == prefix@ + n implies n.contains('/') by {
                        assert((prefix@ + n).skip(prefix@.len() as int) =~= n);
                        assert((prefix@ + rest@).skip(prefix@.len() as int) =~= rest@);
                    }
                }
            }
        } else {
            proof {
                assert forall|n: Seq<char>| n.len() > 0 implies k != prefix@ + n by {
                    if k == prefix@ + n {
                        assert(k.subrange(0, prefix@.len() as int) =~= prefix@);
                    }
                }
            }
        }
        proof {
            assert forall|n: Seq<char>|
                found@.contains_key(n) <==> #[trigger] listed_among(
                    refs.entries(),
                    i + 1,
                    prefix@,
                    n,
                ) by {
                lemma_listed_step(refs.entries(), i as int, prefix@, n);
                assert(before.contains_key(n) <==> listed_among(
                    refs.entries(),
                    i as int,
                    prefix@,
                    n,
                ));
                match added {
                    Some(rest) => {
                        assert(found@ == before.insert(rest, Seq::<char>::empty()));
                        if k == prefix@ + n {
                            assert((prefix@ + n).skip(prefix@.len() as int) =~= n);
                            assert((prefix@ + rest).skip(prefix@.len() as int) =~= rest);
                        }
                    },
                    None => {
                        assert(found@ == before);
                    },
                }
            }
        }
        i += 1;
    }
    let names = found.keys();
    proof {
        let texts = string_views(names@);
        assert(texts.len() == found.entries().len());
        assert forall|j: int| 0 <= j < texts.len() implies #[trigger] texts[j] == found.entries()[j].0 by {
            assert(texts[j] == names@[j]@);
        }
        assert forall|n: Seq<char>| texts.contains(n) <==> listed(refs@, prefix@, n) by {
            if texts.contains(n) {
                let j = choose|j: int| 0 <= j < texts.len() && texts[j] == n;
                assert(found.entries()[j].0 == n);
                assert(has_key(found.entries(), n));
            }
            if has_key(found.entries(), n) {
                let j = choose|j: int|
                    0 <= j < found.entries().len() && #[trigger] found.entries()[j].0 == n;
                assert(texts[j] == n);
            }
            assert(found@.contains_key(n) <==> listed_among(
                refs.entries(),
                i as int,
                prefix@,
                n,
            ));
            if listed_among(refs.entries(), i as int, prefix@, n) {
                let j = choose|j: int|
                    0 <= j < i && j < refs.entries().len() && #[trigger] refs.entries()[j].0
                        == prefix@ + n;
                assert(has_key(refs.entries(), prefix@ + n));
            }
            if has_key(refs.entries(), prefix@ + n) {
                let j = choose|j: int|
                    0 <= j < refs.entries().len() && #[trigger] refs.entries()[j].0 == prefix@ + n;
                assert(0 <= j < i && refs.entries()[j].0 == prefix@ + n);
            }
        }
    }
    names
}

/// The names of the branches, in ascending byte-wise order: every name that
/// has a pointer directly under `refs/heads/`.
pub fn list_branches(refs: &PathMap) -> (names: Vec<String>)
    requires
        refs.wf(),
    ensures
        texts_ascend(string_views(names@)),
        forall|n: Seq<char>| string_views(names@).contains(n) <==> listed(refs@, "refs/heads/"@, n),
{
    list_names(refs, "refs/heads/")
}

/// The names of the tags, in ascending byte-wise order: every name that has
/// a pointer directly under `refs/tags/`.
pub fn list_tags(refs: &PathMap) -> (names: Vec<String>)
    requires
        refs.wf(),
    ensures
        texts_ascend(string_views(names@)),
        forall|n: Seq<char>| string_views(names@).contains(n) <==> listed(refs@, "refs/tags/"@, n),
{
    list_names(refs, "refs/tags/")
}

} // verus!

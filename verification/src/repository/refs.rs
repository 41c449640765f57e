//! `HEAD`: the one symbolic reference, which names the branch that is checked
//! out.

use crate::error::XitError;
use crate::objects::update::{head_path, opt_string_view, resolve, resolved};
use crate::path_map::PathMap;
use crate::text::{chars_of, starts_with, string_of, trim_end, trimmed_end};
use vstd::prelude::*;
use vstd::slice::slice_subrange;

verus! {

/// The five characters with which the content of `HEAD` begins.
pub open spec fn ref_word() -> Seq<char> {
    seq!['r', 'e', 'f', ':', ' ']
}

/// The content of `HEAD` that names the reference at `path`.
pub open spec fn head_line(path: Seq<char>) -> Seq<char> {
    ref_word() + path + seq!['\n']
}

/// The path that `HEAD` names: what follows `ref: ` in its content, without
/// the white space at the end. A `HEAD` that does not begin with `ref: ` is
/// corrupt.
pub open spec fn head_target(refs: Map<Seq<char>, Seq<char>>) -> Result<Seq<char>, XitError> {
    if !refs.contains_key(head_path()) {
        Err(XitError::NotFound)
    } else if !ref_word().is_prefix_of(refs[head_path()]) {
        Err(XitError::CorruptRef)
    } else {
        Ok(trimmed_end(refs[head_path()].skip(5)))
    }
}

/// A `HEAD` that names a reference holds no address: read as a pointer, it
/// is corrupt.
pub proof fn lemma_head_is_no_pointer(refs: Map<Seq<char>, Seq<char>>)
    requires
        head_target(refs) is Ok,
    ensures
        resolved(refs, head_path()) == Err::<Option<Seq<char>>, _>(XitError::CorruptRef),
{
    let content = refs[head_path()];
    assert(content[0] == ref_word()[0]);
    crate::text::lemma_find_space(content, 0, false, 0);
    assert(crate::text::trimmed_start(content) =~= content);
    crate::text::lemma_trimmed_end_first(content);
    let kept = crate::text::trimmed(content);
    if kept.len() > 0 {
        assert(kept[0] == 'r');
        assert(crate::hexcode::hex_value(kept[0]) is None);
    }
}

/// The path of the reference that `HEAD` names, such as `refs/heads/main`.
///
/// Fails with `NotFound` where there is no `HEAD`, and with `CorruptRef`
/// where its content does not begin with `ref: `, as is the case for one that
/// holds the address of a commit.
pub fn get_head_ref_path(refs: &PathMap) -> (r: Result<String, XitError>)
    requires
        refs.wf(),
    ensures
        match r {
            Ok(path) => head_target(refs@) == Ok::<_, XitError>(path@),
            Err(e) => head_target(refs@) == Err::<Seq<char>, _>(e),
        },
{
    proof {
        reveal_strlit("HEAD");
    }
    match refs.get("HEAD") {
        None => Err(XitError::NotFound),
        Some(content) => {
            let chars = chars_of(content);
            let word: [char; 5] = ['r', 'e', 'f', ':', ' '];
            proof {
                assert(word@ =~= ref_word());
            }
            if !starts_with(chars.as_slice(), word.as_slice()) {
                return Err(XitError::CorruptRef);
            }
            let rest = slice_subrange(chars.as_slice(), 5, chars.len());
            proof {
                assert(rest@ =~= chars@.skip(5));
            }
            Ok(string_of(trim_end(rest)))
        },
    }
}

/// The address of the commit that the reference at `ref_path` points at.
///
/// Fails with `NotFound` where the path is empty or has no pointer, which is
/// the state before the first commit, and with `CorruptRef` where the pointer
/// holds anything but forty hexadecimal digits between white space.
pub fn get_commit_hash(refs: &PathMap, ref_path: &str) -> (r: Result<String, XitError>)
    requires
        refs.wf(),
    ensures
        match r {
            Ok(address) => ref_path@.len() > 0 && resolved(refs@, ref_path@) == Ok::<_, XitError>(
                Some(address@),
            ),
            Err(e) => if ref_path@.len() == 0 || !refs@.contains_key(ref_path@) {
                e == XitError::NotFound
            } else {
                e == XitError::CorruptRef && resolved(refs@, ref_path@) is Err
            },
        },
{
    if ref_path.is_empty() {
        return Err(XitError::NotFound);
    }
    match resolve(refs, ref_path) {
        Ok(Some(address)) => Ok(address),
        Ok(None) => Err(XitError::NotFound),
        Err(e) => Err(e),
    }
}

/// What `HEAD` resolves to: the address that the reference it names points
/// at, or nothing where that reference has no pointer yet.
pub open spec fn head_commit(refs: Map<Seq<char>, Seq<char>>) -> Result<Option<Seq<char>>, XitError> {
    match head_target(refs) {
        Ok(path) => resolved(refs, path),
        Err(e) => Err(e),
    }
}

/// Resolves `HEAD` through the reference that it names to the address of the
/// last commit, or to `None` where nothing was committed yet.
///
/// Fails as `get_head_ref_path` does, and with `CorruptRef` where the
/// reference holds anything but an address.
pub fn resolve_head(refs: &PathMap) -> (r: Result<Option<String>, XitError>)
    requires
        refs.wf(),
    ensures
        match r {
            Ok(address) => head_commit(refs@) == Ok::<_, XitError>(opt_string_view(address)),
            Err(e) => head_commit(refs@) == Err::<Option<Seq<char>>, _>(e),
        },
{
    match get_head_ref_path(refs) {
        Ok(path) => resolve(refs, path.as_str()),
        Err(e) => Err(e),
    }
}

} // verus!

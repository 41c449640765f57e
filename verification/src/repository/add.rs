//! Staging a file: its content becomes a blob, and the index points its path
//! at that blob.

use crate::error::XitError;
use crate::hexcode::is_address;
use crate::objects::blob::{compute_sha1, create_blob, hash_to_hex};
use crate::objects::store::{
    encode_object, lemma_object_address, lemma_write_idempotent, object_address, written,
    ObjectKind,
};
use crate::path_map::PathMap;
use crate::repository::repo::{Repository, RepositoryView};
use crate::repository::status::{path_to_string, relative_path};
use vstd::prelude::*;

verus! {

/// The bytes from `i` on with every carriage return that stands before a
/// line feed left out.
pub open spec fn unix_lines_from(s: Seq<u8>, i: int) -> Seq<u8>
    decreases s.len() - i,
{
    if i < 0 || i >= s.len() {
        Seq::empty()
    } else if s[i] == 13 && i + 1 < s.len() && s[i + 1] == 10 {
        seq![10u8] + unix_lines_from(s, i + 2)
    } else {
        seq![s[i]] + unix_lines_from(s, i + 1)
    }
}

/// The content with its line ends made canonical: each carriage return and
/// line feed becomes a line feed.
pub open spec fn unix_lines(s: Seq<u8>) -> Seq<u8> {
    unix_lines_from(s, 0)
}

/// The content with each carriage return and line feed replaced by a line
/// feed.
pub fn normalize_line_endings(content: &[u8]) -> (out: Vec<u8>)
    ensures
        out@ == unix_lines(content@),
{
    let mut out: Vec<u8> = Vec::new();
    let mut i: usize = 0;
    while i < content.len()
        invariant
            i <= content.len(),
            unix_lines(content@) == out@ + unix_lines_from(content@, i as int),
        decreases content.len() - i,
    {
        let ghost before = out@;
        if content[i] == 13 && i + 1 < content.len() && content[i + 1] == 10 {
            out.push(10);
            proof {
                assert(before.push(10u8) + unix_lines_from(content@, i + 2) =~= before + (seq![
                    10u8,
                ] + unix_lines_from(content@, i + 2)));
            }
            i += 2;
        } else {
            out.push(content[i]);
            proof {
                assert(before.push(content@[i as int]) + unix_lines_from(content@, i + 1)
                    =~= before + (seq![content@[i as int]] + unix_lines_from(content@, i + 1)));
            }
            i += 1;
        }
    }
    proof {
        assert(out@ + Seq::<u8>::empty() =~= out@);
    }
    out
}

/// The address under which the content of a file is staged: that of the blob
/// of the content with canonical line ends.
pub open spec fn staged_address(content: Seq<u8>) -> Seq<char> {
    object_address(ObjectKind::Blob, unix_lines(content))
}

/// The address under which `content` would be staged. Nothing is stored.
pub fn hash_content(content: &[u8]) -> (address: String)
    ensures
        address@ == staged_address(content@),
        is_address(address@),
{
    proof {
        lemma_object_address(ObjectKind::Blob, unix_lines(content@));
    }
    let normalized = normalize_line_endings(content);
    let encoded = encode_object(ObjectKind::Blob, normalized.as_slice());
    let hash = compute_sha1(encoded.as_slice());
    hash_to_hex(&hash)
}

/// The index, or the empty index where there is none.
pub open spec fn index_or_empty(index: Option<Map<Seq<char>, Seq<char>>>) -> Map<
    Seq<char>,
    Seq<char>,
> {
    match index {
        Some(entries) => entries,
        None => Map::empty(),
    }
}

/// The view of an optional map.
pub open spec fn opt_map_view(index: Option<PathMap>) -> Option<Map<Seq<char>, Seq<char>>> {
    match index {
        Some(entries) => Some(entries@),
        None => None,
    }
}

/// The index with `file_path` pointing at `blob_hash`, whatever it pointed at
/// before. Where there is no index yet, one is begun.
pub fn update_index(index: Option<PathMap>, file_path: &str, blob_hash: &str) -> (updated: PathMap)
    requires
        index matches Some(entries) ==> entries.wf(),
    ensures
        updated.wf(),
        updated@ == index_or_empty(opt_map_view(index)).insert(file_path@, blob_hash@),
{
    let mut entries = match index {
        Some(entries) => entries,
        None => PathMap::new(),
    };
    entries.insert(file_path.to_owned(), blob_hash.to_owned());
    entries
}

/// What staging a file comes to: the result, and the repository afterwards.
/// Where the blob of the content, with canonical line ends, is stored, the
/// index points the path, relative to the root, at the address of the blob,
/// and an index is begun where there was none. Where storing fails, the
/// repository is as it was.
pub open spec fn staged(repo: RepositoryView, path: Seq<char>, content: Seq<u8>) -> (
    Result<(), XitError>,
    RepositoryView,
) {
    match written(repo.objects, ObjectKind::Blob, unix_lines(content)) {
        (Ok(address), objects) => (
            Ok(()),
            RepositoryView {
                objects,
                refs: repo.refs,
                index: Some(index_or_empty(repo.index).insert(relative_path(path), address)),
                config: repo.config,
            },
        ),
        (Err(e), _) => (Err(e), repo),
    }
}

/// Two files staged with the same content point at one blob: the index holds
/// both paths, relative to the root, with the same address, and the store has
/// gained that address and no other.
pub proof fn lemma_same_content_one_blob(
    repo: RepositoryView,
    first: Seq<char>,
    second: Seq<char>,
    content: Seq<u8>,
)
    requires
        relative_path(first) != relative_path(second),
        staged(repo, first, content).0 is Ok,
    ensures
        staged(staged(repo, first, content).1, second, content).0 is Ok,
        ({
            let after = staged(staged(repo, first, content).1, second, content).1;
            &&& after.index is Some
            &&& after.index->0.contains_key(relative_path(first))
            &&& after.index->0.contains_key(relative_path(second))
            &&& after.index->0[relative_path(first)] == staged_address(content)
            &&& after.index->0[relative_path(second)] == staged_address(content)
            &&& after.objects.dom() == repo.objects.dom().insert(staged_address(content))
        }),
{
    let once = staged(repo, first, content).1;
    let twice = staged(once, second, content).1;
    lemma_write_idempotent(
        repo.objects,
        ObjectKind::Blob,
        unix_lines(content),
    );
    assert(twice.objects.dom() =~= repo.objects.dom().insert(staged_address(content)));
}

/// Stages the file at `file_path` with the given content.
///
/// The content, with canonical line ends, is stored as a blob, and the index
/// then points the path at its address. The index names the file by its path
/// relative to the root, without `./` at its start, as the files of the
/// working directory are named. Fails with `Io`, and changes nothing, exactly
/// where the compressor reports an error.
pub fn add(repo: &mut Repository, file_path: &str, content: &[u8]) -> (r: Result<(), XitError>)
    requires
        old(repo).wf(),
    ensures
        final(repo).wf(),
        (r, final(repo)@) == staged(old(repo)@, file_path@, content@),
{
    let normalized = normalize_line_endings(content);
    match create_blob(&mut repo.objects, normalized.as_slice()) {
        Ok(address) => {
            let index = repo.index.take();
            let path = path_to_string(file_path);
            repo.index = Some(update_index(index, path.as_str(), address.as_str()));
            Ok(())
        },
        Err(e) => Err(e),
    }
}

} // verus!

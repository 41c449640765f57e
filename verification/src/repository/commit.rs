//! Committing: the staged files become a tree, the tree becomes a commit on
//! top of the last one, the branch moves to it, and the index is cleared.

use crate::error::XitError;
use crate::hexcode::is_address;
use crate::objects::commit::{commit_text, commit_written, create_commit};
use crate::objects::store::{
    address_view, encoded_object, lemma_object_address, ObjectKind, ObjectStore,
};
use crate::objects::tree::{
    create_tree, entry_views, sorted_by_name, tree_payload, tree_written, TreeEntry, TreeEntryView,
};
use crate::objects::update::{
    head_path, lemma_resolve_after_update, pointer_line, resolve, resolved, update_reference,
};
use crate::path_map::PathMap;
use crate::repository::add::index_or_empty;
use crate::repository::config::{get_user_config, opt_text, signature, signature_of, user_of};
use crate::repository::refs::{
    get_head_ref_path, head_commit, head_target, lemma_head_is_no_pointer,
};
use crate::repository::repo::{Repository, RepositoryView};
use crate::repository::utils::{hex_bytes, hex_to_bytes};
use vstd::prelude::*;

verus! {

/// The tree entry for a staged file: a regular file with the path as its
/// name.
pub open spec fn index_entry(staged: (Seq<char>, Seq<char>)) -> TreeEntryView {
    TreeEntryView {
        mode: "100644"@,
        kind: ObjectKind::Blob,
        hash: hex_bytes(staged.1)->0,
        name: staged.0,
    }
}

/// Every staged address is hexadecimal text of even length.
pub open spec fn hashes_ok(entries: Seq<(Seq<char>, Seq<char>)>) -> bool {
    forall|i: int| 0 <= i < entries.len() ==> hex_bytes(#[trigger] entries[i].1) is Some
}

/// What storing the tree of an index comes to: the result, and the objects
/// afterwards. Where a staged address is no hexadecimal text, the result is
/// `InputValidation` and the store is as it was; otherwise the outcome is
/// that of storing one entry for each staged path.
pub open spec fn index_tree_written(
    before: Map<Seq<char>, Seq<u8>>,
    entries: Seq<(Seq<char>, Seq<char>)>,
) -> (Result<Seq<char>, XitError>, Map<Seq<char>, Seq<u8>>) {
    if hashes_ok(entries) {
        tree_written(before, entries.map_values(|e: (Seq<char>, Seq<char>)| index_entry(e)))
    } else {
        (Err(XitError::InputValidation), before)
    }
}

/// Stores the tree of the index and returns its address: one flat tree with
/// an entry for each staged path, named by the whole path.
///
/// Fails with `InputValidation`, before anything is stored, where a staged
/// address is not the hexadecimal text of twenty bytes or a path is empty;
/// and with `Io` exactly where the compressor reports an error.
pub fn create_tree_from_index(store: &mut ObjectStore, index: &PathMap) -> (r: Result<
    String,
    XitError,
>)
    requires
        old(store).wf(),
        index.wf(),
    ensures
        final(store).wf(),
        (address_view(r), final(store)@) == index_tree_written(old(store)@, index.entries()),
        r matches Ok(address) ==> is_address(address@),
{
    let ghost staged = index.entries();
    let ghost wanted = staged.map_values(|e: (Seq<char>, Seq<char>)| index_entry(e));
    let mut entries: Vec<TreeEntry> = Vec::new();
    let mut i: usize = 0;
    while i < index.len()
        invariant
            i <= staged.len(),
            staged == index.entries(),
            wanted == staged.map_values(|e: (Seq<char>, Seq<char>)| index_entry(e)),
            hashes_ok(staged.take(i as int)),
            entry_views(entries@) == wanted.take(i as int),
            *store == *old(store),
            store.wf(),
        decreases staged.len() - i,
    {
        let hash = match hex_to_bytes(index.value_at(i)) {
            Ok(bytes) => bytes,
            Err(e) => {
                return Err(e);
            },
        };
        let entry = TreeEntry {
            mode: "100644".to_owned(),
            obj_type: ObjectKind::Blob,
            hash,
            name: index.key_at(i).to_owned(),
        };
        proof {
            assert(entry@ == wanted[i as int]);
            assert(entry_views(entries@.push(entry)) =~= entry_views(entries@).push(entry@));
            assert(wanted.take(i as int).push(wanted[i as int]) =~= wanted.take(i + 1));
            assert forall|j: int| 0 <= j < i + 1 implies hex_bytes(
                #[trigger] staged.take(i + 1)[j].1,
            ) is Some by {
                if j < i {
                    assert(staged.take(i as int)[j] == staged[j]);
                }
            }
        }
        entries.push(entry);
        i += 1;
    }
    proof {
        assert(staged.take(i as int) =~= staged);
        assert(wanted.take(i as int) =~= wanted);
    }
    create_tree(store, entries)
}

/// What a commit is made from, apart from the index and the message.
pub struct CommitPlan {
    /// The path of the reference that `HEAD` names.
    pub branch: Seq<char>,
    /// The commit that the branch points at, if any.
    pub parent: Option<Seq<char>>,
    /// The line that names the author, who is also the committer.
    pub author: Seq<char>,
}

/// What is decided before anything is stored. There must be an index; an
/// empty one leaves nothing to do. `HEAD` must name a reference, by a path
/// that is not empty; the pointer of that reference, if there is one, gives
/// the parent; an identity must be configured; and the message must not be
/// empty.
pub open spec fn commit_plan(
    repo: RepositoryView,
    message: Seq<char>,
    global: Option<Seq<char>>,
) -> Result<Option<CommitPlan>, XitError> {
    if repo.index is None {
        Err(XitError::NotFound)
    } else if repo.index->0 == Map::<Seq<char>, Seq<char>>::empty() {
        Ok(None)
    } else {
        match head_target(repo.refs) {
            Err(e) => Err(e),
            Ok(branch) => if branch.len() == 0 {
                Err(XitError::InputValidation)
            } else {
                match resolved(repo.refs, branch) {
                    Err(e) => Err(e),
                    Ok(parent) => match user_of(repo.config, global) {
                        None => Err(XitError::NotFound),
                        Some(user) => if message.len() == 0 {
                            Err(XitError::InputValidation)
                        } else {
                            Ok(Some(CommitPlan { branch, parent, author: signature(user) }))
                        },
                    },
                }
            },
        }
    }
}

/// What committing comes to: the result, and the repository afterwards.
///
/// Where the plan fails or leaves nothing to do, the repository is as it
/// was. Otherwise the tree of the staged entries is stored, then the commit;
/// if both succeed, the branch points at the commit and the index is gone.
/// A failure leaves references and index as they were, and in the store
/// whatever was stored before it.
pub open spec fn committed(
    repo: RepositoryView,
    staged: Seq<(Seq<char>, Seq<char>)>,
    message: Seq<char>,
    global: Option<Seq<char>>,
) -> (Result<Option<Seq<char>>, XitError>, RepositoryView) {
    match commit_plan(repo, message, global) {
        Err(e) => (Err(e), repo),
        Ok(None) => (Ok(None), repo),
        Ok(Some(plan)) => {
            let (tree, with_tree) = index_tree_written(repo.objects, staged);
            match tree {
                Err(e) => (Err(e), repo),
                Ok(tree_address) => {
                    let (commit, with_commit) = commit_written(
                        with_tree,
                        tree_address,
                        plan.parent,
                        plan.author,
                        plan.author,
                        message,
                    );
                    match commit {
                        Err(e) => (Err(e), RepositoryView { objects: with_commit, ..repo }),
                        Ok(address) => (
                            Ok(Some(address)),
                            RepositoryView {
                                objects: with_commit,
                                refs: repo.refs.insert(plan.branch, pointer_line(address)),
                                index: None,
                                config: repo.config,
                            },
                        ),
                    }
                },
            }
        },
    }
}

/// After a commit that succeeded the index is gone, so that the staged
/// entries are none, and `HEAD` resolves to the address of the new commit,
/// under which the store holds an object.
pub proof fn lemma_commit_clears_staging(
    repo: RepositoryView,
    staged: Seq<(Seq<char>, Seq<char>)>,
    message: Seq<char>,
    global: Option<Seq<char>>,
)
    requires
        committed(repo, staged, message, global).0 matches Ok(Some(_)),
    ensures
        committed(repo, staged, message, global).1.index is None,
        index_or_empty(committed(repo, staged, message, global).1.index)
            == Map::<Seq<char>, Seq<char>>::empty(),
        head_commit(committed(repo, staged, message, global).1.refs)
            == Ok::<_, XitError>(committed(repo, staged, message, global).0->Ok_0),
        committed(repo, staged, message, global).1.objects.contains_key(
            committed(repo, staged, message, global).0->Ok_0->0,
        ),
{
    let plan = commit_plan(repo, message, global)->Ok_0->0;
    let (tree, with_tree) = index_tree_written(repo.objects, staged);
    let tree_address = tree->Ok_0;
    let (commit, with_commit) = commit_written(
        with_tree,
        tree_address,
        plan.parent,
        plan.author,
        plan.author,
        message,
    );
    let address = commit->Ok_0;
    let text = commit_text(
        tree_address,
        plan.parent,
        plan.author,
        plan.author,
        message,
    );
    lemma_object_address(ObjectKind::Commit, vstd::utf8::encode_utf8(text));
    lemma_resolve_after_update(repo.refs, plan.branch, address);
    // the branch is not `HEAD` itself, which resolves to nothing
    lemma_head_is_no_pointer(repo.refs);
    let after = committed(repo, staged, message, global).1;
    assert(after.refs == repo.refs.insert(plan.branch, pointer_line(address)));
    assert(after.refs[head_path()] == repo.refs[
        head_path()
    ]);
}

/// The encoded bytes of the tree of the staged entries.
pub open spec fn staged_tree_bytes(staged: Seq<(Seq<char>, Seq<char>)>) -> Seq<u8> {
    encoded_object(
        ObjectKind::Tree,
        tree_payload(sorted_by_name(staged.map_values(|e: (Seq<char>, Seq<char>)| index_entry(e)))),
    )
}

/// The encoded bytes of the commit that committing makes, where the plan
/// succeeds and the tree is stored.
pub open spec fn planned_commit_bytes(
    repo: RepositoryView,
    staged: Seq<(Seq<char>, Seq<char>)>,
    message: Seq<char>,
    global: Option<Seq<char>>,
) -> Seq<u8> {
    let plan = commit_plan(repo, message, global)->Ok_0->0;
    encoded_object(
        ObjectKind::Commit,
        vstd::utf8::encode_utf8(
            commit_text(
                index_tree_written(repo.objects, staged).0->Ok_0,
                plan.parent,
                plan.author,
                plan.author,
                message,
            ),
        ),
    )
}

/// The staged entries of a repository in ascending order of their paths;
/// none where there is no index.
pub open spec fn staged_entries(repo: Repository) -> Seq<(Seq<char>, Seq<char>)> {
    match repo.index {
        Some(index) => index.entries(),
        None => Seq::empty(),
    }
}

/// A result that holds an optional string, as one that holds an optional
/// text.
pub open spec fn opt_address_view(r: Result<Option<String>, XitError>) -> Result<
    Option<Seq<char>>,
    XitError,
> {
    match r {
        Ok(Some(address)) => Ok(Some(address@)),
        Ok(None) => Ok(None),
        Err(e) => Err(e),
    }
}

/// Commits what is staged, with `message`, as the user that the repository's
/// configuration or else `global_config` names. Returns the address of the
/// new commit, or `None` where the index is empty and nothing was done.
///
/// On success the branch that `HEAD` names points at the new commit, whose
/// parent is the commit that the branch pointed at, and the index is gone.
/// Fails with `NotFound` where there is no index, no `HEAD` or no identity;
/// with `CorruptRef` where `HEAD` or the branch does not hold what it
/// should; with `InputValidation` where the message is empty, `HEAD` names
/// the empty path, or a staged entry has an empty path or an address that is
/// not that of a blob; and with `Io` where the compressor reports an error.
/// Every failure leaves the references and the index as they were, and only
/// the last may leave a new object, the tree, in the store.
pub fn commit(repo: &mut Repository, message: &str, global_config: Option<&str>) -> (r: Result<
    Option<String>,
    XitError,
>)
    requires
        old(repo).wf(),
    ensures
        final(repo).wf(),
        (opt_address_view(r), final(repo)@) == committed(
            old(repo)@,
            staged_entries(*old(repo)),
            message@,
            opt_text(global_config),
        ),
        r matches Ok(Some(address)) ==> is_address(address@),
{
    let ghost before = *repo;
    let empty = match &repo.index {
        None => {
            return Err(XitError::NotFound);
        },
        Some(index) => index.is_empty(),
    };
    if empty {
        return Ok(None);
    }
    let branch = match get_head_ref_path(&repo.refs) {
        Ok(branch) => branch,
        Err(e) => {
            return Err(e);
        },
    };
    if branch.as_str().is_empty() {
        return Err(XitError::InputValidation);
    }
    let parent = match resolve(&repo.refs, branch.as_str()) {
        Ok(parent) => parent,
        Err(e) => {
            return Err(e);
        },
    };
    let local = match &repo.config {
        Some(text) => Some(text.as_str()),
        None => None,
    };
    let user = match get_user_config(local, global_config) {
        Ok(user) => user,
        Err(e) => {
            return Err(e);
        },
    };
    if message.is_empty() {
        return Err(XitError::InputValidation);
    }
    let author = signature_of(&user);
    let tree = match &repo.index {
        Some(index) => create_tree_from_index(&mut repo.objects, index),
        None => Err(XitError::NotFound),
    };
    let tree_address = match tree {
        Ok(address) => address,
        Err(e) => {
            return Err(e);
        },
    };
    let parent_ref = match &parent {
        Some(p) => Some(p.as_str()),
        None => None,
    };
    let created = create_commit(
        &mut repo.objects,
        tree_address.as_str(),
        parent_ref,
        author.as_str(),
        author.as_str(),
        message,
    );
    let address = match created {
        Ok(address) => address,
        Err(e) => {
            return Err(e);
        },
    };
    match update_reference(&mut repo.refs, branch.as_str(), address.as_str()) {
        Ok(()) => {},
        Err(e) => {
            return Err(e);
        },
    }
    repo.index = None;
    Ok(Some(address))
}

} // verus!

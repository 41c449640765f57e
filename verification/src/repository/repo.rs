//! The state of a repository as one value.

use crate::objects::store::ObjectStore;
use crate::objects::update::head_path;
use crate::path_map::PathMap;
use crate::error::XitError;
use crate::repository::refs::{head_commit, head_line, head_target, ref_word};
use crate::text::{is_space, trimmed_end};
use vstd::prelude::*;

verus! {

/// Everything that a repository keeps under its metadata root.
pub struct Repository {
    /// The objects, each under its address.
    pub objects: ObjectStore,
    /// The pointer files: `HEAD`, and what lies under `refs/`.
    pub refs: PathMap,
    /// The staging index, where there is one.
    pub index: Option<PathMap>,
    /// The text of the repository's own configuration, where there is one.
    pub config: Option<String>,
}

/// A repository as plain values.
pub struct RepositoryView {
    pub objects: Map<Seq<char>, Seq<u8>>,
    pub refs: Map<Seq<char>, Seq<char>>,
    pub index: Option<Map<Seq<char>, Seq<char>>>,
    pub config: Option<Seq<char>>,
}

impl View for Repository {
    type V = RepositoryView;

    open spec fn view(&self) -> RepositoryView {
        RepositoryView {
            objects: self.objects@,
            refs: self.refs@,
            index: match self.index {
                Some(index) => Some(index@),
                None => None,
            },
            config: match self.config {
                Some(text) => Some(text@),
                None => None,
            },
        }
    }
}

impl Repository {
    /// Each part is well formed.
    pub open spec fn wf(&self) -> bool {
        &&& self.objects.wf()
        &&& self.refs.wf()
        &&& self.index matches Some(index) ==> index.wf()
    }
}

/// A `HEAD` that was written for a path names that path, where the path is
/// not empty and does not end in white space.
pub proof fn lemma_head_line(path: Seq<char>)
    requires
        path.len() > 0,
        !is_space(path.last()),
    ensures
        ref_word().is_prefix_of(head_line(path)),
        trimmed_end(head_line(path).skip(5)) == path,
{
    let line = head_line(path);
    let rest = line.skip(5);
    assert(rest =~= path + seq!['\n']);
    assert(rest.drop_last() =~= path);
    assert(trimmed_end(rest) == trimmed_end(path));
}

/// The path of the branch that a new repository has checked out.
pub open spec fn main_branch() -> Seq<char> {
    "refs/heads/main"@
}

/// The configuration that a new repository starts with.
pub open spec fn initial_config() -> Seq<char> {
    "[core]\n\trepositoryformatversion = 0\n\tfilemode = true\n\tbare = false\n"@
}

/// A new repository: no objects, no index, a `HEAD` that names the branch
/// `main`, which has no commit yet, and the initial configuration.
pub fn create_repository() -> (repo: Repository)
    ensures
        repo.wf(),
        repo@.objects == Map::<Seq<char>, Seq<u8>>::empty(),
        repo@.refs == Map::<Seq<char>, Seq<char>>::empty().insert(
            head_path(),
            head_line(main_branch()),
        ),
        repo@.index is None,
        repo@.config == Some(initial_config()),
        head_target(repo@.refs) == Ok::<_, XitError>(main_branch()),
        head_commit(repo@.refs) == Ok::<Option<Seq<char>>, XitError>(None),
{
    let mut refs = PathMap::new();
    proof {
        reveal_strlit("ref: refs/heads/main\n");
        reveal_strlit("refs/heads/main");
        reveal_strlit("HEAD");
        assert("ref: refs/heads/main\n"@ =~= head_line(main_branch()));
        lemma_head_line(main_branch());
        assert(main_branch() != head_path());
    }
    refs.insert("HEAD".to_owned(), "ref: refs/heads/main\n".to_owned());
    Repository {
        objects: ObjectStore::new(),
        refs,
        index: None,
        config: Some(
            "[core]\n\trepositoryformatversion = 0\n\tfilemode = true\n\tbare = false\n".to_owned(),
        ),
    }
}

} // verus!

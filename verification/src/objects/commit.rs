//! Commits: a tree, at most one parent, who made it, and a message.

use crate::error::XitError;
use crate::hexcode::is_address;
use crate::objects::store::{address_view, write_object, written, ObjectKind, ObjectStore};
use crate::text::push_char;
use vstd::prelude::*;
use vstd::string::StringExecFns;
use vstd::utf8::encode_utf8;

verus! {

/// The number of bytes of a text in UTF-8.
pub open spec fn byte_len(s: Seq<char>) -> nat {
    encode_utf8(s).len()
}

/// What a commit can be made of: addresses of forty bytes, and an author, a
/// committer and a message that are not empty.
pub open spec fn commit_fields_ok(
    tree: Seq<char>,
    parent: Option<Seq<char>>,
    author: Seq<char>,
    committer: Seq<char>,
    message: Seq<char>,
) -> bool {
    &&& byte_len(tree) == 40
    &&& parent is Some ==> byte_len(parent->0) == 40
    &&& author.len() > 0
    &&& committer.len() > 0
    &&& message.len() > 0
}

/// The text of a commit: the tree, the parent if there is one, the author
/// and the committer, each on a line of its own behind its word; an empty
/// line; and the message, with which the text ends.
pub open spec fn commit_text(
    tree: Seq<char>,
    parent: Option<Seq<char>>,
    author: Seq<char>,
    committer: Seq<char>,
    message: Seq<char>,
) -> Seq<char> {
    let parent_line = match parent {
        Some(p) => "parent "@ + p + seq!['\n'],
        None => Seq::empty(),
    };
    "tree "@ + tree + seq!['\n'] + parent_line + "author "@ + author + seq!['\n'] + "committer "@
        + committer + seq!['\n', '\n'] + message
}

/// The view of an optional string slice.
pub open spec fn opt_view(s: Option<&str>) -> Option<Seq<char>> {
    match s {
        Some(t) => Some(t@),
        None => None,
    }
}

/// What storing a commit of the given fields comes to: the result, and the
/// objects afterwards. Where the fields cannot make a commit, the result is
/// `InputValidation` and the store is as it was; otherwise the outcome is
/// that of storing the text of the commit.
pub open spec fn commit_written(
    before: Map<Seq<char>, Seq<u8>>,
    tree: Seq<char>,
    parent: Option<Seq<char>>,
    author: Seq<char>,
    committer: Seq<char>,
    message: Seq<char>,
) -> (Result<Seq<char>, XitError>, Map<Seq<char>, Seq<u8>>) {
    if commit_fields_ok(tree, parent, author, committer, message) {
        written(
            before,
            ObjectKind::Commit,
            encode_utf8(commit_text(tree, parent, author, committer, message)),
        )
    } else {
        (Err(XitError::InputValidation), before)
    }
}

/// Stores a commit and returns its address.
///
/// Fails with `InputValidation`, before anything is stored, where the address
/// of the tree or of the parent is not forty bytes long, or the author, the
/// committer or the message is empty. Otherwise the commit is stored under
/// the address of its text, forty hexadecimal digits, which is returned;
/// this fails with `Io` exactly where the compressor reports an error.
pub fn create_commit(
    store: &mut ObjectStore,
    tree_hash: &str,
    parent_hash: Option<&str>,
    author: &str,
    committer: &str,
    message: &str,
) -> (r: Result<String, XitError>)
    requires
        old(store).wf(),
    ensures
        final(store).wf(),
        (address_view(r), final(store)@) == commit_written(
            old(store)@,
            tree_hash@,
            opt_view(parent_hash),
            author@,
            committer@,
            message@,
        ),
        r matches Ok(address) ==> is_address(address@),
{
    if tree_hash.as_bytes().len() != 40 {
        return Err(XitError::InputValidation);
    }
    if let Some(parent) = parent_hash {
        if parent.as_bytes().len() != 40 {
            return Err(XitError::InputValidation);
        }
    }
    if author.is_empty() || committer.is_empty() || message.is_empty() {
        return Err(XitError::InputValidation);
    }
    let mut content = String::new();
    content.append("tree ");
    content.append(tree_hash);
    push_char(&mut content, '\n');
    if let Some(parent) = parent_hash {
        content.append("parent ");
        content.append(parent);
        push_char(&mut content, '\n');
    }
    content.append("author ");
    content.append(author);
    push_char(&mut content, '\n');
    content.append("committer ");
    content.append(committer);
    push_char(&mut content, '\n');
    push_char(&mut content, '\n');
    content.append(message);
    proof {
        assert(content@ =~= commit_text(
            tree_hash@,
            opt_view(parent_hash),
            author@,
            committer@,
            message@,
        ));
    }
    write_object(store, ObjectKind::Commit, content.as_str().as_bytes())
}

} // verus!

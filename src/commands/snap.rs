//! Taking a snapshot with the default author and comment.

use vstd::prelude::*;
use vstd::string::*;
use crate::digest::digest_spec;
use crate::error::StoreError;
use crate::snapshot::{head_view, parents_of, snapshot_encoding};
use crate::store::{appended, ObjectManager, ObjectRecord};
use crate::tree::FsTree;

verus! {

pub open spec fn default_author() -> Seq<char> {
    seq!['a', 'u', 't', 'h', 'o', 'r']
}

pub open spec fn default_comment() -> Seq<char> {
    seq!['t', 'e', 's', 't', ' ', 'c', 'o', 'm', 'm', 'e', 'n', 't']
}

/// Snapshots the managed root `tree` on top of `head`; the records in
/// `out` are to be persisted before the head is replaced.
pub fn run(manager: &ObjectManager, head: &mut Option<String>, tree: &FsTree, out: &mut Vec<ObjectRecord>) -> (r: Result<String, StoreError>)
    requires
        tree.wf(),
    ensures
        manager.path_digest(tree) matches Some(td) ==> {
            &&& r matches Ok(d)
            &&& d@ == digest_spec(snapshot_encoding(td, default_author(), parents_of(head_view(*old(head))), default_comment()))
            &&& appended(manager, old(out)@, final(out)@, manager.path_records(tree) + seq![snapshot_encoding(td, default_author(), parents_of(head_view(*old(head))), default_comment())])
            &&& head_view(*final(head)) == Some(d@)
        },
        manager.path_digest(tree) is None ==> r is Err && head_view(*final(head)) == head_view(*old(head)),
{
    proof {
        reveal_strlit("author");
        reveal_strlit("test comment");
    }
    let author = String::from_str("author");
    let comment = String::from_str("test comment");
    assert(author@ =~= default_author());
    assert(comment@ =~= default_comment());
    manager.take_snapshot(head, tree, author, comment, out)
}

} // verus!

//! Storing a path, and the snapshot protocol: store the tree, store a
//! snapshot that names it and the current head, and move the head to it.

use vstd::prelude::*;
use vstd::string::*;
use vstd::utf8::*;
use crate::digest::digest_spec;
use crate::error::StoreError;
use crate::object::{encode_object, encoded, kind_word, snapshot_body, snapshot_body_of, snapshot_kind, strings_bytes, SnapshotMetadata};
use crate::store::{appended, lemma_appended_trans, ObjectManager, ObjectRecord};
use crate::tree::{node_encoding, node_error, node_records, FsNode, FsTree};

verus! {

/// `p` is `root` or lies beneath it.
pub open spec fn within(root: Seq<char>, p: Seq<char>) -> bool {
    ||| p == root
    ||| (p.len() > root.len() && p.subrange(0, root.len() as int) == root && p[root.len() as int] == '/')
}

/// Is `a` a prefix of `b`?
fn is_prefix(a: &str, b: &str) -> (r: bool)
    ensures
        r == (a@.len() <= b@.len() && b@.subrange(0, a@.len() as int) == a@),
{
    let n = a.unicode_len();
    if n > b.unicode_len() {
        return false;
    }
    let mut i: usize = 0;
    while i < n
        invariant
            n == a@.len() <= b@.len(),
            i <= n,
            a@.subrange(0, i as int) == b@.subrange(0, i as int),
        decreases n - i,
    {
        if a.get_char(i) != b.get_char(i) {
            assert(b@.subrange(0, n as int)[i as int] != a@[i as int]);
            return false;
        }
        assert(a@.subrange(0, i + 1) =~= a@.subrange(0, i as int).push(a@[i as int]));
        assert(b@.subrange(0, i + 1) =~= b@.subrange(0, i as int).push(b@[i as int]));
        i = i + 1;
    }
    assert(a@ =~= a@.subrange(0, n as int));
    true
}

/// Does `p` lie within `root`?
pub fn is_within(root: &str, p: &str) -> (r: bool)
    ensures
        r == within(root@, p@),
{
    if !is_prefix(root, p) {
        proof {
            if p@ == root@ {
                assert(p@.subrange(0, root@.len() as int) =~= root@);
            }
        }
        return false;
    }
    let n = root.unicode_len();
    let m = p.unicode_len();
    if n == m {
        assert(p@ =~= p@.subrange(0, n as int));
        return true;
    }
    p.get_char(n) == '/'
}

/// The parents of a snapshot taken while `head` is the head.
pub open spec fn parents_of(head: Option<Seq<char>>) -> Seq<Seq<char>> {
    match head {
        Some(h) => seq![h],
        None => Seq::empty(),
    }
}

/// The encoding of a snapshot of the tree `tree`.
pub open spec fn snapshot_encoding(tree: Seq<char>, author: Seq<char>, parents: Seq<Seq<char>>, comment: Seq<char>) -> Seq<u8> {
    encoded(
        snapshot_kind(),
        snapshot_body(
            encode_utf8(tree),
            encode_utf8(author),
            parents.map_values(|p: Seq<char>| encode_utf8(p)),
            encode_utf8(comment),
        ),
    )
}

impl ObjectManager {
    /// Whether node 0 of `t` is the managed root.
    pub open spec fn at_root(&self, t: &FsTree) -> bool {
        t.paths@[0]@ == self.root_dir@
    }

    /// The encoding of the object stored for `t`, or `None` where it cannot
    /// be stored.
    pub open spec fn path_encoding(&self, t: &FsTree) -> Option<Seq<u8>> {
        if t.nodes@[0] is Missing || !within(self.root_dir@, t.paths@[0]@) {
            None
        } else {
            match node_encoding(t.nodes@, self.at_root(t), 0) {
                Ok(e) => Some(e),
                Err(_) => None,
            }
        }
    }

    /// The digest of the tree stored for `t`, or `None` where it cannot be stored.
    pub open spec fn path_digest(&self, t: &FsTree) -> Option<Seq<char>> {
        match self.path_encoding(t) {
            Some(e) => Some(digest_spec(e)),
            None => None,
        }
    }

    /// The encodings stored for `t`, in order.
    pub open spec fn path_records(&self, t: &FsTree) -> Seq<Seq<u8>> {
        node_records(t.nodes@, self.at_root(t), 0)
    }

    /// Stores the captured path `t` (its node 0) and all that is not
    /// skipped beneath it; returns the digest of its object. The store's
    /// own directory is skipped where `t` is the managed root.
    pub fn store_path(&self, t: &FsTree, out: &mut Vec<ObjectRecord>) -> (r: Result<String, StoreError>)
        requires
            t.wf(),
        ensures
            t.nodes@[0] is Missing ==> (r matches Err(StoreError::PathNotFound(p)) && p@ == t.paths@[0]@),
            !(t.nodes@[0] is Missing) && !within(self.root_dir@, t.paths@[0]@) ==> (r matches Err(
                StoreError::OutOfScope(p),
            ) && p@ == t.paths@[0]@),
            self.path_digest(t) matches Some(d) ==> (r matches Ok(x) && x@ == d && appended(self, old(out)@, final(out)@, self.path_records(t))),
            self.path_digest(t) is None ==> r is Err,
            r matches Err(e) ==> (e is PathNotFound || e is OutOfScope || exists|j: int| node_error(t, j, e)),
            final(out)@.subrange(0, old(out)@.len() as int) == old(out)@,
            old(out)@.len() <= final(out)@.len(),
    {
        let at_root = crate::store::str_eq(t.paths[0].as_str(), self.root_dir.as_str());
        self.store_file_tree(t, at_root, 0, out)
    }

    /// Stores a snapshot of the tree with digest `hash`; returns its digest.
    pub fn store_snapshot(&self, hash: &str, metadata: &SnapshotMetadata, out: &mut Vec<ObjectRecord>) -> (r: String)
        ensures
            r@ == digest_spec(snapshot_object(hash@, metadata)),
            appended(self, old(out)@, final(out)@, seq![snapshot_object(hash@, metadata)]),
    {
        let body = snapshot_body_of(hash, metadata);
        let w = kind_word(2);
        let enc = encode_object(w.as_slice(), body.as_slice());
        self.store_binary_compressed(enc.as_slice(), out)
    }

    /// Stores the tree of `t` and a snapshot of it with `metadata`, then
    /// moves the head to the snapshot; returns the snapshot's digest.
    pub fn snapshot(&self, head: &mut Option<String>, t: &FsTree, metadata: &SnapshotMetadata, out: &mut Vec<ObjectRecord>) -> (r: Result<String, StoreError>)
        requires
            t.wf(),
        ensures
            self.path_digest(t) matches Some(td) ==> {
                &&& r matches Ok(d)
                &&& d@ == digest_spec(snapshot_object(td, metadata))
                &&& appended(self, old(out)@, final(out)@, self.path_records(t) + seq![snapshot_object(td, metadata)])
                &&& head_view(*final(head)) == Some(d@)
            },
            self.path_digest(t) is None ==> r is Err && head_view(*final(head)) == head_view(*old(head)),
            final(out)@.subrange(0, old(out)@.len() as int) == old(out)@,
    {
        let root_hash = self.store_path(t, out)?;
        let ghost mid = out@;
        let d = self.store_snapshot(root_hash.as_str(), metadata, out);
        proof {
            lemma_appended_trans(self, old(out)@, mid, out@, self.path_records(t), seq![snapshot_object(root_hash@, metadata)]);
        }
        *head = Some(d.clone());
        Ok(d)
    }

    /// Takes a snapshot of the managed root while `head` is the head: its
    /// parent is the head, if any, and on success the head moves to it.
    pub fn take_snapshot(
        &self,
        head: &mut Option<String>,
        t: &FsTree,
        author: String,
        comment: String,
        out: &mut Vec<ObjectRecord>,
    ) -> (r: Result<String, StoreError>)
        requires
            t.wf(),
        ensures
            self.path_digest(t) matches Some(td) ==> {
                &&& r matches Ok(d)
                &&& d@ == digest_spec(snapshot_encoding(td, author@, parents_of(head_view(*old(head))), comment@))
                &&& appended(self, old(out)@, final(out)@, self.path_records(t) + seq![snapshot_encoding(td, author@, parents_of(head_view(*old(head))), comment@)])
                &&& head_view(*final(head)) == Some(d@)
            },
            self.path_digest(t) is None ==> r is Err && head_view(*final(head)) == head_view(*old(head)),
    {
        let mut parents: Vec<String> = Vec::new();
        if let Some(h) = head {
            parents.push(h.clone());
        }
        let metadata = SnapshotMetadata { author, comment, parents };
        proof {
            assert(strings_bytes(metadata.parents@) =~= parents_of(head_view(*old(head))).map_values(|p: Seq<char>| encode_utf8(p)));
        }
        self.snapshot(head, t, &metadata, out)
    }
}

/// The encoding of a snapshot of the tree with digest `tree`.
pub open spec fn snapshot_object(tree: Seq<char>, metadata: &SnapshotMetadata) -> Seq<u8> {
    encoded(snapshot_kind(), snapshot_body(
        encode_utf8(tree),
        encode_utf8(metadata.author@),
        strings_bytes(metadata.parents@),
        encode_utf8(metadata.comment@),
    ))
}

/// The view of a head.
pub open spec fn head_view(h: Option<String>) -> Option<Seq<char>> {
    match h {
        Some(s) => Some(s@),
        None => None,
    }
}

} // verus!

//! Building tree objects from a captured directory.
//!
//! A captured directory is an arena of nodes: node 0 is the path asked
//! for, and every child of a directory node stands at a larger index.

use vstd::prelude::*;
use vstd::string::*;
use vstd::multiset::Multiset;
use vstd::utf8::*;
use crate::digest::digest_spec;
use crate::error::StoreError;
use crate::exclude::{is_listed, listed};
use crate::object::{
    create_dir_body, directory_kind, encode_object, encoded, entries_view, file_kind, kind_word,
    tree_body, DirectoryNode,
};
use crate::order::EntryView;
use crate::snapshot::{is_within, within};
use crate::store::{appended, join, join_path, lemma_appended_none, lemma_appended_trans, meta_dir_name, ObjectManager, ObjectRecord};

verus! {

/// One child of a captured directory: its name and the index of its node.
pub struct FsChild {
    pub name: String,
    pub index: usize,
}

/// One captured path.
pub enum FsNode {
    /// Nothing exists at the path.
    Missing,
    /// A regular file and its content.
    File { content: Vec<u8> },
    /// A directory, the content of its exclusion list (empty if it has
    /// none), and its children.
    Dir { excludes: String, children: Vec<FsChild> },
    /// Something else: a device, a socket, a fifo.
    Special,
}

/// A captured directory tree, with the path of each node.
pub struct FsTree {
    pub nodes: Vec<FsNode>,
    pub paths: Vec<String>,
}

impl FsTree {
    pub open spec fn wf(&self) -> bool {
        &&& self.nodes@.len() >= 1
        &&& self.paths@.len() == self.nodes@.len()
        &&& forall|i: int| 0 <= i < self.nodes@.len() ==> children_ahead(self.nodes@, i)
        &&& forall|i: int| 0 <= i < self.nodes@.len() ==> child_paths(self.nodes@, self.paths@, i)
    }

    /// Is the capture well formed: a path per node, and every child after
    /// its directory?
    pub fn is_wf(&self) -> (r: bool)
        ensures
            r == self.wf(),
    {
        let n = self.nodes.len();
        if n == 0 || self.paths.len() != n {
            return false;
        }
        let mut i: usize = 0;
        while i < n
            invariant
                n == self.nodes@.len(),
                i <= n,
                self.paths@.len() == n,
                forall|j: int| 0 <= j < i ==> children_ahead(self.nodes@, j),
                forall|j: int| 0 <= j < i ==> child_paths(self.nodes@, self.paths@, j),
            decreases n - i,
        {
            if let FsNode::Dir { children, .. } = &self.nodes[i] {
                let mut k: usize = 0;
                while k < children.len()
                    invariant
                        n == self.nodes@.len(),
                        i < n,
                        self.nodes@[i as int] matches FsNode::Dir { children: ch, .. } && ch == *children,
                        k <= children@.len(),
                        self.paths@.len() == n,
                        forall|m: int| 0 <= m < k ==> i < #[trigger] children@[m].index < n,
                        forall|m: int| 0 <= m < k ==> self.paths@[(#[trigger] children@[m]).index as int]@ == join(self.paths@[i as int]@, children@[m].name@),
                    decreases children.len() - k,
                {
                    let x = children[k].index;
                    if !(i < x && x < n) {
                        assert(!children_ahead(self.nodes@, i as int));
                        return false;
                    }
                    let expected = join_path(self.paths[i].as_str(), children[k].name.as_str());
                    if !crate::store::str_eq(self.paths[x].as_str(), expected.as_str()) {
                        assert(!child_paths(self.nodes@, self.paths@, i as int));
                        return false;
                    }
                    k = k + 1;
                }
            }
            assert(children_ahead(self.nodes@, i as int));
            assert(child_paths(self.nodes@, self.paths@, i as int));
            i = i + 1;
        }
        true
    }
}

/// Every child of node `i` stands after it.
pub open spec fn children_ahead(nodes: Seq<FsNode>, i: int) -> bool {
    match #[trigger] nodes[i] {
        FsNode::Dir { children, .. } => forall|k: int|
            0 <= k < children@.len() ==> i < #[trigger] children@[k].index < nodes.len(),
        _ => true,
    }
}

/// The path of each child of node `i` is the directory's path joined with
/// the child's name.
pub open spec fn child_paths(nodes: Seq<FsNode>, paths: Seq<String>, i: int) -> bool {
    match #[trigger] nodes[i] {
        FsNode::Dir { children, .. } => forall|k: int|
            0 <= k < children@.len() ==> paths[(#[trigger] children@[k]).index as int]@ == join(paths[i]@, children@[k].name@),
        _ => true,
    }
}

/// A child left out of its directory's tree: a name with a newline cannot
/// be encoded, the store's own directory is never hashed, and the
/// directory's exclusion list may name it.
pub open spec fn skipped(excludes: Seq<char>, name: Seq<char>, at_root: bool) -> bool {
    ||| name.contains('\n')
    ||| (at_root && name == meta_dir_name())
    ||| listed(excludes, name)
}

/// The encoding of node `i`, or the index of the node that cannot be
/// stored. `at_root` says that node 0 is the managed root.
pub open spec fn node_encoding(nodes: Seq<FsNode>, at_root: bool, i: int) -> Result<Seq<u8>, int>
    decreases nodes.len() - i, 1nat, 0nat,
{
    if !(0 <= i < nodes.len()) {
        Err(i)
    } else {
        match nodes[i] {
            FsNode::File { content } => Ok(encoded(file_kind(), content@)),
            FsNode::Dir { children, .. } => match dir_entries(nodes, at_root, i, children@.len()) {
                Ok(es) => Ok(encoded(directory_kind(), tree_body(es))),
                Err(j) => Err(j),
            },
            _ => Err(i),
        }
    }
}

/// The digest of node `i`, or the index of the node that cannot be stored.
pub open spec fn node_result(nodes: Seq<FsNode>, at_root: bool, i: int) -> Result<Seq<char>, int> {
    match node_encoding(nodes, at_root, i) {
        Ok(e) => Ok(digest_spec(e)),
        Err(j) => Err(j),
    }
}

/// The entries of the first `k` children of directory node `i`.
pub open spec fn dir_entries(nodes: Seq<FsNode>, at_root: bool, i: int, k: nat) -> Result<Seq<EntryView>, int>
    decreases nodes.len() - i, 0nat, k,
{
    if !(0 <= i < nodes.len()) || k == 0 {
        Ok(Seq::empty())
    } else {
        match nodes[i] {
            FsNode::Dir { excludes, children } => if k > children@.len() {
                Ok(Seq::empty())
            } else {
                match dir_entries(nodes, at_root, i, (k - 1) as nat) {
                    Err(j) => Err(j),
                    Ok(es) => {
                        let c = children@[k - 1];
                        if skipped(excludes@, c.name@, at_root && i == 0) {
                            Ok(es)
                        } else if !(i < c.index < nodes.len()) {
                            Err(c.index as int)
                        } else {
                            match node_encoding(nodes, at_root, c.index as int) {
                                Err(j) => Err(j),
                                Ok(e) => Ok(es.push((encode_utf8(digest_spec(e)), encode_utf8(c.name@)))),
                            }
                        }
                    },
                }
            },
            _ => Ok(Seq::empty()),
        }
    }
}

/// The encodings stored for node `i`, in the order they are stored: for a
/// directory, those of its kept children, then its own.
pub open spec fn node_records(nodes: Seq<FsNode>, at_root: bool, i: int) -> Seq<Seq<u8>>
    decreases nodes.len() - i, 1nat, 0nat,
{
    if !(0 <= i < nodes.len()) {
        Seq::empty()
    } else {
        match nodes[i] {
            FsNode::File { content } => seq![encoded(file_kind(), content@)],
            FsNode::Dir { children, .. } => match node_encoding(nodes, at_root, i) {
                Ok(e) => dir_records(nodes, at_root, i, children@.len()) + seq![e],
                Err(_) => Seq::empty(),
            },
            _ => Seq::empty(),
        }
    }
}

/// The encodings stored for the first `k` children of directory node `i`.
pub open spec fn dir_records(nodes: Seq<FsNode>, at_root: bool, i: int, k: nat) -> Seq<Seq<u8>>
    decreases nodes.len() - i, 0nat, k,
{
    if !(0 <= i < nodes.len()) || k == 0 {
        Seq::empty()
    } else {
        match nodes[i] {
            FsNode::Dir { excludes, children } => if k > children@.len() {
                Seq::empty()
            } else {
                let prev = dir_records(nodes, at_root, i, (k - 1) as nat);
                let c = children@[k - 1];
                if skipped(excludes@, c.name@, at_root && i == 0) || !(i < c.index < nodes.len()) {
                    prev
                } else {
                    prev + node_records(nodes, at_root, c.index as int)
                }
            },
            _ => Seq::empty(),
        }
    }
}

/// Once a child fails, the directory fails with it.
proof fn lemma_dir_entries_err_stays(nodes: Seq<FsNode>, at_root: bool, i: int, k: nat, k2: nat, j: int)
    requires
        dir_entries(nodes, at_root, i, k) == Err::<Seq<EntryView>, int>(j),
        k <= k2,
        0 <= i < nodes.len(),
        nodes[i] matches FsNode::Dir { children, .. } && k2 <= children@.len(),
    ensures
        dir_entries(nodes, at_root, i, k2) == Err::<Seq<EntryView>, int>(j),
    decreases k2 - k,
{
    if k < k2 {
        lemma_dir_entries_err_stays(nodes, at_root, i, k, (k2 - 1) as nat, j);
    }
}

/// `e` is the error that node `j` gives.
pub open spec fn node_error(t: &FsTree, j: int, e: StoreError) -> bool {
    0 <= j < t.nodes@.len() && match t.nodes@[j] {
        FsNode::Missing => e matches StoreError::PathNotFound(p) && p@ == t.paths@[j]@,
        _ => e matches StoreError::UnsupportedPathType(p) && p@ == t.paths@[j]@,
    }
}

/// Is the child left out of its directory's tree?
pub fn skip_child(excludes: &str, name: &str, at_root: bool) -> (r: bool)
    ensures
        r == skipped(excludes@, name@, at_root),
{
    let n = name.unicode_len();
    let mut k: usize = 0;
    while k < n
        invariant
            k <= n == name@.len(),
            forall|q: int| 0 <= q < k ==> name@[q] != '\n',
        decreases n - k,
    {
        if name.get_char(k) == '\n' {
            assert(name@[k as int] == '\n');
            return true;
        }
        k = k + 1;
    }
    assert(!name@.contains('\n'));
    if at_root {
        proof {
            reveal_strlit(".minvcs");
        }
        assert(".minvcs"@ =~= meta_dir_name());
        if crate::store::str_eq(name, ".minvcs") {
            return true;
        }
    }
    is_listed(excludes, name)
}

/// A child that its directory's exclusion list names has no entry in the
/// directory's tree: it is neither hashed nor stored.
pub proof fn lemma_excluded_child_absent(nodes: Seq<FsNode>, at_root: bool, i: int, k: nat, name: Seq<char>)
    requires
        0 <= i < nodes.len(),
        nodes[i] matches FsNode::Dir { excludes, children } && listed(excludes@, name) && k <= children@.len(),
    ensures
        dir_entries(nodes, at_root, i, k) matches Ok(es) ==> forall|m: int| 0 <= m < es.len() ==> (#[trigger] es[m]).1 != encode_utf8(name),
    decreases k,
{
    broadcast use encode_utf8_decode_utf8;

    if k > 0 {
        lemma_excluded_child_absent(nodes, at_root, i, (k - 1) as nat, name);
        if let FsNode::Dir { excludes, children } = nodes[i] {
            let c = children@[k - 1];
            if encode_utf8(c.name@) == encode_utf8(name) {
                assert(decode_utf8(encode_utf8(c.name@)) == c.name@);
                assert(c.name@ == name);
            }
        }
    }
}

proof fn lemma_frame_node(a: Seq<FsNode>, b: Seq<FsNode>, at_root: bool, c: int)
    requires
        a.len() == b.len(),
        forall|m: int| c <= m < a.len() ==> a[m] == b[m],
    ensures
        node_encoding(a, at_root, c) == node_encoding(b, at_root, c),
        node_records(a, at_root, c) == node_records(b, at_root, c),
    decreases a.len() - c, 1nat, 0nat,
{
    if 0 <= c < a.len() {
        if let FsNode::Dir { children, .. } = a[c] {
            lemma_frame_entries(a, b, at_root, c, children@.len());
        }
    }
}

proof fn lemma_frame_entries(a: Seq<FsNode>, b: Seq<FsNode>, at_root: bool, c: int, k: nat)
    requires
        a.len() == b.len(),
        forall|m: int| c <= m < a.len() ==> a[m] == b[m],
    ensures
        dir_entries(a, at_root, c, k) == dir_entries(b, at_root, c, k),
        dir_records(a, at_root, c, k) == dir_records(b, at_root, c, k),
    decreases a.len() - c, 0nat, k,
{
    if 0 <= c < a.len() && k > 0 {
        if let FsNode::Dir { children, .. } = a[c] {
            if k <= children@.len() {
                lemma_frame_entries(a, b, at_root, c, (k - 1) as nat);
                let x = children@[k - 1].index as int;
                if c < x < a.len() {
                    lemma_frame_node(a, b, at_root, x);
                }
            }
        }
    }
}

proof fn lemma_drop_excluded_prefix(a: Seq<FsNode>, b: Seq<FsNode>, at_root: bool, i: int, m: int, k: nat)
    requires
        a.len() == b.len(),
        0 <= i < a.len(),
        forall|x: int| i < x < a.len() ==> a[x] == b[x],
        a[i] matches FsNode::Dir { excludes: ea, children: ca } && b[i] matches FsNode::Dir { excludes: eb, children: cb }
            && ea@ == eb@ && 0 <= m < ca@.len() && cb@ == ca@.remove(m) && listed(ea@, ca@[m].name@),
        k <= a[i]->Dir_children@.len(),
    ensures
        k <= m ==> dir_entries(a, at_root, i, k) == dir_entries(b, at_root, i, k) && dir_records(a, at_root, i, k) == dir_records(b, at_root, i, k),
        k > m ==> dir_entries(a, at_root, i, k) == dir_entries(b, at_root, i, (k - 1) as nat) && dir_records(a, at_root, i, k) == dir_records(b, at_root, i, (k - 1) as nat),
    decreases k,
{
    if k > 0 {
        lemma_drop_excluded_prefix(a, b, at_root, i, m, (k - 1) as nat);
        if let (FsNode::Dir { children: ca, .. }, FsNode::Dir { children: cb, .. }) = (a[i], b[i]) {
            let c = ca@[k - 1];
            if k - 1 != m {
                let kb = if k - 1 < m { k - 1 } else { k - 2 };
                assert(cb@[kb] == c);
                if i < c.index < a.len() {
                    lemma_frame_node(a, b, at_root, c.index as int);
                }
            }
        }
    }
}

/// A child that its directory's exclusion list names is neither hashed nor
/// stored, and cannot make the directory fail: the directory is stored
/// exactly as if the child were not there.
pub proof fn lemma_excluded_child_ignored(a: Seq<FsNode>, b: Seq<FsNode>, at_root: bool, i: int, m: int)
    requires
        a.len() == b.len(),
        0 <= i < a.len(),
        forall|x: int| i < x < a.len() ==> a[x] == b[x],
        a[i] matches FsNode::Dir { excludes: ea, children: ca } && b[i] matches FsNode::Dir { excludes: eb, children: cb }
            && ea@ == eb@ && 0 <= m < ca@.len() && cb@ == ca@.remove(m) && listed(ea@, ca@[m].name@),
    ensures
        node_encoding(a, at_root, i) == node_encoding(b, at_root, i),
        node_records(a, at_root, i) == node_records(b, at_root, i),
{
    if let FsNode::Dir { children: ca, .. } = a[i] {
        lemma_drop_excluded_prefix(a, b, at_root, i, m, ca@.len());
    }
}

/// What child `c` of directory node `i` adds to the directory's entries.
pub open spec fn contribution(nodes: Seq<FsNode>, at_root: bool, i: int, ex: Seq<char>, c: FsChild) -> Multiset<EntryView> {
    let name = encode_utf8(c.name@);
    if skipped(ex, c.name@, at_root && i == 0) {
        Multiset::empty()
    } else {
        match node_result(nodes, at_root, c.index as int) {
            Ok(d) => Multiset::singleton((encode_utf8(d), name)),
            Err(_) => Multiset::empty(),
        }
    }
}

/// Child `c` of directory node `i` is skipped or can be stored.
pub open spec fn child_ok(nodes: Seq<FsNode>, at_root: bool, i: int, ex: Seq<char>, c: FsChild) -> bool {
    ||| skipped(ex, c.name@, at_root && i == 0)
    ||| (i < c.index < nodes.len() && node_result(nodes, at_root, c.index as int) is Ok)
}

pub open spec fn bag(nodes: Seq<FsNode>, at_root: bool, i: int, ex: Seq<char>, cs: Seq<FsChild>) -> Multiset<EntryView>
    decreases cs.len(),
{
    if cs.len() == 0 {
        Multiset::empty()
    } else {
        bag(nodes, at_root, i, ex, cs.drop_last()).add(contribution(nodes, at_root, i, ex, cs.last()))
    }
}

proof fn lemma_dir_entries_bag(nodes: Seq<FsNode>, at_root: bool, i: int, ex: Seq<char>, children: Seq<FsChild>, k: nat)
    requires
        0 <= i < nodes.len(),
        nodes[i] matches FsNode::Dir { excludes, children: ch } && excludes@ == ex && ch@ == children,
        k <= children.len(),
    ensures
        dir_entries(nodes, at_root, i, k) is Ok <==> forall|m: int| 0 <= m < k ==> child_ok(nodes, at_root, i, ex, #[trigger] children[m]),
        dir_entries(nodes, at_root, i, k) matches Ok(es) ==> es.to_multiset() == bag(nodes, at_root, i, ex, children.subrange(0, k as int)),
    decreases k,
{
    broadcast use vstd::seq_lib::group_to_multiset_ensures;

    let cs = children.subrange(0, k as int);
    if k == 0 {
        assert(Seq::<EntryView>::empty().to_multiset() =~= Multiset::empty());
    } else {
        lemma_dir_entries_bag(nodes, at_root, i, ex, children, (k - 1) as nat);
        let prev = children.subrange(0, k - 1);
        assert(cs.drop_last() =~= prev);
        assert(cs.last() == children[k - 1]);
        let c = children[k - 1];
        let name = encode_utf8(c.name@);
        match dir_entries(nodes, at_root, i, (k - 1) as nat) {
            Ok(es) => {
                if skipped(ex, c.name@, at_root && i == 0) {
                    assert(bag(nodes, at_root, i, ex, cs) =~= bag(nodes, at_root, i, ex, prev));
                } else if !(i < c.index < nodes.len()) {
                    assert(!child_ok(nodes, at_root, i, ex, children[k - 1]));
                } else {
                    match node_result(nodes, at_root, c.index as int) {
                        Ok(d) => {
                            assert(es.push((encode_utf8(d), name)).to_multiset()
                                =~= es.to_multiset().add(Multiset::singleton((encode_utf8(d), name))));
                        },
                        Err(_) => {
                            assert(!child_ok(nodes, at_root, i, ex, children[k - 1]));
                        },
                    }
                }
            },
            Err(_) => {
                let m0 = choose|m: int| 0 <= m < k - 1 && !child_ok(nodes, at_root, i, ex, #[trigger] children[m]);
                assert(!child_ok(nodes, at_root, i, ex, children[m0]));
            },
        }
    }
}

proof fn lemma_bag_remove(nodes: Seq<FsNode>, at_root: bool, i: int, ex: Seq<char>, cs: Seq<FsChild>, j: int)
    requires
        0 <= j < cs.len(),
    ensures
        bag(nodes, at_root, i, ex, cs) == bag(nodes, at_root, i, ex, cs.remove(j)).add(contribution(nodes, at_root, i, ex, cs[j])),
    decreases cs.len(),
{
    if j == cs.len() - 1 {
        assert(cs.remove(j) =~= cs.drop_last());
    } else {
        let d = cs.drop_last();
        lemma_bag_remove(nodes, at_root, i, ex, d, j);
        assert(cs.remove(j).drop_last() =~= d.remove(j));
        assert(cs.remove(j).last() == cs.last());
        assert(d[j] == cs[j]);
        let f = |c: FsChild| contribution(nodes, at_root, i, ex, c);
        assert(bag(nodes, at_root, i, ex, cs) =~= bag(nodes, at_root, i, ex, d.remove(j)).add(f(cs[j])).add(f(cs.last())));
        assert(bag(nodes, at_root, i, ex, cs.remove(j)) =~= bag(nodes, at_root, i, ex, d.remove(j)).add(f(cs.last())));
    }
}

proof fn lemma_bag_permutation(nodes: Seq<FsNode>, at_root: bool, i: int, ex: Seq<char>, s: Seq<FsChild>, t: Seq<FsChild>)
    requires
        s.to_multiset() == t.to_multiset(),
    ensures
        bag(nodes, at_root, i, ex, s) == bag(nodes, at_root, i, ex, t),
    decreases s.len(),
{
    broadcast use vstd::seq_lib::group_to_multiset_ensures;

    if s.len() == 0 {
        assert(t.len() == t.to_multiset().len());
        assert(t =~= Seq::<FsChild>::empty());
    } else {
        let x = s.last();
        assert(s.to_multiset().count(x) > 0) by {
            assert(s.contains(x)) by {
                assert(s[s.len() - 1] == x);
            }
        }
        assert(t.contains(x));
        let j = choose|j: int| 0 <= j < t.len() && t[j] == x;
        let s1 = s.drop_last();
        let t1 = t.remove(j);
        assert(s1 =~= s.remove(s.len() - 1));
        assert(s1.to_multiset() =~= s.to_multiset().remove(x));
        assert(t1.to_multiset() =~= t.to_multiset().remove(x));
        lemma_bag_permutation(nodes, at_root, i, ex, s1, t1);
        lemma_bag_remove(nodes, at_root, i, ex, t, j);
    }
}

/// Child `c` of a capture, renumbered by `pi`.
pub open spec fn relabel(pi: Seq<int>, c: FsChild) -> FsChild {
    FsChild { name: c.name, index: pi[c.index as int] as usize }
}

/// Node `i` of `a` and node `pi[i]` of `b` capture the same path: equal
/// contents, equal exclusion lists, and the same children renumbered by
/// `pi`, in any order.
pub open spec fn corresponds(a: Seq<FsNode>, b: Seq<FsNode>, pi: Seq<int>, i: int) -> bool {
    match (a[i], b[pi[i]]) {
        (FsNode::File { content: x }, FsNode::File { content: y }) => x@ == y@,
        (FsNode::Dir { excludes: ea, children: ca }, FsNode::Dir { excludes: eb, children: cb }) => {
            &&& ea@ == eb@
            &&& cb@.to_multiset() == ca@.map_values(|c: FsChild| relabel(pi, c)).to_multiset()
        },
        (FsNode::Missing, FsNode::Missing) => true,
        (FsNode::Special, FsNode::Special) => true,
        _ => false,
    }
}

/// `b` captures the same directory as `a`, node `i` of `a` standing at
/// `pi[i]` of `b`, with each directory's children listed in any order.
pub open spec fn same_capture(a: Seq<FsNode>, b: Seq<FsNode>, pi: Seq<int>) -> bool {
    &&& pi.len() == a.len()
    &&& b.len() <= usize::MAX
    &&& forall|i: int| 0 <= i < a.len() ==> 0 <= #[trigger] pi[i] < b.len() && (pi[i] == 0 <==> i == 0)
    &&& forall|i: int| 0 <= i < a.len() ==> #[trigger] corresponds(a, b, pi, i)
    &&& forall|i: int| 0 <= i < a.len() ==> #[trigger] children_ahead(a, i)
    &&& forall|j: int| 0 <= j < b.len() ==> #[trigger] children_ahead(b, j)
}

proof fn lemma_bag_relabel(a: Seq<FsNode>, b: Seq<FsNode>, pi: Seq<int>, at_root: bool, i: int, ex: Seq<char>, cs: Seq<FsChild>)
    requires
        same_capture(a, b, pi),
        0 <= i < a.len(),
        forall|k: int| 0 <= k < cs.len() ==> contribution(b, at_root, pi[i], ex, relabel(pi, #[trigger] cs[k])) == contribution(a, at_root, i, ex, cs[k]),
    ensures
        bag(b, at_root, pi[i], ex, cs.map_values(|c: FsChild| relabel(pi, c))) == bag(a, at_root, i, ex, cs),
    decreases cs.len(),
{
    if cs.len() > 0 {
        let d = cs.drop_last();
        assert forall|k: int| 0 <= k < d.len() implies contribution(b, at_root, pi[i], ex, relabel(pi, #[trigger] d[k])) == contribution(a, at_root, i, ex, d[k]) by {
            assert(d[k] == cs[k]);
        }
        lemma_bag_relabel(a, b, pi, at_root, i, ex, d);
        let m = cs.map_values(|c: FsChild| relabel(pi, c));
        assert(m.drop_last() =~= d.map_values(|c: FsChild| relabel(pi, c)));
        assert(m.last() == relabel(pi, cs.last()));
        assert(cs.last() == cs[cs.len() - 1]);
    }
}

/// Two captures of the same directory, whose directories list their
/// children in different orders (and so number their nodes differently),
/// store each path alike: one is stored exactly when the other is, with
/// the same encoding and so the same digest.
pub proof fn lemma_capture_order_independent(a: Seq<FsNode>, b: Seq<FsNode>, pi: Seq<int>, at_root: bool, i: int)
    requires
        same_capture(a, b, pi),
        0 <= i < a.len(),
    ensures
        node_encoding(a, at_root, i) is Ok <==> node_encoding(b, at_root, pi[i]) is Ok,
        node_encoding(a, at_root, i) is Ok ==> node_encoding(a, at_root, i) == node_encoding(b, at_root, pi[i]),
    decreases a.len() - i,
{
    broadcast use vstd::seq_lib::group_to_multiset_ensures;

    let j = pi[i];
    assert(corresponds(a, b, pi, i));
    assert(0 <= j < b.len() && (j == 0 <==> i == 0));
    if let (FsNode::Dir { excludes: ea, children: ca }, FsNode::Dir { excludes: eb, children: cb }) = (a[i], b[j]) {
        let ex = ea@;
        let n = ca@.len();
        let m = cb@.len();
        let mapped = ca@.map_values(|c: FsChild| relabel(pi, c));
        assert(children_ahead(a, i));
        assert(children_ahead(b, j));
        assert(n == ca@.to_multiset().len());
        assert(m == cb@.to_multiset().len());
        assert(mapped.len() == mapped.to_multiset().len());
        // each child fares alike in both captures
        assert forall|k: int| 0 <= k < n implies
            (child_ok(b, at_root, j, ex, relabel(pi, #[trigger] ca@[k])) == child_ok(a, at_root, i, ex, ca@[k])
            && contribution(b, at_root, j, ex, relabel(pi, ca@[k])) == contribution(a, at_root, i, ex, ca@[k])) by {
            let c = ca@[k];
            assert(i < c.index < a.len());
            assert(0 <= pi[c.index as int] < b.len());
            assert(relabel(pi, c).index as int == pi[c.index as int]);
            lemma_capture_order_independent(a, b, pi, at_root, c.index as int);
            assert(mapped[k] == relabel(pi, c));
            assert(mapped.to_multiset().count(mapped[k]) > 0) by { assert(mapped.contains(mapped[k])); }
            assert(cb@.contains(relabel(pi, c)));
            let q = choose|q: int| 0 <= q < m && cb@[q] == relabel(pi, c);
            assert(j < cb@[q].index < b.len());
        }
        lemma_dir_entries_bag(a, at_root, i, ex, ca@, n);
        lemma_dir_entries_bag(b, at_root, j, ex, cb@, m);
        assert(ca@.subrange(0, n as int) =~= ca@);
        assert(cb@.subrange(0, m as int) =~= cb@);
        let all_a = forall|k: int| 0 <= k < n ==> child_ok(a, at_root, i, ex, #[trigger] ca@[k]);
        let all_b = forall|k: int| 0 <= k < m ==> child_ok(b, at_root, j, ex, #[trigger] cb@[k]);
        assert(all_a ==> all_b) by {
            if all_a {
                assert forall|q: int| 0 <= q < m implies child_ok(b, at_root, j, ex, #[trigger] cb@[q]) by {
                    assert(cb@.to_multiset().count(cb@[q]) > 0) by { assert(cb@.contains(cb@[q])); }
                    assert(mapped.contains(cb@[q]));
                    let k = choose|k: int| 0 <= k < mapped.len() && mapped[k] == cb@[q];
                    assert(mapped[k] == relabel(pi, ca@[k]));
                    assert(child_ok(a, at_root, i, ex, ca@[k]));
                }
            }
        }
        assert(all_b ==> all_a) by {
            if all_b {
                assert forall|k: int| 0 <= k < n implies child_ok(a, at_root, i, ex, #[trigger] ca@[k]) by {
                    assert(mapped[k] == relabel(pi, ca@[k]));
                    assert(mapped.to_multiset().count(mapped[k]) > 0) by { assert(mapped.contains(mapped[k])); }
                    assert(cb@.contains(mapped[k]));
                    let q = choose|q: int| 0 <= q < m && cb@[q] == mapped[k];
                    assert(child_ok(b, at_root, j, ex, cb@[q]));
                }
            }
        }
        assert(dir_entries(a, at_root, i, n) is Ok <==> dir_entries(b, at_root, j, m) is Ok);
        if let (Ok(es_a), Ok(es_b)) = (dir_entries(a, at_root, i, n), dir_entries(b, at_root, j, m)) {
            lemma_bag_relabel(a, b, pi, at_root, i, ex, ca@);
            lemma_bag_permutation(b, at_root, j, ex, cb@, mapped);
            crate::object::lemma_tree_order_independent(es_a, es_b);
        }
    }
}

proof fn lemma_within_join(root: Seq<char>, p: Seq<char>, name: Seq<char>)
    requires
        within(root, p),
    ensures
        within(root, join(p, name)),
{
    let q = join(p, name);
    assert(q.subrange(0, root.len() as int) =~= p.subrange(0, root.len() as int) || p == root);
    if p == root {
        assert(q.subrange(0, root.len() as int) =~= root);
        assert(q[root.len() as int] == '/');
    } else {
        assert(q.subrange(0, root.len() as int) =~= p.subrange(0, root.len() as int));
        assert(q[root.len() as int] == p[root.len() as int]);
    }
}

proof fn lemma_prefix_trans(a: Seq<ObjectRecord>, b: Seq<ObjectRecord>, c: Seq<ObjectRecord>)
    requires
        a.len() <= b.len() <= c.len(),
        b.subrange(0, a.len() as int) == a,
        c.subrange(0, b.len() as int) == b,
    ensures
        c.subrange(0, a.len() as int) == a,
{
    assert forall|k: int| 0 <= k < a.len() implies c.subrange(0, a.len() as int)[k] == a[k] by {
        assert(c.subrange(0, b.len() as int)[k] == c[k]);
        assert(b.subrange(0, a.len() as int)[k] == b[k]);
    }
    assert(c.subrange(0, a.len() as int) =~= a);
}

impl ObjectManager {
    /// Stores node `i` and, for a directory, everything beneath it that is
    /// not skipped; returns the node's digest. A missing path and a path
    /// outside the managed root fail before anything is stored.
    pub fn store_file_tree(&self, t: &FsTree, at_root: bool, i: usize, out: &mut Vec<ObjectRecord>) -> (r: Result<String, StoreError>)
        requires
            t.wf(),
            i < t.nodes@.len(),
        ensures
            t.nodes@[i as int] is Missing ==> (r matches Err(StoreError::PathNotFound(p)) && p@ == t.paths@[i as int]@
                && final(out)@ == old(out)@),
            !(t.nodes@[i as int] is Missing) && !within(self.root_dir@, t.paths@[i as int]@) ==> (r matches Err(
                StoreError::OutOfScope(p),
            ) && p@ == t.paths@[i as int]@ && final(out)@ == old(out)@),
            within(self.root_dir@, t.paths@[i as int]@) ==> match node_encoding(t.nodes@, at_root, i as int) {
                Ok(enc) => r matches Ok(d) && d@ == digest_spec(enc) && appended(self, old(out)@, final(out)@, node_records(t.nodes@, at_root, i as int)),
                Err(j) => r matches Err(e) && node_error(t, j, e),
            },
            old(out)@.len() <= final(out)@.len(),
            final(out)@.subrange(0, old(out)@.len() as int) == old(out)@,
        decreases t.nodes@.len() - i,
    {
        proof {
            assert(old(out)@.subrange(0, old(out)@.len() as int) =~= old(out)@);
        }
        if let FsNode::Missing = &t.nodes[i] {
            return Err(StoreError::PathNotFound(t.paths[i].clone()));
        }
        if !is_within(self.root_dir.as_str(), t.paths[i].as_str()) {
            return Err(StoreError::OutOfScope(t.paths[i].clone()));
        }
        match &t.nodes[i] {
            FsNode::Missing => Err(StoreError::PathNotFound(t.paths[i].clone())),
            FsNode::Special => Err(StoreError::UnsupportedPathType(t.paths[i].clone())),
            FsNode::File { content } => {
                let w = kind_word(0);
                let enc = encode_object(w.as_slice(), content.as_slice());
                Ok(self.store_binary_compressed(enc.as_slice(), out))
            },
            FsNode::Dir { excludes, children } => {
                let mut entries: Vec<DirectoryNode> = Vec::new();
                let mut k: usize = 0;
                assert(entries_view(entries@) =~= Seq::<EntryView>::empty());
                proof {
                    assert(children_ahead(t.nodes@, i as int));
                    assert(child_paths(t.nodes@, t.paths@, i as int));
                    lemma_appended_none(self, out@);
                }
                while k < children.len()
                    invariant
                        t.wf(),
                        i < t.nodes@.len(),
                        t.nodes@[i as int] == (FsNode::Dir { excludes: *excludes, children: *children }),
                        within(self.root_dir@, t.paths@[i as int]@),
                        k <= children@.len(),
                        dir_entries(t.nodes@, at_root, i as int, k as nat) == Ok::<Seq<EntryView>, int>(entries_view(entries@)),
                        appended(self, old(out)@, out@, dir_records(t.nodes@, at_root, i as int, k as nat)),
                    decreases children@.len() - k,
                {
                    let c = &children[k];
                    let ghost before = entries@;
                    let ghost out_before = out@;
                    proof {
                        assert(children_ahead(t.nodes@, i as int));
                        assert(child_paths(t.nodes@, t.paths@, i as int));
                        assert(t.paths@[c.index as int]@ == join(t.paths@[i as int]@, c.name@));
                        lemma_within_join(self.root_dir@, t.paths@[i as int]@, c.name@);
                    }
                    if !skip_child(excludes.as_str(), c.name.as_str(), at_root && i == 0) {
                        match self.store_file_tree(t, at_root, c.index, out) {
                            Ok(d) => {
                                entries.push(DirectoryNode::new(c.name.clone(), d));
                                assert(entries_view(entries@) =~= entries_view(before).push(entries@.last()@));
                                proof {
                                    lemma_appended_trans(
                                        self,
                                        old(out)@,
                                        out_before,
                                        out@,
                                        dir_records(t.nodes@, at_root, i as int, k as nat),
                                        node_records(t.nodes@, at_root, c.index as int),
                                    );
                                }
                            },
                            Err(e) => {
                                proof {
                                    if let Err(j) = node_encoding(t.nodes@, at_root, c.index as int) {
                                        lemma_dir_entries_err_stays(t.nodes@, at_root, i as int, (k + 1) as nat, children@.len(), j);
                                    }
                                    lemma_prefix_trans(old(out)@, out_before, out@);
                                }
                                return Err(e);
                            },
                        }
                    } else {
                        assert(dir_records(t.nodes@, at_root, i as int, (k + 1) as nat) == dir_records(t.nodes@, at_root, i as int, k as nat));
                    }
                    k = k + 1;
                }
                let body = create_dir_body(&mut entries);
                let w = kind_word(1);
                let enc = encode_object(w.as_slice(), body.as_slice());
                let ghost out_before = out@;
                let d = self.store_binary_compressed(enc.as_slice(), out);
                proof {
                    lemma_appended_trans(
                        self,
                        old(out)@,
                        out_before,
                        out@,
                        dir_records(t.nodes@, at_root, i as int, children@.len()),
                        seq![enc@],
                    );
                }
                Ok(d)
            },
        }
    }
}

} // verus!

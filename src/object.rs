//! The three object kinds and their canonical encoding:
//! `"<kind> <body length>\0" + body`.

use vstd::prelude::*;
use vstd::multiset::Multiset;
use vstd::relations::*;
use vstd::utf8::*;
use crate::digest::digest_spec;
use crate::order::{
    bytes_le, entry_le, entry_order, lemma_entry_reflexive, lemma_entry_total,
    lemma_entry_total_ordering, lemma_entry_transitive, lemma_lex_antisymmetric, lemma_lex_total,
    sorted_entries, EntryView,
};

verus! {

/// One entry of a tree: a child's name and the digest of its object.
pub struct DirectoryNode {
    pub name: String,
    pub hash: String,
}

impl View for DirectoryNode {
    type V = EntryView;

    /// The bytes the encoding writes: (digest, name).
    open spec fn view(&self) -> EntryView {
        (encode_utf8(self.hash@), encode_utf8(self.name@))
    }
}

impl DirectoryNode {
    pub fn new(name: String, hash: String) -> (r: DirectoryNode)
        ensures
            r.name@ == name@,
            r.hash@ == hash@,
    {
        DirectoryNode { name, hash }
    }
}

/// What a snapshot records besides its tree.
pub struct SnapshotMetadata {
    pub author: String,
    pub comment: String,
    pub parents: Vec<String>,
}

/// An object as read back from the store, with the digest it was stored under.
pub enum StoredObject {
    File { body: Vec<u8>, hash: String },
    Directory { children: Vec<DirectoryNode>, hash: String },
    Snapshot { body: Vec<u8>, hash: String },
}

/// The content of an object, as a mathematical value.
pub enum ObjectView {
    File { body: Seq<u8> },
    Directory { entries: Seq<EntryView> },
    Snapshot { body: Seq<u8> },
}

pub open spec fn entries_view(s: Seq<DirectoryNode>) -> Seq<EntryView> {
    s.map_values(|n: DirectoryNode| n@)
}

impl StoredObject {
    pub open spec fn content(&self) -> ObjectView {
        match self {
            StoredObject::File { body, .. } => ObjectView::File { body: body@ },
            StoredObject::Directory { children, .. } => ObjectView::Directory {
                entries: entries_view(children@),
            },
            StoredObject::Snapshot { body, .. } => ObjectView::Snapshot { body: body@ },
        }
    }

    pub open spec fn digest(&self) -> Seq<char> {
        match self {
            StoredObject::File { hash, .. } => hash@,
            StoredObject::Directory { hash, .. } => hash@,
            StoredObject::Snapshot { hash, .. } => hash@,
        }
    }
}

/// The byte of `' '`.
pub const SPACE: u8 = 32;

/// The byte of `'\\n'`.
pub const NEWLINE: u8 = 10;

/// `"file"`
pub open spec fn file_kind() -> Seq<u8> {
    seq![102u8, 105u8, 108u8, 101u8]
}

/// `"directory"`
pub open spec fn directory_kind() -> Seq<u8> {
    seq![100u8, 105u8, 114u8, 101u8, 99u8, 116u8, 111u8, 114u8, 121u8]
}

/// `"snapshot"`
pub open spec fn snapshot_kind() -> Seq<u8> {
    seq![115u8, 110u8, 97u8, 112u8, 115u8, 104u8, 111u8, 116u8]
}

/// Decimal digits of `n`, most significant first, no leading zeros.
pub open spec fn decimal(n: nat) -> Seq<u8>
    decreases n,
{
    if n < 10 {
        seq![(n + 48) as u8]
    } else {
        decimal(n / 10).push((n % 10 + 48) as u8)
    }
}

/// `"<kind> <len>\0" + body`.
pub open spec fn encoded(kind: Seq<u8>, body: Seq<u8>) -> Seq<u8> {
    kind + seq![SPACE] + decimal(body.len()) + seq![0u8] + body
}

/// `"<digest> <name>\n"`.
pub open spec fn entry_line(e: EntryView) -> Seq<u8> {
    e.0 + seq![SPACE] + e.1 + seq![NEWLINE]
}

/// The lines of the entries, in the order given.
pub open spec fn tree_lines(s: Seq<EntryView>) -> Seq<u8>
    decreases s.len(),
{
    if s.len() == 0 {
        Seq::empty()
    } else {
        entry_line(s[0]) + tree_lines(s.drop_first())
    }
}

/// A tree's body: one line per entry, in canonical order.
pub open spec fn tree_body(s: Seq<EntryView>) -> Seq<u8> {
    tree_lines(sorted_entries(s))
}

/// `"parent:" + p + "\n"` for each parent.
pub open spec fn parent_lines(parents: Seq<Seq<u8>>) -> Seq<u8>
    decreases parents.len(),
{
    if parents.len() == 0 {
        Seq::empty()
    } else {
        seq![112u8, 97u8, 114u8, 101u8, 110u8, 116u8, 58u8] + parents[0] + seq![NEWLINE]
            + parent_lines(parents.drop_first())
    }
}

/// A snapshot's body: tree digest, author, parents, a blank line, the comment.
pub open spec fn snapshot_body(
    tree: Seq<u8>,
    author: Seq<u8>,
    parents: Seq<Seq<u8>>,
    comment: Seq<u8>,
) -> Seq<u8> {
    tree + seq![NEWLINE] + seq![97u8, 117u8, 116u8, 104u8, 111u8, 114u8, 58u8] + author + seq![NEWLINE]
        + parent_lines(parents) + seq![NEWLINE] + comment
}

/// The canonical encoding of an object.
pub open spec fn encode_spec(o: ObjectView) -> Seq<u8> {
    match o {
        ObjectView::File { body } => encoded(file_kind(), body),
        ObjectView::Directory { entries } => encoded(directory_kind(), tree_body(entries)),
        ObjectView::Snapshot { body } => encoded(snapshot_kind(), body),
    }
}

proof fn lemma_tree_lines_push(s: Seq<EntryView>, e: EntryView)
    ensures
        tree_lines(s.push(e)) == tree_lines(s) + entry_line(e),
    decreases s.len(),
{
    if s.len() == 0 {
        assert(s.push(e).drop_first() =~= Seq::<EntryView>::empty());
        assert(tree_lines(Seq::<EntryView>::empty()) =~= Seq::<u8>::empty());
        assert(s.push(e)[0] == e);
        assert(tree_lines(s.push(e)) =~= entry_line(e) + Seq::<u8>::empty());
        assert(tree_lines(s) + entry_line(e) =~= entry_line(e));
    } else {
        assert(s.push(e).drop_first() =~= s.drop_first().push(e));
        lemma_tree_lines_push(s.drop_first(), e);
        assert(tree_lines(s.push(e)) =~= entry_line(s[0]) + (tree_lines(s.drop_first()) + entry_line(e)));
    }
}

proof fn lemma_parent_lines_push(s: Seq<Seq<u8>>, p: Seq<u8>)
    ensures
        parent_lines(s.push(p)) == parent_lines(s) + (seq![112u8, 97u8, 114u8, 101u8, 110u8, 116u8, 58u8] + p + seq![NEWLINE]),
    decreases s.len(),
{
    let l = seq![112u8, 97u8, 114u8, 101u8, 110u8, 116u8, 58u8] + p + seq![NEWLINE];
    if s.len() == 0 {
        assert(s.push(p).drop_first() =~= Seq::<Seq<u8>>::empty());
        assert(parent_lines(Seq::<Seq<u8>>::empty()) =~= Seq::<u8>::empty());
        assert(s.push(p)[0] == p);
        assert(parent_lines(s.push(p)) =~= l + Seq::<u8>::empty());
        assert(parent_lines(s) + l =~= l);
    } else {
        assert(s.push(p).drop_first() =~= s.drop_first().push(p));
        lemma_parent_lines_push(s.drop_first(), p);
        let h = seq![112u8, 97u8, 114u8, 101u8, 110u8, 116u8, 58u8] + s[0] + seq![NEWLINE];
        assert(parent_lines(s.push(p)) =~= h + (parent_lines(s.drop_first()) + l));
    }
}

/// Appends the decimal digits of `n`.
fn push_decimal(out: &mut Vec<u8>, n: usize)
    ensures
        final(out)@ == old(out)@ + decimal(n as nat),
    decreases n,
{
    if n < 10 {
        out.push((n + 48) as u8);
        assert(final(out)@ =~= old(out)@ + decimal(n as nat));
    } else {
        push_decimal(out, n / 10);
        out.push((n % 10 + 48) as u8);
        assert(final(out)@ =~= old(out)@ + decimal(n as nat));
    }
}

/// Appends a byte string.
pub(crate) fn push_all(out: &mut Vec<u8>, s: &[u8])
    ensures
        final(out)@ == old(out)@ + s@,
{
    let mut i: usize = 0;
    while i < s.len()
        invariant
            i <= s@.len(),
            out@ == old(out)@ + s@.subrange(0, i as int),
        decreases s.len() - i,
    {
        out.push(s[i]);
        assert(s@.subrange(0, i + 1) =~= s@.subrange(0, i as int).push(s@[i as int]));
        i = i + 1;
    }
    assert(s@.subrange(0, s@.len() as int) =~= s@);
}

/// The bytes of a kind word.
pub fn kind_word(kind: u8) -> (r: Vec<u8>)
    requires
        kind < 3,
    ensures
        kind == 0 ==> r@ == file_kind(),
        kind == 1 ==> r@ == directory_kind(),
        kind == 2 ==> r@ == snapshot_kind(),
{
    let r = if kind == 0 {
        vec![102u8, 105u8, 108u8, 101u8]
    } else if kind == 1 {
        vec![100u8, 105u8, 114u8, 101u8, 99u8, 116u8, 111u8, 114u8, 121u8]
    } else {
        vec![115u8, 110u8, 97u8, 112u8, 115u8, 104u8, 111u8, 116u8]
    };
    assert(r@ =~= file_kind() || r@ =~= directory_kind() || r@ =~= snapshot_kind());
    r
}

/// `"<kind> <len>\0" + body`.
pub fn encode_object(kind: &[u8], body: &[u8]) -> (r: Vec<u8>)
    ensures
        r@ == encoded(kind@, body@),
{
    let mut r: Vec<u8> = Vec::new();
    push_all(&mut r, kind);
    r.push(SPACE);
    push_decimal(&mut r, body.len());
    r.push(0u8);
    push_all(&mut r, body);
    assert(r@ =~= encoded(kind@, body@));
    r
}

/// Moves the entries into canonical order: the least remaining entry is
/// taken out and appended, until none remain.
pub fn sort_entries(children: &mut Vec<DirectoryNode>)
    ensures
        entries_view(final(children)@).to_multiset() == entries_view(old(children)@).to_multiset(),
        sorted_by(entries_view(final(children)@), entry_order()),
{
    broadcast use vstd::seq_lib::group_to_multiset_ensures;

    let mut out: Vec<DirectoryNode> = Vec::new();
    let ghost orig = entries_view(children@);
    while children.len() > 0
        invariant
            entries_view(out@).to_multiset().add(entries_view(children@).to_multiset())
                == orig.to_multiset(),
            sorted_by(entries_view(out@), entry_order()),
            forall|i: int, j: int|
                0 <= i < out@.len() && 0 <= j < children@.len() ==> entry_le(
                    #[trigger] out@[i]@,
                    #[trigger] children@[j]@,
                ),
        decreases children.len(),
    {
        proof {
            lemma_entry_total_ordering();
        }
        let mut m: usize = 0;
        let mut k: usize = 1;
        proof {
            lemma_entry_reflexive(children@[0]@);
        }
        while k < children.len()
            invariant
                0 <= m < k <= children@.len(),
                children@.len() > 0,
                forall|j: int| 0 <= j < k ==> entry_le(children@[m as int]@, #[trigger] children@[j]@),
            decreases children.len() - k,
        {
            if entry_less(&children[k], &children[m]) {
                proof {
                    assert forall|j: int| 0 <= j < k + 1 implies entry_le(
                        children@[k as int]@,
                        #[trigger] children@[j]@,
                    ) by {
                        lemma_entry_total(children@[k as int]@, children@[m as int]@);
                        if j < k {
                            lemma_entry_transitive(children@[k as int]@, children@[m as int]@, children@[j]@);
                        } else {
                            lemma_entry_reflexive(children@[k as int]@);
                        }
                    }
                }
                m = k;
            } else {
                proof {
                    lemma_entry_total(children@[k as int]@, children@[m as int]@);
                }
            }
            k = k + 1;
        }
        let ghost before = children@;
        let ghost out_before = out@;
        let x = children.remove(m);
        proof {
            assert(entries_view(children@) =~= entries_view(before).remove(m as int));
            assert(entries_view(out_before.push(x)) =~= entries_view(out_before).push(x@));
            assert(entries_view(before)[m as int] == x@);
            entries_view(before).to_multiset_ensures();
            entries_view(out_before).to_multiset_ensures();
            assert(entries_view(before).remove(m as int).to_multiset()
                =~= entries_view(before).to_multiset().remove(x@));
            assert(entries_view(out_before).push(x@).to_multiset()
                =~= entries_view(out_before).to_multiset().insert(x@));
            assert(entries_view(before).to_multiset().count(x@) > 0) by {
                assert(entries_view(before).contains(x@));
            }
        }
        out.push(x);
        proof {
            assert(entries_view(out@) == entries_view(out_before).push(x@));
            assert(entries_view(out@).to_multiset().add(entries_view(children@).to_multiset())
                =~= orig.to_multiset());
            assert forall|i: int, j: int| 0 <= i < j < entries_view(out@).len() implies
                #[trigger] entry_order()(entries_view(out@)[i], entries_view(out@)[j]) by {
                if j == out@.len() - 1 {
                    assert(entry_le(out_before[i]@, before[m as int]@));
                } else {
                    assert(entry_order()(entries_view(out_before)[i], entries_view(out_before)[j]));
                }
            }
            assert forall|i: int, j: int| 0 <= i < out@.len() && 0 <= j < children@.len() implies entry_le(
                #[trigger] out@[i]@,
                #[trigger] children@[j]@,
            ) by {
                let jj = if j < m { j } else { j + 1 };
                assert(children@[j] == before[jj]);
                if i < out_before.len() {
                    assert(out@[i] == out_before[i]);
                } else {
                    assert(entry_le(before[m as int]@, before[jj]@));
                }
            }
        }
    }
    assert(entries_view(children@).to_multiset() =~= Multiset::empty()) by {
        assert(entries_view(children@) =~= Seq::<EntryView>::empty());
    }
    assert(entries_view(out@).to_multiset() =~= orig.to_multiset());
    *children = out;
}

/// `a < b` in the order of entries.
fn entry_less(a: &DirectoryNode, b: &DirectoryNode) -> (r: bool)
    ensures
        r == !entry_le(b@, a@),
{
    let ah = a.hash.as_str().as_bytes();
    let bh = b.hash.as_str().as_bytes();
    if bytes_le(ah, bh) && bytes_le(bh, ah) {
        proof {
            lemma_lex_antisymmetric(ah@, bh@);
        }
        !bytes_le(b.name.as_str().as_bytes(), a.name.as_str().as_bytes())
    } else {
        proof {
            lemma_lex_total(ah@, ah@);
        }
        !bytes_le(bh, ah)
    }
}

/// The UTF-8 bytes of each string.
pub open spec fn strings_bytes(s: Seq<String>) -> Seq<Seq<u8>> {
    s.map_values(|p: String| encode_utf8(p@))
}

/// Sorts the entries into canonical order and returns the tree's body.
pub fn create_dir_body(children: &mut Vec<DirectoryNode>) -> (r: Vec<u8>)
    ensures
        r@ == tree_body(entries_view(old(children)@)),
        entries_view(final(children)@) == sorted_entries(entries_view(old(children)@)),
{
    sort_entries(children);
    proof {
        crate::order::lemma_sorted_is_canonical(entries_view(old(children)@), entries_view(children@));
    }
    let mut r: Vec<u8> = Vec::new();
    let mut i: usize = 0;
    while i < children.len()
        invariant
            i <= children@.len(),
            r@ == tree_lines(entries_view(children@).subrange(0, i as int)),
        decreases children.len() - i,
    {
        let c = &children[i];
        push_all(&mut r, c.hash.as_str().as_bytes());
        r.push(SPACE);
        push_all(&mut r, c.name.as_str().as_bytes());
        r.push(NEWLINE);
        proof {
            let sv = entries_view(children@);
            assert(sv.subrange(0, i + 1) =~= sv.subrange(0, i as int).push(sv[i as int]));
            lemma_tree_lines_push(sv.subrange(0, i as int), sv[i as int]);
            assert(r@ =~= tree_lines(sv.subrange(0, i as int)) + entry_line(sv[i as int]));
        }
        i = i + 1;
    }
    assert(entries_view(children@).subrange(0, children@.len() as int) =~= entries_view(children@));
    r
}

/// The body of a snapshot of the tree with digest `tree`.
pub fn snapshot_body_of(tree: &str, metadata: &SnapshotMetadata) -> (r: Vec<u8>)
    ensures
        r@ == snapshot_body(
            encode_utf8(tree@),
            encode_utf8(metadata.author@),
            strings_bytes(metadata.parents@),
            encode_utf8(metadata.comment@),
        ),
{
    let mut r: Vec<u8> = Vec::new();
    push_all(&mut r, tree.as_bytes());
    r.push(NEWLINE);
    let author_tag: Vec<u8> = vec![97u8, 117u8, 116u8, 104u8, 111u8, 114u8, 58u8];
    push_all(&mut r, author_tag.as_slice());
    push_all(&mut r, metadata.author.as_str().as_bytes());
    r.push(NEWLINE);
    let ghost prefix = r@;
    let parent_tag: Vec<u8> = vec![112u8, 97u8, 114u8, 101u8, 110u8, 116u8, 58u8];
    let mut i: usize = 0;
    while i < metadata.parents.len()
        invariant
            i <= metadata.parents@.len(),
            parent_tag@ == seq![112u8, 97u8, 114u8, 101u8, 110u8, 116u8, 58u8],
            r@ == prefix + parent_lines(strings_bytes(metadata.parents@).subrange(0, i as int)),
        decreases metadata.parents.len() - i,
    {
        push_all(&mut r, parent_tag.as_slice());
        push_all(&mut r, metadata.parents[i].as_str().as_bytes());
        r.push(NEWLINE);
        proof {
            let ps = strings_bytes(metadata.parents@);
            assert(ps.subrange(0, i + 1) =~= ps.subrange(0, i as int).push(ps[i as int]));
            lemma_parent_lines_push(ps.subrange(0, i as int), ps[i as int]);
            assert(r@ =~= prefix + parent_lines(ps.subrange(0, i + 1)));
        }
        i = i + 1;
    }
    assert(strings_bytes(metadata.parents@).subrange(0, metadata.parents@.len() as int)
        =~= strings_bytes(metadata.parents@));
    r.push(NEWLINE);
    push_all(&mut r, metadata.comment.as_str().as_bytes());
    assert(r@ =~= snapshot_body(
        encode_utf8(tree@),
        encode_utf8(metadata.author@),
        strings_bytes(metadata.parents@),
        encode_utf8(metadata.comment@),
    ));
    r
}

/// A tree's encoding depends on which entries it has, not on the order
/// in which they were gathered.
pub proof fn lemma_tree_order_independent(a: Seq<EntryView>, b: Seq<EntryView>)
    requires
        a.to_multiset() == b.to_multiset(),
    ensures
        encode_spec(ObjectView::Directory { entries: a }) == encode_spec(ObjectView::Directory { entries: b }),
        digest_spec(encode_spec(ObjectView::Directory { entries: a })) == digest_spec(
            encode_spec(ObjectView::Directory { entries: b }),
        ),
{
    lemma_entry_total_ordering();
    a.lemma_sort_by_ensures(entry_order());
    crate::order::lemma_sorted_is_canonical(b, sorted_entries(a));
}

/// `a` and `b` are the same logical object: equal contents, or for trees
/// the same entries in any order.
pub open spec fn same_object(a: ObjectView, b: ObjectView) -> bool {
    match (a, b) {
        (ObjectView::File { body: x }, ObjectView::File { body: y }) => x == y,
        (ObjectView::Snapshot { body: x }, ObjectView::Snapshot { body: y }) => x == y,
        (ObjectView::Directory { entries: x }, ObjectView::Directory { entries: y }) => x.to_multiset()
            == y.to_multiset(),
        _ => false,
    }
}

/// The same logical object always has the same encoding, and so the same digest.
pub proof fn lemma_encoding_deterministic(a: ObjectView, b: ObjectView)
    requires
        same_object(a, b),
    ensures
        encode_spec(a) == encode_spec(b),
        digest_spec(encode_spec(a)) == digest_spec(encode_spec(b)),
{
    if let (ObjectView::Directory { entries: x }, ObjectView::Directory { entries: y }) = (a, b) {
        lemma_tree_order_independent(x, y);
    }
}

} // verus!

//! The object manager: where objects live beneath the managed root, the
//! records that persist them, and reading them back with an integrity check.

use vstd::prelude::*;
use vstd::string::*;
use crate::compress::{zlib_compress, zlib_decompress, zlib_fast_of, zlib_inflate_of};
use crate::decode::{lemma_decode_encode, object_encodable, parse_object, parse_spec};
use crate::digest::{digest_of, digest_spec};
use crate::error::StoreError;
use crate::object::{encode_spec, ObjectView, StoredObject};

verus! {

/// `.minvcs`, the engine's metadata directory beneath the managed root.
pub open spec fn meta_dir_name() -> Seq<char> {
    seq!['.', 'm', 'i', 'n', 'v', 'c', 's']
}

pub open spec fn objects_name() -> Seq<char> {
    seq!['o', 'b', 'j', 'e', 'c', 't', 's']
}

pub open spec fn head_name() -> Seq<char> {
    seq!['h', 'e', 'a', 'd']
}

/// `a/b`.
pub open spec fn join(a: Seq<char>, b: Seq<char>) -> Seq<char> {
    a + seq!['/'] + b
}

/// `a/b`.
pub fn join_path(a: &str, b: &str) -> (r: String)
    ensures
        r@ == join(a@, b@),
{
    let mut r = String::from_str(a);
    r.append("/");
    proof {
        reveal_strlit("/");
    }
    r.append(b);
    r
}

/// The persisted form of one object: its shard directory, its file name
/// there, and its compressed encoding.
pub struct ObjectRecord {
    pub dir: String,
    pub file_name: String,
    pub compressed: Vec<u8>,
}

/// The store beneath one managed root.
pub struct ObjectManager {
    pub root_dir: String,
}

impl ObjectManager {
    pub open spec fn object_dir(&self) -> Seq<char> {
        join(join(self.root_dir@, meta_dir_name()), objects_name())
    }

    pub fn new(root_dir: String) -> (r: ObjectManager)
        ensures
            r.root_dir@ == root_dir@,
    {
        ObjectManager { root_dir }
    }

    /// `<root>/.minvcs/objects`.
    pub fn get_object_dir(&self) -> (r: String)
        ensures
            r@ == self.object_dir(),
    {
        proof {
            reveal_strlit(".minvcs");
            reveal_strlit("objects");
        }
        let m = join_path(self.root_dir.as_str(), ".minvcs");
        join_path(m.as_str(), "objects")
    }

    /// The shard directory (the first two characters of the digest) and
    /// the file name (the rest).
    pub fn get_object_file_path(&self, hash: &str) -> (r: (String, String))
        requires
            hash@.len() >= 2,
        ensures
            r.0@ == join(self.object_dir(), hash@.subrange(0, 2)),
            r.1@ == hash@.subrange(2, hash@.len() as int),
    {
        let n = hash.unicode_len();
        let dir = self.get_object_dir();
        let shard = join_path(dir.as_str(), hash.substring_char(0, 2));
        (shard, String::from_str(hash.substring_char(2, n)))
    }

    /// `<root>/.minvcs/head`.
    pub fn get_head_file_path(&self) -> (r: String)
        ensures
            r@ == join(join(self.root_dir@, meta_dir_name()), head_name()),
    {
        proof {
            reveal_strlit(".minvcs");
            reveal_strlit("head");
        }
        let m = join_path(self.root_dir.as_str(), ".minvcs");
        join_path(m.as_str(), "head")
    }

    /// Computes the digest of an encoded object and appends the record
    /// that persists it; returns the digest.
    pub fn store_binary_compressed(&self, content: &[u8], out: &mut Vec<ObjectRecord>) -> (r: String)
        ensures
            r@ == digest_spec(content@),
            r@.len() == 64,
            appended(self, old(out)@, final(out)@, seq![content@]),
    {
        let d = digest_of(content);
        let compressed = zlib_compress(content);
        let (dir, file_name) = self.get_object_file_path(d.as_str());
        out.push(ObjectRecord { dir, file_name, compressed });
        assert(final(out)@.subrange(0, old(out)@.len() as int) =~= old(out)@);
        assert(record_of(self, final(out)@[old(out)@.len() as int], seq![content@][0]));
        d
    }

    /// Reads an object back. `stored` is the content of its file, `None`
    /// where there is none.
    pub fn retrieve_object(&self, hash: &str, stored: Option<&[u8]>) -> (r: Result<StoredObject, StoreError>)
        ensures
            stored is None ==> (r matches Err(StoreError::NotFound(d)) && d@ == hash@),
            stored matches Some(c) ==> match zlib_inflate_of(c@) {
                None => r matches Err(StoreError::Integrity(d)) && d@ == hash@,
                Some(raw) => retrieves(hash@, raw, r),
            },
            stored matches Some(c) ==> forall|raw: Seq<u8>| c@ == #[trigger] zlib_fast_of(raw) ==> retrieves(hash@, raw, r),
            r matches Ok(o) ==> o.digest() == hash@ && exists|raw: Seq<u8>| digest_spec(raw) == hash@ && parse_spec(raw) == Ok::<ObjectView, crate::error::CorruptReason>(o.content()),
    {
        match stored {
            None => Err(StoreError::NotFound(String::from_str(hash))),
            Some(c) => match zlib_decompress(c) {
                None => Err(StoreError::Integrity(String::from_str(hash))),
                Some(raw) => {
                    let computed = digest_of(raw.as_slice());
                    verify_and_decode(hash, raw.as_slice(), computed)
                },
            },
        }
    }
}

/// `rec` persists the encoding `enc`: beneath the object directory, in the
/// shard of its digest's first two characters, named by the rest.
pub open spec fn record_of(m: &ObjectManager, rec: ObjectRecord, enc: Seq<u8>) -> bool {
    &&& rec.compressed@ == zlib_fast_of(enc)
    &&& rec.dir@ == join(m.object_dir(), digest_spec(enc).subrange(0, 2))
    &&& rec.file_name@ == digest_spec(enc).subrange(2, digest_spec(enc).len() as int)
}

/// `new` is `old` followed by one record for each of `encs`, in order.
pub open spec fn appended(m: &ObjectManager, old: Seq<ObjectRecord>, new: Seq<ObjectRecord>, encs: Seq<Seq<u8>>) -> bool {
    &&& new.len() == old.len() + encs.len()
    &&& new.subrange(0, old.len() as int) == old
    &&& forall|k: int| 0 <= k < encs.len() ==> record_of(m, #[trigger] new[old.len() + k], encs[k])
}

pub proof fn lemma_appended_trans(
    m: &ObjectManager,
    a: Seq<ObjectRecord>,
    b: Seq<ObjectRecord>,
    c: Seq<ObjectRecord>,
    e1: Seq<Seq<u8>>,
    e2: Seq<Seq<u8>>,
)
    requires
        appended(m, a, b, e1),
        appended(m, b, c, e2),
    ensures
        appended(m, a, c, e1 + e2),
{
    assert(c.subrange(0, a.len() as int) =~= b.subrange(0, a.len() as int)) by {
        assert forall|k: int| 0 <= k < a.len() implies c[k] == b[k] by {
            assert(c.subrange(0, b.len() as int)[k] == c[k]);
        }
    }
    assert forall|k: int| 0 <= k < (e1 + e2).len() implies record_of(m, #[trigger] c[a.len() + k], (e1 + e2)[k]) by {
        if k < e1.len() {
            assert(c.subrange(0, b.len() as int)[a.len() + k] == c[a.len() + k]);
            assert(record_of(m, b[a.len() + k], e1[k]));
        } else {
            assert(record_of(m, c[b.len() + (k - e1.len())], e2[k - e1.len()]));
        }
    }
}

pub proof fn lemma_appended_none(m: &ObjectManager, a: Seq<ObjectRecord>)
    ensures
        appended(m, a, a, Seq::empty()),
{
    assert(a.subrange(0, a.len() as int) =~= a);
}

/// `r` is what reading back the encoding `raw` under the digest `hash`
/// gives: an integrity error unless `raw` has that digest, else `raw` decoded.
pub open spec fn retrieves(hash: Seq<char>, raw: Seq<u8>, r: Result<StoredObject, StoreError>) -> bool {
    if digest_spec(raw) != hash {
        r matches Err(StoreError::Integrity(d)) && d@ == hash
    } else {
        match parse_spec(raw) {
            Ok(v) => r matches Ok(o) && o.content() == v && o.digest() == hash,
            Err(e) => r == Err::<StoredObject, StoreError>(StoreError::Corrupt(e)),
        }
    }
}

/// Checks the recomputed digest against the requested one, then decodes.
pub fn verify_and_decode(hash: &str, raw: &[u8], computed: String) -> (r: Result<StoredObject, StoreError>)
    ensures
        computed@ != hash@ ==> (r matches Err(StoreError::Integrity(d)) && d@ == hash@),
        computed@ == hash@ ==> match parse_spec(raw@) {
            Ok(v) => r matches Ok(o) && o.content() == v && o.digest() == hash@,
            Err(e) => r == Err::<StoredObject, StoreError>(StoreError::Corrupt(e)),
        },
{
    if !str_eq(computed.as_str(), hash) {
        return Err(StoreError::Integrity(String::from_str(hash)));
    }
    match parse_object(raw, computed) {
        Ok(o) => Ok(o),
        Err(e) => Err(StoreError::Corrupt(e)),
    }
}

/// Are the two strings equal?
pub(crate) fn str_eq(a: &str, b: &str) -> (r: bool)
    ensures
        r == (a@ == b@),
{
    let n = a.unicode_len();
    if n != b.unicode_len() {
        return false;
    }
    let mut i: usize = 0;
    while i < n
        invariant
            n == a@.len() == b@.len(),
            i <= n,
            a@.subrange(0, i as int) == b@.subrange(0, i as int),
        decreases n - i,
    {
        if a.get_char(i) != b.get_char(i) {
            return false;
        }
        assert(a@.subrange(0, i + 1) =~= a@.subrange(0, i as int).push(a@[i as int]));
        assert(b@.subrange(0, i + 1) =~= b@.subrange(0, i as int).push(b@[i as int]));
        i = i + 1;
    }
    assert(a@ =~= a@.subrange(0, n as int));
    assert(b@ =~= b@.subrange(0, n as int));
    true
}

/// Reading back the stored encoding of an object gives the object back,
/// under the digest of its encoding.
pub proof fn lemma_get_put(o: ObjectView, r: Result<StoredObject, StoreError>)
    requires
        object_encodable(o),
        retrieves(digest_spec(encode_spec(o)), encode_spec(o), r),
    ensures
        r matches Ok(x) && x.content() == o && x.digest() == digest_spec(encode_spec(o)),
{
    lemma_decode_encode(o);
}

} // verus!

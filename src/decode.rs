//! Decoding a canonical encoding back into an object.

use vstd::prelude::*;
use vstd::utf8::*;
use crate::error::CorruptReason;
use vstd::relations::sorted_by;
use crate::object::{
    decimal, directory_kind, encode_spec, encoded, entries_view, file_kind, snapshot_kind,
    tree_body, tree_lines, DirectoryNode, ObjectView, StoredObject, NEWLINE, SPACE,
};
use crate::order::{entry_order, lemma_sorted_is_canonical, EntryView};

verus! {

broadcast use decode_utf8_encode_utf8;

/// The index of the first `b` in `s`, or `s.len()` if there is none.
pub open spec fn first_index(s: Seq<u8>, b: u8) -> nat
    decreases s.len(),
{
    if s.len() == 0 {
        0
    } else if s[0] == b {
        0
    } else {
        1 + first_index(s.drop_first(), b)
    }
}

/// Lines `"<digest> <name>\n"`, split at the first space of each line.
pub open spec fn parse_lines(body: Seq<u8>) -> Option<Seq<EntryView>>
    decreases body.len(),
{
    if body.len() == 0 {
        Some(Seq::empty())
    } else {
        let j = first_index(body, NEWLINE);
        if j >= body.len() {
            None
        } else {
            let line = body.subrange(0, j as int);
            let k = first_index(line, SPACE);
            if k >= line.len() {
                None
            } else {
                match parse_lines(body.subrange(j as int + 1, body.len() as int)) {
                    None => None,
                    Some(rest) => Some(
                        seq![(line.subrange(0, k as int), line.subrange(k as int + 1, j as int))] + rest,
                    ),
                }
            }
        }
    }
}

/// Both fields of every entry are UTF-8.
pub open spec fn entries_utf8(s: Seq<EntryView>) -> bool {
    forall|i: int| #![trigger s[i]] 0 <= i < s.len() ==> valid_utf8(s[i].0) && valid_utf8(s[i].1)
}

/// What a canonical encoding decodes to, or why it is corrupt.
pub open spec fn parse_spec(raw: Seq<u8>) -> Result<ObjectView, CorruptReason> {
    let z = first_index(raw, 0u8);
    if z >= raw.len() {
        Err(CorruptReason::MissingSeparator)
    } else {
        let header = raw.subrange(0, z as int);
        let body = raw.subrange(z as int + 1, raw.len() as int);
        let sp = first_index(header, SPACE);
        let kind = header.subrange(0, sp as int);
        if kind != file_kind() && kind != directory_kind() && kind != snapshot_kind() {
            Err(CorruptReason::UnknownKind)
        } else if sp >= header.len() || header.subrange(sp as int + 1, header.len() as int) != decimal(
            body.len(),
        ) {
            Err(CorruptReason::BadLength)
        } else if kind == file_kind() {
            Ok(ObjectView::File { body })
        } else if kind == snapshot_kind() {
            Ok(ObjectView::Snapshot { body })
        } else {
            match parse_lines(body) {
                Some(entries) => if entries_utf8(entries) {
                    Ok(ObjectView::Directory { entries })
                } else {
                    Err(CorruptReason::MalformedTreeLine)
                },
                None => Err(CorruptReason::MalformedTreeLine),
            }
        }
    }
}

/// Relies on `String::from_utf8`: `Ok` exactly when the bytes are UTF-8,
/// and then the string whose encoding they are.
#[verifier::external_body]
fn utf8_string(b: &[u8]) -> (r: Option<String>)
    ensures
        r is Some <==> valid_utf8(b@),
        r matches Some(s) ==> s@ == decode_utf8(b@),
{
    String::from_utf8(b.to_vec()).ok()
}

proof fn lemma_first_index_bound(s: Seq<u8>, b: u8)
    ensures
        first_index(s, b) <= s.len(),
        first_index(s, b) < s.len() ==> s[first_index(s, b) as int] == b,
        forall|i: int| 0 <= i < first_index(s, b) ==> s[i] != b,
    decreases s.len(),
{
    if s.len() > 0 && s[0] != b {
        lemma_first_index_bound(s.drop_first(), b);
        assert forall|i: int| 0 <= i < first_index(s, b) implies s[i] != b by {
            if i > 0 {
                assert(s[i] == s.drop_first()[i - 1]);
            }
        }
    }
}

/// `from + first_index(s[from..to], b)`.
fn find_byte(s: &[u8], from: usize, to: usize, b: u8) -> (r: usize)
    requires
        from <= to <= s@.len(),
    ensures
        r == from + first_index(s@.subrange(from as int, to as int), b),
        from <= r <= to,
{
    let mut i = from;
    while i < to && s[i] != b
        invariant
            from <= i <= to,
            to <= s@.len(),
            first_index(s@.subrange(from as int, to as int), b) == (i - from) + first_index(
                s@.subrange(i as int, to as int),
                b,
            ),
        decreases to - i,
    {
        assert(s@.subrange(i as int, to as int).drop_first() =~= s@.subrange(i + 1, to as int));
        i = i + 1;
    }
    i
}

/// A copy of a byte string.
fn to_vec(s: &[u8]) -> (r: Vec<u8>)
    ensures
        r@ == s@,
{
    let mut r: Vec<u8> = Vec::new();
    crate::object::push_all(&mut r, s);
    assert(r@ =~= s@);
    r
}

/// Is `a` the same byte string as `b`?
fn bytes_eq(a: &[u8], b: &[u8]) -> (r: bool)
    ensures
        r == (a@ == b@),
{
    if a.len() != b.len() {
        return false;
    }
    let mut i: usize = 0;
    while i < a.len()
        invariant
            a@.len() == b@.len(),
            i <= a@.len(),
            a@.subrange(0, i as int) == b@.subrange(0, i as int),
        decreases a.len() - i,
    {
        if a[i] != b[i] {
            assert(a@[i as int] != b@[i as int]);
            return false;
        }
        assert(a@.subrange(0, i + 1) =~= a@.subrange(0, i as int).push(a@[i as int]));
        assert(b@.subrange(0, i + 1) =~= b@.subrange(0, i as int).push(b@[i as int]));
        i = i + 1;
    }
    assert(a@ =~= a@.subrange(0, i as int));
    assert(b@ =~= b@.subrange(0, i as int));
    true
}

/// The decimal digits of `n`.
fn decimal_of(n: usize) -> (r: Vec<u8>)
    ensures
        r@ == decimal(n as nat),
    decreases n,
{
    if n < 10 {
        let r = vec![(n + 48) as u8];
        assert(r@ =~= decimal(n as nat));
        r
    } else {
        let mut r = decimal_of(n / 10);
        r.push((n % 10 + 48) as u8);
        r
    }
}

/// Splits a tree's body into its entries.
fn parse_tree_body(body: &[u8]) -> (r: Option<Vec<DirectoryNode>>)
    ensures
        r is Some <==> (parse_lines(body@) matches Some(es) && entries_utf8(es)),
        r matches Some(v) ==> parse_lines(body@) == Some(entries_view(v@)),
{
    let mut out: Vec<DirectoryNode> = Vec::new();
    let mut p: usize = 0;
    let ghost n = body@.len() as int;
    assert(body@.subrange(0, n) =~= body@);
    while p < body.len()
        invariant
            p <= body@.len(),
            n == body@.len(),
            entries_utf8(entries_view(out@)),
            parse_lines(body@) == match parse_lines(body@.subrange(p as int, n)) {
                Some(rest) => Some(entries_view(out@) + rest),
                None => None::<Seq<EntryView>>,
            },
        decreases body.len() - p,
    {
        let ghost rem = body@.subrange(p as int, n);
        let j = find_byte(body, p, body.len(), NEWLINE);
        proof {
            lemma_first_index_bound(rem, NEWLINE);
        }
        if j == body.len() {
            return None;
        }
        let k = find_byte(body, p, j, SPACE);
        proof {
            let line = rem.subrange(0, j - p);
            assert(line =~= body@.subrange(p as int, j as int));
            lemma_first_index_bound(line, SPACE);
        }
        if k == j {
            return None;
        }
        let ho = utf8_string(&body[p..k]);
        let no = utf8_string(&body[k + 1..j]);
        let ghost hb = body@.subrange(p as int, k as int);
        let ghost nb = body@.subrange(k + 1, j as int);
        let ghost after = body@.subrange(j + 1, n);
        proof {
            let line = rem.subrange(0, j - p);
            assert(line.subrange(0, k - p) =~= hb);
            assert(line.subrange(k - p + 1, j - p) =~= nb);
            assert(rem.subrange(j - p + 1, rem.len() as int) =~= after);
        }
        match (ho, no) {
            (Some(h), Some(nm)) => {
                let ghost before = out@;
                out.push(DirectoryNode::new(nm, h));
                proof {
                    assert(entries_view(out@) =~= entries_view(before).push((hb, nb)));
                    assert(entries_view(before).push((hb, nb)) =~= entries_view(before) + seq![(hb, nb)]);
                    assert forall|r: Seq<EntryView>| #![auto]
                        entries_view(before) + (seq![(hb, nb)] + r) =~= entries_view(out@) + r by {}
                }
                p = j + 1;
            },
            _ => {
                proof {
                    if let Some(es) = parse_lines(body@) {
                        let r2 = parse_lines(after)->0;
                        assert(es == entries_view(out@) + (seq![(hb, nb)] + r2));
                        assert(es[entries_view(out@).len() as int] == (hb, nb));
                        let idx = entries_view(out@).len() as int;
                        assert(0 <= idx < es.len());
                        assert(!valid_utf8(hb) || !valid_utf8(nb));
                        let e = es[idx];
                        if entries_utf8(es) {
                            assert(valid_utf8(e.0) && valid_utf8(e.1));
                        }
                    }
                }
                return None;
            },
        }
    }
    assert(body@.subrange(p as int, n) =~= Seq::<u8>::empty());
    assert(entries_view(out@) + Seq::<EntryView>::empty() =~= entries_view(out@));
    Some(out)
}

/// Decodes a canonical encoding; the object keeps `hash` as its digest.
pub fn parse_object(raw: &[u8], hash: String) -> (r: Result<StoredObject, CorruptReason>)
    ensures
        match parse_spec(raw@) {
            Ok(v) => r matches Ok(o) && o.content() == v && o.digest() == hash@,
            Err(e) => r == Err::<StoredObject, CorruptReason>(e),
        },
{
    let z = find_byte(raw, 0, raw.len(), 0u8);
    assert(raw@.subrange(0, raw@.len() as int) =~= raw@);
    if z == raw.len() {
        return Err(CorruptReason::MissingSeparator);
    }
    let header = &raw[0..z];
    let body = &raw[z + 1..raw.len()];
    let sp = find_byte(header, 0, header.len(), SPACE);
    assert(header@.subrange(0, header@.len() as int) =~= header@);
    let kind = &header[0..sp];
    let file_w = crate::object::kind_word(0);
    let dir_w = crate::object::kind_word(1);
    let snap_w = crate::object::kind_word(2);
    let is_file = bytes_eq(kind, file_w.as_slice());
    let is_dir = bytes_eq(kind, dir_w.as_slice());
    let is_snap = bytes_eq(kind, snap_w.as_slice());
    if !is_file && !is_dir && !is_snap {
        return Err(CorruptReason::UnknownKind);
    }
    if sp == header.len() {
        return Err(CorruptReason::BadLength);
    }
    let digits = decimal_of(body.len());
    if !bytes_eq(&header[sp + 1..header.len()], digits.as_slice()) {
        return Err(CorruptReason::BadLength);
    }
    if is_file {
        Ok(StoredObject::File { body: to_vec(body), hash })
    } else if is_snap {
        Ok(StoredObject::Snapshot { body: to_vec(body), hash })
    } else {
        match parse_tree_body(body) {
            Some(children) => Ok(StoredObject::Directory { children, hash }),
            None => Err(CorruptReason::MalformedTreeLine),
        }
    }
}

} // verus!

verus! {

proof fn lemma_first_index_concat(a: Seq<u8>, b: Seq<u8>, x: u8)
    ensures
        !a.contains(x) ==> first_index(a + b, x) == a.len() + first_index(b, x),
        a.contains(x) ==> first_index(a + b, x) == first_index(a, x),
    decreases a.len(),
{
    if a.len() > 0 {
        assert((a + b).drop_first() =~= a.drop_first() + b);
        lemma_first_index_concat(a.drop_first(), b, x);
        if a[0] != x {
            assert(a.contains(x) ==> a.drop_first().contains(x)) by {
                if a.contains(x) {
                    let k = choose|k: int| 0 <= k < a.len() && a[k] == x;
                    assert(a.drop_first()[k - 1] == x);
                }
            }
            assert(a.drop_first().contains(x) ==> a.contains(x)) by {
                if a.drop_first().contains(x) {
                    let k = choose|k: int| 0 <= k < a.drop_first().len() && a.drop_first()[k] == x;
                    assert(a[k + 1] == x);
                }
            }
        } else {
            assert(a.contains(x)) by {
                assert(a[0] == x);
            }
        }
    } else {
        assert(a + b =~= b);
    }
}

/// The digits of a decimal are ASCII digits.
proof fn lemma_decimal_digits(n: nat)
    ensures
        forall|i: int| 0 <= i < decimal(n).len() ==> 48 <= #[trigger] decimal(n)[i] <= 57,
        decimal(n).len() > 0,
    decreases n,
{
    if n >= 10 {
        lemma_decimal_digits(n / 10);
        assert forall|i: int| 0 <= i < decimal(n).len() implies 48 <= #[trigger] decimal(n)[i] <= 57 by {
            if i < decimal(n / 10).len() {
                assert(decimal(n)[i] == decimal(n / 10)[i]);
            }
        }
    }
}

/// Neither a space nor a newline is in the digest; no newline is in the name.
pub open spec fn entry_encodable(e: EntryView) -> bool {
    &&& !e.0.contains(SPACE)
    &&& !e.0.contains(NEWLINE)
    &&& !e.1.contains(NEWLINE)
    &&& valid_utf8(e.0)
    &&& valid_utf8(e.1)
}

proof fn lemma_parse_tree_lines(s: Seq<EntryView>)
    requires
        forall|i: int| 0 <= i < s.len() ==> entry_encodable(#[trigger] s[i]),
    ensures
        parse_lines(tree_lines(s)) == Some(s),
    decreases s.len(),
{
    if s.len() > 0 {
        let e = s[0];
        assert(entry_encodable(s[0]));
        let rest = s.drop_first();
        assert forall|i: int| 0 <= i < rest.len() implies entry_encodable(#[trigger] rest[i]) by {
            assert(rest[i] == s[i + 1]);
        }
        lemma_parse_tree_lines(rest);
        let body = tree_lines(s);
        let line = e.0 + seq![SPACE] + e.1;
        assert(body =~= line + (seq![NEWLINE] + tree_lines(rest)));
        assert(!line.contains(NEWLINE)) by {
            if line.contains(NEWLINE) {
                let k = choose|k: int| 0 <= k < line.len() && line[k] == NEWLINE;
                if k < e.0.len() {
                    assert(e.0[k] == NEWLINE);
                } else if k > e.0.len() {
                    assert(e.1[k - e.0.len() - 1] == NEWLINE);
                }
            }
        }
        lemma_first_index_concat(line, seq![NEWLINE] + tree_lines(rest), NEWLINE);
        assert(first_index(body, NEWLINE) == line.len());
        assert(body.subrange(0, line.len() as int) =~= line);
        assert(body.subrange(line.len() as int + 1, body.len() as int) =~= tree_lines(rest));
        assert(line =~= e.0 + (seq![SPACE] + e.1));
        lemma_first_index_concat(e.0, seq![SPACE] + e.1, SPACE);
        assert(first_index(line, SPACE) == e.0.len());
        assert(line.subrange(0, e.0.len() as int) =~= e.0);
        assert(line.subrange(e.0.len() as int + 1, line.len() as int) =~= e.1);
        assert(seq![e] + rest =~= s);
    } else {
        assert(tree_lines(s) =~= Seq::<u8>::empty());
    }
}

/// `encoded(kind, body)` decodes to the kind word and the body.
proof fn lemma_split_encoded(kind: Seq<u8>, body: Seq<u8>)
    requires
        kind == file_kind() || kind == directory_kind() || kind == snapshot_kind(),
    ensures
        ({
            let raw = encoded(kind, body);
            let z = first_index(raw, 0u8);
            let header = raw.subrange(0, z as int);
            let sp = first_index(header, SPACE);
            &&& z < raw.len()
            &&& raw.subrange(z as int + 1, raw.len() as int) == body
            &&& header.subrange(0, sp as int) == kind
            &&& sp < header.len()
            &&& header.subrange(sp as int + 1, header.len() as int) == decimal(body.len())
        }),
{
    let raw = encoded(kind, body);
    let dec = decimal(body.len());
    lemma_decimal_digits(body.len());
    let header = kind + seq![SPACE] + dec;
    assert(!kind.contains(0u8) && !kind.contains(SPACE)) by {
        if kind.contains(0u8) || kind.contains(SPACE) {
            let k = choose|k: int| 0 <= k < kind.len() && (kind[k] == 0u8 || kind[k] == SPACE);
            assert(kind[k] >= 97);
        }
    }
    assert(!header.contains(0u8)) by {
        if header.contains(0u8) {
            let k = choose|k: int| 0 <= k < header.len() && header[k] == 0u8;
            if k < kind.len() {
                assert(kind[k] == 0u8);
            } else if k > kind.len() {
                assert(dec[k - kind.len() - 1] == 0u8);
            }
        }
    }
    assert(raw =~= header + (seq![0u8] + body));
    lemma_first_index_concat(header, seq![0u8] + body, 0u8);
    assert(raw.subrange(0, header.len() as int) =~= header);
    assert(raw.subrange(header.len() as int + 1, raw.len() as int) =~= body);
    assert(header =~= kind + (seq![SPACE] + dec));
    lemma_first_index_concat(kind, seq![SPACE] + dec, SPACE);
    assert(header.subrange(0, kind.len() as int) =~= kind);
    assert(header.subrange(kind.len() as int + 1, header.len() as int) =~= dec);
}

/// An object that the canonical encoding can carry: a tree's entries are
/// in canonical order and each is encodable.
pub open spec fn object_encodable(o: ObjectView) -> bool {
    match o {
        ObjectView::Directory { entries } => {
            &&& sorted_by(entries, entry_order())
            &&& forall|i: int| 0 <= i < entries.len() ==> entry_encodable(#[trigger] entries[i])
        },
        _ => true,
    }
}

/// Decoding the canonical encoding of an object gives the object back.
pub proof fn lemma_decode_encode(o: ObjectView)
    requires
        object_encodable(o),
    ensures
        parse_spec(encode_spec(o)) == Ok::<ObjectView, CorruptReason>(o),
{
    match o {
        ObjectView::File { body } => {
            lemma_split_encoded(file_kind(), body);
        },
        ObjectView::Snapshot { body } => {
            lemma_split_encoded(snapshot_kind(), body);
            assert(snapshot_kind() != file_kind());
        },
        ObjectView::Directory { entries } => {
            lemma_sorted_is_canonical(entries, entries);
            let body = tree_body(entries);
            assert(body == tree_lines(entries));
            lemma_split_encoded(directory_kind(), body);
            lemma_parse_tree_lines(entries);
            assert(directory_kind() != file_kind());
            assert(directory_kind() != snapshot_kind());
            assert(entries_utf8(entries)) by {
                assert forall|i: int| 0 <= i < entries.len() implies valid_utf8(#[trigger] entries[i].0) && valid_utf8(entries[i].1) by {
                    assert(entry_encodable(entries[i]));
                }
            }
        },
    }
}

/// Two blobs with different contents have different encodings.
pub proof fn lemma_blob_encoding_injective(b1: Seq<u8>, b2: Seq<u8>)
    requires
        b1 != b2,
    ensures
        encode_spec(ObjectView::File { body: b1 }) != encode_spec(ObjectView::File { body: b2 }),
{
    lemma_decode_encode(ObjectView::File { body: b1 });
    lemma_decode_encode(ObjectView::File { body: b2 });
}

} // verus!

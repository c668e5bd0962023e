//! The byte-wise lexicographic order, and the order of tree entries.

use vstd::prelude::*;
use vstd::relations::*;

verus! {

/// Byte-wise lexicographic `a <= b`, the order of `[u8]` and of `str`.
pub open spec fn lex_le(a: Seq<u8>, b: Seq<u8>) -> bool
    decreases a.len(),
{
    if a.len() == 0 {
        true
    } else if b.len() == 0 {
        false
    } else if a[0] != b[0] {
        a[0] < b[0]
    } else {
        lex_le(a.drop_first(), b.drop_first())
    }
}

pub proof fn lemma_lex_total(a: Seq<u8>, b: Seq<u8>)
    ensures
        lex_le(a, b) || lex_le(b, a),
    decreases a.len(),
{
    if a.len() > 0 && b.len() > 0 && a[0] == b[0] {
        lemma_lex_total(a.drop_first(), b.drop_first());
    }
}

pub proof fn lemma_lex_antisymmetric(a: Seq<u8>, b: Seq<u8>)
    requires
        lex_le(a, b),
        lex_le(b, a),
    ensures
        a == b,
    decreases a.len(),
{
    if a.len() > 0 {
        lemma_lex_antisymmetric(a.drop_first(), b.drop_first());
        assert(a =~= seq![a[0]] + a.drop_first());
        assert(b =~= seq![b[0]] + b.drop_first());
    } else {
        assert(b =~= a);
    }
}

pub proof fn lemma_lex_transitive(a: Seq<u8>, b: Seq<u8>, c: Seq<u8>)
    requires
        lex_le(a, b),
        lex_le(b, c),
    ensures
        lex_le(a, c),
    decreases a.len(),
{
    if a.len() > 0 && b.len() > 0 && c.len() > 0 && a[0] == b[0] && b[0] == c[0] {
        lemma_lex_transitive(a.drop_first(), b.drop_first(), c.drop_first());
    }
}

/// A tree entry as the encoding sees it: (digest bytes, name bytes).
pub type EntryView = (Seq<u8>, Seq<u8>);

/// Entries are ordered by digest, then by name.
pub open spec fn entry_le(x: EntryView, y: EntryView) -> bool {
    if x.0 != y.0 {
        lex_le(x.0, y.0)
    } else {
        lex_le(x.1, y.1)
    }
}

pub open spec fn entry_order() -> spec_fn(EntryView, EntryView) -> bool {
    |x: EntryView, y: EntryView| entry_le(x, y)
}

pub proof fn lemma_entry_reflexive(x: EntryView)
    ensures
        entry_le(x, x),
{
    lemma_lex_total(x.1, x.1);
}

pub proof fn lemma_entry_total(x: EntryView, y: EntryView)
    ensures
        entry_le(x, y) || entry_le(y, x),
{
    lemma_lex_total(x.0, y.0);
    lemma_lex_total(x.1, y.1);
}

pub proof fn lemma_entry_antisymmetric(x: EntryView, y: EntryView)
    requires
        entry_le(x, y),
        entry_le(y, x),
    ensures
        x == y,
{
    if x.0 != y.0 {
        lemma_lex_antisymmetric(x.0, y.0);
    } else {
        lemma_lex_antisymmetric(x.1, y.1);
    }
}

pub proof fn lemma_entry_transitive(x: EntryView, y: EntryView, z: EntryView)
    requires
        entry_le(x, y),
        entry_le(y, z),
    ensures
        entry_le(x, z),
{
    if x.0 == y.0 && y.0 == z.0 {
        lemma_lex_transitive(x.1, y.1, z.1);
    } else if x.0 == y.0 {
    } else if y.0 == z.0 {
    } else {
        lemma_lex_transitive(x.0, y.0, z.0);
        if x.0 == z.0 {
            lemma_lex_antisymmetric(x.0, y.0);
        }
    }
}

pub proof fn lemma_entry_total_ordering()
    ensures
        total_ordering(entry_order()),
{
    assert forall|x: EntryView| #[trigger] entry_order()(x, x) by {
        lemma_entry_reflexive(x);
    }
    assert forall|x: EntryView, y: EntryView|
        #[trigger] entry_order()(x, y) && #[trigger] entry_order()(y, x) implies x == y by {
        lemma_entry_antisymmetric(x, y);
    }
    assert forall|x: EntryView, y: EntryView, z: EntryView|
        #[trigger] entry_order()(x, y) && #[trigger] entry_order()(y, z) implies entry_order()(
        x,
        z,
    ) by {
        lemma_entry_transitive(x, y, z);
    }
    assert forall|x: EntryView, y: EntryView|
        #[trigger] entry_order()(x, y) || #[trigger] entry_order()(y, x) by {
        lemma_entry_total(x, y);
    }
}

/// Two sequences sorted by a total order that hold the same elements are equal.
pub proof fn lemma_sorted_unique(a: Seq<EntryView>, b: Seq<EntryView>)
    requires
        sorted_by(a, entry_order()),
        sorted_by(b, entry_order()),
        a.to_multiset() == b.to_multiset(),
    ensures
        a == b,
    decreases a.len(),
{
    broadcast use vstd::seq_lib::group_to_multiset_ensures;

    lemma_entry_total_ordering();
    if a.len() == 0 {
        assert(b.len() == 0);
        assert(a =~= b);
    } else {
        assert(a.len() == a.to_multiset().len());
        assert(b.len() == b.to_multiset().len());
        assert(b.len() == a.len());
        assert(a.to_multiset().count(a[0]) > 0);
        assert(b.contains(a[0]));
        let j = choose|j: int| 0 <= j < b.len() && b[j] == a[0];
        assert(b.to_multiset().count(b[0]) > 0);
        assert(a.contains(b[0]));
        let k = choose|k: int| 0 <= k < a.len() && a[k] == b[0];
        if j > 0 {
            assert(entry_order()(b[0], b[j]));
        }
        if k > 0 {
            assert(entry_order()(a[0], a[k]));
        }
        assert(entry_order()(a[0], b[0]));
        assert(entry_order()(b[0], a[0]));
        assert(a[0] == b[0]);
        let a1 = a.remove(0);
        let b1 = b.remove(0);
        assert(a1.to_multiset() =~= a.to_multiset().remove(a[0]));
        assert(b1.to_multiset() =~= b.to_multiset().remove(b[0]));
        assert(sorted_by(a1, entry_order())) by {
            assert forall|i: int, l: int| 0 <= i < l < a1.len() implies #[trigger] entry_order()(
                a1[i],
                a1[l],
            ) by {
                assert(a1[i] == a[i + 1] && a1[l] == a[l + 1]);
            }
        }
        assert(sorted_by(b1, entry_order())) by {
            assert forall|i: int, l: int| 0 <= i < l < b1.len() implies #[trigger] entry_order()(
                b1[i],
                b1[l],
            ) by {
                assert(b1[i] == b[i + 1] && b1[l] == b[l + 1]);
            }
        }
        lemma_sorted_unique(a1, b1);
        assert(a =~= seq![a[0]] + a1);
        assert(b =~= seq![b[0]] + b1);
    }
}

/// The canonical order of a collection of entries.
pub open spec fn sorted_entries(s: Seq<EntryView>) -> Seq<EntryView> {
    s.sort_by(entry_order())
}

/// Any sorted rearrangement of `s` is `sorted_entries(s)`.
pub proof fn lemma_sorted_is_canonical(s: Seq<EntryView>, t: Seq<EntryView>)
    requires
        sorted_by(t, entry_order()),
        t.to_multiset() == s.to_multiset(),
    ensures
        t == sorted_entries(s),
{
    lemma_entry_total_ordering();
    s.lemma_sort_by_ensures(entry_order());
    lemma_sorted_unique(t, sorted_entries(s));
}

/// Byte-wise comparison of two byte strings.
pub fn bytes_le(a: &[u8], b: &[u8]) -> (r: bool)
    ensures
        r == lex_le(a@, b@),
{
    let mut i: usize = 0;
    assert(a@.subrange(0, a@.len() as int) =~= a@);
    assert(b@.subrange(0, b@.len() as int) =~= b@);
    while i < a.len() && i < b.len()
        invariant
            i <= a@.len(),
            i <= b@.len(),
            lex_le(a@, b@) == lex_le(a@.subrange(i as int, a@.len() as int), b@.subrange(i as int, b@.len() as int)),
        decreases a.len() - i,
    {
        let ghost sa = a@.subrange(i as int, a@.len() as int);
        let ghost sb = b@.subrange(i as int, b@.len() as int);
        if a[i] != b[i] {
            return a[i] < b[i];
        }
        assert(sa.drop_first() =~= a@.subrange(i + 1, a@.len() as int));
        assert(sb.drop_first() =~= b@.subrange(i + 1, b@.len() as int));
        i = i + 1;
    }
    i == a.len()
}

} // verus!

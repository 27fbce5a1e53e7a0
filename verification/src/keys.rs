//! Keys are byte sequences compared lexicographically. This module gives
//! the ordering its mathematical definition, executable comparisons proved
//! against it, and the order lemmas the seek and merge proofs rely on.

use vstd::prelude::*;

verus! {

/// An entry is a key paired with a value, both byte sequences.
pub type Entry = (Seq<u8>, Seq<u8>);

/// Strict lexicographic order: `a` comes before `b`.
pub open spec fn lex_lt(a: Seq<u8>, b: Seq<u8>) -> bool
    decreases a.len(),
{
    if b.len() == 0 {
        false
    } else if a.len() == 0 {
        true
    } else if a[0] != b[0] {
        a[0] < b[0]
    } else {
        lex_lt(a.skip(1), b.skip(1))
    }
}

/// Non-strict lexicographic order.
pub open spec fn lex_le(a: Seq<u8>, b: Seq<u8>) -> bool {
    lex_lt(a, b) || a == b
}

/// Keys of `es` are strictly ascending.
pub open spec fn entries_sorted(es: Seq<Entry>) -> bool {
    forall|i: int, j: int| 0 <= i < j < es.len() ==> lex_lt(es[i].0, es[j].0)
}

/// The order is irreflexive.
pub proof fn lemma_lex_irrefl(a: Seq<u8>)
    ensures
        !lex_lt(a, a),
    decreases a.len(),
{
    if a.len() > 0 {
        lemma_lex_irrefl(a.skip(1));
    }
}

/// The order is asymmetric.
pub proof fn lemma_lex_asym(a: Seq<u8>, b: Seq<u8>)
    requires
        lex_lt(a, b),
    ensures
        !lex_lt(b, a),
    decreases a.len(),
{
    if a.len() > 0 && b.len() > 0 && a[0] == b[0] {
        lemma_lex_asym(a.skip(1), b.skip(1));
    }
}

/// The order is transitive.
pub proof fn lemma_lex_trans(a: Seq<u8>, b: Seq<u8>, c: Seq<u8>)
    requires
        lex_lt(a, b),
        lex_lt(b, c),
    ensures
        lex_lt(a, c),
    decreases a.len(),
{
    if a.len() > 0 && b.len() > 0 && c.len() > 0 && a[0] == b[0] && b[0] == c[0] {
        lemma_lex_trans(a.skip(1), b.skip(1), c.skip(1));
    }
}

/// The order is total: incomparable sequences are equal.
pub proof fn lemma_lex_total(a: Seq<u8>, b: Seq<u8>)
    requires
        !lex_lt(a, b),
        !lex_lt(b, a),
    ensures
        a == b,
    decreases a.len(),
{
    if a.len() > 0 && b.len() > 0 && a[0] == b[0] {
        lemma_lex_total(a.skip(1), b.skip(1));
        assert(a =~= seq![a[0]] + a.skip(1));
        assert(b =~= seq![b[0]] + b.skip(1));
    } else if a.len() == 0 && b.len() == 0 {
        assert(a =~= b);
    }
}

/// Transitivity extended to the non-strict order on the left.
pub proof fn lemma_lex_le_lt_trans(a: Seq<u8>, b: Seq<u8>, c: Seq<u8>)
    requires
        lex_le(a, b),
        lex_lt(b, c),
    ensures
        lex_lt(a, c),
{
    if lex_lt(a, b) {
        lemma_lex_trans(a, b, c);
    }
}

/// Transitivity extended to the non-strict order on the right.
pub proof fn lemma_lex_lt_le_trans(a: Seq<u8>, b: Seq<u8>, c: Seq<u8>)
    requires
        lex_lt(a, b),
        lex_le(b, c),
    ensures
        lex_lt(a, c),
{
    if lex_lt(b, c) {
        lemma_lex_trans(a, b, c);
    }
}

/// The position a seek lands on: the index of the first entry whose key is
/// at least `target`, or `es.len()` when every key is smaller.
pub open spec fn seek_idx(es: Seq<Entry>, target: Seq<u8>) -> int
    decreases es.len(),
{
    if es.len() == 0 {
        0
    } else if lex_lt(es[0].0, target) {
        1 + seek_idx(es.skip(1), target)
    } else {
        0
    }
}

/// On a sorted sequence, `seek_idx` splits the entries: strictly smaller
/// keys before it, keys at least `target` from it on.
pub proof fn lemma_seek_idx(es: Seq<Entry>, target: Seq<u8>)
    requires
        entries_sorted(es),
    ensures
        0 <= seek_idx(es, target) <= es.len(),
        forall|i: int| 0 <= i < seek_idx(es, target) ==> lex_lt(#[trigger] es[i].0, target),
        forall|i: int| seek_idx(es, target) <= i < es.len() ==> !lex_lt(#[trigger] es[i].0, target),
    decreases es.len(),
{
    let r = seek_idx(es, target);
    if es.len() == 0 {
    } else if lex_lt(es[0].0, target) {
        let tail = es.skip(1);
        assert forall|i: int, j: int| 0 <= i < j < tail.len() implies lex_lt(
            #[trigger] tail[i].0,
            #[trigger] tail[j].0,
        ) by {
            assert(tail[i] == es[i + 1]);
            assert(tail[j] == es[j + 1]);
        };
        lemma_seek_idx(tail, target);
        assert forall|i: int| 0 <= i < r implies lex_lt(#[trigger] es[i].0, target) by {
            if i > 0 {
                assert(tail[i - 1] == es[i]);
            }
        };
        assert forall|i: int| r <= i < es.len() implies !lex_lt(#[trigger] es[i].0, target) by {
            assert(tail[i - 1] == es[i]);
        };
    } else {
        assert forall|i: int| 0 <= i < es.len() implies !lex_lt(#[trigger] es[i].0, target) by {
            if i > 0 && lex_lt(es[i].0, target) {
                lemma_lex_trans(es[0].0, es[i].0, target);
            }
        };
    }
}

/// A sorted sequence stays sorted when its head is dropped.
pub proof fn lemma_entries_sorted_skip(es: Seq<Entry>)
    requires
        entries_sorted(es),
        es.len() > 0,
    ensures
        entries_sorted(es.skip(1)),
{
    let t = es.skip(1);
    assert forall|i: int, j: int| 0 <= i < j < t.len() implies lex_lt(
        #[trigger] t[i].0,
        #[trigger] t[j].0,
    ) by {
        assert(t[i] == es[i + 1]);
        assert(t[j] == es[j + 1]);
    };
}

/// By totality, not being strictly above means being at or below.
pub proof fn lemma_lex_le_from_not_lt(a: Seq<u8>, b: Seq<u8>)
    requires
        !lex_lt(a, b),
    ensures
        lex_le(b, a),
{
    if !lex_lt(b, a) {
        lemma_lex_total(a, b);
    }
}

/// The split position is unique: any index with strictly smaller keys
/// before it and keys at least `target` from it on is `seek_idx`.
pub proof fn lemma_seek_idx_unique(es: Seq<Entry>, target: Seq<u8>, pos: int)
    requires
        entries_sorted(es),
        0 <= pos <= es.len(),
        forall|i: int| 0 <= i < pos ==> lex_lt(#[trigger] es[i].0, target),
        forall|i: int| pos <= i < es.len() ==> !lex_lt(#[trigger] es[i].0, target),
    ensures
        pos == seek_idx(es, target),
{
    lemma_seek_idx(es, target);
    let s = seek_idx(es, target);
    if pos < s {
        assert(lex_lt(es[pos].0, target));
        assert(!lex_lt(es[pos].0, target));
    }
    if s < pos {
        assert(lex_lt(es[s].0, target));
        assert(!lex_lt(es[s].0, target));
    }
}

/// The empty key: what an invalid cursor's accessors hand out.
pub fn empty_key() -> (r: &'static [u8])
    ensures
        r@ == Seq::<u8>::empty(),
{
    let r: &[u8] = &[];
    proof {
        assert(r@ =~= Seq::<u8>::empty());
    }
    r
}

/// Compare two byte slices; true iff `a` comes strictly before `b`.
pub fn key_lt(a: &[u8], b: &[u8]) -> (r: bool)
    ensures
        r == lex_lt(a@, b@),
{
    let alen = a.len();
    let blen = b.len();
    let mut i: usize = 0;
    proof {
        assert(a@.skip(0) =~= a@);
        assert(b@.skip(0) =~= b@);
    }
    loop
        invariant
            i <= alen,
            i <= blen,
            alen == a@.len(),
            blen == b@.len(),
            lex_lt(a@, b@) == lex_lt(a@.skip(i as int), b@.skip(i as int)),
        decreases alen - i,
    {
        if i == alen || i == blen {
            return alen < blen;
        }
        let x = a[i];
        let y = b[i];
        if x != y {
            return x < y;
        }
        proof {
            assert(a@.skip(i as int).skip(1) =~= a@.skip(i + 1));
            assert(b@.skip(i as int).skip(1) =~= b@.skip(i + 1));
        }
        i = i + 1;
    }
}

/// Compare two byte slices for equality of contents.
pub fn key_eq(a: &[u8], b: &[u8]) -> (r: bool)
    ensures
        r == (a@ == b@),
{
    let alen = a.len();
    let blen = b.len();
    if alen != blen {
        return false;
    }
    let mut i: usize = 0;
    while i < alen
        invariant
            i <= alen,
            alen == a@.len(),
            alen == b@.len(),
            forall|j: int| 0 <= j < i ==> a@[j] == b@[j],
        decreases alen - i,
    {
        if a[i] != b[i] {
            return false;
        }
        i = i + 1;
    }
    proof {
        assert(a@ =~= b@);
    }
    true
}

} // verus!

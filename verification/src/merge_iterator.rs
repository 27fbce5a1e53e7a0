//! The k-way merge iterator: unifies several ordered sources into one
//! sorted stream. The smallest current key wins each step; on a key held by
//! several sources the source with the smallest position (its priority)
//! supplies the value, and every other source's instance is skipped.

use vstd::prelude::*;
use vstd::slice::slice_to_vec;

use crate::error::LsmError;
use crate::iterators::StorageIterator;
use crate::keys::{
    entries_sorted, key_eq, key_lt, lemma_entries_sorted_skip, lemma_lex_asym, lemma_lex_irrefl,
    lemma_lex_total, lemma_lex_trans, lex_lt, Entry,
};

verus! {

/// One merge source: its priority (lower wins ties) and its remaining
/// entries.
pub type MergeSource = (nat, Seq<Entry>);

/// A source still holds entries.
pub open spec fn src_live(s: MergeSource) -> bool {
    s.1.len() > 0
}

/// The key a live source offers next.
pub open spec fn head_key(s: MergeSource) -> Seq<u8> {
    s.1[0].0
}

/// `a` beats `b`: a strictly smaller current key, or the same key with a
/// strictly smaller priority.
pub open spec fn better(a: MergeSource, b: MergeSource) -> bool {
    lex_lt(head_key(a), head_key(b)) || (head_key(a) == head_key(b) && a.0 < b.0)
}

/// Some source still holds entries.
pub open spec fn exists_live(srcs: Seq<MergeSource>) -> bool {
    exists|i: int| 0 <= i < srcs.len() && src_live(#[trigger] srcs[i])
}

/// Total number of entries left across all sources.
pub open spec fn src_total(srcs: Seq<MergeSource>) -> nat
    decreases srcs.len(),
{
    if srcs.len() == 0 {
        0
    } else {
        srcs[0].1.len() + src_total(srcs.skip(1))
    }
}

/// The live source that beats all others; a dead dummy when none is live.
pub open spec fn best_live(srcs: Seq<MergeSource>) -> MergeSource
    decreases srcs.len(),
{
    if srcs.len() == 0 {
        (0 as nat, Seq::<Entry>::empty())
    } else {
        let rest = best_live(srcs.skip(1));
        if !src_live(srcs[0]) {
            rest
        } else if !src_live(rest) {
            srcs[0]
        } else if better(rest, srcs[0]) {
            rest
        } else {
            srcs[0]
        }
    }
}

/// Every source whose current key is `k` advances one entry.
pub open spec fn drop_key(srcs: Seq<MergeSource>, k: Seq<u8>) -> Seq<MergeSource> {
    Seq::new(
        srcs.len(),
        |i: int|
            if src_live(srcs[i]) && head_key(srcs[i]) == k {
                (srcs[i].0, srcs[i].1.skip(1))
            } else {
                srcs[i]
            },
    )
}

/// What a merge over `srcs` emits: at each step the entry of the live
/// source with the smallest current key — ties to the smallest priority —
/// after which every source holding that key skips past it.
pub open spec fn merged(srcs: Seq<MergeSource>) -> Seq<Entry>
    decreases src_total(srcs),
    via merged_decreases
{
    if !exists_live(srcs) {
        Seq::empty()
    } else {
        let b = best_live(srcs);
        seq![b.1[0]] + merged(drop_key(srcs, head_key(b)))
    }
}

#[via_fn]
proof fn merged_decreases(srcs: Seq<MergeSource>) {
    if exists_live(srcs) {
        lemma_best_live(srcs);
        lemma_drop_key_total(srcs, head_key(best_live(srcs)));
    }
}

/// Beating is transitive.
proof fn lemma_better_trans(a: MergeSource, b: MergeSource, c: MergeSource)
    requires
        src_live(a),
        src_live(b),
        src_live(c),
        better(a, b),
        better(b, c),
    ensures
        better(a, c),
{
    if lex_lt(head_key(a), head_key(b)) && lex_lt(head_key(b), head_key(c)) {
        lemma_lex_trans(head_key(a), head_key(b), head_key(c));
    }
}

/// Two live sources that neither beats the other agree on key and priority.
proof fn lemma_better_total(a: MergeSource, b: MergeSource)
    requires
        src_live(a),
        src_live(b),
        !better(a, b),
        !better(b, a),
    ensures
        head_key(a) == head_key(b),
        a.0 == b.0,
{
    lemma_lex_total(head_key(a), head_key(b));
}

/// Law: the winner of each merge step — `best_live`, whose head entry the
/// merge emits next — is a live member of the sources that no live source
/// beats: no other offers a smaller key, nor the same key from a smaller
/// priority. It is dead exactly when every source is exhausted.
pub proof fn lemma_best_live(srcs: Seq<MergeSource>)
    ensures
        exists_live(srcs) <==> src_live(best_live(srcs)),
        src_live(best_live(srcs)) ==> exists|i: int|
            0 <= i < srcs.len() && srcs[i] == best_live(srcs),
        forall|i: int|
            0 <= i < srcs.len() && src_live(#[trigger] srcs[i]) ==> !better(
                srcs[i],
                best_live(srcs),
            ),
    decreases srcs.len(),
{
    if srcs.len() == 0 {
        assert(!exists_live(srcs));
    } else {
        let rest = srcs.skip(1);
        lemma_best_live(rest);
        let b = best_live(srcs);
        let rb = best_live(rest);
        assert(forall|i: int| 0 <= i < rest.len() ==> #[trigger] rest[i] == srcs[i + 1]);
        if src_live(srcs[0]) {
            assert(exists_live(srcs));
        }
        if exists_live(rest) {
            let w = choose|i: int| 0 <= i < rest.len() && src_live(#[trigger] rest[i]);
            assert(srcs[w + 1] == rest[w]);
            assert(exists_live(srcs));
        }
        if exists_live(srcs) && !src_live(srcs[0]) {
            let w = choose|i: int| 0 <= i < srcs.len() && src_live(#[trigger] srcs[i]);
            assert(rest[w - 1] == srcs[w]);
            assert(exists_live(rest));
        }
        if src_live(b) {
            if b == srcs[0] {
            } else {
                let w = choose|i: int| 0 <= i < rest.len() && rest[i] == rb;
                assert(srcs[w + 1] == rb);
            }
        }
        assert forall|i: int| 0 <= i < srcs.len() && src_live(#[trigger] srcs[i]) implies !better(
            srcs[i],
            b,
        ) by {
            if i == 0 {
                if b == srcs[0] {
                    lemma_lex_irrefl(head_key(srcs[0]));
                } else {
                    // b is the rest's best and beats srcs[0]
                    if better(srcs[0], b) {
                        lemma_lex_asym(head_key(b), head_key(srcs[0]));
                    }
                }
            } else {
                assert(rest[i - 1] == srcs[i]);
                assert(!better(rest[i - 1], rb));
                if b == srcs[0] && better(srcs[i], srcs[0]) {
                    // rb is live here, and srcs[0] was kept over rb
                    assert(src_live(rb));
                    assert(!better(rb, srcs[0]));
                    if better(rb, srcs[i]) {
                        lemma_better_trans(rb, srcs[i], srcs[0]);
                    } else {
                        lemma_better_total(srcs[i], rb);
                    }
                }
            }
        };
    }
}

/// With distinct priorities, a live source that no live source beats is
/// the best one.
proof fn lemma_best_live_char(srcs: Seq<MergeSource>, i: int)
    requires
        0 <= i < srcs.len(),
        src_live(srcs[i]),
        forall|j: int| 0 <= j < srcs.len() && src_live(#[trigger] srcs[j]) ==> !better(
            srcs[j],
            srcs[i],
        ),
        forall|a: int, b: int| 0 <= a < b < srcs.len() ==> srcs[a].0 != srcs[b].0,
    ensures
        best_live(srcs) == srcs[i],
{
    lemma_best_live(srcs);
    let b = best_live(srcs);
    assert(src_live(b));
    let w = choose|x: int| 0 <= x < srcs.len() && srcs[x] == b;
    assert(!better(srcs[i], b));
    assert(!better(srcs[w], srcs[i]));
    lemma_better_total(srcs[i], b);
    if w != i {
        assert(srcs[w].0 != srcs[i].0);
    }
}

/// Advancing past a key never adds entries.
proof fn lemma_drop_key_total_le(srcs: Seq<MergeSource>, k: Seq<u8>)
    ensures
        src_total(drop_key(srcs, k)) <= src_total(srcs),
    decreases srcs.len(),
{
    if srcs.len() > 0 {
        lemma_drop_key_total_le(srcs.skip(1), k);
        assert(drop_key(srcs, k).skip(1) =~= drop_key(srcs.skip(1), k));
    }
}

/// Advancing past a key that some live source offers removes at least one
/// entry.
proof fn lemma_drop_key_total(srcs: Seq<MergeSource>, k: Seq<u8>)
    requires
        exists|i: int|
            0 <= i < srcs.len() && src_live(#[trigger] srcs[i]) && head_key(srcs[i]) == k,
    ensures
        src_total(drop_key(srcs, k)) < src_total(srcs),
    decreases srcs.len(),
{
    let w = choose|i: int|
        0 <= i < srcs.len() && src_live(#[trigger] srcs[i]) && head_key(srcs[i]) == k;
    assert(drop_key(srcs, k).skip(1) =~= drop_key(srcs.skip(1), k));
    if w == 0 {
        lemma_drop_key_total_le(srcs.skip(1), k);
    } else {
        assert(srcs.skip(1)[w - 1] == srcs[w]);
        lemma_drop_key_total(srcs.skip(1), k);
    }
}

/// When every entry of every source lies strictly above `k`, so does every
/// entry the merge emits.
proof fn lemma_merged_above(srcs: Seq<MergeSource>, k: Seq<u8>)
    requires
        forall|i: int, t: int|
            0 <= i < srcs.len() && 0 <= t < srcs[i].1.len() ==> lex_lt(
                k,
                #[trigger] srcs[i].1[t].0,
            ),
    ensures
        forall|t: int| 0 <= t < merged(srcs).len() ==> lex_lt(k, #[trigger] merged(srcs)[t].0),
    decreases src_total(srcs),
{
    if exists_live(srcs) {
        lemma_best_live(srcs);
        let b = best_live(srcs);
        let hk = head_key(b);
        lemma_drop_key_total(srcs, hk);
        let d = drop_key(srcs, hk);
        assert forall|i: int, t: int|
            0 <= i < d.len() && 0 <= t < d[i].1.len() implies lex_lt(k, #[trigger] d[i].1[t].0) by {
            if src_live(srcs[i]) && head_key(srcs[i]) == hk {
                assert(d[i].1[t] == srcs[i].1[t + 1]);
            } else {
                assert(d[i].1[t] == srcs[i].1[t]);
            }
        };
        lemma_merged_above(d, k);
        let w = choose|i: int| 0 <= i < srcs.len() && srcs[i] == b;
        assert(lex_lt(k, b.1[0].0));
        assert(merged(srcs) == seq![b.1[0]] + merged(d));
    }
}

/// Sorted sources stay sorted after advancing past the best key.
proof fn lemma_drop_keeps_sorted(srcs: Seq<MergeSource>, hk: Seq<u8>)
    requires
        forall|i: int| 0 <= i < srcs.len() ==> entries_sorted(#[trigger] srcs[i].1),
    ensures
        forall|i: int|
            0 <= i < drop_key(srcs, hk).len() ==> entries_sorted(#[trigger] drop_key(srcs, hk)[i].1),
{
    let d = drop_key(srcs, hk);
    assert forall|i: int| 0 <= i < d.len() implies entries_sorted(#[trigger] d[i].1) by {
        if src_live(srcs[i]) && head_key(srcs[i]) == hk {
            lemma_entries_sorted_skip(srcs[i].1);
            assert(d[i].1 == srcs[i].1.skip(1));
        } else {
            assert(d[i] == srcs[i]);
        }
    };
}

/// After advancing past the best key, every entry of every source lies
/// strictly above it: the best key is the smallest key anywhere.
proof fn lemma_drop_entries_above(srcs: Seq<MergeSource>)
    requires
        forall|i: int| 0 <= i < srcs.len() ==> entries_sorted(#[trigger] srcs[i].1),
        exists_live(srcs),
    ensures
        forall|i: int, t: int|
            0 <= i < srcs.len() && 0 <= t < drop_key(srcs, head_key(best_live(srcs)))[i].1.len()
                ==> lex_lt(
                head_key(best_live(srcs)),
                #[trigger] drop_key(srcs, head_key(best_live(srcs)))[i].1[t].0,
            ),
{
    lemma_best_live(srcs);
    let b = best_live(srcs);
    let hk = head_key(b);
    let d = drop_key(srcs, hk);
    assert forall|i: int, t: int|
        0 <= i < srcs.len() && 0 <= t < d[i].1.len() implies lex_lt(
        hk,
        #[trigger] d[i].1[t].0,
    ) by {
        if src_live(srcs[i]) && head_key(srcs[i]) == hk {
            assert(d[i].1[t] == srcs[i].1[t + 1]);
            assert(lex_lt(srcs[i].1[0].0, srcs[i].1[t + 1].0));
        } else {
            assert(d[i].1[t] == srcs[i].1[t]);
            assert(!better(srcs[i], b));
            assert(!lex_lt(head_key(srcs[i]), hk));
            if head_key(srcs[i]) != hk {
                crate::keys::lemma_lex_le_from_not_lt(head_key(srcs[i]), hk);
            }
            if t > 0 {
                assert(lex_lt(srcs[i].1[0].0, srcs[i].1[t].0));
                if head_key(srcs[i]) == hk {
                    assert(false);
                } else {
                    lemma_lex_trans(hk, srcs[i].1[0].0, srcs[i].1[t].0);
                }
            }
        }
    };
}

/// Law: for sorted sources, the merged stream's keys ascend strictly. In
/// particular each key is emitted once, under the value of the source with
/// the smallest priority that holds it.
pub proof fn lemma_merged_keys_ascending(srcs: Seq<MergeSource>)
    requires
        forall|i: int| 0 <= i < srcs.len() ==> entries_sorted(#[trigger] srcs[i].1),
    ensures
        entries_sorted(merged(srcs)),
    decreases src_total(srcs),
{
    if exists_live(srcs) {
        lemma_best_live(srcs);
        let b = best_live(srcs);
        let hk = head_key(b);
        lemma_drop_key_total(srcs, hk);
        let d = drop_key(srcs, hk);
        lemma_drop_keeps_sorted(srcs, hk);
        lemma_merged_keys_ascending(d);
        lemma_drop_entries_above(srcs);
        lemma_merged_above(d, hk);
        let m = merged(srcs);
        assert(m == seq![b.1[0]] + merged(d));
        assert forall|x: int, y: int| 0 <= x < y < m.len() implies lex_lt(m[x].0, m[y].0) by {
            if x == 0 {
                assert(m[y] == merged(d)[y - 1]);
            } else {
                assert(m[x] == merged(d)[x - 1]);
                assert(m[y] == merged(d)[y - 1]);
            }
        };
    }
}

/// Law: the merge invents nothing — every entry it emits is an entry of
/// one of its sources.
pub proof fn lemma_merged_sound(srcs: Seq<MergeSource>)
    ensures
        forall|t: int|
            0 <= t < merged(srcs).len() ==> exists|i: int, u: int|
                0 <= i < srcs.len() && 0 <= u < srcs[i].1.len() && #[trigger] merged(srcs)[t]
                    == srcs[i].1[u],
    decreases src_total(srcs),
{
    if exists_live(srcs) {
        lemma_best_live(srcs);
        let b = best_live(srcs);
        let hk = head_key(b);
        lemma_drop_key_total(srcs, hk);
        let d = drop_key(srcs, hk);
        lemma_merged_sound(d);
        let m = merged(srcs);
        assert(m == seq![b.1[0]] + merged(d));
        let w = choose|i: int| 0 <= i < srcs.len() && srcs[i] == b;
        assert forall|t: int| 0 <= t < m.len() implies exists|i: int, u: int|
            0 <= i < srcs.len() && 0 <= u < srcs[i].1.len() && #[trigger] m[t]
                == srcs[i].1[u] by {
            if t == 0 {
                assert(m[0] == srcs[w].1[0]);
            } else {
                assert(m[t] == merged(d)[t - 1]);
                let (i, u) = choose|i: int, u: int|
                    0 <= i < d.len() && 0 <= u < d[i].1.len() && #[trigger] merged(d)[t - 1]
                        == d[i].1[u];
                if src_live(srcs[i]) && head_key(srcs[i]) == hk {
                    assert(d[i].1[u] == srcs[i].1[u + 1]);
                    assert(m[t] == srcs[i].1[u + 1]);
                } else {
                    assert(d[i] == srcs[i]);
                    assert(m[t] == srcs[i].1[u]);
                }
            }
        };
    }
}

/// Law: the merge loses nothing — every key held by any source is emitted.
pub proof fn lemma_merged_complete(srcs: Seq<MergeSource>, k: Seq<u8>)
    requires
        forall|i: int| 0 <= i < srcs.len() ==> entries_sorted(#[trigger] srcs[i].1),
        exists|i: int, t: int|
            0 <= i < srcs.len() && 0 <= t < srcs[i].1.len() && #[trigger] srcs[i].1[t].0 == k,
    ensures
        exists|t: int| 0 <= t < merged(srcs).len() && #[trigger] merged(srcs)[t].0 == k,
    decreases src_total(srcs),
{
    let (i, t) = choose|i: int, t: int|
        0 <= i < srcs.len() && 0 <= t < srcs[i].1.len() && #[trigger] srcs[i].1[t].0 == k;
    assert(src_live(srcs[i]));
    assert(exists_live(srcs));
    lemma_best_live(srcs);
    let b = best_live(srcs);
    let hk = head_key(b);
    lemma_drop_key_total(srcs, hk);
    let d = drop_key(srcs, hk);
    let m = merged(srcs);
    assert(m == seq![b.1[0]] + merged(d));
    if hk == k {
        assert(m[0].0 == k);
    } else {
        // the best key is the smallest anywhere, so `k` lies strictly above
        assert(!better(srcs[i], b));
        assert(!lex_lt(head_key(srcs[i]), hk));
        crate::keys::lemma_lex_le_from_not_lt(head_key(srcs[i]), hk);
        // `k` survives the advance past `hk` in its source
        assert forall|x: int| 0 <= x < d.len() implies entries_sorted(#[trigger] d[x].1) by {
            if src_live(srcs[x]) && head_key(srcs[x]) == hk {
                lemma_entries_sorted_skip(srcs[x].1);
                assert(d[x].1 == srcs[x].1.skip(1));
            } else {
                assert(d[x] == srcs[x]);
            }
        };
        if src_live(srcs[i]) && head_key(srcs[i]) == hk {
            assert(t > 0);
            assert(d[i].1[t - 1] == srcs[i].1[t]);
            assert(d[i].1[t - 1].0 == k);
        } else {
            assert(d[i] == srcs[i]);
            assert(d[i].1[t].0 == k);
        }
        lemma_merged_complete(d, k);
        let u = choose|u: int| 0 <= u < merged(d).len() && #[trigger] merged(d)[u].0 == k;
        assert(m[u + 1].0 == k);
    }
}

/// A source still holds an entry with key `k`.
pub open spec fn has_key(s: MergeSource, k: Seq<u8>) -> bool {
    exists|t: int| 0 <= t < s.1.len() && #[trigger] s.1[t].0 == k
}

/// Entry `e` of the merged stream is supplied by source `i`: `i` holds `e`
/// itself, and no source before `i` holds `e`'s key at all.
pub open spec fn takes_from(srcs: Seq<MergeSource>, e: Entry, i: int) -> bool {
    &&& 0 <= i < srcs.len()
    &&& exists|u: int| 0 <= u < srcs[i].1.len() && #[trigger] srcs[i].1[u] == e
    &&& forall|j: int| 0 <= j < i ==> !has_key(#[trigger] srcs[j], e.0)
}

/// Law: precedence. With priorities equal to positions, every entry the
/// merge emits is the entry of the smallest-indexed source that holds its
/// key; the instances in higher-indexed sources are skipped.
pub proof fn lemma_merged_precedence(srcs: Seq<MergeSource>, t: int)
    requires
        forall|i: int| 0 <= i < srcs.len() ==> entries_sorted(#[trigger] srcs[i].1),
        forall|i: int| 0 <= i < srcs.len() ==> #[trigger] srcs[i].0 == i,
        0 <= t < merged(srcs).len(),
    ensures
        exists|i: int| takes_from(srcs, #[trigger] merged(srcs)[t], i),
    decreases src_total(srcs),
{
    lemma_best_live(srcs);
    let b = best_live(srcs);
    let hk = head_key(b);
    lemma_drop_key_total(srcs, hk);
    let d = drop_key(srcs, hk);
    let m = merged(srcs);
    assert(m == seq![b.1[0]] + merged(d));
    if t == 0 {
        let w = choose|i: int| 0 <= i < srcs.len() && srcs[i] == b;
        assert(srcs[w].1[0] == m[0]);
        // no earlier source holds the best key: it would have it at its
        // head, and the best source carries the smallest priority for it
        assert forall|j: int| 0 <= j < w implies !has_key(#[trigger] srcs[j], m[0].0) by {
            if has_key(srcs[j], hk) {
                let u = choose|u: int| 0 <= u < srcs[j].1.len() && #[trigger] srcs[j].1[u].0 == hk;
                assert(src_live(srcs[j]));
                assert(!better(srcs[j], b));
                assert(!lex_lt(head_key(srcs[j]), hk));
                if u > 0 {
                    assert(lex_lt(srcs[j].1[0].0, srcs[j].1[u].0));
                }
                assert(head_key(srcs[j]) == hk);
                assert(srcs[j].0 == j && b.0 == w);
                assert(better(srcs[j], b));
            }
        };
        assert(takes_from(srcs, m[0], w));
    } else {
        lemma_drop_keeps_sorted(srcs, hk);
        lemma_drop_entries_above(srcs);
        lemma_merged_above(d, hk);
        assert forall|i: int| 0 <= i < d.len() implies #[trigger] d[i].0 == i by {
            if src_live(srcs[i]) && head_key(srcs[i]) == hk {
                assert(d[i].0 == srcs[i].0);
            } else {
                assert(d[i] == srcs[i]);
            }
        };
        lemma_merged_precedence(d, t - 1);
        let e = m[t];
        assert(e == merged(d)[t - 1]);
        // the emitted key lies strictly above the best key
        assert(lex_lt(hk, e.0));
        let i = choose|i: int| #[trigger] takes_from(d, merged(d)[t - 1], i);
        // source `i` holds the very entry in the original sources too
        let u = choose|u: int| 0 <= u < d[i].1.len() && #[trigger] d[i].1[u] == e;
        if src_live(srcs[i]) && head_key(srcs[i]) == hk {
            assert(srcs[i].1[u + 1] == e);
        } else {
            assert(d[i] == srcs[i]);
        }
        // and earlier sources hold its key in neither view: the advance
        // only removed entries with the best key, which is smaller
        assert forall|j: int| 0 <= j < i implies !has_key(#[trigger] srcs[j], e.0) by {
            if has_key(srcs[j], e.0) {
                let v = choose|v: int|
                    0 <= v < srcs[j].1.len() && #[trigger] srcs[j].1[v].0 == e.0;
                if src_live(srcs[j]) && head_key(srcs[j]) == hk {
                    assert(v > 0) by {
                        if v == 0 {
                            crate::keys::lemma_lex_irrefl(hk);
                        }
                    };
                    assert(d[j].1[v - 1] == srcs[j].1[v]);
                    assert(has_key(d[j], e.0));
                } else {
                    assert(d[j] == srcs[j]);
                    assert(has_key(d[j], e.0));
                }
            }
        };
        assert(takes_from(srcs, e, i));
    }
}

/// The sources a vector of iterators stands for: position is priority.
pub open spec fn vec_sources<I: StorageIterator>(v: Seq<Box<I>>) -> Seq<MergeSource> {
    Seq::new(v.len(), |i: int| (i as nat, (*v[i]).entries()))
}

/// Merge multiple iterators of the same type. If the same key occurs in
/// several sources, the one with the smallest position wins.
pub struct MergeIterator<I: StorageIterator> {
    /// The sources; a source's position is its priority and never changes.
    /// Exhausted sources stay and are skipped.
    pub iters: Vec<Box<I>>,
    /// Position of the live source that beats all others; nothing when
    /// every source is exhausted.
    pub current: Option<usize>,
}

impl<I: StorageIterator> MergeIterator<I> {
    /// Each source's priority and remaining entries.
    pub open spec fn sources(&self) -> Seq<MergeSource> {
        vec_sources(self.iters@)
    }

    /// Source `i` is intact: its iterator invariant holds and its entries
    /// are sorted.
    pub open spec fn inv_at(&self, i: int) -> bool {
        &&& (*self.iters@[i]).inv()
        &&& entries_sorted((*self.iters@[i]).entries())
    }

    /// Internal invariant: every source intact, and `current` names the
    /// live source that beats all others, when one exists.
    pub open spec fn wf(&self) -> bool {
        &&& forall|i: int| 0 <= i < self.iters@.len() ==> #[trigger] self.inv_at(i)
        &&& match self.current {
            Some(c) => {
                &&& (c as int) < self.sources().len()
                &&& src_live(self.sources()[c as int])
                &&& forall|j: int|
                    0 <= j < self.sources().len() && src_live(#[trigger] self.sources()[j])
                        ==> !better(self.sources()[j], self.sources()[c as int])
            },
            None => forall|i: int|
                0 <= i < self.sources().len() ==> !src_live(#[trigger] self.sources()[i]),
        }
    }

    /// Scan for the live source that beats all others.
    fn find_best(iters: &Vec<Box<I>>) -> (r: Option<usize>)
        requires
            forall|i: int| 0 <= i < iters@.len() ==> (*#[trigger] iters@[i]).inv(),
        ensures
            match r {
                Some(c) => {
                    &&& (c as int) < iters@.len()
                    &&& src_live(vec_sources(iters@)[c as int])
                    &&& forall|j: int|
                        0 <= j < iters@.len() && src_live(#[trigger] vec_sources(iters@)[j])
                            ==> !better(vec_sources(iters@)[j], vec_sources(iters@)[c as int])
                },
                None => forall|i: int|
                    0 <= i < iters@.len() ==> !src_live(#[trigger] vec_sources(iters@)[i]),
            },
    {
        let ghost s = vec_sources(iters@);
        let n = iters.len();
        let mut best: Option<usize> = None;
        let mut j: usize = 0;
        while j < n
            invariant
                j <= n,
                n == iters@.len(),
                s == vec_sources(iters@),
                forall|i: int| 0 <= i < n ==> (*#[trigger] iters@[i]).inv(),
                match best {
                    Some(b) => {
                        &&& (b as int) < j
                        &&& src_live(s[b as int])
                        &&& forall|x: int|
                            0 <= x < j && src_live(#[trigger] s[x]) ==> !better(s[x], s[b as int])
                    },
                    None => forall|x: int| 0 <= x < j ==> !src_live(#[trigger] s[x]),
                },
            decreases n - j,
        {
            proof {
                assert(s[j as int] == (j as nat, (*iters@[j as int]).entries()));
            }
            if iters[j].is_valid() {
                match best {
                    None => {
                        proof {
                            lemma_lex_irrefl(head_key(s[j as int]));
                        }
                        best = Some(j);
                    },
                    Some(b) => {
                        proof {
                            assert(s[b as int] == (b as nat, (*iters@[b as int]).entries()));
                        }
                        if key_lt(iters[j].key(), iters[b].key()) {
                            proof {
                                assert(better(s[j as int], s[b as int]));
                                assert forall|x: int|
                                    0 <= x < j + 1 && src_live(#[trigger] s[x]) implies !better(
                                    s[x],
                                    s[j as int],
                                ) by {
                                    if x < j as int && better(s[x], s[j as int]) {
                                        lemma_better_trans(s[x], s[j as int], s[b as int]);
                                    }
                                    if x == j as int {
                                        lemma_lex_irrefl(head_key(s[x]));
                                    }
                                };
                            }
                            best = Some(j);
                        }
                    },
                }
            }
            j = j + 1;
        }
        best
    }

    /// Create a merge over the given sources; the vector position of each
    /// source is its priority, lower position winning ties.
    pub fn create(iters: Vec<Box<I>>) -> (r: MergeIterator<I>)
        requires
            forall|i: int|
                0 <= i < iters@.len() ==> (*#[trigger] iters@[i]).inv() && entries_sorted(
                    (*iters@[i]).entries(),
                ),
        ensures
            r.wf(),
            r.sources() == vec_sources(iters@),
            r.entries() == merged(vec_sources(iters@)),
    {
        let best = Self::find_best(&iters);
        MergeIterator { iters, current: best }
    }
}

impl<I: StorageIterator> StorageIterator for MergeIterator<I> {
    /// What remains to be emitted: the precedence merge of the sources.
    open spec fn entries(&self) -> Seq<Entry> {
        merged(self.sources())
    }

    /// The merge invariant.
    open spec fn inv(&self) -> bool {
        self.wf()
    }

    fn key(&self) -> (r: &[u8]) {
        proof {
            if self.current is Some {
                self.lemma_current_is_best();
                let c = self.current->Some_0 as int;
                assert(self.inv_at(c));
                assert(self.sources()[c] == (c as nat, (*self.iters@[c]).entries()));
            }
        }
        match self.current {
            Some(c) => self.iters[c].key(),
            None => crate::keys::empty_key(),
        }
    }

    fn value(&self) -> (r: &[u8]) {
        proof {
            if self.current is Some {
                self.lemma_current_is_best();
                let c = self.current->Some_0 as int;
                assert(self.inv_at(c));
                assert(self.sources()[c] == (c as nat, (*self.iters@[c]).entries()));
            }
        }
        match self.current {
            Some(c) => self.iters[c].value(),
            None => crate::keys::empty_key(),
        }
    }

    fn is_valid(&self) -> (r: bool) {
        proof {
            if self.current is Some {
                self.lemma_current_is_best();
            }
        }
        match self.current {
            Some(_) => true,
            None => false,
        }
    }

    fn next(&mut self) -> (r: Result<(), LsmError>)
        ensures
            r is Err ==> r == Result::<(), LsmError>::Err(LsmError::Misuse) && *final(self)
                == *old(self),
    {
        proof {
            if old(self).current is Some {
                old(self).lemma_current_is_best();
            }
        }
        let c = match self.current {
            Some(c) => c,
            None => {
                return Err(LsmError::Misuse);
            },
        };
        let ghost old_srcs = self.sources();
        let ghost ks = head_key(old_srcs[c as int]);
        proof {
            assert(self.inv_at(c as int));
            assert(old_srcs[c as int] == (c as nat, (*self.iters@[c as int]).entries()));
        }
        let k: Vec<u8> = slice_to_vec(self.iters[c].key());
        let n = self.iters.len();
        proof {
            assert forall|x: int| 0 <= x < n implies (*#[trigger] self.iters@[x]).inv()
                && entries_sorted((*self.iters@[x]).entries()) by {
                assert(self.inv_at(x));
            };
        }
        let mut j: usize = 0;
        while j < n
            invariant
                j <= n,
                n == self.iters@.len(),
                self.current == old(self).current,
                old_srcs == old(self).sources(),
                old_srcs.len() == n,
                k@ == ks,
                forall|x: int| j <= x < n ==> #[trigger] self.sources()[x] == old_srcs[x],
                forall|x: int|
                    0 <= x < j ==> #[trigger] self.sources()[x] == drop_key(old_srcs, ks)[x],
                forall|x: int| 0 <= x < n ==> (*#[trigger] self.iters@[x]).inv(),
                forall|x: int|
                    0 <= x < n ==> entries_sorted((*#[trigger] self.iters@[x]).entries()),
            decreases n - j,
        {
            proof {
                assert((*self.iters@[j as int]).inv());
                assert(self.sources()[j as int] == old_srcs[j as int]);
                assert(self.sources()[j as int] == (
                    j as nat,
                    (*self.iters@[j as int]).entries(),
                ));
            }
            let advance = self.iters[j].is_valid() && key_eq(self.iters[j].key(), k.as_slice());
            if advance {
                let ghost pre = self.iters@;
                let res = self.iters[j].next();
                proof {
                    assert(res is Ok);
                    assert((*self.iters@[j as int]).entries() == old_srcs[j as int].1.skip(1));
                    assert(src_live(old_srcs[j as int]) && head_key(old_srcs[j as int]) == ks);
                    assert(self.sources()[j as int] == drop_key(old_srcs, ks)[j as int]);
                    lemma_entries_sorted_skip(old_srcs[j as int].1);
                    assert forall|x: int| 0 <= x < n && x != j as int implies self.iters@[x]
                        == pre[x] by {};
                    assert forall|x: int| 0 <= x < n && x != j as int implies #[trigger] self
                        .sources()[x] == vec_sources(pre)[x] by {};
                    assert forall|x: int| 0 <= x < n implies (*#[trigger] self.iters@[x]).inv()
                        && entries_sorted((*self.iters@[x]).entries()) by {
                        if x != j as int {
                            assert(self.iters@[x] == pre[x]);
                        }
                    };
                }
            } else {
                proof {
                    assert(!(src_live(old_srcs[j as int]) && head_key(old_srcs[j as int]) == ks));
                    assert(drop_key(old_srcs, ks)[j as int] == old_srcs[j as int]);
                }
            }
            j = j + 1;
        }
        let ghost after = self.sources();
        let ghost kept = self.iters@;
        proof {
            assert(after =~= drop_key(old_srcs, ks));
        }
        let best = Self::find_best(&self.iters);
        self.current = best;
        proof {
            assert(self.iters@ == kept);
            assert(self.sources() == after);
            assert forall|i: int| 0 <= i < n implies #[trigger] self.inv_at(i) by {
                assert((*self.iters@[i]).inv());
                assert(entries_sorted((*self.iters@[i]).entries()));
            };
            let dropped = drop_key(old_srcs, ks);
            assert forall|a: int, b: int| 0 <= a < b < old_srcs.len() implies old_srcs[a].0
                != old_srcs[b].0 by {};
            lemma_best_live_char(old_srcs, c as int);
            assert(exists_live(old_srcs));
            assert(merged(old_srcs) == seq![old_srcs[c as int].1[0]] + merged(dropped));
            assert(merged(self.sources()) =~= merged(old_srcs).skip(1));
        }
        Ok(())
    }
}

impl<I: StorageIterator> MergeIterator<I> {
    /// Under the invariant, a named current source is the best one, so the
    /// merge's first entry is its head entry.
    proof fn lemma_current_is_best(&self)
        requires
            self.wf(),
            self.current is Some,
        ensures
            best_live(self.sources()) == self.sources()[self.current->Some_0 as int],
            merged(self.sources()).len() > 0,
            merged(self.sources())[0] == self.sources()[self.current->Some_0 as int].1[0],
    {
        let c = self.current->Some_0 as int;
        let srcs = self.sources();
        assert forall|a: int, b: int| 0 <= a < b < srcs.len() implies srcs[a].0 != srcs[b].0 by {};
        lemma_best_live_char(srcs, c);
        assert(exists_live(srcs));
        assert(merged(srcs) == seq![srcs[c].1[0]] + merged(drop_key(srcs, head_key(srcs[c]))));
    }
}

} // verus!

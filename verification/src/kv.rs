//! Transactional key-value store over raw byte keys and values.
//!
//! The store keeps its records sorted in strict byte-lexicographic key
//! order, so every key appears at most once.  A write transaction works on
//! a private copy of the committed records and carries a single optional
//! savepoint; `commit` makes the transaction's records the committed state
//! atomically (the exclusive borrow of the store models the single-writer
//! rule).  Reads that need no transaction go straight to the committed
//! records.

use vstd::prelude::*;

use crate::order::{copy_bytes, has_prefix, key_eq, key_has_prefix, key_lt, lex_le, lex_lt};
use crate::order::{
    lemma_lex_lt_asymmetric, lemma_lex_lt_irreflexive, lemma_lex_lt_total,
    lemma_lex_lt_transitive,
};

verus! {

/// One record: a key and its value, as mathematical byte sequences.
pub type Rec = (Seq<u8>, Seq<u8>);

/// Records sorted strictly ascending by key; strictness makes keys unique.
pub open spec fn entries_sorted(s: Seq<Rec>) -> bool {
    forall|i: int, j: int| 0 <= i < j < s.len() ==> lex_lt(s[i].0, s[j].0)
}

/// Some record of `s` has key `k`.
pub open spec fn kv_contains(s: Seq<Rec>, k: Seq<u8>) -> bool {
    exists|i: int| 0 <= i < s.len() && s[i].0 == k
}

/// The value stored under `k`, if any.
pub open spec fn kv_get(s: Seq<Rec>, k: Seq<u8>) -> Option<Seq<u8>> {
    if kv_contains(s, k) {
        let i = choose|i: int| 0 <= i < s.len() && s[i].0 == k;
        Some(s[i].1)
    } else {
        None
    }
}

/// The sorted records after an upsert of `k = v`.
pub open spec fn kv_insert(s: Seq<Rec>, k: Seq<u8>, v: Seq<u8>) -> Seq<Rec>
    decreases s.len(),
{
    if s.len() == 0 {
        seq![(k, v)]
    } else if lex_lt(k, s[0].0) {
        seq![(k, v)] + s
    } else if k == s[0].0 {
        seq![(k, v)] + s.drop_first()
    } else {
        seq![s[0]] + kv_insert(s.drop_first(), k, v)
    }
}

/// The sorted records after deleting `k`, if present.
pub open spec fn kv_remove(s: Seq<Rec>, k: Seq<u8>) -> Seq<Rec>
    decreases s.len(),
{
    if s.len() == 0 {
        s
    } else if s[0].0 == k {
        s.drop_first()
    } else {
        seq![s[0]] + kv_remove(s.drop_first(), k)
    }
}

/// The records whose keys start with `prefix`, in store order.
pub open spec fn kv_matching_prefix(s: Seq<Rec>, prefix: Seq<u8>) -> Seq<Rec> {
    s.filter(|p: Rec| has_prefix(p.0, prefix))
}

/// The records left once every key starting with `prefix` is gone.
pub open spec fn kv_without_prefix(s: Seq<Rec>, prefix: Seq<u8>) -> Seq<Rec> {
    s.filter(|p: Rec| !has_prefix(p.0, prefix))
}

/// The records whose keys lie in the half-open interval `[lo, hi)`.
pub open spec fn kv_in_range(s: Seq<Rec>, lo: Seq<u8>, hi: Seq<u8>) -> Seq<Rec> {
    s.filter(|p: Rec| lex_le(lo, p.0) && lex_lt(p.0, hi))
}

/// View of an optional byte vector.
pub open spec fn opt_bytes(o: Option<Vec<u8>>) -> Option<Seq<u8>> {
    match o {
        Some(v) => Some(v@),
        None => None,
    }
}

/// View of a vector of records.
pub open spec fn recs_view(v: Seq<(Vec<u8>, Vec<u8>)>) -> Seq<Rec> {
    v.map_values(|p: (Vec<u8>, Vec<u8>)| (p.0@, p.1@))
}

/// In a sorted record sequence no key appears twice.
pub proof fn lemma_sorted_keys_unique(s: Seq<Rec>, i: int, j: int)
    requires
        entries_sorted(s),
        0 <= i < s.len(),
        0 <= j < s.len(),
        s[i].0 == s[j].0,
    ensures
        i == j,
{
    if i != j {
        lemma_lex_lt_irreflexive(s[i].0);
    }
}

/// In a sorted record sequence, the record at a key's index is what
/// `kv_get` returns.
pub proof fn lemma_sorted_get(s: Seq<Rec>, i: int)
    requires
        entries_sorted(s),
        0 <= i < s.len(),
    ensures
        kv_get(s, s[i].0) == Some(s[i].1),
{
    let k = s[i].0;
    assert(kv_contains(s, k));
    assert forall|j: int| 0 <= j < s.len() && s[j].0 == k implies s[j].1 == s[i].1 by {
        lemma_sorted_keys_unique(s, i, j);
    }
}

/// A key all of whose predecessors in a sorted sequence are strictly
/// smaller, and whose successor from some index on is not smaller, sits at
/// that index or is absent.
proof fn lemma_split_position_not_contained(s: Seq<Rec>, k: Seq<u8>, i: int)
    requires
        entries_sorted(s),
        0 <= i <= s.len(),
        forall|j: int| 0 <= j < i ==> lex_lt(s[j].0, k),
        i < s.len() ==> !lex_lt(s[i].0, k),
        i < s.len() ==> s[i].0 != k,
    ensures
        !kv_contains(s, k),
{
    assert forall|j: int| 0 <= j < s.len() implies s[j].0 != k by {
        if j < i {
            lemma_lex_lt_irreflexive(k);
        } else if j > i && i < s.len() {
            if s[j].0 == k {
                lemma_lex_lt_total(s[i].0, k);
                lemma_lex_lt_asymmetric(s[i].0, k);
            }
        }
    }
}

/// `kv_insert` is an update in place when the key is present, and a
/// placement at the split position when it is not.
proof fn lemma_kv_insert_characterization(s: Seq<Rec>, k: Seq<u8>, v: Seq<u8>, i: int)
    requires
        entries_sorted(s),
        0 <= i <= s.len(),
        forall|j: int| 0 <= j < i ==> lex_lt(s[j].0, k),
        i < s.len() ==> !lex_lt(s[i].0, k),
    ensures
        kv_insert(s, k, v) == if i < s.len() && s[i].0 == k {
            s.update(i, (k, v))
        } else {
            s.insert(i, (k, v))
        },
    decreases s.len(),
{
    if s.len() == 0 {
        assert(kv_insert(s, k, v) =~= s.insert(0, (k, v)));
    } else if i == 0 {
        if s[0].0 == k {
            lemma_lex_lt_irreflexive(k);
            assert(kv_insert(s, k, v) =~= s.update(0, (k, v)));
        } else {
            lemma_lex_lt_total(k, s[0].0);
            assert(lex_lt(k, s[0].0));
            assert(kv_insert(s, k, v) =~= s.insert(0, (k, v)));
        }
    } else {
        assert(lex_lt(s[0].0, k));
        lemma_lex_lt_asymmetric(k, s[0].0);
        lemma_lex_lt_irreflexive(s[0].0);
        let t = s.drop_first();
        assert(entries_sorted(t));
        assert(forall|j: int| 0 <= j < i - 1 ==> lex_lt(t[j].0, k));
        lemma_kv_insert_characterization(t, k, v, i - 1);
        if i < s.len() && s[i].0 == k {
            assert(kv_insert(s, k, v) =~= s.update(i, (k, v)));
        } else {
            assert(kv_insert(s, k, v) =~= s.insert(i, (k, v)));
        }
    }
}

/// The number of keys strictly smaller than `k`: where an upsert of `k`
/// lands.
pub open spec fn split_pos(s: Seq<Rec>, k: Seq<u8>) -> int
    decreases s.len(),
{
    if s.len() == 0 {
        0
    } else if lex_lt(s[0].0, k) {
        1 + split_pos(s.drop_first(), k)
    } else {
        0
    }
}

proof fn lemma_split_pos(s: Seq<Rec>, k: Seq<u8>)
    requires
        entries_sorted(s),
    ensures
        0 <= split_pos(s, k) <= s.len(),
        forall|j: int| 0 <= j < split_pos(s, k) ==> lex_lt(s[j].0, k),
        split_pos(s, k) < s.len() ==> !lex_lt(s[split_pos(s, k)].0, k),
    decreases s.len(),
{
    if s.len() > 0 && lex_lt(s[0].0, k) {
        let t = s.drop_first();
        assert(entries_sorted(t));
        lemma_split_pos(t, k);
        assert forall|j: int| 0 <= j < split_pos(s, k) implies lex_lt(s[j].0, k) by {
            if j > 0 {
                assert(lex_lt(t[j - 1].0, k));
            }
        }
    }
}

/// What an upsert does: the new key maps to the new value, every other key
/// is untouched, order is kept, and the record count grows exactly when the
/// key was absent.
pub proof fn lemma_kv_insert_props(s: Seq<Rec>, k: Seq<u8>, v: Seq<u8>)
    requires
        entries_sorted(s),
    ensures
        entries_sorted(kv_insert(s, k, v)),
        kv_get(kv_insert(s, k, v), k) == Some(v),
        forall|k2: Seq<u8>| k2 != k ==> kv_get(kv_insert(s, k, v), k2) == kv_get(s, k2),
        forall|k2: Seq<u8>|
            kv_contains(kv_insert(s, k, v), k2) == (k2 == k || kv_contains(s, k2)),
        kv_insert(s, k, v).len() == if kv_contains(s, k) {
            s.len()
        } else {
            s.len() + 1
        },
        forall|i: int|
            0 <= i < kv_insert(s, k, v).len() ==> (#[trigger] kv_insert(s, k, v)[i] == (k, v)
                || s.contains(kv_insert(s, k, v)[i])),
{
    let i = split_pos(s, k);
    lemma_split_pos(s, k);
    lemma_kv_insert_characterization(s, k, v, i);
    let out = kv_insert(s, k, v);
    if i < s.len() && s[i].0 == k {
        // replacement in place
        assert(out == s.update(i, (k, v)));
        assert(entries_sorted(out)) by {
            assert forall|a: int, b: int| 0 <= a < b < out.len() implies lex_lt(
                out[a].0,
                out[b].0,
            ) by {
                assert(out[a].0 == s[a].0 && out[b].0 == s[b].0);
            }
        }
        assert(out[i].0 == k);
        lemma_sorted_get(out, i);
        assert(kv_contains(s, k));
        assert forall|k2: Seq<u8>|
            kv_contains(out, k2) == (k2 == k || kv_contains(s, k2)) by {
            if kv_contains(out, k2) && k2 != k {
                let a = choose|a: int| 0 <= a < out.len() && out[a].0 == k2;
                assert(s[a].0 == k2);
            }
            if kv_contains(s, k2) && k2 != k {
                let a = choose|a: int| 0 <= a < s.len() && s[a].0 == k2;
                assert(a != i);
                assert(out[a].0 == k2);
            }
        }
        assert forall|k2: Seq<u8>| k2 != k implies kv_get(out, k2) == kv_get(s, k2) by {
            if kv_contains(s, k2) {
                let a = choose|a: int| 0 <= a < s.len() && s[a].0 == k2;
                assert(a != i);
                assert(out[a] == s[a]);
                lemma_sorted_get(s, a);
                lemma_sorted_get(out, a);
            } else {
                assert(!kv_contains(out, k2));
            }
        }
    } else {
        // placement at the split position
        assert(out == s.insert(i, (k, v)));
        assert(!kv_contains(s, k)) by {
            if i < s.len() {
                lemma_split_position_not_contained(s, k, i);
            } else {
                assert forall|j: int| 0 <= j < s.len() implies s[j].0 != k by {
                    lemma_lex_lt_irreflexive(k);
                }
            }
        }
        assert(i < s.len() ==> lex_lt(k, s[i].0)) by {
            if i < s.len() {
                lemma_lex_lt_total(k, s[i].0);
            }
        }
        // indices: out[a] == s[a] for a < i, out[i] == (k, v),
        // out[a] == s[a - 1] for a > i
        assert(entries_sorted(out)) by {
            assert forall|a: int, b: int| 0 <= a < b < out.len() implies lex_lt(
                out[a].0,
                out[b].0,
            ) by {
                if a < i && b < i {
                } else if a == i && b > i {
                    lemma_lex_lt_transitive_from(k, s, i, b - 1);
                } else if a < i && b == i {
                } else if a < i && b > i {
                } else if a == i && b == i {
                } else if a > i {
                }
            }
        }
        assert(out[i].0 == k);
        lemma_sorted_get(out, i);
        assert forall|k2: Seq<u8>|
            kv_contains(out, k2) == (k2 == k || kv_contains(s, k2)) by {
            if kv_contains(out, k2) && k2 != k {
                let a = choose|a: int| 0 <= a < out.len() && out[a].0 == k2;
                if a < i {
                    assert(s[a].0 == k2);
                } else {
                    assert(a != i);
                    assert(s[a - 1].0 == k2);
                }
            }
            if kv_contains(s, k2) && k2 != k {
                let a = choose|a: int| 0 <= a < s.len() && s[a].0 == k2;
                if a < i {
                    assert(out[a].0 == k2);
                } else {
                    assert(out[a + 1].0 == k2);
                }
            }
        }
        assert forall|k2: Seq<u8>| k2 != k implies kv_get(out, k2) == kv_get(s, k2) by {
            if kv_contains(s, k2) {
                let a = choose|a: int| 0 <= a < s.len() && s[a].0 == k2;
                lemma_sorted_get(s, a);
                if a < i {
                    assert(out[a] == s[a]);
                    lemma_sorted_get(out, a);
                } else {
                    assert(out[a + 1] == s[a]);
                    lemma_sorted_get(out, a + 1);
                }
            } else {
                assert(!kv_contains(out, k2));
            }
        }
    }
    assert forall|a: int| 0 <= a < out.len() implies (#[trigger] out[a] == (k, v)
        || s.contains(out[a])) by {
        if i < s.len() && s[i].0 == k {
            if a != i {
                assert(out[a] == s[a]);
                assert(s.contains(s[a]));
            }
        } else {
            if a < i {
                assert(out[a] == s[a]);
                assert(s.contains(s[a]));
            } else if a > i {
                assert(out[a] == s[a - 1]);
                assert(s.contains(s[a - 1]));
            }
        }
    }
}

/// An upsert of an absent key grows a filtered view by exactly the new
/// record when it matches the filter, and leaves it unchanged when it does
/// not.
pub proof fn lemma_kv_insert_filter(s: Seq<Rec>, k: Seq<u8>, v: Seq<u8>, pred: spec_fn(
    Rec,
) -> bool)
    requires
        entries_sorted(s),
        !kv_contains(s, k),
    ensures
        pred((k, v)) ==> kv_insert(s, k, v).filter(pred).len() == s.filter(pred).len() + 1,
        !pred((k, v)) ==> kv_insert(s, k, v).filter(pred) == s.filter(pred),
{
    let i = split_pos(s, k);
    lemma_split_pos(s, k);
    assert(i < s.len() ==> s[i].0 != k) by {
        if i < s.len() && s[i].0 == k {
            assert(kv_contains(s, k));
        }
    }
    lemma_kv_insert_characterization(s, k, v, i);
    let out = kv_insert(s, k, v);
    assert(out == s.insert(i, (k, v)));
    let mid = seq![(k, v)] + s.skip(i);
    assert(out =~= s.take(i) + mid);
    assert(s =~= s.take(i) + s.skip(i));
    Seq::filter_distributes_over_add(s.take(i), mid, pred);
    Seq::filter_distributes_over_add(seq![(k, v)], s.skip(i), pred);
    Seq::filter_distributes_over_add(s.take(i), s.skip(i), pred);
    lemma_filter_singleton((k, v), pred);
    if pred((k, v)) {
        assert(out.filter(pred) =~= s.take(i).filter(pred) + seq![(k, v)] + s.skip(
            i,
        ).filter(pred));
        assert(s.filter(pred) =~= s.take(i).filter(pred) + s.skip(i).filter(pred));
    } else {
        assert(out.filter(pred) =~= s.filter(pred));
    }
}

/// An upsert of an absent, matching key inserts the new record into a
/// filtered view exactly where its key belongs.
pub proof fn lemma_kv_insert_filter_match(s: Seq<Rec>, k: Seq<u8>, v: Seq<u8>, pred: spec_fn(
    Rec,
) -> bool)
    requires
        entries_sorted(s),
        !kv_contains(s, k),
        pred((k, v)),
    ensures
        kv_insert(s, k, v).filter(pred) == kv_insert(s.filter(pred), k, v),
{
    let i = split_pos(s, k);
    lemma_split_pos(s, k);
    assert(i < s.len() ==> s[i].0 != k) by {
        if i < s.len() && s[i].0 == k {
            assert(kv_contains(s, k));
        }
    }
    lemma_kv_insert_characterization(s, k, v, i);
    let out = kv_insert(s, k, v);
    assert(out == s.insert(i, (k, v)));
    let head = s.take(i);
    let tail = s.skip(i);
    assert(entries_sorted(head));
    assert(entries_sorted(tail));
    let mid = seq![(k, v)] + tail;
    assert(out =~= head + mid);
    assert(s =~= head + tail);
    Seq::filter_distributes_over_add(head, mid, pred);
    Seq::filter_distributes_over_add(seq![(k, v)], tail, pred);
    Seq::filter_distributes_over_add(head, tail, pred);
    lemma_filter_singleton((k, v), pred);
    let fhead = head.filter(pred);
    let ftail = tail.filter(pred);
    let fs = s.filter(pred);
    assert(out.filter(pred) =~= fhead + seq![(k, v)] + ftail);
    assert(fs =~= fhead + ftail);
    lemma_filter_sorted(s, pred);
    lemma_filter_sorted(head, pred);
    lemma_filter_sorted(tail, pred);
    let i2 = fhead.len() as int;
    // every filtered record before the split keeps a key below `k`
    assert forall|j: int| 0 <= j < i2 implies lex_lt(fs[j].0, k) by {
        assert(fs[j] == fhead[j]);
        assert(fhead.contains(fhead[j]));
        assert(head.contains(fhead[j]));
        let j2 = choose|j2: int| 0 <= j2 < head.len() && head[j2] == fhead[j];
        assert(head[j2] == s[j2]);
    }
    // and every one from the split on keeps a key not below `k`
    assert(i2 < fs.len() ==> !lex_lt(fs[i2].0, k)) by {
        if i2 < fs.len() {
            assert(fs[i2] == ftail[0]);
            assert(ftail.contains(ftail[0]));
            assert(tail.contains(ftail[0]));
            let m = choose|m: int| 0 <= m < tail.len() && tail[m] == ftail[0];
            assert(tail[m] == s[i + m]);
            if m > 0 {
                lemma_lex_lt_total(k, s[i as int].0);
                assert(lex_lt(k, s[i as int].0));
                lemma_lex_lt_transitive(k, s[i as int].0, s[i + m].0);
                lemma_lex_lt_asymmetric(s[i + m].0, k);
            }
        }
    }
    assert(i2 < fs.len() ==> fs[i2].0 != k) by {
        if i2 < fs.len() && fs[i2].0 == k {
            assert(fs.contains(fs[i2]));
            assert(s.contains(fs[i2]));
            let j3 = choose|j3: int| 0 <= j3 < s.len() && s[j3] == fs[i2];
            assert(kv_contains(s, k));
        }
    }
    lemma_kv_insert_characterization(fs, k, v, i2);
    assert(kv_insert(fs, k, v) == fs.insert(i2, (k, v)));
    assert(fs.insert(i2, (k, v)) =~= fhead + seq![(k, v)] + ftail);
}

/// The key at one sorted index is smaller than every key from there on.
proof fn lemma_lex_lt_transitive_from(k: Seq<u8>, s: Seq<Rec>, i: int, b: int)
    requires
        entries_sorted(s),
        0 <= i <= b < s.len(),
        lex_lt(k, s[i].0),
    ensures
        lex_lt(k, s[b].0),
{
    if b > i {
        lemma_lex_lt_transitive(k, s[i].0, s[b].0);
    }
}

/// Deleting an absent key changes nothing.
proof fn lemma_kv_remove_absent(s: Seq<Rec>, k: Seq<u8>)
    requires
        !kv_contains(s, k),
    ensures
        kv_remove(s, k) == s,
    decreases s.len(),
{
    if s.len() > 0 {
        assert(s[0].0 != k);
        let t = s.drop_first();
        assert(!kv_contains(t, k)) by {
            if kv_contains(t, k) {
                let j = choose|j: int| 0 <= j < t.len() && t[j].0 == k;
                assert(s[j + 1].0 == k);
            }
        }
        lemma_kv_remove_absent(t, k);
        assert(kv_remove(s, k) =~= s);
    }
}

/// What a delete does: the key is gone, every other key is untouched, order
/// is kept, and the record count shrinks exactly when the key was present.
pub proof fn lemma_kv_remove_props(s: Seq<Rec>, k: Seq<u8>)
    requires
        entries_sorted(s),
    ensures
        entries_sorted(kv_remove(s, k)),
        !kv_contains(kv_remove(s, k), k),
        forall|k2: Seq<u8>| k2 != k ==> kv_get(kv_remove(s, k), k2) == kv_get(s, k2),
        forall|k2: Seq<u8>|
            kv_contains(kv_remove(s, k), k2) == (k2 != k && kv_contains(s, k2)),
        kv_remove(s, k).len() == if kv_contains(s, k) {
            s.len() - 1
        } else {
            s.len() as int
        },
        !kv_contains(s, k) ==> kv_remove(s, k) == s,
{
    let out = kv_remove(s, k);
    if kv_contains(s, k) {
        let i = choose|i: int| 0 <= i < s.len() && s[i].0 == k;
        assert(0 <= i < s.len() && s[i].0 == k);
        lemma_kv_remove_at_index(s, k, i);
        assert(out == s.remove(i));
        // out[a] == s[a] below i and s[a + 1] from i on
        assert(entries_sorted(out));
        assert(!kv_contains(out, k)) by {
            if kv_contains(out, k) {
                let a = choose|a: int| 0 <= a < out.len() && out[a].0 == k;
                if a < i {
                    lemma_sorted_keys_unique(s, a, i);
                } else {
                    lemma_sorted_keys_unique(s, a + 1, i);
                }
            }
        }
        assert forall|k2: Seq<u8>|
            kv_contains(out, k2) == (k2 != k && kv_contains(s, k2)) by {
            if kv_contains(out, k2) {
                let a = choose|a: int| 0 <= a < out.len() && out[a].0 == k2;
                if a < i {
                    assert(s[a].0 == k2);
                } else {
                    assert(s[a + 1].0 == k2);
                }
                assert(kv_contains(s, k2));
            }
            if k2 != k && kv_contains(s, k2) {
                let a = choose|a: int| 0 <= a < s.len() && s[a].0 == k2;
                assert(a != i);
                if a < i {
                    assert(out[a].0 == k2);
                } else {
                    assert(out[a - 1].0 == k2);
                }
                assert(kv_contains(out, k2));
            }
        }
        assert forall|k2: Seq<u8>| k2 != k implies kv_get(out, k2) == kv_get(s, k2) by {
            if kv_contains(s, k2) {
                let a = choose|a: int| 0 <= a < s.len() && s[a].0 == k2;
                assert(0 <= a < s.len() && s[a].0 == k2);
                assert(a != i);
                lemma_sorted_get(s, a);
                if a < i {
                    assert(out[a] == s[a]);
                    lemma_sorted_get(out, a);
                } else {
                    assert(out[a - 1] == s[a]);
                    lemma_sorted_get(out, a - 1);
                }
            } else {
                assert(!kv_contains(out, k2));
            }
        }
    } else {
        lemma_kv_remove_absent(s, k);
    }
}

/// Order survives filtering, and whatever the filter keeps was in the
/// sequence.
pub proof fn lemma_filter_sorted(s: Seq<Rec>, pred: spec_fn(Rec) -> bool)
    requires
        entries_sorted(s),
    ensures
        entries_sorted(s.filter(pred)),
        forall|x: Rec| #[trigger] s.filter(pred).contains(x) ==> s.contains(x),
    decreases s.len(),
{
    reveal(Seq::filter);
    if s.len() > 0 {
        let t = s.drop_last();
        assert(entries_sorted(t));
        lemma_filter_sorted(t, pred);
        let ft = t.filter(pred);
        assert forall|x: Rec| #[trigger] s.filter(pred).contains(x) implies s.contains(x) by {
            if ft.contains(x) {
                assert(t.contains(x));
                let i = choose|i: int| 0 <= i < t.len() && t[i] == x;
                assert(s[i] == x);
            } else {
                assert(x == s.last());
            }
        }
        if pred(s.last()) {
            assert(s.filter(pred) == ft.push(s.last()));
            assert forall|a: int, b: int|
                0 <= a < b < s.filter(pred).len() implies lex_lt(
                s.filter(pred)[a].0,
                s.filter(pred)[b].0,
            ) by {
                if b == s.filter(pred).len() - 1 {
                    assert(ft.contains(ft[a]));
                    assert(t.contains(ft[a]));
                    let i = choose|i: int| 0 <= i < t.len() && t[i] == ft[a];
                    assert(lex_lt(s[i].0, s.last().0));
                }
            }
        }
    }
}

/// A singleton sequence filters to itself or to nothing.
proof fn lemma_filter_singleton(x: Rec, pred: spec_fn(Rec) -> bool)
    ensures
        seq![x].filter(pred) == if pred(x) {
            seq![x]
        } else {
            Seq::<Rec>::empty()
        },
{
    reveal_with_fuel(Seq::filter, 2);
    assert(seq![x].drop_last() =~= Seq::<Rec>::empty());
    if pred(x) {
        assert(seq![x].filter(pred) =~= seq![x]);
    } else {
        assert(seq![x].filter(pred) =~= Seq::<Rec>::empty());
    }
}

/// Filtering a sequence extended by one record keeps the old result and
/// appends the record exactly when it matches.
pub proof fn lemma_filter_step(s: Seq<Rec>, i: int, pred: spec_fn(Rec) -> bool)
    requires
        0 <= i < s.len(),
    ensures
        s.take(i + 1).filter(pred) == if pred(s[i]) {
            s.take(i).filter(pred).push(s[i])
        } else {
            s.take(i).filter(pred)
        },
{
    assert(s.take(i + 1) =~= s.take(i) + seq![s[i]]);
    Seq::filter_distributes_over_add(s.take(i), seq![s[i]], pred);
    lemma_filter_singleton(s[i], pred);
    if pred(s[i]) {
        assert(s.take(i).filter(pred) + seq![s[i]] =~= s.take(i).filter(pred).push(s[i]));
    } else {
        assert(s.take(i).filter(pred) + Seq::<Rec>::empty() =~= s.take(i).filter(pred));
    }
}

/// An input or output error of the physical store, or a record that does
/// not decode.
#[derive(Clone, Copy, PartialEq, Eq, Structural, Debug)]
pub enum StorageError {
    Corrupted,
}

/// The committed records, sorted strictly ascending by key.
pub struct KvStore {
    entries: Vec<(Vec<u8>, Vec<u8>)>,
}

/// A private working copy of the records, with at most one savepoint.
pub struct WriteTransaction {
    entries: Vec<(Vec<u8>, Vec<u8>)>,
    savepoint: Option<Vec<(Vec<u8>, Vec<u8>)>>,
}

// Shared read helpers over a record vector.
/// Index of the record with the given key, if any.
fn find_key(entries: &Vec<(Vec<u8>, Vec<u8>)>, key: &Vec<u8>) -> (r: Option<usize>)
    ensures
        match r {
            Some(i) => i < entries@.len() && recs_view(entries@)[i as int].0 == key@,
            None => !kv_contains(recs_view(entries@), key@),
        },
{
    let n = entries.len();
    let mut i: usize = 0;
    while i < n
        invariant
            n == entries@.len(),
            i <= n,
            forall|j: int| 0 <= j < i ==> recs_view(entries@)[j].0 != key@,
        decreases n - i,
    {
        if key_eq(&entries[i].0, key) {
            return Some(i);
        }
        i = i + 1;
    }
    None
}

/// The value under the given key, copied out.
fn get_at(entries: &Vec<(Vec<u8>, Vec<u8>)>, key: &Vec<u8>) -> (r: Option<Vec<u8>>)
    requires
        entries_sorted(recs_view(entries@)),
    ensures
        opt_bytes(r) == kv_get(recs_view(entries@), key@),
{
    match find_key(entries, key) {
        Some(i) => {
            proof {
                lemma_sorted_get(recs_view(entries@), i as int);
            }
            Some(copy_bytes(&entries[i].1))
        },
        None => None,
    }
}

/// A copy of the records.
fn copy_recs(entries: &Vec<(Vec<u8>, Vec<u8>)>) -> (r: Vec<(Vec<u8>, Vec<u8>)>)
    ensures
        recs_view(r@) == recs_view(entries@),
{
    let n = entries.len();
    let mut r: Vec<(Vec<u8>, Vec<u8>)> = Vec::new();
    let mut i: usize = 0;
    proof {
        assert(recs_view(r@) =~= recs_view(entries@).take(0));
    }
    while i < n
        invariant
            n == entries@.len(),
            i <= n,
            recs_view(r@) == recs_view(entries@).take(i as int),
        decreases n - i,
    {
        let k = copy_bytes(&entries[i].0);
        let v = copy_bytes(&entries[i].1);
        r.push((k, v));
        proof {
            let s = recs_view(entries@);
            assert(recs_view(r@) =~= s.take(i as int).push(s[i as int]));
            assert(s.take(i as int + 1) =~= s.take(i as int).push(s[i as int]));
        }
        i = i + 1;
    }
    proof {
        assert(recs_view(entries@).take(n as int) =~= recs_view(entries@));
    }
    r
}

/// Records whose key starts with the prefix, ascending.
fn scan_prefix_at(entries: &Vec<(Vec<u8>, Vec<u8>)>, prefix: &Vec<u8>) -> (r: Vec<
    (Vec<u8>, Vec<u8>),
>)
    ensures
        recs_view(r@) == kv_matching_prefix(recs_view(entries@), prefix@),
{
    let ghost s = recs_view(entries@);
    let ghost pred = |p: Rec| has_prefix(p.0, prefix@);
    let n = entries.len();
    let mut r: Vec<(Vec<u8>, Vec<u8>)> = Vec::new();
    let mut i: usize = 0;
    while i < n
        invariant
            n == s.len(),
            s == recs_view(entries@),
            pred == (|p: Rec| has_prefix(p.0, prefix@)),
            i <= n,
            recs_view(r@) == s.take(i as int).filter(pred),
        decreases n - i,
    {
        proof {
            lemma_filter_step(s, i as int, pred);
        }
        if key_has_prefix(&entries[i].0, prefix) {
            let k = copy_bytes(&entries[i].0);
            let v = copy_bytes(&entries[i].1);
            r.push((k, v));
            proof {
                assert(recs_view(r@) =~= s.take(i as int).filter(pred).push(s[i as int]));
            }
        }
        i = i + 1;
    }
    proof {
        assert(s.take(n as int) =~= s);
    }
    r
}

impl KvStore {
    /// The committed records, in store order.
    pub closed spec fn view(&self) -> Seq<Rec> {
        recs_view(self.entries@)
    }

    /// The records are sorted strictly ascending by key.
    pub open spec fn wf(&self) -> bool {
        entries_sorted(self.view())
    }

    /// An empty store.
    pub fn new() -> (s: Self)
        ensures
            s.wf(),
            s.view() == Seq::<Rec>::empty(),
    {
        let s = KvStore { entries: Vec::new() };
        proof {
            assert(s.view() =~= Seq::<Rec>::empty());
        }
        s
    }

    /// Opens a write transaction on a copy of the committed records.  The
    /// store hands out one transaction at a time to a caller holding it
    /// exclusively; nothing is visible to others before `commit`.
    pub fn begin_write(&self) -> (tx: WriteTransaction)
        requires
            self.wf(),
        ensures
            tx.wf(),
            tx.view() == self.view(),
            tx.savepoint_view() is None,
    {
        WriteTransaction { entries: copy_recs(&self.entries), savepoint: None }
    }

    /// Reads one committed value without a transaction.
    pub fn get(&self, key: &Vec<u8>) -> (r: Option<Vec<u8>>)
        requires
            self.wf(),
        ensures
            opt_bytes(r) == kv_get(self.view(), key@),
    {
        get_at(&self.entries, key)
    }

    /// Reads the committed records under a prefix without a transaction,
    /// ascending by key.
    pub fn scan_prefix(&self, prefix: &Vec<u8>) -> (r: Vec<(Vec<u8>, Vec<u8>)>)
        requires
            self.wf(),
        ensures
            recs_view(r@) == kv_matching_prefix(self.view(), prefix@),
    {
        scan_prefix_at(&self.entries, prefix)
    }

    /// Asks the backend for a snapshot at the named destination.  This
    /// backend has no native snapshotting, so the call does nothing and the
    /// committed records are unchanged; durability never rests on it.
    pub fn checkpoint(&mut self, _destination: &str)
        ensures
            *final(self) == *old(self),
    {
    }
}

impl WriteTransaction {
    /// The transaction's records, in store order.
    pub closed spec fn view(&self) -> Seq<Rec> {
        recs_view(self.entries@)
    }

    /// The saved records, if a savepoint is set.
    pub closed spec fn savepoint_view(&self) -> Option<Seq<Rec>> {
        match self.savepoint {
            Some(v) => Some(recs_view(v@)),
            None => None,
        }
    }

    /// Records and savepoint are sorted strictly ascending by key.
    pub open spec fn wf(&self) -> bool {
        &&& entries_sorted(self.view())
        &&& match self.savepoint_view() {
            Some(sp) => entries_sorted(sp),
            None => true,
        }
    }

    /// Upserts one record and returns the value the key held before, if
    /// any.
    pub fn insert(&mut self, key: &Vec<u8>, value: Vec<u8>) -> (r: Option<Vec<u8>>)
        requires
            old(self).wf(),
        ensures
            final(self).wf(),
            final(self).view() == kv_insert(old(self).view(), key@, value@),
            opt_bytes(r) == kv_get(old(self).view(), key@),
            final(self).savepoint_view() == old(self).savepoint_view(),
    {
        let ghost s = recs_view(old(self).entries@);
        let n = self.entries.len();
        let mut i: usize = 0;
        while i < n && key_lt(&self.entries[i].0, key)
            invariant
                self == old(self),
                s == recs_view(self.entries@),
                n == s.len(),
                i <= n,
                forall|j: int| 0 <= j < i ==> lex_lt(s[j].0, key@),
            decreases n - i,
    {
            i = i + 1;
        }
        proof {
            lemma_kv_insert_characterization(s, key@, value@, i as int);
            lemma_kv_insert_props(s, key@, value@);
        }
        if i < n && key_eq(&self.entries[i].0, key) {
            let prior = self.entries.remove(i);
            self.entries.insert(i, (copy_bytes(key), value));
            proof {
                assert(recs_view(self.entries@) =~= s.update(i as int, (key@, value@)));
                lemma_sorted_get(s, i as int);
            }
            Some(prior.1)
        } else {
            self.entries.insert(i, (copy_bytes(key), value));
            proof {
                assert(recs_view(self.entries@) =~= s.insert(i as int, (key@, value@)));
                lemma_split_position_not_contained(s, key@, i as int);
            }
            None
        }
    }

    /// Reads one record, uncommitted writes included.
    pub fn get(&self, key: &Vec<u8>) -> (r: Option<Vec<u8>>)
        requires
            self.wf(),
        ensures
            opt_bytes(r) == kv_get(self.view(), key@),
    {
        get_at(&self.entries, key)
    }

    /// Deletes one record and returns the value it held, if any.
    pub fn remove(&mut self, key: &Vec<u8>) -> (r: Option<Vec<u8>>)
        requires
            old(self).wf(),
        ensures
            final(self).wf(),
            final(self).view() == kv_remove(old(self).view(), key@),
            opt_bytes(r) == kv_get(old(self).view(), key@),
            final(self).savepoint_view() == old(self).savepoint_view(),
    {
        let ghost s = recs_view(old(self).entries@);
        proof {
            lemma_kv_remove_props(s, key@);
        }
        match find_key(&self.entries, key) {
            Some(i) => {
                let prior = self.entries.remove(i);
                proof {
                    lemma_sorted_get(s, i as int);
                    assert forall|j: int| 0 <= j < s.len() && s[j].0 == key@ implies j
                        == i as int by {
                        lemma_sorted_keys_unique(s, j, i as int);
                    }
                    lemma_kv_remove_at_index(s, key@, i as int);
                    assert(recs_view(self.entries@) =~= s.remove(i as int));
                }
                Some(prior.1)
            },
            None => {
                None
            },
        }
    }

    /// Records under a prefix, ascending by key.
    pub fn scan_prefix(&self, prefix: &Vec<u8>) -> (r: Vec<(Vec<u8>, Vec<u8>)>)
        requires
            self.wf(),
        ensures
            recs_view(r@) == kv_matching_prefix(self.view(), prefix@),
    {
        scan_prefix_at(&self.entries, prefix)
    }

    /// Records under a prefix, descending by key: the ascending scan
    /// reversed.
    pub fn scan_prefix_desc(&self, prefix: &Vec<u8>) -> (r: Vec<(Vec<u8>, Vec<u8>)>)
        requires
            self.wf(),
        ensures
            recs_view(r@) == kv_matching_prefix(self.view(), prefix@).reverse(),
    {
        let asc = scan_prefix_at(&self.entries, prefix);
        let n = asc.len();
        let mut r: Vec<(Vec<u8>, Vec<u8>)> = Vec::new();
        let mut i: usize = 0;
        while i < n
            invariant
                n == asc@.len(),
                i <= n,
                recs_view(asc@) == kv_matching_prefix(self.view(), prefix@),
                recs_view(r@).len() == i,
                forall|m: int|
                    0 <= m < i ==> recs_view(r@)[m] == recs_view(asc@)[n - 1 - m],
            decreases n - i,
        {
            let k = copy_bytes(&asc[n - 1 - i].0);
            let v = copy_bytes(&asc[n - 1 - i].1);
            let ghost prev_view = recs_view(r@);
            r.push((k, v));
            proof {
                let a = recs_view(asc@);
                assert(recs_view(r@) =~= prev_view.push(a[n - 1 - i as int]));
            }
            i = i + 1;
        }
        proof {
            assert(recs_view(r@) =~= recs_view(asc@).reverse());
        }
        r
    }

    /// Records in the half-open key interval `[lo, hi)`, ascending.
    pub fn scan_range(&self, lo: &Vec<u8>, hi: &Vec<u8>) -> (r: Vec<(Vec<u8>, Vec<u8>)>)
        requires
            self.wf(),
        ensures
            recs_view(r@) == kv_in_range(self.view(), lo@, hi@),
    {
        let ghost s = self.view();
        let ghost pred = |p: Rec| lex_le(lo@, p.0) && lex_lt(p.0, hi@);
        let n = self.entries.len();
        let mut r: Vec<(Vec<u8>, Vec<u8>)> = Vec::new();
        let mut i: usize = 0;
        while i < n
            invariant
                n == s.len(),
                s == recs_view(self.entries@),
                pred == (|p: Rec| lex_le(lo@, p.0) && lex_lt(p.0, hi@)),
                i <= n,
                recs_view(r@) == s.take(i as int).filter(pred),
            decreases n - i,
        {
            proof {
                lemma_filter_step(s, i as int, pred);
            }
            let above_lo = !key_lt(&self.entries[i].0, lo);
            let below_hi = key_lt(&self.entries[i].0, hi);
            proof {
                lemma_lex_lt_total(lo@, s[i as int].0);
                lemma_lex_lt_irreflexive(lo@);
            }
            if above_lo && below_hi {
                let k = copy_bytes(&self.entries[i].0);
                let v = copy_bytes(&self.entries[i].1);
                r.push((k, v));
                proof {
                    assert(recs_view(r@) =~= s.take(i as int).filter(pred).push(
                        s[i as int],
                    ));
                }
            } else {
                proof {
                    if above_lo {
                        assert(!pred(s[i as int]));
                    } else {
                        lemma_lex_lt_asymmetric(lo@, s[i as int].0);
                        assert(!pred(s[i as int]));
                    }
                }
            }
            i = i + 1;
        }
        proof {
            assert(s.take(n as int) =~= s);
        }
        r
    }

    /// Deletes every record whose key starts with the prefix.
    pub fn remove_prefix(&mut self, prefix: &Vec<u8>)
        requires
            old(self).wf(),
        ensures
            final(self).wf(),
            final(self).view() == kv_without_prefix(old(self).view(), prefix@),
            final(self).savepoint_view() == old(self).savepoint_view(),
    {
        let ghost s = recs_view(old(self).entries@);
        let ghost pred = |p: Rec| !has_prefix(p.0, prefix@);
        let mut kept: usize = 0;
        let ghost mut done: int = 0;
        proof {
            assert(s.take(0) =~= Seq::<Rec>::empty());
            assert(s.take(0).filter(pred) =~= Seq::<Rec>::empty());
            assert(s.skip(0) =~= s);
            assert(recs_view(self.entries@) =~= s.take(0).filter(pred) + s.skip(0));
        }
        while kept < self.entries.len()
            invariant
                self.savepoint == old(self).savepoint,
                s == recs_view(old(self).entries@),
                pred == (|p: Rec| !has_prefix(p.0, prefix@)),
                0 <= done <= s.len(),
                kept == s.take(done).filter(pred).len(),
                recs_view(self.entries@) == s.take(done).filter(pred) + s.skip(done),
            decreases s.len() - done,
        {
            proof {
                lemma_filter_step(s, done, pred);
                Seq::lemma_filter_len(s.take(done), pred);
                assert(s.take(done).len() == done);
                assert(recs_view(self.entries@)[kept as int] == s[done]);
            }
            if key_has_prefix(&self.entries[kept].0, prefix) {
                let ghost prev = self.entries@;
                self.entries.remove(kept);
                proof {
                    assert(self.entries@ == prev.remove(kept as int));
                    assert forall|j: int| 0 <= j < self.entries@.len() implies recs_view(
                        self.entries@,
                    )[j] == recs_view(prev).remove(kept as int)[j] by {
                        if j < kept as int {
                            assert(self.entries@[j] == prev[j]);
                        } else {
                            assert(self.entries@[j] == prev[j + 1]);
                        }
                    }
                    assert(recs_view(self.entries@) =~= recs_view(prev).remove(
                        kept as int,
                    ));
                    assert(recs_view(self.entries@) =~= s.take(done + 1).filter(pred)
                        + s.skip(done + 1));
                }
            } else {
                kept = kept + 1;
                proof {
                    assert(recs_view(self.entries@) =~= s.take(done + 1).filter(pred)
                        + s.skip(done + 1));
                }
            }
            proof {
                done = done + 1;
            }
        }
        proof {
            assert(s.take(done) =~= s.take(s.len() as int));
            assert(s.take(s.len() as int) =~= s);
            assert(s.skip(done) =~= Seq::<Rec>::empty());
            assert(recs_view(self.entries@) =~= s.filter(pred));
            lemma_filter_sorted(s, pred);
        }
    }

    /// Saves the current records as the single recoverable point, replacing
    /// any earlier one.
    pub fn set_savepoint(&mut self)
        requires
            old(self).wf(),
        ensures
            final(self).wf(),
            final(self).view() == old(self).view(),
            final(self).savepoint_view() == Some(old(self).view()),
    {
        let snapshot = copy_recs(&self.entries);
        self.savepoint = Some(snapshot);
    }

    /// Undoes every write since the last savepoint and consumes it; with no
    /// savepoint set, does nothing.
    pub fn rollback_to_savepoint(&mut self)
        requires
            old(self).wf(),
        ensures
            final(self).wf(),
            match old(self).savepoint_view() {
                Some(sp) => final(self).view() == sp,
                None => final(self).view() == old(self).view(),
            },
            final(self).savepoint_view() is None,
    {
        match self.savepoint.take() {
            Some(saved) => {
                self.entries = saved;
            },
            None => {},
        }
    }

    /// Makes the transaction's records the committed state, atomically: the
    /// caller's exclusive borrow of the store admits no concurrent writer,
    /// and the store changes in one assignment.
    pub fn commit(self, store: &mut KvStore) -> (r: Result<(), StorageError>)
        requires
            self.wf(),
        ensures
            r is Ok,
            final(store).wf(),
            final(store).view() == self.view(),
    {
        store.entries = self.entries;
        Ok(())
    }
}

/// Removing a key present at one index of a sorted sequence removes exactly
/// that index.
proof fn lemma_kv_remove_at_index(s: Seq<Rec>, k: Seq<u8>, i: int)
    requires
        entries_sorted(s),
        0 <= i < s.len(),
        s[i].0 == k,
    ensures
        kv_remove(s, k) == s.remove(i),
    decreases s.len(),
{
    if i == 0 {
        assert(kv_remove(s, k) =~= s.remove(0));
    } else {
        if s[0].0 == k {
            lemma_sorted_keys_unique(s, 0, i);
        }
        assert(s[0].0 != k);
        let t = s.drop_first();
        assert(entries_sorted(t));
        assert(t[i - 1].0 == k);
        lemma_kv_remove_at_index(t, k, i - 1);
        assert(kv_remove(s, k) =~= s.remove(i));
    }
}

} // verus!

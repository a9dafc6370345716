//! Association lists in the abstract: sequences of key and value in the
//! order of first insertion, read by the first entry that has the key.
//! They are the model of every table the manager keeps.

use vstd::prelude::*;

verus! {

/// A key is a piece of text.
pub type Key = Seq<char>;

/// The index of the first entry of `l` with key `k`, or the length of `l`
/// where no entry has it.
pub open spec fn slot<V>(l: Seq<(Key, V)>, k: Key) -> int
    decreases l.len(),
{
    if l.len() == 0 {
        0
    } else if l[0].0 == k {
        0
    } else {
        1 + slot(l.skip(1), k)
    }
}

/// Whether some entry of `l` has key `k`.
pub open spec fn has_key<V>(l: Seq<(Key, V)>, k: Key) -> bool {
    slot(l, k) < l.len()
}

/// The value that `l` holds for `k`.
pub open spec fn get<V>(l: Seq<(Key, V)>, k: Key) -> Option<V> {
    if has_key(l, k) {
        Some(l[slot(l, k)].1)
    } else {
        None
    }
}

/// `l` with `v` under `k`: in the place of the old value where there was
/// one, at the end where there was none.
pub open spec fn put<V>(l: Seq<(Key, V)>, k: Key, v: V) -> Seq<(Key, V)> {
    if has_key(l, k) {
        l.update(slot(l, k), (k, v))
    } else {
        l.push((k, v))
    }
}

/// `l` without its first entry for `k`.
pub open spec fn del<V>(l: Seq<(Key, V)>, k: Key) -> Seq<(Key, V)> {
    if has_key(l, k) {
        l.remove(slot(l, k))
    } else {
        l
    }
}

/// No two entries of `l` share a key.
pub open spec fn distinct<V>(l: Seq<(Key, V)>) -> bool {
    forall|i: int, j: int| 0 <= i < j < l.len() ==> (#[trigger] l[i]).0 != (#[trigger] l[j]).0
}

/// What `slot` finds: an index within the list or its length, the key at
/// that index, and the key at no index before.
pub proof fn lemma_slot<V>(l: Seq<(Key, V)>, k: Key)
    ensures
        0 <= slot(l, k) <= l.len(),
        has_key(l, k) ==> l[slot(l, k)].0 == k,
        forall|j: int| 0 <= j < slot(l, k) ==> (#[trigger] l[j]).0 != k,
    decreases l.len(),
{
    if l.len() > 0 && l[0].0 != k {
        let rest = l.skip(1);
        lemma_slot(rest, k);
        assert forall|j: int| 0 <= j < slot(l, k) implies (#[trigger] l[j]).0 != k by {
            if j > 0 {
                assert(rest[j - 1] == l[j]);
            }
        }
    }
}

/// An index with the key, before which no entry has it, is the slot; so is
/// the length where no entry has the key.
pub proof fn lemma_slot_is<V>(l: Seq<(Key, V)>, k: Key, i: int)
    requires
        0 <= i <= l.len(),
        i < l.len() ==> l[i].0 == k,
        forall|j: int| 0 <= j < i ==> (#[trigger] l[j]).0 != k,
    ensures
        slot(l, k) == i,
{
    lemma_slot(l, k);
    let s = slot(l, k);
    if s < i {
        assert(l[s].0 != k);
    }
}

/// A list read after a `put`: the new value under the key, and under every
/// other key what was there before. Distinct keys stay distinct.
pub proof fn lemma_put<V>(l: Seq<(Key, V)>, k: Key, v: V, q: Key)
    ensures
        get(put(l, k, v), q) == if q == k {
            Some(v)
        } else {
            get(l, q)
        },
        distinct(l) ==> distinct(put(l, k, v)),
{
    lemma_slot(l, k);
    lemma_slot(l, q);
    let after = put(l, k, v);
    let s = slot(l, k);
    if q == k {
        assert forall|j: int| 0 <= j < s implies (#[trigger] after[j]).0 != k by {
            assert(after[j] == l[j]);
        }
        lemma_slot_is(after, k, s);
    } else {
        let t = slot(l, q);
        assert forall|j: int| 0 <= j < t implies (#[trigger] after[j]).0 != q by {
            if j < l.len() && j != s {
                assert(after[j] == l[j]);
            }
        }
        if t < l.len() {
            assert(after[t] == l[t]);
        } else if has_key(l, k) {
        } else {
            assert(after[t].0 == k);
        }
        lemma_slot_is(after, q, if t < l.len() { t } else { after.len() as int });
    }
    if distinct(l) {
        assert forall|i: int, j: int| 0 <= i < j < after.len() implies (#[trigger] after[i]).0 != (
        #[trigger] after[j]).0 by {
            if has_key(l, k) {
                assert(after[i].0 == l[i].0);
                assert(after[j].0 == l[j].0);
            } else if j < l.len() {
            } else {
                assert(after[i] == l[i]);
            }
        }
    }
}

/// A list read after a `del`: under every other key what was there before;
/// and, where the keys were distinct, nothing under the key itself. Distinct
/// keys stay distinct.
pub proof fn lemma_del<V>(l: Seq<(Key, V)>, k: Key, q: Key)
    ensures
        q != k ==> get(del(l, k), q) == get(l, q),
        distinct(l) ==> distinct(del(l, k)) && !has_key(del(l, k), k),
{
    lemma_slot(l, k);
    lemma_slot(l, q);
    let after = del(l, k);
    let s = slot(l, k);
    if has_key(l, k) {
        assert forall|j: int| 0 <= j < after.len() implies #[trigger] after[j] == l[if j < s {
            j
        } else {
            j + 1
        }] by {}
        if q != k {
            let t = slot(l, q);
            let u = if t < s {
                t
            } else {
                t - 1
            };
            assert forall|j: int| 0 <= j < u implies (#[trigger] after[j]).0 != q by {
                assert(after[j] == l[if j < s { j } else { j + 1 }]);
            }
            if t < l.len() {
                assert(after[u] == l[t]);
            }
            lemma_slot_is(after, q, u);
        }
        if distinct(l) {
            assert forall|i: int, j: int| 0 <= i < j < after.len() implies (#[trigger] after[i]).0
                != (#[trigger] after[j]).0 by {
                assert(after[i] == l[if i < s { i } else { i + 1 }]);
                assert(after[j] == l[if j < s { j } else { j + 1 }]);
            }
            assert forall|j: int| 0 <= j < after.len() implies (#[trigger] after[j]).0 != k by {
                assert(after[j] == l[if j < s { j } else { j + 1 }]);
            }
            lemma_slot_is(after, k, after.len() as int);
        }
    }
}

} // verus!

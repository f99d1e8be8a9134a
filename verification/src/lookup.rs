//! Rows keyed by a round number: first-match lookup over a vector of
//! `(key, value)` pairs, with the lemmas that relate lookup to pushing,
//! updating, inserting and removing rows, and an ordered-insert helper that
//! keeps keys strictly increasing (so keys stay unique and, being bytes, at
//! most 256 rows exist).

use vstd::prelude::*;

verus! {

/// The value of the first row whose key is `key`, if any.
pub open spec fn spec_find<V>(s: Seq<(u8, V)>, key: u8) -> Option<V>
    decreases s.len(),
{
    if s.len() == 0 {
        None
    } else if s[0].0 == key {
        Some(s[0].1)
    } else {
        spec_find(s.drop_first(), key)
    }
}

/// Keys appear in strictly increasing order (hence each key at most once).
pub open spec fn strictly_sorted<V>(s: Seq<(u8, V)>) -> bool {
    forall|i: int, j: int| 0 <= i < j < s.len() ==> s[i].0 < s[j].0
}

/// If the first `i` rows miss `key` and row `i` has it, lookup yields row `i`.
pub proof fn lemma_find_at<V>(s: Seq<(u8, V)>, key: u8, i: int)
    requires
        0 <= i < s.len(),
        s[i].0 == key,
        forall|j: int| 0 <= j < i ==> s[j].0 != key,
    ensures
        spec_find(s, key) == Some(s[i].1),
    decreases i,
{
    if i > 0 {
        lemma_find_at(s.drop_first(), key, i - 1);
    }
}

/// If no row has `key`, lookup fails.
pub proof fn lemma_find_none<V>(s: Seq<(u8, V)>, key: u8)
    requires
        forall|j: int| 0 <= j < s.len() ==> s[j].0 != key,
    ensures
        spec_find(s, key) is None,
    decreases s.len(),
{
    if s.len() > 0 {
        lemma_find_none(s.drop_first(), key);
    }
}

/// Replacing the first row that has `key` makes lookups of `key` see the new
/// value.
pub proof fn lemma_find_update_same<V>(s: Seq<(u8, V)>, i: int, v: V)
    requires
        0 <= i < s.len(),
        forall|j: int| 0 <= j < i ==> s[j].0 != s[i].0,
    ensures
        spec_find(s.update(i, (s[i].0, v)), s[i].0) == Some(v),
{
    let s2 = s.update(i, (s[i].0, v));
    lemma_find_at(s2, s[i].0, i);
}

/// Replacing a row does not change lookups of other keys, as long as the
/// row's key stays the same.
pub proof fn lemma_find_update_other<V>(s: Seq<(u8, V)>, i: int, v: V, key: u8)
    requires
        0 <= i < s.len(),
        s[i].0 != key,
    ensures
        spec_find(s.update(i, (s[i].0, v)), key) == spec_find(s, key),
    decreases s.len(),
{
    let s2 = s.update(i, (s[i].0, v));
    if s.len() > 0 {
        if i == 0 {
            assert(s2.drop_first() =~= s.drop_first());
        } else {
            assert(s2.drop_first() =~= s.drop_first().update(i - 1, (s[i].0, v)));
            lemma_find_update_other(s.drop_first(), i - 1, v, key);
        }
    }
}

/// Removing the only row with `key` makes lookups of `key` fail.
pub proof fn lemma_find_remove_same<V>(s: Seq<(u8, V)>, i: int)
    requires
        0 <= i < s.len(),
        forall|j: int| 0 <= j < s.len() && j != i ==> s[j].0 != s[i].0,
    ensures
        spec_find(s.remove(i), s[i].0) is None,
{
    assert(forall|j: int| 0 <= j < s.remove(i).len() ==> s.remove(i)[j].0 != s[i].0);
    lemma_find_none(s.remove(i), s[i].0);
}

/// Removing a row does not change lookups of other keys.
pub proof fn lemma_find_remove_other<V>(s: Seq<(u8, V)>, i: int, key: u8)
    requires
        0 <= i < s.len(),
        s[i].0 != key,
    ensures
        spec_find(s.remove(i), key) == spec_find(s, key),
    decreases s.len(),
{
    if i == 0 {
        assert(s.remove(0) =~= s.drop_first());
    } else {
        assert(s.remove(i).drop_first() =~= s.drop_first().remove(i - 1));
        lemma_find_remove_other(s.drop_first(), i - 1, key);
    }
}

/// Inserting a row with a fresh key serves lookups of that key.
pub proof fn lemma_find_insert_same<V>(s: Seq<(u8, V)>, i: int, p: (u8, V))
    requires
        0 <= i <= s.len(),
        forall|j: int| 0 <= j < s.len() ==> s[j].0 != p.0,
    ensures
        spec_find(s.insert(i, p), p.0) == Some(p.1),
{
    let s2 = s.insert(i, p);
    assert(forall|j: int| 0 <= j < i ==> s2[j].0 != p.0);
    lemma_find_at(s2, p.0, i);
}

/// Inserting a row does not change lookups of other keys.
pub proof fn lemma_find_insert_other<V>(s: Seq<(u8, V)>, i: int, p: (u8, V), key: u8)
    requires
        0 <= i <= s.len(),
        p.0 != key,
    ensures
        spec_find(s.insert(i, p), key) == spec_find(s, key),
    decreases s.len(),
{
    let s2 = s.insert(i, p);
    if i == 0 {
        assert(s2.drop_first() =~= s);
    } else {
        assert(s2.drop_first() =~= s.drop_first().insert(i - 1, p));
        lemma_find_insert_other(s.drop_first(), i - 1, p, key);
    }
}

/// In a strictly sorted row sequence, the key of row `i` is at least `i`.
pub proof fn lemma_sorted_key_ge_index<V>(s: Seq<(u8, V)>, i: int)
    requires
        strictly_sorted(s),
        0 <= i < s.len(),
    ensures
        s[i].0 >= i,
    decreases i,
{
    if i > 0 {
        lemma_sorted_key_ge_index(s, i - 1);
    }
}

/// Strictly sorted byte keys admit at most 256 rows.
pub proof fn lemma_sorted_len_bound<V>(s: Seq<(u8, V)>)
    requires
        strictly_sorted(s),
    ensures
        s.len() <= 256,
{
    if s.len() > 256 {
        lemma_sorted_key_ge_index(s, 256);
    }
}

/// The index of the first row whose key is `key`, or `None` with the
/// guarantee that the lookup fails.
pub fn find_index<V>(entries: &Vec<(u8, V)>, key: u8) -> (r: Option<usize>)
    ensures
        match r {
            Some(i) => i < entries@.len() && entries@[i as int].0 == key && (forall|j: int|
                0 <= j < i ==> entries@[j].0 != key) && spec_find(entries@, key) == Some(
                entries@[i as int].1,
            ),
            None => spec_find(entries@, key) is None,
        },
{
    let n = entries.len();
    let mut i: usize = 0;
    while i < n
        invariant
            i <= n,
            n == entries@.len(),
            forall|j: int| 0 <= j < i ==> entries@[j].0 != key,
        decreases n - i,
    {
        if entries[i].0 == key {
            proof {
                lemma_find_at(entries@, key, i as int);
            }
            return Some(i);
        }
        i += 1;
    }
    proof {
        lemma_find_none(entries@, key);
    }
    None
}

/// Inserts a row with a key no row has yet, keeping keys strictly sorted.
pub fn insert_row<V>(entries: &mut Vec<(u8, V)>, key: u8, value: V)
    requires
        strictly_sorted(old(entries)@),
        spec_find(old(entries)@, key) is None,
    ensures
        strictly_sorted(final(entries)@),
        final(entries)@.len() == old(entries)@.len() + 1,
        spec_find(final(entries)@, key) == Some(value),
        forall|k: u8| k != key ==> spec_find(final(entries)@, k) == spec_find(old(entries)@, k),
        exists|pos: int|
            0 <= pos <= old(entries)@.len() && final(entries)@ == old(entries)@.insert(
                pos,
                (key, value),
            ),
{
    proof {
        assert forall|j: int| 0 <= j < entries@.len() implies entries@[j].0 != key by {
            if entries@[j].0 == key {
                lemma_find_first_witness(entries@, key, j);
            }
        }
    }
    let ghost s0 = entries@;
    let n = entries.len();
    let mut i: usize = 0;
    while i < n && entries[i].0 < key
        invariant
            i <= n,
            n == entries@.len(),
            entries@ == s0,
            strictly_sorted(s0),
            forall|j: int| 0 <= j < s0.len() ==> s0[j].0 != key,
            forall|j: int| 0 <= j < i ==> entries@[j].0 < key,
        decreases n - i,
    {
        i += 1;
    }
    assert(forall|j: int| i <= j < s0.len() ==> s0[j].0 > key);
    entries.insert(i, (key, value));
    proof {
        let s2 = s0.insert(i as int, (key, value));
        assert forall|a: int, b: int| 0 <= a < b < s2.len() implies s2[a].0 < s2[b].0 by {
            if a < i {
                assert(s2[a] == s0[a]);
            } else if a > i {
                assert(s2[a] == s0[a - 1]);
            }
            if b < i {
                assert(s2[b] == s0[b]);
            } else if b > i {
                assert(s2[b] == s0[b - 1]);
            }
        }
        lemma_find_insert_same(s0, i as int, (key, value));
        assert forall|k: u8| k != key implies spec_find(s2, k) == spec_find(s0, k) by {
            lemma_find_insert_other(s0, i as int, (key, value), k);
        }
    }
}

/// A failed lookup means no row at all has the key.
pub proof fn lemma_find_first_witness<V>(s: Seq<(u8, V)>, key: u8, j: int)
    requires
        0 <= j < s.len(),
        s[j].0 == key,
    ensures
        spec_find(s, key) is Some,
    decreases j,
{
    if s[0].0 != key {
        lemma_find_first_witness(s.drop_first(), key, j - 1);
    }
}

} // verus!

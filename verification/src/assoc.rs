//! Association lists as finite maps and sequences as finite sets.
//!
//! The cache stores every mapping as a vector of pairs with pairwise
//! distinct keys.  The spec functions here give those vectors their
//! mathematical reading, and the lemmas connect element-wise facts about
//! the vectors to facts about the maps and sets they denote.

use vstd::prelude::*;
use vstd::set_lib::{lemma_len_subset, lemma_int_range, set_int_range};

verus! {

/// The finite map described by an association list; a later entry for a
/// key overrides an earlier one.
pub open spec fn seq_map<K, V>(s: Seq<(K, V)>) -> Map<K, V>
    decreases s.len(),
{
    if s.len() == 0 {
        Map::empty()
    } else {
        seq_map(s.drop_last()).insert(s.last().0, s.last().1)
    }
}

/// The finite set of elements of a sequence.
pub open spec fn seq_set<T>(s: Seq<T>) -> Set<T>
    decreases s.len(),
{
    if s.len() == 0 {
        Set::empty()
    } else {
        seq_set(s.drop_last()).insert(s.last())
    }
}

/// No key occurs twice in the association list.
pub open spec fn keys_unique<K, V>(s: Seq<(K, V)>) -> bool {
    forall|i: int, j: int| 0 <= i < j < s.len() ==> s[i].0 != s[j].0
}

/// No element occurs twice in the sequence.
pub open spec fn elems_unique<T>(s: Seq<T>) -> bool {
    forall|i: int, j: int| 0 <= i < j < s.len() ==> s[i] != s[j]
}

pub proof fn lemma_seq_map_domain<K, V>(s: Seq<(K, V)>, k: K)
    ensures
        seq_map(s).contains_key(k) <==> exists|i: int| 0 <= i < s.len() && s[i].0 == k,
    decreases s.len(),
{
    if s.len() > 0 {
        lemma_seq_map_domain(s.drop_last(), k);
        if s.last().0 == k {
            assert(s[s.len() - 1].0 == k);
        } else {
            if seq_map(s).contains_key(k) {
                let i = choose|i: int| 0 <= i < s.drop_last().len() && s.drop_last()[i].0 == k;
                assert(s[i].0 == k);
            }
            if exists|i: int| 0 <= i < s.len() && s[i].0 == k {
                let i = choose|i: int| 0 <= i < s.len() && s[i].0 == k;
                assert(s.drop_last()[i].0 == k);
            }
        }
    }
}

pub proof fn lemma_seq_map_index<K, V>(s: Seq<(K, V)>, i: int)
    requires
        keys_unique(s),
        0 <= i < s.len(),
    ensures
        seq_map(s).contains_key(s[i].0),
        seq_map(s)[s[i].0] == s[i].1,
    decreases s.len(),
{
    if i == s.len() - 1 {
    } else {
        assert(s.drop_last()[i] == s[i]);
        assert(keys_unique(s.drop_last())) by {
            assert(forall|x: int, y: int|
                0 <= x < y < s.drop_last().len() ==> s.drop_last()[x] == s[x] && s.drop_last()[y] == s[y]);
        }
        lemma_seq_map_index(s.drop_last(), i);
        assert(s.last().0 != s[i].0);
    }
}

pub proof fn lemma_seq_map_push<K, V>(s: Seq<(K, V)>, k: K, v: V)
    ensures
        seq_map(s.push((k, v))) == seq_map(s).insert(k, v),
{
    assert(s.push((k, v)).drop_last() =~= s);
    assert(s.push((k, v)).last() == (k, v));
}

pub proof fn lemma_seq_map_remove<K, V>(s: Seq<(K, V)>, i: int)
    requires
        keys_unique(s),
        0 <= i < s.len(),
    ensures
        seq_map(s.remove(i)) == seq_map(s).remove(s[i].0),
        keys_unique(s.remove(i)),
    decreases s.len(),
{
    let k = s[i].0;
    let t = s.remove(i);
    assert(keys_unique(t)) by {
        assert(forall|x: int| 0 <= x < t.len() ==> (if x < i { t[x] == s[x] } else { t[x] == s[x + 1] }));
    }
    if i == s.len() - 1 {
        assert(t =~= s.drop_last());
        lemma_seq_map_not_contains(s.drop_last(), k);
        assert(seq_map(s).remove(k) =~= seq_map(s.drop_last()));
    } else {
        assert(keys_unique(s.drop_last())) by {
            assert(forall|x: int, y: int|
                0 <= x < y < s.drop_last().len() ==> s.drop_last()[x] == s[x] && s.drop_last()[y] == s[y]);
        }
        assert(s.drop_last()[i] == s[i]);
        lemma_seq_map_remove(s.drop_last(), i);
        assert(t.drop_last() =~= s.drop_last().remove(i));
        assert(t.last() == s.last());
        assert(s.last().0 != k);
        assert(seq_map(t) == seq_map(s.drop_last()).remove(k).insert(s.last().0, s.last().1));
        assert(seq_map(s.drop_last()).remove(k).insert(s.last().0, s.last().1)
            =~= seq_map(s).remove(k));
    }
}

/// Replacing the value at position `i` by removing the entry and pushing
/// a fresh one for the same key acts as an insert on the map.
pub proof fn lemma_seq_map_replace<K, V>(s: Seq<(K, V)>, i: int, v: V)
    requires
        keys_unique(s),
        0 <= i < s.len(),
    ensures
        keys_unique(s.remove(i).push((s[i].0, v))),
        seq_map(s.remove(i).push((s[i].0, v))) == seq_map(s).insert(s[i].0, v),
{
    let k = s[i].0;
    let t = s.remove(i);
    lemma_seq_map_remove(s, i);
    lemma_seq_map_push(t, k, v);
    assert(forall|x: int|
        0 <= x < t.len() ==> (if x < i {
            t[x] == s[x]
        } else {
            t[x] == s[x + 1]
        }));
    assert(forall|x: int| 0 <= x < t.len() ==> t[x].0 != k);
    assert(keys_unique(t.push((k, v)))) by {
        assert(forall|x: int| 0 <= x < t.len() ==> t.push((k, v))[x] == t[x]);
        assert(t.push((k, v))[t.len() as int] == (k, v));
    }
    assert(seq_map(s).remove(k).insert(k, v) =~= seq_map(s).insert(k, v));
}

/// Appending an entry for a fresh key acts as an insert on the map.
pub proof fn lemma_seq_map_add<K, V>(s: Seq<(K, V)>, k: K, v: V)
    requires
        keys_unique(s),
        forall|i: int| 0 <= i < s.len() ==> s[i].0 != k,
    ensures
        keys_unique(s.push((k, v))),
        seq_map(s.push((k, v))) == seq_map(s).insert(k, v),
{
    lemma_seq_map_push(s, k, v);
    assert(keys_unique(s.push((k, v)))) by {
        assert(forall|x: int| 0 <= x < s.len() ==> s.push((k, v))[x] == s[x]);
        assert(s.push((k, v))[s.len() as int] == (k, v));
    }
}

/// The element set of a concatenation is the union of the element sets.
pub proof fn lemma_seq_set_concat<T>(a: Seq<T>, b: Seq<T>)
    ensures
        seq_set(a + b) == seq_set(a).union(seq_set(b)),
    decreases b.len(),
{
    if b.len() == 0 {
        assert(a + b =~= a);
        assert(seq_set(a).union(seq_set(b)) =~= seq_set(a));
    } else {
        lemma_seq_set_concat(a, b.drop_last());
        assert((a + b).drop_last() =~= a + b.drop_last());
        assert((a + b).last() == b.last());
        assert(seq_set(a).union(seq_set(b.drop_last())).insert(b.last()) =~= seq_set(a).union(
            seq_set(b),
        ));
    }
}

/// Two association lists with pointwise equal keys agree on key
/// uniqueness.
pub proof fn lemma_keys_unique_congruent<K, V1, V2>(a: Seq<(K, V1)>, b: Seq<(K, V2)>)
    requires
        a.len() == b.len(),
        forall|i: int| 0 <= i < a.len() ==> (#[trigger] a[i]).0 == b[i].0,
    ensures
        keys_unique(a) <==> keys_unique(b),
{
    if keys_unique(a) {
        assert forall|i: int, j: int| 0 <= i < j < b.len() implies b[i].0 != b[j].0 by {
            assert(a[i].0 == b[i].0 && a[j].0 == b[j].0);
        }
    }
    if keys_unique(b) {
        assert forall|i: int, j: int| 0 <= i < j < a.len() implies a[i].0 != a[j].0 by {
            assert(a[i].0 == b[i].0 && a[j].0 == b[j].0);
        }
    }
}

/// A key that occurs at no position is not in the map.
pub proof fn lemma_seq_map_not_contains<K, V>(s: Seq<(K, V)>, k: K)
    requires
        forall|i: int| 0 <= i < s.len() ==> s[i].0 != k,
    ensures
        !seq_map(s).contains_key(k),
{
    lemma_seq_map_domain(s, k);
}

pub proof fn lemma_seq_map_len<K, V>(s: Seq<(K, V)>)
    requires
        keys_unique(s),
    ensures
        seq_map(s).dom().finite(),
        seq_map(s).len() == s.len(),
    decreases s.len(),
{
    if s.len() > 0 {
        assert(keys_unique(s.drop_last())) by {
            assert(forall|x: int, y: int|
                0 <= x < y < s.drop_last().len() ==> s.drop_last()[x] == s[x] && s.drop_last()[y] == s[y]);
        }
        lemma_seq_map_len(s.drop_last());
        lemma_seq_map_not_contains(s.drop_last(), s.last().0);
    }
}

pub proof fn lemma_seq_set_contains<T>(s: Seq<T>, x: T)
    ensures
        seq_set(s).contains(x) <==> exists|i: int| 0 <= i < s.len() && s[i] == x,
    decreases s.len(),
{
    if s.len() > 0 {
        lemma_seq_set_contains(s.drop_last(), x);
        if s.last() == x {
            assert(s[s.len() - 1] == x);
        } else {
            if seq_set(s).contains(x) {
                let i = choose|i: int| 0 <= i < s.drop_last().len() && s.drop_last()[i] == x;
                assert(s[i] == x);
            }
            if exists|i: int| 0 <= i < s.len() && s[i] == x {
                let i = choose|i: int| 0 <= i < s.len() && s[i] == x;
                assert(s.drop_last()[i] == x);
            }
        }
    }
}

pub proof fn lemma_seq_set_push<T>(s: Seq<T>, x: T)
    ensures
        seq_set(s.push(x)) == seq_set(s).insert(x),
{
    assert(s.push(x).drop_last() =~= s);
    assert(s.push(x).last() == x);
}

/// The integer values of a sequence of 32-bit numbers, as a set.
pub open spec fn int_set_of(s: Seq<u32>) -> Set<int>
    decreases s.len(),
{
    if s.len() == 0 {
        Set::empty()
    } else {
        int_set_of(s.drop_last()).insert(s.last() as int)
    }
}

pub proof fn lemma_int_set_card(s: Seq<u32>)
    ensures
        int_set_of(s).finite(),
        int_set_of(s).len() <= s.len(),
    decreases s.len(),
{
    if s.len() > 0 {
        lemma_int_set_card(s.drop_last());
    }
}

pub proof fn lemma_int_set_contains(s: Seq<u32>, x: u32)
    ensures
        int_set_of(s).contains(x as int) <==> exists|i: int| 0 <= i < s.len() && s[i] == x,
    decreases s.len(),
{
    if s.len() > 0 {
        lemma_int_set_contains(s.drop_last(), x);
        if s.last() == x {
            assert(s[s.len() - 1] == x);
        } else {
            if int_set_of(s).contains(x as int) {
                let i = choose|i: int| 0 <= i < s.drop_last().len() && s.drop_last()[i] == x;
                assert(s[i] == x);
            }
            if exists|i: int| 0 <= i < s.len() && s[i] == x {
                let i = choose|i: int| 0 <= i < s.len() && s[i] == x;
                assert(s.drop_last()[i] == x);
            }
        }
    }
}

/// Pigeonhole: fewer values than slots below `bound` leave a free slot.
pub proof fn lemma_free_value_below(s: Seq<u32>, bound: int)
    requires
        s.len() < bound,
    ensures
        exists|x: int| 0 <= x < bound && !int_set_of(s).contains(x),
{
    lemma_int_set_card(s);
    if forall|x: int| 0 <= x < bound ==> int_set_of(s).contains(x) {
        assert(set_int_range(0, bound).subset_of(int_set_of(s))) by {
            assert(forall|x: int| set_int_range(0, bound).contains(x) ==> 0 <= x < bound);
        }
        lemma_int_range(0, bound);
        lemma_len_subset(set_int_range(0, bound), int_set_of(s));
        assert(false);
    }
}

} // verus!

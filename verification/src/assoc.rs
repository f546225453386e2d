//! Association lists keyed by strings, and the map that one stands for.

use vstd::prelude::*;

verus! {

/// The map that the first `n` entries stand for; a later entry replaces an
/// earlier one with the same key.
pub open spec fn assoc_map<V>(entries: Seq<(String, V)>, n: nat) -> Map<Seq<char>, V>
    decreases n,
{
    if n == 0 {
        Map::empty()
    } else {
        assoc_map(entries, (n - 1) as nat).insert(entries[n - 1].0@, entries[n - 1].1)
    }
}

/// Pushing an entry inserts it into the map.
pub proof fn lemma_assoc_push<V>(entries: Seq<(String, V)>, key: String, value: V)
    ensures
        assoc_map(entries.push((key, value)), entries.len() + 1) == assoc_map(
            entries,
            entries.len(),
        ).insert(key@, value),
{
    lemma_assoc_prefix(entries, entries.push((key, value)), entries.len());
}

/// The map of the first `n` entries depends on those entries only.
pub proof fn lemma_assoc_prefix<V>(a: Seq<(String, V)>, b: Seq<(String, V)>, n: nat)
    requires
        n <= a.len(),
        n <= b.len(),
        forall|i: int| 0 <= i < n ==> a[i] == b[i],
    ensures
        assoc_map(a, n) == assoc_map(b, n),
    decreases n,
{
    if n > 0 {
        lemma_assoc_prefix(a, b, (n - 1) as nat);
    }
}

/// A key that no entry from `from` on carries is looked up among the first
/// `from` entries.
pub proof fn lemma_assoc_skip_tail<V>(entries: Seq<(String, V)>, key: Seq<char>, from: nat, n: nat)
    requires
        from <= n <= entries.len(),
        forall|j: int| from <= j < n ==> entries[j].0@ != key,
    ensures
        assoc_map(entries, n).contains_key(key) == assoc_map(entries, from).contains_key(key),
        assoc_map(entries, n).contains_key(key) ==> assoc_map(entries, n)[key] == assoc_map(
            entries,
            from,
        )[key],
    decreases n - from,
{
    if from < n {
        lemma_assoc_skip_tail(entries, key, from, (n - 1) as nat);
    }
}

/// Finds the entry that the map holds for `key`.
pub fn assoc_find<V>(entries: &Vec<(String, V)>, key: &String) -> (r: Option<usize>)
    ensures
        match r {
            Some(i) => {
                &&& i < entries@.len()
                &&& entries@[i as int].0@ == key@
                &&& assoc_map(entries@, entries@.len()).contains_key(key@)
                &&& assoc_map(entries@, entries@.len())[key@] == entries@[i as int].1
            },
            None => !assoc_map(entries@, entries@.len()).contains_key(key@),
        },
{
    let mut i: usize = entries.len();
    while i > 0
        invariant
            i <= entries@.len(),
            forall|j: int| i <= j < entries@.len() ==> entries@[j].0@ != key@,
        decreases i,
    {
        i -= 1;
        if entries[i].0 == *key {
            proof {
                lemma_assoc_skip_tail(entries@, key@, (i + 1) as nat, entries@.len());
            }
            return Some(i);
        }
    }
    proof {
        lemma_assoc_skip_tail(entries@, key@, 0, entries@.len());
    }
    None
}

/// Whether no key occurs twice among the entries.
pub open spec fn distinct_keys<V>(entries: Seq<(String, V)>) -> bool {
    forall|i: int, j: int|
        0 <= i < j < entries.len() ==> (#[trigger] entries[i]).0@ != (#[trigger] entries[j]).0@
}

/// With distinct keys, the map of the first `n` entries has exactly their
/// keys, `n` of them.
pub proof fn lemma_assoc_dom<V>(entries: Seq<(String, V)>, n: nat)
    requires
        n <= entries.len(),
        distinct_keys(entries),
    ensures
        assoc_map(entries, n).dom().finite(),
        assoc_map(entries, n).dom().len() == n,
        forall|k: Seq<char>|
            assoc_map(entries, n).contains_key(k) <==> exists|i: int|
                0 <= i < n && (#[trigger] entries[i]).0@ == k,
    decreases n,
{
    if n > 0 {
        let m = (n - 1) as nat;
        lemma_assoc_dom(entries, m);
        let key = entries[m as int].0@;
        assert(!assoc_map(entries, m).contains_key(key)) by {
            if assoc_map(entries, m).contains_key(key) {
                let i = choose|i: int| 0 <= i < m && (#[trigger] entries[i]).0@ == key;
                assert(entries[i].0@ != entries[m as int].0@);
            }
        }
        assert(assoc_map(entries, n).dom() =~= assoc_map(entries, m).dom().insert(key));
        assert forall|k: Seq<char>|
            assoc_map(entries, n).contains_key(k) <==> exists|i: int|
                0 <= i < n && (#[trigger] entries[i]).0@ == k by {
            if assoc_map(entries, n).contains_key(k) {
                if k == key {
                    assert(entries[m as int].0@ == k);
                } else {
                    let i = choose|i: int| 0 <= i < m && (#[trigger] entries[i]).0@ == k;
                    assert(0 <= i < n && entries[i].0@ == k);
                }
            }
            if exists|i: int| 0 <= i < n && (#[trigger] entries[i]).0@ == k {
                let i = choose|i: int| 0 <= i < n && (#[trigger] entries[i]).0@ == k;
                if i < m {
                    assert(assoc_map(entries, m).contains_key(k));
                }
            }
        }
    } else {
        assert(assoc_map(entries, n).dom() =~= Set::<Seq<char>>::empty());
    }
}

} // verus!

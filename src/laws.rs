//! Laws relating the table's operations, stated over its view.
use crate::key::MapKey;
use crate::map::{map_of_pairs, HashMap};
use vstd::prelude::*;

verus! {

/// After `insert(k, v)`, `get(k)` finds `v`.
pub proof fn lemma_insert_then_get<K: MapKey, V>(t: HashMap<K, V>, k: K, v: V)
    requires
        t.wf(),
    ensures
        t@.insert(k@, v).contains_key(k@),
        t@.insert(k@, v)[k@] == v,
{
}

/// `insert(k, v1)` then `insert(k, v2)`: the second call returns `v1`, the
/// table keeps one pair for `k`, with `v2`, and its length is unchanged by
/// the second call.
pub proof fn lemma_overwrite<K: MapKey, V>(t: HashMap<K, V>, k: K, v1: V, v2: V)
    requires
        t.wf(),
    ensures
        t@.insert(k@, v1).get(k@) == Some(v1),
        t@.insert(k@, v1).insert(k@, v2)[k@] == v2,
        t@.insert(k@, v1).insert(k@, v2).dom() == t@.insert(k@, v1).dom(),
        t@.insert(k@, v1).insert(k@, v2).len() == t@.insert(k@, v1).len(),
{
    t.lemma_dom_finite();
    assert(t@.insert(k@, v1).insert(k@, v2).dom() =~= t@.insert(k@, v1).dom());
}

/// When `remove(k)` finds `k`, a later `get(k)` finds nothing and the length
/// drops by one.
pub proof fn lemma_remove_then_get<K: MapKey, V>(t: HashMap<K, V>, k: K)
    requires
        t.wf(),
        t@.get(k@) is Some,
    ensures
        !t@.remove(k@).contains_key(k@),
        t@.remove(k@).len() == t@.len() - 1,
{
    t.lemma_dom_finite();
}

/// The length counts distinct keys: `insert` adds one exactly when its key
/// is new, `remove` takes one away exactly when its key was stored, and
/// nothing else changes it.
pub proof fn lemma_len_counts_keys<K: MapKey, V>(t: HashMap<K, V>, k: K, v: V)
    requires
        t.wf(),
    ensures
        t@.insert(k@, v).len() == t@.len() + if t@.contains_key(k@) {
            0int
        } else {
            1int
        },
        t@.remove(k@).len() == t@.len() - if t@.contains_key(k@) {
            1int
        } else {
            0int
        },
{
    t.lemma_dom_finite();
    if t@.contains_key(k@) {
        assert(t@.insert(k@, v).dom() =~= t@.dom());
    } else {
        assert(t@.remove(k@) =~= t@);
    }
}

/// Inserting pairs with distinct keys one after another loses and
/// duplicates nothing, however many times the table grows meanwhile: every
/// key maps to its own value, and there are as many pairs as were inserted.
/// This holds of every prefix of `s` as well, since a prefix has distinct
/// keys too.
pub proof fn lemma_distinct_inserts_all_found<K: MapKey, V>(s: Seq<(K, V)>)
    requires
        forall|i: int, j: int| 0 <= i < j < s.len() ==> s[i].0@ != s[j].0@,
    ensures
        forall|i: int|
            0 <= i < s.len() ==> #[trigger] map_of_pairs(s).contains_key(s[i].0@) && map_of_pairs(
                s,
            )[s[i].0@] == s[i].1,
        forall|k: K::V|
            #[trigger] map_of_pairs(s).contains_key(k) ==> exists|i: int|
                0 <= i < s.len() && s[i].0@ == k,
        map_of_pairs(s).dom().finite(),
        map_of_pairs(s).len() == s.len(),
    decreases s.len(),
{
    if s.len() > 0 {
        let t = s.drop_last();
        let last = s.len() - 1;
        lemma_distinct_inserts_all_found(t);
        assert(!map_of_pairs(t).contains_key(s[last].0@)) by {
            if map_of_pairs(t).contains_key(s[last].0@) {
                let i = choose|i: int| 0 <= i < t.len() && t[i].0@ == s[last].0@;
                assert(s[i].0@ == s[last].0@);
            }
        }
        assert forall|i: int| 0 <= i < s.len() implies #[trigger] map_of_pairs(s).contains_key(
            s[i].0@,
        ) && map_of_pairs(s)[s[i].0@] == s[i].1 by {
            if i < last {
                assert(t[i] == s[i]);
                assert(map_of_pairs(t).contains_key(t[i].0@));
            }
        }
        assert forall|k: K::V| #[trigger] map_of_pairs(s).contains_key(k) implies exists|i: int|
            0 <= i < s.len() && s[i].0@ == k by {
            if k != s[last].0@ {
                assert(map_of_pairs(t).contains_key(k));
                let i = choose|i: int| 0 <= i < t.len() && t[i].0@ == k;
                assert(s[i] == t[i]);
            }
        }
    }
}

} // verus!

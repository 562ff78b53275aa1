//! The hash table engine: a bucket array with separate chaining.
use crate::key::MapKey;
use vstd::prelude::*;

verus! {

/// The bucket, among `n`, that a key with view `k` routes to.
spec fn index_for<K: MapKey>(k: K::V, n: nat) -> int {
    (K::spec_digest(k) as int) % (n as int)
}

/// Every pair sits in the bucket its key routes to, and its key is in `keys`.
spec fn routed<K: MapKey, V>(b: Seq<Vec<(K, V)>>, keys: Set<K::V>) -> bool {
    forall|i: int, j: int|
        #![trigger b[i]@[j]]
        0 <= i < b.len() && 0 <= j < b[i]@.len() ==> {
            &&& keys.contains(b[i]@[j].0@)
            &&& index_for::<K>(b[i]@[j].0@, b.len()) == i
        }
}

/// No bucket holds two pairs with equal keys.
spec fn distinct_keys<K: MapKey, V>(b: Seq<Vec<(K, V)>>) -> bool {
    forall|i: int, j1: int, j2: int|
        #![trigger b[i]@[j1], b[i]@[j2]]
        0 <= i < b.len() && 0 <= j1 < b[i]@.len() && 0 <= j2 < b[i]@.len() && b[i]@[j1].0@
            == b[i]@[j2].0@ ==> j1 == j2
}

/// The bucket that `k` routes to holds a pair with key `k`.
spec fn stored<K: MapKey, V>(b: Seq<Vec<(K, V)>>, k: K::V) -> bool {
    b.len() > 0 && exists|j: int|
        0 <= j < b[index_for::<K>(k, b.len())]@.len() && #[trigger] b[index_for::<K>(
            k,
            b.len(),
        )]@[j].0@ == k
}

/// Every key of `keys` is stored.
spec fn covers<K: MapKey, V>(b: Seq<Vec<(K, V)>>, keys: Set<K::V>) -> bool {
    forall|k: K::V| #[trigger] keys.contains(k) ==> stored(b, k)
}

/// Appending a pair with a fresh key to the bucket it routes to keeps the
/// buckets routed, free of equal keys, and covering the enlarged key set.
proof fn lemma_push_fresh<K: MapKey, V>(
    b: Seq<Vec<(K, V)>>,
    b2: Seq<Vec<(K, V)>>,
    keys: Set<K::V>,
    t: int,
    p: (K, V),
)
    requires
        routed(b, keys),
        distinct_keys(b),
        covers(b, keys),
        !keys.contains(p.0@),
        0 <= t < b.len(),
        t == index_for::<K>(p.0@, b.len()),
        b2.len() == b.len(),
        b2[t]@ == b[t]@.push(p),
        forall|i: int| 0 <= i < b.len() && i != t ==> b2[i] == b[i],
    ensures
        routed(b2, keys.insert(p.0@)),
        distinct_keys(b2),
        covers(b2, keys.insert(p.0@)),
{
    let keys2 = keys.insert(p.0@);
    assert forall|i: int, j: int| 0 <= i < b2.len() && 0 <= j < b2[i]@.len() implies {
        &&& keys2.contains(#[trigger] b2[i]@[j].0@)
        &&& index_for::<K>(b2[i]@[j].0@, b2.len()) == i
    } by {
        if i != t {
            assert(b2[i]@[j] == b[i]@[j]);
        } else if j < b[t]@.len() {
            assert(b2[i]@[j] == b[i]@[j]);
        }
    }
    assert forall|i: int, j1: int, j2: int|
        0 <= i < b2.len() && 0 <= j1 < b2[i]@.len() && 0 <= j2 < b2[i]@.len()
            && #[trigger] b2[i]@[j1].0@ == #[trigger] b2[i]@[j2].0@ implies j1 == j2 by {
        if i != t {
            assert(b2[i]@[j1] == b[i]@[j1]);
            assert(b2[i]@[j2] == b[i]@[j2]);
        } else {
            let last = b[t]@.len() as int;
            if j1 < last {
                assert(b2[i]@[j1] == b[i]@[j1]);
                assert(keys.contains(b[i]@[j1].0@));
            }
            if j2 < last {
                assert(b2[i]@[j2] == b[i]@[j2]);
                assert(keys.contains(b[i]@[j2].0@));
            }
        }
    }
    assert forall|k: K::V| #[trigger] keys2.contains(k) implies stored(b2, k) by {
        if k == p.0@ {
            let last = b[t]@.len() as int;
            assert(b2[t]@[last].0@ == k);
        } else {
            assert(stored(b, k));
            let i = index_for::<K>(k, b.len());
            let j = choose|j: int| 0 <= j < b[i]@.len() && #[trigger] b[i]@[j].0@ == k;
            assert(b2[i]@[j] == b[i]@[j]);
        }
    }
}

/// Giving the pair at position `j` of bucket `i` a new value, key unchanged,
/// keeps the buckets routed, free of equal keys, and covering `keys`.
proof fn lemma_set_value<K: MapKey, V>(
    b: Seq<Vec<(K, V)>>,
    b2: Seq<Vec<(K, V)>>,
    keys: Set<K::V>,
    i: int,
    j: int,
    v: V,
)
    requires
        routed(b, keys),
        distinct_keys(b),
        covers(b, keys),
        0 <= i < b.len(),
        0 <= j < b[i]@.len(),
        b2.len() == b.len(),
        b2[i]@ == b[i]@.update(j, (b[i]@[j].0, v)),
        forall|t: int| 0 <= t < b.len() && t != i ==> b2[t] == b[t],
    ensures
        routed(b2, keys),
        distinct_keys(b2),
        covers(b2, keys),
        forall|t: int, u: int|
            0 <= t < b.len() && 0 <= u < b[t]@.len() ==> (#[trigger] b2[t]@[u]).0@ == b[t]@[u].0@,
        forall|t: int, u: int|
            0 <= t < b.len() && 0 <= u < b[t]@.len() && (t != i || u != j) ==> #[trigger] b2[t]@[u]
                == b[t]@[u],
{
    assert forall|t: int, u: int|
        0 <= t < b.len() && 0 <= u < b[t]@.len() implies (#[trigger] b2[t]@[u]).0@ == b[t]@[u].0@
        && ((t != i || u != j) ==> b2[t]@[u] == b[t]@[u]) by {}
    assert forall|t: int, u: int| 0 <= t < b2.len() && 0 <= u < b2[t]@.len() implies {
        &&& keys.contains(#[trigger] b2[t]@[u].0@)
        &&& index_for::<K>(b2[t]@[u].0@, b2.len()) == t
    } by {
        assert(b2[t]@[u].0@ == b[t]@[u].0@);
    }
    assert forall|t: int, j1: int, j2: int|
        0 <= t < b2.len() && 0 <= j1 < b2[t]@.len() && 0 <= j2 < b2[t]@.len()
            && #[trigger] b2[t]@[j1].0@ == #[trigger] b2[t]@[j2].0@ implies j1 == j2 by {
        assert(b2[t]@[j1].0@ == b[t]@[j1].0@);
        assert(b2[t]@[j2].0@ == b[t]@[j2].0@);
    }
    assert forall|k: K::V| #[trigger] keys.contains(k) implies stored(b2, k) by {
        assert(stored(b, k));
        let t = index_for::<K>(k, b.len());
        let u = choose|u: int| 0 <= u < b[t]@.len() && #[trigger] b[t]@[u].0@ == k;
        assert(b2[t]@[u].0@ == b[t]@[u].0@);
    }
}

/// Taking out the pair at position `j` of bucket `i` by moving the bucket's
/// last pair into its place keeps the buckets routed and free of equal keys,
/// and covering every key but the one taken out.
proof fn lemma_swap_remove<K: MapKey, V>(
    b: Seq<Vec<(K, V)>>,
    b2: Seq<Vec<(K, V)>>,
    keys: Set<K::V>,
    i: int,
    j: int,
)
    requires
        routed(b, keys),
        distinct_keys(b),
        covers(b, keys),
        0 <= i < b.len(),
        0 <= j < b[i]@.len(),
        b2.len() == b.len(),
        b2[i]@ == b[i]@.update(j, b[i]@.last()).drop_last(),
        forall|t: int| 0 <= t < b.len() && t != i ==> b2[t] == b[t],
    ensures
        routed(b2, keys.remove(b[i]@[j].0@)),
        distinct_keys(b2),
        covers(b2, keys.remove(b[i]@[j].0@)),
{
    let gone = b[i]@[j].0@;
    let last = b[i]@.len() - 1;
    let keys2 = keys.remove(gone);
    assert forall|t: int, u: int| 0 <= t < b2.len() && 0 <= u < b2[t]@.len() implies {
        &&& keys2.contains(#[trigger] b2[t]@[u].0@)
        &&& index_for::<K>(b2[t]@[u].0@, b2.len()) == t
    } by {
        if t != i {
            assert(b2[t]@[u] == b[t]@[u]);
            if b[t]@[u].0@ == gone {
                assert(index_for::<K>(gone, b.len()) == i);
            }
        } else if u == j {
            assert(b2[t]@[u] == b[t]@[last]);
        } else {
            assert(b2[t]@[u] == b[t]@[u]);
        }
    }
    assert forall|t: int, j1: int, j2: int|
        0 <= t < b2.len() && 0 <= j1 < b2[t]@.len() && 0 <= j2 < b2[t]@.len()
            && #[trigger] b2[t]@[j1].0@ == #[trigger] b2[t]@[j2].0@ implies j1 == j2 by {
        if t != i {
            assert(b2[t]@[j1] == b[t]@[j1]);
            assert(b2[t]@[j2] == b[t]@[j2]);
        } else {
            let o1 = if j1 == j { last } else { j1 };
            let o2 = if j2 == j { last } else { j2 };
            assert(b2[t]@[j1] == b[t]@[o1]);
            assert(b2[t]@[j2] == b[t]@[o2]);
        }
    }
    assert forall|k: K::V| #[trigger] keys2.contains(k) implies stored(b2, k) by {
        assert(stored(b, k));
        let t = index_for::<K>(k, b.len());
        let u = choose|u: int| 0 <= u < b[t]@.len() && #[trigger] b[t]@[u].0@ == k;
        if t != i {
            assert(b2[t]@[u] == b[t]@[u]);
        } else if u == last {
            assert(u != j);
            assert(b2[t]@[j] == b[t]@[u]);
            assert(b2[t]@[j].0@ == k);
        } else {
            assert(u != j);
            assert(b2[t]@[u] == b[t]@[u]);
        }
    }
}

/// The map that inserting the pairs of `s` one after another, from the
/// first, into an empty table gives: a later pair wins over an earlier
/// one with an equal key.
pub open spec fn map_of_pairs<K: MapKey, V>(s: Seq<(K, V)>) -> Map<K::V, V>
    decreases s.len(),
{
    if s.len() == 0 {
        Map::empty()
    } else {
        map_of_pairs(s.drop_last()).insert(s.last().0@, s.last().1)
    }
}

/// The map of a sequence of pairs is finite and no longer than the sequence.
proof fn lemma_map_of_pairs_len<K: MapKey, V>(s: Seq<(K, V)>)
    ensures
        map_of_pairs(s).dom().finite(),
        map_of_pairs(s).len() <= s.len(),
    decreases s.len(),
{
    if s.len() > 0 {
        lemma_map_of_pairs_len(s.drop_last());
    }
}

/// Whether `n` is a power of two.
pub open spec fn is_pow2(n: nat) -> bool
    decreases n,
{
    if n <= 1 {
        n == 1
    } else {
        n % 2 == 0 && is_pow2(n / 2)
    }
}

/// Whether a table with `items` pairs in `n` buckets grows before the next
/// pair is added: it has no bucket, or more pairs than three quarters of its
/// buckets (in integer division) and room to double.
pub open spec fn grows(items: nat, n: nat) -> bool {
    n == 0 || (items > 3 * n / 4 && n <= usize::MAX / 2)
}

/// A hash map with separate chaining.
pub struct HashMap<K: MapKey, V> {
    buckets: Vec<Vec<(K, V)>>,
    items: usize,
    keys: Ghost<Set<K::V>>,
}

impl<K: MapKey, V> View for HashMap<K, V> {
    type V = Map<K::V, V>;

    closed spec fn view(&self) -> Map<K::V, V> {
        self.keys@.mk_map(|k: K::V| self.value_of(k))
    }
}

impl<K: MapKey, V> HashMap<K, V> {
    /// The position of key `k` within its bucket.
    pub closed spec fn slot_of(&self, k: K::V) -> int {
        let b = self.buckets@[index_for::<K>(k, self.buckets@.len())]@;
        choose|j: int| 0 <= j < b.len() && #[trigger] b[j].0@ == k
    }

    /// The value stored with key `k`.
    pub closed spec fn value_of(&self, k: K::V) -> V {
        self.buckets@[index_for::<K>(k, self.buckets@.len())]@[self.slot_of(k)].1
    }

    /// The number of buckets.
    pub closed spec fn bucket_count(&self) -> nat {
        self.buckets@.len()
    }

    /// The table's internal invariant.
    pub closed spec fn wf(&self) -> bool {
        &&& self.buckets@.len() == 0 || is_pow2(self.buckets@.len())
        &&& self.keys@.finite()
        &&& self.keys@.len() == self.items
        &&& routed(self.buckets@, self.keys@)
        &&& distinct_keys(self.buckets@)
        &&& covers(self.buckets@, self.keys@)
    }

    /// The bucket count of a well-formed table is zero or a power of two.
    pub proof fn lemma_bucket_count_pow2(&self)
        requires
            self.wf(),
        ensures
            self.bucket_count() == 0 || is_pow2(self.bucket_count()),
    {
    }

    /// A well-formed table stores finitely many keys.
    pub proof fn lemma_dom_finite(&self)
        requires
            self.wf(),
        ensures
            self@.dom().finite(),
    {
        self.lemma_view();
    }

    /// The occupied positions hold exactly the stored pairs, each once: every
    /// pair at a position is stored, every stored key sits at some position,
    /// and no two positions hold equal keys. So a walk from the first
    /// position meets every stored pair exactly once.
    pub proof fn lemma_positions_hold_pairs(&self)
        requires
            self.wf(),
        ensures
            forall|q: (int, int)|
                #[trigger] self.occupied(q) ==> self@.contains_key(self.pair_at(q).0@) && self@[self.pair_at(
                    q,
                ).0@] == self.pair_at(q).1,
            forall|k: K::V|
                #[trigger] self@.contains_key(k) ==> exists|q: (int, int)|
                    #[trigger] self.occupied(q) && self.pair_at(q).0@ == k,
            forall|q1: (int, int), q2: (int, int)|
                #[trigger] self.occupied(q1) && #[trigger] self.occupied(q2) && self.pair_at(q1).0@
                    == self.pair_at(q2).0@ ==> q1 == q2,
    {
        self.lemma_view();
        let n = self.buckets@.len();
        assert forall|q: (int, int)| #[trigger] self.occupied(q) implies self@.contains_key(
            self.pair_at(q).0@,
        ) && self@[self.pair_at(q).0@] == self.pair_at(q).1 by {
            let k = self.buckets@[q.0]@[q.1].0@;
            assert(self.keys@.contains(k));
            assert(index_for::<K>(k, n) == q.0);
            assert(stored(self.buckets@, k));
            let j = self.slot_of(k);
            assert(self.buckets@[q.0]@[j].0@ == k);
        }
        assert forall|k: K::V| #[trigger] self@.contains_key(k) implies exists|q: (int, int)|
            #[trigger] self.occupied(q) && self.pair_at(q).0@ == k by {
            assert(stored(self.buckets@, k));
            let i = index_for::<K>(k, n);
            let j = choose|j: int| 0 <= j < self.buckets@[i]@.len() && #[trigger] self.buckets@[i]@[j].0@ == k;
            assert(self.occupied((i, j)));
        }
        assert forall|q1: (int, int), q2: (int, int)|
            #[trigger] self.occupied(q1) && #[trigger] self.occupied(q2) && self.pair_at(q1).0@
                == self.pair_at(q2).0@ implies q1 == q2 by {
            let k = self.buckets@[q1.0]@[q1.1].0@;
            assert(index_for::<K>(k, n) == q1.0);
            assert(index_for::<K>(self.buckets@[q2.0]@[q2.1].0@, n) == q2.0);
            assert(self.buckets@[q1.0]@[q1.1] == self.buckets@[q1.0]@[q1.1]);
            assert(self.buckets@[q2.0]@[q2.1] == self.buckets@[q2.0]@[q2.1]);
        }
    }

    /// An empty table; allocates nothing.
    pub fn new() -> (r: Self)
        ensures
            r.wf(),
            r@ == Map::<K::V, V>::empty(),
            r.bucket_count() == 0,
    {
        let r = HashMap { buckets: Vec::new(), items: 0, keys: Ghost(Set::empty()) };
        assert(r@ =~= Map::<K::V, V>::empty());
        r
    }

    /// Whether position `p` (bucket, place within it) holds a pair.
    pub closed spec fn occupied(&self, p: (int, int)) -> bool {
        &&& 0 <= p.0 < self.buckets@.len()
        &&& 0 <= p.1 < self.buckets@[p.0]@.len()
    }

    /// The pair at position `p`.
    pub closed spec fn pair_at(&self, p: (int, int)) -> (K, V) {
        self.buckets@[p.0]@[p.1]
    }

    /// A forward walk over every stored pair, bucket by bucket.
    pub fn iter(&self) -> (r: Iter<'_, K, V>)
        requires
            self.wf(),
        ensures
            r.wf(),
            r.table() == *self,
            r.cursor() == (0int, 0int),
    {
        Iter { map: self, bucket: 0, at: 0 }
    }

    /// A table holding `pairs`, inserted in order, so that a later pair
    /// overwrites an earlier one with an equal key.
    pub fn from_pairs(pairs: Vec<(K, V)>) -> (r: Self)
        requires
            pairs@.len() < usize::MAX,
        ensures
            r.wf(),
            r@ == map_of_pairs(pairs@),
    {
        let ghost all = pairs@;
        let ghost n = all.len();
        let mut pairs = pairs;
        let mut rev: Vec<(K, V)> = Vec::new();
        while pairs.len() > 0
            invariant
                n == all.len(),
                pairs@.len() <= n,
                pairs@ == all.subrange(0, pairs@.len() as int),
                rev@.len() == n - pairs@.len(),
                forall|i: int| 0 <= i < rev@.len() ==> #[trigger] rev@[i] == all[n - 1 - i],
            decreases pairs@.len(),
        {
            let p = pairs.pop().unwrap();
            rev.push(p);
        }
        let mut map = HashMap::new();
        while rev.len() > 0
            invariant
                n == all.len(),
                n < usize::MAX,
                rev@.len() <= n,
                forall|i: int| 0 <= i < rev@.len() ==> #[trigger] rev@[i] == all[n - 1 - i],
                map.wf(),
                map@ == map_of_pairs(all.subrange(0, n - rev@.len())),
            decreases rev@.len(),
        {
            let ghost d = n - rev@.len();
            let p = rev.pop().unwrap();
            proof {
                lemma_map_of_pairs_len(all.subrange(0, d));
                assert(all.subrange(0, d + 1).drop_last() =~= all.subrange(0, d));
                assert(p == all[d]);
            }
            map.insert(p.0, p.1);
        }
        proof {
            assert(all.subrange(0, n as int) =~= all);
        }
        map
    }

    /// The number of stored pairs.
    pub fn len(&self) -> (r: usize)
        requires
            self.wf(),
        ensures
            r == self@.len(),
    {
        self.items
    }

    /// Whether the table holds no pair.
    pub fn is_empty(&self) -> (r: bool)
        requires
            self.wf(),
        ensures
            r == (self@.len() == 0),
    {
        self.items == 0
    }

    /// The view of a well-formed table: its keys, how many, and their values.
    proof fn lemma_view(&self)
        requires
            self.wf(),
        ensures
            self@.dom() == self.keys@,
            self@.len() == self.items,
            forall|k: K::V| #[trigger] self@.contains_key(k) ==> self@[k] == self.value_of(k),
    {
    }

    /// Grows the bucket array: to one bucket when there is none, else to
    /// twice as many, and moves every pair to the bucket it now routes to.
    pub fn resize(&mut self)
        requires
            old(self).wf(),
            old(self).bucket_count() <= usize::MAX / 2,
        ensures
            final(self).wf(),
            final(self)@ == old(self)@,
            final(self).bucket_count() == if old(self).bucket_count() == 0 {
                1
            } else {
                2 * old(self).bucket_count()
            },
    {
        let ghost pre = *self;
        let ghost ob = self.buckets@;
        let ghost keys = self.keys@;
        let ghost n = ob.len();
        proof {
            pre.lemma_view();
        }
        let target: usize = if self.buckets.len() == 0 {
            1
        } else {
            2 * self.buckets.len()
        };
        let mut fresh: Vec<Vec<(K, V)>> = Vec::with_capacity(target);
        let mut t: usize = 0;
        while t < target
            invariant
                t <= target,
                fresh@.len() == t,
                forall|i: int| 0 <= i < t ==> (#[trigger] fresh@[i])@.len() == 0,
            decreases target - t,
        {
            fresh.push(Vec::new());
            t += 1;
        }
        let ghost mut moved: Set<K::V> = Set::empty();
        while self.buckets.len() > 0
            invariant
                pre.wf(),
                pre@.dom() == keys,
                ob == pre.buckets@,
                keys == pre.keys@,
                self.keys@ == keys,
                self.items == pre.items,
                n == ob.len(),
                fresh@.len() == target,
                target > 0,
                self.buckets@.len() <= n,
                self.buckets@ == ob.subrange(0, self.buckets@.len() as int),
                moved.subset_of(keys),
                routed(fresh@, moved),
                distinct_keys(fresh@),
                covers(fresh@, moved),
                forall|i: int, j: int|
                    0 <= i < fresh@.len() && 0 <= j < fresh@[i]@.len() ==> (#[trigger] fresh@[i]@[j]).1
                        == pre@[fresh@[i]@[j].0@],
                forall|i: int, j: int|
                    0 <= i < self.buckets@.len() && 0 <= j < ob[i]@.len() ==> !moved.contains(
                        (#[trigger] ob[i]@[j]).0@,
                    ),
                forall|k: K::V|
                    #[trigger] keys.contains(k) ==> moved.contains(k) || index_for::<K>(k, n)
                        < self.buckets@.len(),
            decreases self.buckets@.len(),
        {
            let ghost c = (self.buckets@.len() - 1) as int;
            let mut bucket = self.buckets.pop().unwrap();
            proof {
                assert(bucket == ob[c]);
            }
            while bucket.len() > 0
                invariant
                    pre.wf(),
                    pre@.dom() == keys,
                    ob == pre.buckets@,
                    keys == pre.keys@,
                    self.keys@ == keys,
                    self.items == pre.items,
                    n == ob.len(),
                    0 <= c < n,
                    fresh@.len() == target,
                    target > 0,
                    self.buckets@ == ob.subrange(0, c),
                    bucket@.len() <= ob[c]@.len(),
                    bucket@ == ob[c]@.subrange(0, bucket@.len() as int),
                    moved.subset_of(keys),
                    routed(fresh@, moved),
                    distinct_keys(fresh@),
                    covers(fresh@, moved),
                    forall|i: int, j: int|
                        0 <= i < fresh@.len() && 0 <= j < fresh@[i]@.len() ==> (#[trigger] fresh@[i]@[j]).1
                            == pre@[fresh@[i]@[j].0@],
                    forall|i: int, j: int|
                        0 <= i < c && 0 <= j < ob[i]@.len() ==> !moved.contains(
                            (#[trigger] ob[i]@[j]).0@,
                        ),
                    forall|j: int| 0 <= j < bucket@.len() ==> !moved.contains(
                        (#[trigger] ob[c]@[j]).0@,
                    ),
                    forall|k: K::V|
                        #[trigger] keys.contains(k) ==> moved.contains(k) || index_for::<K>(k, n)
                            < c || (index_for::<K>(k, n) == c && exists|j: int|
                            0 <= j < bucket@.len() && (#[trigger] ob[c]@[j]).0@ == k),
                decreases bucket@.len(),
            {
                let ghost p = (bucket@.len() - 1) as int;
                let pair = bucket.pop().unwrap();
                let ghost fresh_before = fresh@;
                proof {
                    assert(pair == ob[c]@[p]);
                    assert(keys.contains(pair.0@));
                    assert(pre.slot_of(pair.0@) == p);
                }
                let t = pair.0.digest() % (target as u64);
                let t = t as usize;
                fresh[t].push(pair);
                proof {
                    lemma_push_fresh(fresh_before, fresh@, moved, t as int, pair);
                    moved = moved.insert(pair.0@);
                    assert forall|i: int, j: int|
                        0 <= i < fresh@.len() && 0 <= j < fresh@[i]@.len() implies (#[trigger] fresh@[i]@[j]).1
                            == pre@[fresh@[i]@[j].0@] by {
                        if i != t || j < fresh_before[i]@.len() {
                            assert(fresh@[i]@[j] == fresh_before[i]@[j]);
                        }
                    }
                    assert forall|j: int| 0 <= j < bucket@.len() implies !moved.contains(
                        (#[trigger] ob[c]@[j]).0@,
                    ) by {
                        assert(ob[c]@[j].0@ != pair.0@);
                    }
                    assert forall|i: int, j: int|
                        0 <= i < c && 0 <= j < ob[i]@.len() implies !moved.contains(
                            (#[trigger] ob[i]@[j]).0@,
                        ) by {
                        assert(index_for::<K>(ob[i]@[j].0@, n) == i);
                    }
                    assert forall|k: K::V| #[trigger] keys.contains(k) implies moved.contains(k)
                        || index_for::<K>(k, n) < c || (index_for::<K>(k, n) == c && exists|j: int|
                        0 <= j < bucket@.len() && (#[trigger] ob[c]@[j]).0@ == k) by {
                        if !moved.contains(k) && index_for::<K>(k, n) == c {
                            let j = choose|j: int|
                                0 <= j < bucket@.len() + 1 && (#[trigger] ob[c]@[j]).0@ == k;
                            assert(j != p);
                        }
                    }
                }
            }
            proof {
                assert forall|k: K::V| #[trigger] keys.contains(k) implies moved.contains(k)
                    || index_for::<K>(k, n) < self.buckets@.len() by {}
            }
        }
        self.buckets = fresh;
        proof {
            if n > 0 {
                assert(is_pow2(2 * n)) by {
                    assert((2 * n) as nat / 2 == n);
                }
            }
            assert(moved =~= keys);
            assert(self.wf());
            self.lemma_view();
            assert(self@ =~= pre@) by {
                assert forall|k: K::V| #[trigger] keys.contains(k) implies self.value_of(k)
                    == pre@[k] by {
                    assert(stored(self.buckets@, k));
                    let i = index_for::<K>(k, self.buckets@.len());
                    let j = self.slot_of(k);
                    assert(self.buckets@[i]@[j].0@ == k);
                }
            }
        }
    }

    /// Whether the load factor calls for more buckets before a pair is added.
    fn needs_resize(&self) -> (r: bool)
        ensures
            r == grows(self.items as nat, self.buckets@.len()),
    {
        let n = self.buckets.len();
        if n == 0 {
            return true;
        }
        let limit = n / 4 * 3 + n % 4 * 3 / 4;
        assert(limit == 3 * n / 4) by (nonlinear_arith)
            requires
                limit == n / 4 * 3 + n % 4 * 3 / 4,
                n == 4 * (n / 4) + n % 4,
                0 <= n % 4 < 4,
        ;
        self.items > limit && n <= usize::MAX / 2
    }

    /// A table that differs from a well-formed one only in the value of the
    /// pair at position `j` of bucket `i` is well formed, and maps that
    /// pair's key to the new value.
    proof fn lemma_value_changed(pre: Self, post: Self, i: int, j: int)
        requires
            pre.wf(),
            0 <= i < pre.buckets@.len(),
            0 <= j < pre.buckets@[i]@.len(),
            post.keys == pre.keys,
            post.items == pre.items,
            post.buckets@.len() == pre.buckets@.len(),
            post.buckets@[i]@.len() == pre.buckets@[i]@.len(),
            post.buckets@[i]@ == pre.buckets@[i]@.update(j, (pre.buckets@[i]@[j].0, post.buckets@[i]@[j].1)),
            forall|t: int| 0 <= t < pre.buckets@.len() && t != i ==> post.buckets@[t] == pre.buckets@[t],
        ensures
            post.wf(),
            post@ == pre@.insert(pre.buckets@[i]@[j].0@, post.buckets@[i]@[j].1),
            post.bucket_count() == pre.bucket_count(),
    {
        let key = pre.buckets@[i]@[j].0@;
        lemma_set_value(pre.buckets@, post.buckets@, pre.keys@, i, j, post.buckets@[i]@[j].1);
        pre.lemma_view();
        post.lemma_view();
        assert forall|k: K::V| #[trigger] post.keys@.contains(k) && k != key implies post.value_of(k) == pre.value_of(k) by {
            assert(stored(pre.buckets@, k));
            let t = index_for::<K>(k, pre.buckets@.len());
            assert(pre.buckets@[t]@[pre.slot_of(k)].0@ == k);
            assert(post.buckets@[t]@[pre.slot_of(k)].0@ == k);
            assert(post.buckets@[t]@[post.slot_of(k)].0@ == k);
        }
        assert(pre.keys@.contains(key));
        assert(index_for::<K>(key, pre.buckets@.len()) == i);
        assert(post.buckets@[i]@[j].0@ == key);
        assert(post.slot_of(key) == j);
        assert(post@ =~= pre@.insert(key, post.buckets@[i]@[j].1));
    }

    /// A table that differs from a well-formed one only by a pair with a new
    /// key appended to the bucket `i` it routes to, and counted, is well
    /// formed, and maps that key to the pair's value.
    proof fn lemma_pair_added(pre: Self, post: Self, i: int)
        requires
            pre.wf(),
            0 <= i < pre.buckets@.len(),
            post.buckets@.len() == pre.buckets@.len(),
            post.buckets@[i]@.len() == pre.buckets@[i]@.len() + 1,
            post.buckets@[i]@ == pre.buckets@[i]@.push(post.buckets@[i]@.last()),
            forall|t: int| 0 <= t < pre.buckets@.len() && t != i ==> post.buckets@[t] == pre.buckets@[t],
            i == index_for::<K>(post.buckets@[i]@.last().0@, pre.buckets@.len()),
            !pre.keys@.contains(post.buckets@[i]@.last().0@),
            post.keys@ == pre.keys@.insert(post.buckets@[i]@.last().0@),
            post.items == pre.items + 1,
        ensures
            post.wf(),
            post@ == pre@.insert(post.buckets@[i]@.last().0@, post.buckets@[i]@.last().1),
            post.bucket_count() == pre.bucket_count(),
    {
        let p = post.buckets@[i]@.last();
        let k = p.0@;
        let last = pre.buckets@[i]@.len() as int;
        lemma_push_fresh(pre.buckets@, post.buckets@, pre.keys@, i, p);
        pre.lemma_view();
        post.lemma_view();
        assert forall|k2: K::V| #[trigger] pre.keys@.contains(k2) implies post.value_of(k2)
            == pre.value_of(k2) by {
            assert(stored(pre.buckets@, k2));
            let t = index_for::<K>(k2, pre.buckets@.len());
            assert(pre.buckets@[t]@[pre.slot_of(k2)].0@ == k2);
            assert(post.buckets@[t]@[pre.slot_of(k2)] == pre.buckets@[t]@[pre.slot_of(k2)]);
            assert(post.buckets@[t]@[post.slot_of(k2)].0@ == k2);
            if t == i && post.slot_of(k2) == last {
                assert(false);
            }
            assert(post.buckets@[t]@[post.slot_of(k2)] == pre.buckets@[t]@[post.slot_of(k2)]);
        }
        assert(post.buckets@[i]@[last].0@ == k);
        assert(post.slot_of(k) == last);
        assert(post@ =~= pre@.insert(k, p.1));
    }

    /// An entry for the pair at position `slot` of bucket `bucket`.
    fn entry_occupied(&mut self, bucket: usize, slot: usize) -> (e: Entry<'_, K, V>)
        requires
            old(self).wf(),
            bucket < old(self).buckets@.len(),
            slot < old(self).buckets@[bucket as int]@.len(),
        ensures
            e is Occupied,
            e.wf(),
            *e.table() == *old(self),
            e.key_view() == old(self).buckets@[bucket as int]@[slot as int].0@,
            *final(self) == *final(e.table()),
    {
        Entry::Occupied(OccupiedEntry { map: self, bucket, slot })
    }

    /// An entry for `key`, which is not stored and routes to `bucket`.
    fn entry_vacant(&mut self, key: K, bucket: usize) -> (e: Entry<'_, K, V>)
        requires
            old(self).wf(),
            old(self)@.len() < usize::MAX,
            old(self).buckets@.len() > 0,
            bucket == index_for::<K>(key@, old(self).buckets@.len()),
            !old(self)@.contains_key(key@),
        ensures
            e is Vacant,
            e.wf(),
            *e.table() == *old(self),
            e.key_view() == key@,
            *final(self) == *final(e.table()),
    {
        Entry::Vacant(VacantEntry { key, map: self, bucket })
    }

    /// A view of the place for `key`: its pair if it is stored, else the
    /// bucket it would go to. The table grows first, as `insert` does.
    pub fn entry(&mut self, key: K) -> (e: Entry<'_, K, V>)
        requires
            old(self).wf(),
            old(self)@.len() < usize::MAX,
        ensures
            e.wf(),
            (*e.table())@ == old(self)@,
            e.key_view() == key@,
            (e is Occupied) == old(self)@.contains_key(key@),
            *final(self) == *final(e.table()),
            e.table().bucket_count() == if grows(old(self)@.len(), old(self).bucket_count()) {
                if old(self).bucket_count() == 0 {
                    1
                } else {
                    2 * old(self).bucket_count()
                }
            } else {
                old(self).bucket_count()
            },
    {
        proof {
            self.lemma_view();
        }
        if self.needs_resize() {
            self.resize();
        }
        let bi = self.bucket(&key);
        match self.find(bi, &key) {
            Some(j) => self.entry_occupied(bi, j),
            None => self.entry_vacant(key, bi),
        }
    }

    /// Stores `value` under `key`; returns the value it replaces, if any.
    pub fn insert(&mut self, key: K, value: V) -> (r: Option<V>)
        requires
            old(self).wf(),
            old(self)@.len() < usize::MAX,
        ensures
            final(self).wf(),
            final(self)@ == old(self)@.insert(key@, value),
            r == old(self)@.get(key@),
            final(self).bucket_count() == if grows(old(self)@.len(), old(self).bucket_count()) {
                if old(self).bucket_count() == 0 {
                    1
                } else {
                    2 * old(self).bucket_count()
                }
            } else {
                old(self).bucket_count()
            },
    {
        proof {
            self.lemma_view();
        }
        if self.needs_resize() {
            self.resize();
        }
        let ghost pre = *self;
        proof {
            pre.lemma_view();
        }
        let bi = self.bucket(&key);
        match self.find(bi, &key) {
            Some(j) => {
                let mut value = value;
                std::mem::swap(&mut self.buckets[bi][j].1, &mut value);
                proof {
                    HashMap::lemma_value_changed(pre, *self, bi as int, j as int);
                }
                Some(value)
            },
            None => {
                let ghost k = key@;
                self.buckets[bi].push((key, value));
                self.items = self.items + 1;
                self.keys = Ghost(self.keys@.insert(k));
                proof {
                    HashMap::lemma_pair_added(pre, *self, bi as int);
                }
                None
            },
        }
    }

    /// Takes out the pair with `key`; returns its value, if it was there.
    pub fn remove(&mut self, key: &K) -> (r: Option<V>)
        requires
            old(self).wf(),
        ensures
            final(self).wf(),
            final(self)@ == old(self)@.remove(key@),
            r == old(self)@.get(key@),
            final(self).bucket_count() == old(self).bucket_count(),
    {
        let ghost pre = *self;
        proof {
            pre.lemma_view();
        }
        if self.buckets.len() == 0 {
            assert(self@ =~= pre@.remove(key@));
            return None;
        }
        let bi = self.bucket(key);
        match self.find(bi, key) {
            None => {
                assert(self@ =~= pre@.remove(key@));
                None
            },
            Some(j) => {
                let pair = self.buckets[bi].swap_remove(j);
                self.items = self.items - 1;
                self.keys = Ghost(self.keys@.remove(key@));
                proof {
                    lemma_swap_remove(pre.buckets@, self.buckets@, pre.keys@, bi as int, j as int);
                    self.lemma_view();
                    let last = pre.buckets@[bi as int]@.len() - 1;
                    assert forall|k2: K::V| #[trigger] self.keys@.contains(k2) implies self.value_of(k2) == pre.value_of(k2) by {
                        assert(stored(pre.buckets@, k2));
                        let t = index_for::<K>(k2, pre.buckets@.len());
                        let u = pre.slot_of(k2);
                        assert(pre.buckets@[t]@[u].0@ == k2);
                        let u2 = self.slot_of(k2);
                        assert(self.buckets@[t]@[u2].0@ == k2);
                        if t == bi {
                            let o = if u2 == j { last } else { u2 };
                            assert(self.buckets@[t]@[u2] == pre.buckets@[t]@[o]);
                        } else {
                            assert(self.buckets@[t]@[u2] == pre.buckets@[t]@[u2]);
                        }
                    }
                    assert(self@ =~= pre@.remove(key@));
                }
                Some(pair.1)
            },
        }
    }

    /// The bucket that `key` routes to.
    fn bucket(&self, key: &K) -> (r: usize)
        requires
            self.buckets@.len() > 0,
        ensures
            r == index_for::<K>(key@, self.buckets@.len()),
            r < self.buckets@.len(),
    {
        let n = self.buckets.len() as u64;
        let d = key.digest();
        (d % n) as usize
    }

    /// The position of `key` in the bucket `bi`, if it is there.
    fn find(&self, bi: usize, key: &K) -> (r: Option<usize>)
        requires
            self.wf(),
            self.buckets@.len() > 0,
            bi == index_for::<K>(key@, self.buckets@.len()),
        ensures
            match r {
                Some(j) => {
                    &&& j < self.buckets@[bi as int]@.len()
                    &&& self.buckets@[bi as int]@[j as int].0@ == key@
                    &&& self.slot_of(key@) == j
                    &&& self@.contains_key(key@)
                    &&& self@[key@] == self.buckets@[bi as int]@[j as int].1
                },
                None => !self@.contains_key(key@),
            },
    {
        let bucket = &self.buckets[bi];
        let mut j: usize = 0;
        while j < bucket.len()
            invariant
                self.wf(),
                self.buckets@.len() > 0,
                bi == index_for::<K>(key@, self.buckets@.len()),
                bi < self.buckets@.len(),
                bucket == self.buckets@[bi as int],
                j <= bucket@.len(),
                forall|t: int| 0 <= t < j ==> bucket@[t].0@ != key@,
            decreases bucket@.len() - j,
        {
            if bucket[j].0.same_key(key) {
                proof {
                    self.lemma_view();
                    let s = self.slot_of(key@);
                    assert(self.buckets@[bi as int]@[j as int].0@ == key@);
                    assert(bucket@[s].0@ == key@);
                }
                return Some(j);
            }
            j += 1;
        }
        proof {
            self.lemma_view();
            if self.keys@.contains(key@) {
                assert(stored(self.buckets@, key@));
            }
        }
        None
    }

    /// The value stored with `key`, if any.
    pub fn get(&self, key: &K) -> (r: Option<&V>)
        requires
            self.wf(),
        ensures
            match r {
                Some(v) => self@.contains_key(key@) && *v == self@[key@],
                None => !self@.contains_key(key@),
            },
    {
        if self.buckets.len() == 0 {
            proof {
                self.lemma_view();
            }
            return None;
        }
        let bi = self.bucket(key);
        match self.find(bi, key) {
            Some(j) => Some(&self.buckets[bi][j].1),
            None => None,
        }
    }

    /// The value stored with `key`, which must be stored.
    pub fn index(&self, key: &K) -> (r: &V)
        requires
            self.wf(),
            self@.contains_key(key@),
        ensures
            *r == self@[key@],
    {
        self.get(key).unwrap()
    }

    /// Whether a pair with `key` is stored.
    pub fn contains_key(&self, key: &K) -> (r: bool)
        requires
            self.wf(),
        ensures
            r == self@.contains_key(key@),
    {
        if self.buckets.len() == 0 {
            proof {
                self.lemma_view();
            }
            return false;
        }
        let bi = self.bucket(key);
        self.find(bi, key).is_some()
    }
}


/// Position `a` comes no later than position `b` in a walk over the table.
pub open spec fn no_later(a: (int, int), b: (int, int)) -> bool {
    a.0 < b.0 || (a.0 == b.0 && a.1 <= b.1)
}

/// A walk over the pairs of a table, in bucket order and, within a bucket,
/// in the order the bucket holds them.
pub struct Iter<'a, K: MapKey, V> {
    map: &'a HashMap<K, V>,
    bucket: usize,
    at: usize,
}

impl<'a, K: MapKey, V> Iter<'a, K, V> {
    /// The table walked over.
    pub closed spec fn table(self) -> HashMap<K, V> {
        *self.map
    }

    /// The next position to look at.
    pub closed spec fn cursor(self) -> (int, int) {
        (self.bucket as int, self.at as int)
    }

    /// The walk's internal invariant.
    pub closed spec fn wf(self) -> bool {
        &&& self.map.wf()
        &&& self.bucket <= self.map.buckets@.len()
    }

    /// The pair at the first occupied position at or after the cursor, with
    /// the cursor moved just past it; `None` when there is none.
    pub fn next(&mut self) -> (r: Option<(&'a K, &'a V)>)
        requires
            old(self).wf(),
        ensures
            final(self).wf(),
            final(self).table() == old(self).table(),
            match r {
                Some(kv) => {
                    let p = (final(self).cursor().0, final(self).cursor().1 - 1);
                    &&& old(self).table().occupied(p)
                    &&& *kv.0 == old(self).table().pair_at(p).0
                    &&& *kv.1 == old(self).table().pair_at(p).1
                    &&& no_later(old(self).cursor(), p)
                    &&& forall|q: (int, int)|
                        #![trigger old(self).table().occupied(q)]
                        old(self).table().occupied(q) && no_later(old(self).cursor(), q)
                            ==> no_later(p, q)
                },
                None => forall|q: (int, int)|
                    #![trigger old(self).table().occupied(q)]
                    old(self).table().occupied(q) ==> !no_later(old(self).cursor(), q),
            },
    {
        let map: &'a HashMap<K, V> = self.map;
        let ghost start = (self.bucket as int, self.at as int);
        while self.bucket < map.buckets.len()
            invariant
                self.map == map,
                *map == old(self).table(),
                start == old(self).cursor(),
                map.wf(),
                self.bucket <= map.buckets@.len(),
                no_later(start, (self.bucket as int, self.at as int)),
                forall|q: (int, int)|
                    #![trigger map.occupied(q)]
                    map.occupied(q) && no_later(start, q) ==> no_later(
                        (self.bucket as int, self.at as int),
                        q,
                    ),
            decreases map.buckets@.len() - self.bucket,
        {
            let bucket: &'a Vec<(K, V)> = &map.buckets[self.bucket];
            if self.at < bucket.len() {
                let pair: &'a (K, V) = &bucket[self.at];
                proof {
                    assert(map.occupied((self.bucket as int, self.at as int)));
                }
                self.at = self.at + 1;
                return Some((&pair.0, &pair.1));
            }
            self.bucket = self.bucket + 1;
            self.at = 0;
        }
        None
    }
}

/// A view of a stored pair.
pub struct OccupiedEntry<'a, K: MapKey, V> {
    map: &'a mut HashMap<K, V>,
    bucket: usize,
    slot: usize,
}

/// A view of the place where a key that is not stored would go.
pub struct VacantEntry<'a, K: MapKey, V> {
    key: K,
    map: &'a mut HashMap<K, V>,
    bucket: usize,
}

/// What `HashMap::entry` returns: the pair for a key, or the place for it.
pub enum Entry<'a, K: MapKey, V> {
    Occupied(OccupiedEntry<'a, K, V>),
    Vacant(VacantEntry<'a, K, V>),
}

impl<'a, K: MapKey, V> OccupiedEntry<'a, K, V> {
    /// The value of the pair, borrowed for as long as the table.
    fn into_mut(self) -> (r: &'a mut V)
        requires
            old(self.map).wf(),
            self.bucket < old(self.map).buckets@.len(),
            self.slot < old(self.map).buckets@[self.bucket as int]@.len(),
        ensures
            *r == old(self.map)@[old(self.map).buckets@[self.bucket as int]@[self.slot as int].0@],
            final(self.map).wf(),
            final(self.map)@ == old(self.map)@.insert(
                old(self.map).buckets@[self.bucket as int]@[self.slot as int].0@,
                *final(r),
            ),
            final(self.map).bucket_count() == old(self.map).bucket_count(),
    {
        let ghost pre = *self.map;
        let map = self.map;
        proof {
            pre.lemma_view();
            assert(pre.keys@.contains(pre.buckets@[self.bucket as int]@[self.slot as int].0@));
            assert(stored(pre.buckets@, pre.buckets@[self.bucket as int]@[self.slot as int].0@));
        }
        let ghost post = *final(map);
        let pair = &mut map.buckets[self.bucket][self.slot];
        let r = &mut pair.1;
        proof {
            HashMap::lemma_value_changed(pre, post, self.bucket as int, self.slot as int);
        }
        r
    }
}

impl<'a, K: MapKey, V> VacantEntry<'a, K, V> {
    /// Stores `value` under the entry's key; returns it, borrowed for as
    /// long as the table.
    fn insert(self, value: V) -> (r: &'a mut V)
        requires
            old(self.map).wf(),
            old(self.map)@.len() < usize::MAX,
            old(self.map).buckets@.len() > 0,
            self.bucket == index_for::<K>(self.key@, old(self.map).buckets@.len()),
            !old(self.map)@.contains_key(self.key@),
        ensures
            *r == value,
            final(self.map).wf(),
            final(self.map)@ == old(self.map)@.insert(self.key@, *final(r)),
            final(self.map).bucket_count() == old(self.map).bucket_count(),
    {
        let ghost pre = *self.map;
        let ghost k = self.key@;
        let map = self.map;
        let bi = self.bucket;
        proof {
            pre.lemma_view();
        }
        map.buckets[bi].push((self.key, value));
        map.items = map.items + 1;
        map.keys = Ghost(map.keys@.insert(k));
        let ghost mid = *map;
        let n = map.buckets[bi].len() - 1;
        proof {
            HashMap::lemma_pair_added(pre, mid, bi as int);
        }
        let ghost post = *final(map);
        let pair = &mut map.buckets[bi][n];
        let r = &mut pair.1;
        proof {
            HashMap::lemma_value_changed(mid, post, bi as int, n as int);
            assert(post@ =~= pre@.insert(k, *final(r)));
        }
        r
    }
}

impl<'a, K: MapKey, V> Entry<'a, K, V> {
    /// The table the entry borrows.
    pub closed spec fn table(self) -> &'a mut HashMap<K, V> {
        match self {
            Entry::Occupied(e) => e.map,
            Entry::Vacant(e) => e.map,
        }
    }

    /// The view of the entry's key.
    pub closed spec fn key_view(self) -> K::V {
        match self {
            Entry::Occupied(e) => e.map.buckets@[e.bucket as int]@[e.slot as int].0@,
            Entry::Vacant(e) => e.key@,
        }
    }

    /// The entry's internal invariant.
    pub closed spec fn wf(self) -> bool {
        match self {
            Entry::Occupied(e) => {
                &&& e.map.wf()
                &&& e.bucket < e.map.buckets@.len()
                &&& e.slot < e.map.buckets@[e.bucket as int]@.len()
            },
            Entry::Vacant(e) => {
                &&& e.map.wf()
                &&& e.map@.len() < usize::MAX
                &&& e.map.buckets@.len() > 0
                &&& e.bucket == index_for::<K>(e.key@, e.map.buckets@.len())
                &&& !e.map@.contains_key(e.key@)
            },
        }
    }

    /// The value for the entry's key: the stored one, or `value` newly stored.
    pub fn or_insert(self, value: V) -> (r: &'a mut V)
        requires
            self.wf(),
        ensures
            *r == if self is Occupied {
                (*self.table())@[self.key_view()]
            } else {
                value
            },
            final(self.table()).wf(),
            final(self.table())@ == (*self.table())@.insert(self.key_view(), *final(r)),
            final(self.table()).bucket_count() == self.table().bucket_count(),
    {
        match self {
            Entry::Occupied(e) => e.into_mut(),
            Entry::Vacant(e) => e.insert(value),
        }
    }

    /// As `or_insert`, with the value made by `maker`, which is called only
    /// when the key is not stored.
    pub fn or_insert_with<F: FnOnce() -> V>(self, maker: F) -> (r: &'a mut V)
        requires
            self.wf(),
            self is Vacant ==> maker.requires(()),
        ensures
            self is Occupied ==> *r == (*self.table())@[self.key_view()],
            self is Vacant ==> maker.ensures((), *r),
            final(self.table()).wf(),
            final(self.table())@ == (*self.table())@.insert(self.key_view(), *final(r)),
            final(self.table()).bucket_count() == self.table().bucket_count(),
    {
        match self {
            Entry::Occupied(e) => e.into_mut(),
            Entry::Vacant(e) => e.insert(maker()),
        }
    }

    /// As `or_insert`, with the value type's default value.
    pub fn or_default(self) -> (r: &'a mut V)
        where
            V: Default,
        requires
            self.wf(),
        ensures
            self is Occupied ==> *r == (*self.table())@[self.key_view()],
            self is Vacant ==> call_ensures(V::default, (), *r),
            final(self.table()).wf(),
            final(self.table())@ == (*self.table())@.insert(self.key_view(), *final(r)),
            final(self.table()).bucket_count() == self.table().bucket_count(),
    {
        self.or_insert(V::default())
    }
}

} // verus!

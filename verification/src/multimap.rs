//! A collection of records, each reachable through any number of keys.
//!
//! Every inserted record gets a fresh internal identity (its position in
//! the record arena, assigned in insertion order); all keys supplied at
//! insertion resolve to that identity. A key used by a later insertion
//! silently shadows the earlier binding, but both records keep existing
//! under their own identities and both show up in a full iteration.
//!
//! The index is modelled as a `Map<u64, usize>` of key bindings plus a
//! `Seq` of records.

use vstd::prelude::*;

verus! {

/// No key occurs twice among the bindings.
pub open spec fn unique_keys(s: Seq<(u64, usize)>) -> bool {
    forall|i: int, j: int| 0 <= i < j < s.len() ==> s[i].0 != s[j].0
}

/// Some binding holds key `k`.
pub open spec fn contains_binding(s: Seq<(u64, usize)>, k: u64) -> bool {
    exists|i: int| 0 <= i < s.len() && s[i].0 == k
}

/// The key-to-identity map that a sequence of bindings denotes.
pub open spec fn binding_map(s: Seq<(u64, usize)>) -> Map<u64, usize>
    decreases s.len(),
{
    if s.len() == 0 {
        Map::empty()
    } else {
        binding_map(s.drop_last()).insert(s.last().0, s.last().1)
    }
}

/// The key map after one insertion: every key in `ks` is bound to the
/// fresh identity `idx`; all other bindings are untouched.
pub open spec fn bound_keys(km: Map<u64, usize>, ks: Seq<u64>, idx: usize) -> Map<u64, usize> {
    Map::new(
        |k: u64| km.contains_key(k) || ks.contains(k),
        |k: u64|
            if ks.contains(k) {
                idx
            } else {
                km[k]
            },
    )
}

proof fn lemma_binding_map_contains(s: Seq<(u64, usize)>, k: u64)
    ensures
        binding_map(s).contains_key(k) <==> contains_binding(s, k),
    decreases s.len(),
{
    if s.len() > 0 {
        lemma_binding_map_contains(s.drop_last(), k);
        if contains_binding(s, k) {
            let i = choose|i: int| 0 <= i < s.len() && s[i].0 == k;
            if i < s.len() - 1 {
                assert(s.drop_last()[i].0 == k);
            }
        }
        if contains_binding(s.drop_last(), k) {
            let i = choose|i: int| 0 <= i < s.drop_last().len() && s.drop_last()[i].0 == k;
            assert(s[i].0 == k);
        }
    }
}

proof fn lemma_binding_map_value(s: Seq<(u64, usize)>, i: int)
    requires
        unique_keys(s),
        0 <= i < s.len(),
    ensures
        binding_map(s).contains_key(s[i].0),
        binding_map(s)[s[i].0] == s[i].1,
    decreases s.len(),
{
    if i == s.len() - 1 {
    } else {
        assert(unique_keys(s.drop_last()));
        assert(s.drop_last()[i] == s[i]);
        lemma_binding_map_value(s.drop_last(), i);
        assert(s[i].0 != s.last().0);
    }
}

/// An indirection table mapping any number of keys to one shared record.
pub struct MultiMap<V> {
    next_index: usize,
    indexes: Vec<(u64, usize)>,
    values: Vec<V>,
}

impl<V> MultiMap<V> {
    /// The key-to-identity bindings.
    pub closed spec fn key_map(&self) -> Map<u64, usize> {
        binding_map(self.indexes@)
    }

    /// The records, in insertion order; a record's identity is its position.
    pub closed spec fn records(&self) -> Seq<V> {
        self.values@
    }

    /// Internal invariant: one binding per key, every binding in range,
    /// and the next identity is the arena's length.
    pub closed spec fn wf(&self) -> bool {
        &&& unique_keys(self.indexes@)
        &&& self.next_index == self.values@.len()
        &&& forall|i: int| 0 <= i < self.indexes@.len() ==> (#[trigger] self.indexes@[i]).1
            < self.values@.len()
    }

    /// Creates an empty index.
    pub fn new() -> (r: MultiMap<V>)
        ensures
            r.wf(),
            r.key_map() == Map::<u64, usize>::empty(),
            r.records() == Seq::<V>::empty(),
    {
        MultiMap { next_index: 0, indexes: Vec::new(), values: Vec::new() }
    }

    /// Binds one key to an identity, shadowing any earlier binding.
    fn bind_key(&mut self, key: u64, index: usize)
        requires
            index < old(self).values@.len(),
            unique_keys(old(self).indexes@),
            forall|i: int| 0 <= i < old(self).indexes@.len() ==> (#[trigger] old(
                self,
            ).indexes@[i]).1 < old(self).values@.len(),
        ensures
            unique_keys(final(self).indexes@),
            forall|i: int|
                0 <= i < final(self).indexes@.len() ==> (#[trigger] final(self).indexes@[i]).1
                    < final(self).values@.len(),
            final(self).key_map() == old(self).key_map().insert(key, index),
            final(self).records() == old(self).records(),
            final(self).next_index == old(self).next_index,
    {
        let ghost s0 = self.indexes@;
        let n = self.indexes.len();
        let mut i: usize = 0;
        while i < n
            invariant
                n == self.indexes@.len(),
                0 <= i <= n,
                self.indexes@ == s0,
                s0 == old(self).indexes@,
                self.values@ == old(self).values@,
                self.next_index == old(self).next_index,
                index < self.values@.len(),
                unique_keys(s0),
                forall|j: int| 0 <= j < s0.len() ==> (#[trigger] s0[j]).1 < self.values@.len(),
                forall|j: int| 0 <= j < i ==> s0[j].0 != key,
            decreases n - i,
        {
            if self.indexes[i].0 == key {
                self.indexes.remove(i);
                self.indexes.push((key, index));
                proof {
                    lemma_unique_keys_remove(s0, i as int);
                    lemma_binding_map_remove(s0, i as int);
                    let s1 = s0.remove(i as int);
                    assert(!contains_binding(s1, key)) by {
                        if contains_binding(s1, key) {
                            let j = choose|j: int| 0 <= j < s1.len() && s1[j].0 == key;
                            if j < i {
                                assert(s0[j].0 == key);
                            } else {
                                assert(s0[j + 1].0 == key);
                            }
                        }
                    }
                    assert(self.indexes@.drop_last() == s1);
                    assert(self.indexes@.last() == (key, index));
                    assert(unique_keys(self.indexes@)) by {
                        assert(forall|j: int| 0 <= j < s1.len() ==> s1[j].0 != key);
                        assert(unique_keys(s1));
                        assert(self.indexes@.drop_last() == s1);
                    }
                    assert(binding_map(self.indexes@) == binding_map(s1).insert(key, index));
                    assert(binding_map(s1).insert(key, index) =~= binding_map(s0).insert(
                        key,
                        index,
                    ));
                    assert forall|j: int| 0 <= j < self.indexes@.len() implies (
                    #[trigger] self.indexes@[j]).1 < self.values@.len() by {
                        if j < self.indexes@.len() - 1 {
                            let j2: int = if j < i {
                                j
                            } else {
                                j + 1
                            };
                            assert(self.indexes@[j] == s0[j2]);
                        }
                    }
                }
                return ;
            }
            i += 1;
        }
        self.indexes.push((key, index));
        proof {
            assert(!contains_binding(s0, key));
            lemma_binding_map_contains(s0, key);
            assert(self.indexes@.drop_last() == s0);
            assert(unique_keys(self.indexes@)) by {
                assert(forall|j: int| 0 <= j < s0.len() ==> s0[j].0 != key);
            }
            assert forall|j: int| 0 <= j < self.indexes@.len() implies (
            #[trigger] self.indexes@[j]).1 < self.values@.len() by {
                if j < self.indexes@.len() - 1 {
                    assert(self.indexes@[j] == s0[j]);
                }
            }
        }
    }

    /// Stores `value` under a fresh identity, then binds every key in
    /// `keys` to that identity (no uniqueness requirement on the keys:
    /// a record is meant to be reachable through all of them).
    pub fn insert(&mut self, keys: &Vec<u64>, value: V)
        requires
            old(self).wf(),
            old(self).records().len() < usize::MAX,
        ensures
            final(self).wf(),
            final(self).records() == old(self).records().push(value),
            final(self).key_map() == bound_keys(
                old(self).key_map(),
                keys@,
                old(self).records().len() as usize,
            ),
    {
        let index = self.next_index;
        self.next_index = self.next_index + 1;
        self.values.push(value);
        let ghost km0 = old(self).key_map();
        let n = keys.len();
        let mut i: usize = 0;
        while i < n
            invariant
                n == keys@.len(),
                0 <= i <= n,
                index < self.values@.len(),
                unique_keys(self.indexes@),
                forall|j: int| 0 <= j < self.indexes@.len() ==> (#[trigger] self.indexes@[j]).1
                    < self.values@.len(),
                self.values@ == old(self).values@.push(value),
                self.next_index == self.values@.len(),
                index == old(self).values@.len(),
                self.key_map() == bound_keys(km0, keys@.take(i as int), index),
                km0 == old(self).key_map(),
            decreases n - i,
        {
            let ghost pre = self.key_map();
            self.bind_key(keys[i], index);
            proof {
                assert(keys@.take(i + 1).drop_last() == keys@.take(i as int));
                assert(keys@.take(i + 1).last() == keys@[i as int]);
                assert forall|x: u64| #[trigger] keys@.take(i + 1).contains(x) implies (keys@.take(
                    i as int,
                ).contains(x) || x == keys@[i as int]) by {
                    let t = keys@.take(i + 1);
                    let j = choose|j: int| 0 <= j < t.len() && t[j] == x;
                    if j < i {
                        assert(keys@.take(i as int)[j] == x);
                    }
                }
                assert forall|x: u64| keys@.take(i as int).contains(x) implies keys@.take(
                    i + 1,
                ).contains(x) by {
                    let j = choose|j: int| 0 <= j < i && keys@.take(i as int)[j] == x;
                    assert(keys@.take(i + 1)[j] == x);
                }
                assert(keys@.take(i + 1).contains(keys@[i as int])) by {
                    assert(keys@.take(i + 1)[i as int] == keys@[i as int]);
                }
                assert(self.key_map() =~= bound_keys(km0, keys@.take(i + 1), index));
            }
            i += 1;
        }
        proof {
            assert(keys@.take(n as int) == keys@);
        }
    }

    /// Whether some record is reachable through `key`.
    pub fn contains_key(&self, key: u64) -> (r: bool)
        ensures
            r == self.key_map().contains_key(key),
    {
        let n = self.indexes.len();
        let mut i: usize = 0;
        while i < n
            invariant
                n == self.indexes@.len(),
                0 <= i <= n,
                forall|j: int| 0 <= j < i ==> self.indexes@[j].0 != key,
            decreases n - i,
        {
            if self.indexes[i].0 == key {
                proof {
                    lemma_binding_map_contains(self.indexes@, key);
                }
                return true;
            }
            i += 1;
        }
        proof {
            lemma_binding_map_contains(self.indexes@, key);
        }
        false
    }

    /// Resolves a key to its record, if any key binding exists.
    pub fn get(&self, key: u64) -> (r: Option<&V>)
        requires
            self.wf(),
        ensures
            match r {
                Some(v) => self.key_map().contains_key(key) && self.key_map()[key]
                    < self.records().len() && *v == self.records()[self.key_map()[key] as int],
                None => !self.key_map().contains_key(key),
            },
    {
        let n = self.indexes.len();
        let mut i: usize = 0;
        while i < n
            invariant
                n == self.indexes@.len(),
                0 <= i <= n,
                self.wf(),
                forall|j: int| 0 <= j < i ==> self.indexes@[j].0 != key,
            decreases n - i,
        {
            let (k, idx) = self.indexes[i];
            if k == key {
                proof {
                    lemma_binding_map_value(self.indexes@, i as int);
                }
                return Some(&self.values[idx]);
            }
            i += 1;
        }
        proof {
            lemma_binding_map_contains(self.indexes@, key);
        }
        None
    }

    /// All records, in insertion order, each exactly once however many
    /// keys lead to it.
    pub fn values(&self) -> (r: &Vec<V>)
        ensures
            r@ == self.records(),
    {
        &self.values
    }

    /// All records, in insertion order (alias of `values`).
    pub fn iter(&self) -> (r: &Vec<V>)
        ensures
            r@ == self.records(),
    {
        &self.values
    }

    /// Mutable access to the record with identity `i`; the poll cycle
    /// uses this to refresh nested state in place.
    pub fn values_mut(&mut self, i: usize) -> (r: &mut V)
        requires
            old(self).wf(),
            i < old(self).records().len(),
        ensures
            *r == old(self).records()[i as int],
            final(self).records() == old(self).records().update(i as int, *final(r)),
            final(self).key_map() == old(self).key_map(),
            final(self).wf(),
    {
        &mut self.values[i]
    }

    /// Resolves a key to its record identity, if bound.
    pub fn index_of(&self, key: u64) -> (r: Option<usize>)
        requires
            self.wf(),
        ensures
            match r {
                Some(idx) => self.key_map().contains_key(key) && idx == self.key_map()[key] && idx
                    < self.records().len(),
                None => !self.key_map().contains_key(key),
            },
    {
        let n = self.indexes.len();
        let mut i: usize = 0;
        while i < n
            invariant
                n == self.indexes@.len(),
                0 <= i <= n,
                self.wf(),
                forall|j: int| 0 <= j < i ==> self.indexes@[j].0 != key,
            decreases n - i,
        {
            let (k, idx) = self.indexes[i];
            if k == key {
                proof {
                    lemma_binding_map_value(self.indexes@, i as int);
                }
                return Some(idx);
            }
            i += 1;
        }
        proof {
            lemma_binding_map_contains(self.indexes@, key);
        }
        None
    }

    /// Mutable resolution of a key, so nested record state can be
    /// refreshed in place without rebuilding the index.
    pub fn get_mut(&mut self, key: u64) -> (r: Option<&mut V>)
        requires
            old(self).wf(),
        ensures
            match r {
                Some(v) => old(self).key_map().contains_key(key) && *v == old(self).records()[old(
                    self,
                ).key_map()[key] as int] && final(self).records() == old(self).records().update(
                    old(self).key_map()[key] as int,
                    *final(v),
                ),
                None => !old(self).key_map().contains_key(key) && *final(self) == *old(self),
            },
            final(self).key_map() == old(self).key_map(),
            final(self).wf(),
    {
        match self.index_of(key) {
            Some(idx) => Some(self.values_mut(idx)),
            None => None,
        }
    }

    /// Every unordered pair of distinct record identities, in the fixed
    /// visitation order: the newest record first against all earlier
    /// ones, then the next newest, and so on.
    pub fn visit_pairs(&self) -> (pairs: Vec<(usize, usize)>)
        ensures
            pairs@ == pair_seq(self.records().len() as int),
    {
        let n = self.values.len();
        let mut pairs: Vec<(usize, usize)> = Vec::new();
        let mut left = n;
        proof {
            if n <= 1 {
                assert(pairs@ + pair_seq(left as int) =~= pair_seq(n as int));
            }
        }
        while left > 1
            invariant
                0 <= left <= n,
                pairs@ + pair_seq(left as int) == pair_seq(n as int),
            decreases left,
        {
            let ghost base = pairs@;
            left = left - 1;
            let mut right: usize = 0;
            while right < left
                invariant
                    0 <= right <= left,
                    pairs@ == base + pair_block(left as int).take(right as int),
                decreases left - right,
            {
                pairs.push((left, right));
                proof {
                    assert(pair_block(left as int).take(right + 1) == pair_block(
                        left as int,
                    ).take(right as int).push((left, right)));
                    assert(pairs@ =~= base + pair_block(left as int).take(right + 1));
                }
                right = right + 1;
            }
            proof {
                assert(pair_block(left as int).take(left as int) == pair_block(left as int));
                assert(pair_seq(left + 1) == pair_block(left as int) + pair_seq(left as int));
                assert(pairs@ + pair_seq(left as int) =~= (base + pair_seq(left + 1)));
            }
        }
        proof {
            if n > 1 {
                assert(pair_seq(1) == Seq::<(usize, usize)>::empty());
                assert(pairs@ + pair_seq(1) =~= pairs@);
            } else {
                assert(pair_seq(left as int) == Seq::<(usize, usize)>::empty());
                assert(pairs@ + pair_seq(left as int) =~= pairs@);
                assert(pairs@ =~= pair_seq(n as int));
            }
        }
        pairs
    }
}

impl<V> Default for MultiMap<V> {
    /// An empty index.
    fn default() -> (r: MultiMap<V>)
        ensures
            r.wf(),
            r.key_map() == Map::<u64, usize>::empty(),
            r.records() == Seq::<V>::empty(),
    {
        MultiMap::new()
    }
}

proof fn lemma_unique_keys_remove(s: Seq<(u64, usize)>, i: int)
    requires
        unique_keys(s),
        0 <= i < s.len(),
    ensures
        unique_keys(s.remove(i)),
{
    assert forall|a: int, b: int| 0 <= a < b < s.remove(i).len() implies s.remove(i)[a].0
        != s.remove(i)[b].0 by {
        let a2: int = if a < i {
            a
        } else {
            a + 1
        };
        let b2: int = if b < i {
            b
        } else {
            b + 1
        };
        assert(s.remove(i)[a] == s[a2]);
        assert(s.remove(i)[b] == s[b2]);
    }
}

proof fn lemma_binding_map_remove(s: Seq<(u64, usize)>, i: int)
    requires
        unique_keys(s),
        0 <= i < s.len(),
    ensures
        binding_map(s.remove(i)) =~= binding_map(s).remove(s[i].0),
    decreases s.len(),
{
    if i == s.len() - 1 {
        assert(s.remove(i) == s.drop_last());
        lemma_binding_map_contains(s.drop_last(), s[i].0);
        assert(!contains_binding(s.drop_last(), s[i].0)) by {
            if contains_binding(s.drop_last(), s[i].0) {
                let j = choose|j: int| 0 <= j < s.len() - 1 && s.drop_last()[j].0 == s[i].0;
                assert(s[j].0 == s[i].0);
            }
        }
        assert(binding_map(s.drop_last()) =~= binding_map(s.drop_last()).insert(
            s[i].0,
            s[i].1,
        ).remove(s[i].0));
    } else {
        assert(unique_keys(s.drop_last()));
        lemma_binding_map_remove(s.drop_last(), i);
        assert(s.remove(i).drop_last() == s.drop_last().remove(i));
        assert(s.remove(i).last() == s.last());
        assert(s[i].0 != s.last().0);
        assert(binding_map(s.remove(i)) == binding_map(s.drop_last().remove(i)).insert(
            s.last().0,
            s.last().1,
        ));
        assert(binding_map(s.remove(i)) =~= binding_map(s).remove(s[i].0));
    }
}

/// The pairs whose first component is `l`: `(l, 0), (l, 1), …, (l, l-1)`.
pub open spec fn pair_block(l: int) -> Seq<(usize, usize)>
    recommends
        0 <= l,
{
    Seq::new(l as nat, |i: int| (l as usize, i as usize))
}

/// The full visitation order over `n` records: the pairs led by `n-1`,
/// then those led by `n-2`, and so on down to `1`.
pub open spec fn pair_seq(n: int) -> Seq<(usize, usize)>
    decreases n,
{
    if n <= 1 {
        Seq::empty()
    } else {
        pair_block(n - 1) + pair_seq(n - 1)
    }
}

/// Law: pairwise visitation. Over `n` records the visitation order
/// holds exactly `n·(n-1)/2` entries; every entry pairs two distinct
/// identities in range; every unordered pair of distinct identities
/// occurs; and no entry is repeated.
pub proof fn lemma_pairwise_visitation(n: int)
    requires
        0 <= n <= usize::MAX,
    ensures
        2 * pair_seq(n).len() == n * (n - 1),
        pair_seq(n).len() == n * (n - 1) / 2,
        forall|k: int| 0 <= k < pair_seq(n).len() ==> (#[trigger] pair_seq(n)[k]).1 < pair_seq(
            n,
        )[k].0 < n,
        forall|a: usize, b: usize| b < a && a < n ==> pair_seq(n).contains((a, b)),
        forall|k1: int, k2: int| 0 <= k1 < k2 < pair_seq(n).len() ==> pair_seq(n)[k1] != pair_seq(
            n,
        )[k2],
    decreases n,
{
    if n <= 1 {
        assert(n * (n - 1) == 0) by (nonlinear_arith)
            requires
                0 <= n <= 1,
        ;
    } else {
        lemma_pairwise_visitation(n - 1);
        let block = pair_block(n - 1);
        let rest = pair_seq(n - 1);
        let whole = pair_seq(n);
        assert(whole == block + rest);
        assert(block.len() == n - 1);
        assert(2 * whole.len() == n * (n - 1)) by (nonlinear_arith)
            requires
                whole.len() == block.len() + rest.len(),
                block.len() == n - 1,
                2 * rest.len() == (n - 1) * (n - 2),
                n >= 2,
        ;
        assert(whole.len() == n * (n - 1) / 2);
        assert forall|k: int| 0 <= k < whole.len() implies (#[trigger] whole[k]).1 < whole[k].0
            < n by {
            if k < block.len() {
                assert(whole[k] == block[k]);
            } else {
                assert(whole[k] == rest[k - block.len()]);
            }
        }
        assert forall|a: usize, b: usize| b < a && a < n implies whole.contains((a, b)) by {
            if a == n - 1 {
                assert(whole[b as int] == block[b as int]);
                assert(block[b as int] == (a, b));
            } else {
                assert(rest.contains((a, b)));
                let k = choose|k: int| 0 <= k < rest.len() && rest[k] == (a, b);
                assert(whole[block.len() + k] == rest[k]);
            }
        }
        assert forall|k1: int, k2: int| 0 <= k1 < k2 < whole.len() implies whole[k1]
            != whole[k2] by {
            if k1 < block.len() && k2 < block.len() {
                assert(whole[k1] == block[k1]);
                assert(whole[k2] == block[k2]);
                assert(block[k1].1 == k1);
            } else if k1 < block.len() {
                assert(whole[k1] == block[k1]);
                assert(whole[k2] == rest[k2 - block.len()]);
                assert(whole[k1].0 == n - 1);
                assert(whole[k2].0 < n - 1);
            } else {
                assert(whole[k1] == rest[k1 - block.len()]);
                assert(whole[k2] == rest[k2 - block.len()]);
            }
        }
    }
}

/// Law: multi-key aliasing. After one insertion that supplied keys
/// `ks`, every key in `ks` resolves to the same record identity `idx`;
/// in particular two keys supplied together can never disagree about
/// which record they name, so a mutation reached through one of them
/// is seen through the other.
pub proof fn lemma_multi_key_aliasing(
    km: Map<u64, usize>,
    ks: Seq<u64>,
    idx: usize,
    k1: u64,
    k2: u64,
)
    requires
        ks.contains(k1),
        ks.contains(k2),
    ensures
        bound_keys(km, ks, idx).contains_key(k1),
        bound_keys(km, ks, idx).contains_key(k2),
        bound_keys(km, ks, idx)[k1] == idx,
        bound_keys(km, ks, idx)[k1] == bound_keys(km, ks, idx)[k2],
{
}

} // verus!

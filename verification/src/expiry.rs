//! A set of hardware addresses where each element carries an expiry time.
//!
//! Repeated observations of the same address keep pushing its deadline
//! out (expiry only ever extends forward), and a sweep removes every
//! claim whose deadline lies strictly in the past.
//!
//! The set is modelled as a `Map<u64, u64>` from stored item to its
//! current expiry time.

use vstd::prelude::*;

verus! {

/// One stored element: an item and the time at which the claim expires.
#[derive(Clone, Copy)]
pub struct ExpireItem {
    pub item: u64,
    pub expiry: u64,
}

/// No item occurs twice.
pub open spec fn unique_items(s: Seq<ExpireItem>) -> bool {
    forall|i: int, j: int| 0 <= i < j < s.len() ==> s[i].item != s[j].item
}

/// Some entry holds `m`.
pub open spec fn contains_item(s: Seq<ExpireItem>, m: u64) -> bool {
    exists|i: int| 0 <= i < s.len() && s[i].item == m
}

/// The item-to-expiry map that a sequence of entries denotes
/// (on duplicate items, the later entry wins).
pub open spec fn entries_map(s: Seq<ExpireItem>) -> Map<u64, u64>
    decreases s.len(),
{
    if s.len() == 0 {
        Map::empty()
    } else {
        entries_map(s.drop_last()).insert(s.last().item, s.last().expiry)
    }
}

/// The expiry an insertion stores: the larger of the existing and the
/// incoming expiry when the item is already present, else the incoming one.
pub open spec fn merged_expiry(m: Map<u64, u64>, item: u64, expiry: u64) -> u64 {
    if m.contains_key(item) && m[item] > expiry {
        m[item]
    } else {
        expiry
    }
}

/// What remains of `m` after sweeping at time `now`: exactly the
/// entries whose expiry is `now` or later, unchanged.
pub open spec fn swept(m: Map<u64, u64>, now: u64) -> Map<u64, u64> {
    Map::new(|k: u64| m.contains_key(k) && m[k] >= now, |k: u64| m[k])
}

/// The merge of two item-to-expiry maps: the union of their domains,
/// with the larger expiry where both hold an item.
pub open spec fn merged_maps(a: Map<u64, u64>, b: Map<u64, u64>) -> Map<u64, u64> {
    Map::new(
        |k: u64| a.contains_key(k) || b.contains_key(k),
        |k: u64|
            if a.contains_key(k) && b.contains_key(k) {
                if a[k] > b[k] {
                    a[k]
                } else {
                    b[k]
                }
            } else if b.contains_key(k) {
                b[k]
            } else {
                a[k]
            },
    )
}

proof fn lemma_entries_map_contains(s: Seq<ExpireItem>, m: u64)
    ensures
        entries_map(s).contains_key(m) <==> contains_item(s, m),
    decreases s.len(),
{
    if s.len() > 0 {
        lemma_entries_map_contains(s.drop_last(), m);
        if contains_item(s, m) {
            let i = choose|i: int| 0 <= i < s.len() && s[i].item == m;
            if i < s.len() - 1 {
                assert(s.drop_last()[i].item == m);
            }
        }
        if contains_item(s.drop_last(), m) {
            let i = choose|i: int| 0 <= i < s.drop_last().len() && s.drop_last()[i].item == m;
            assert(s[i].item == m);
        }
    }
}

proof fn lemma_entries_map_value(s: Seq<ExpireItem>, i: int)
    requires
        unique_items(s),
        0 <= i < s.len(),
    ensures
        entries_map(s).contains_key(s[i].item),
        entries_map(s)[s[i].item] == s[i].expiry,
    decreases s.len(),
{
    if i == s.len() - 1 {
    } else {
        assert(unique_items(s.drop_last()));
        assert(s.drop_last()[i] == s[i]);
        lemma_entries_map_value(s.drop_last(), i);
        assert(s[i].item != s.last().item);
    }
}

/// A set of items, each with the time at which its visibility claim expires.
pub struct ExpireSet {
    entries: Vec<ExpireItem>,
}

impl View for ExpireSet {
    type V = Map<u64, u64>;

    closed spec fn view(&self) -> Map<u64, u64> {
        entries_map(self.entries@)
    }
}

impl ExpireSet {
    /// Internal invariant: at most one entry per distinct item.
    pub closed spec fn wf(&self) -> bool {
        unique_items(self.entries@)
    }

    /// Creates an empty set.
    pub fn new() -> (r: ExpireSet)
        ensures
            r.wf(),
            r@ == Map::<u64, u64>::empty(),
    {
        ExpireSet { entries: Vec::new() }
    }

    /// How many distinct items the set currently holds.
    pub fn len(&self) -> (r: usize)
        requires
            self.wf(),
        ensures
            r == self@.dom().len(),
    {
        proof {
            self.lemma_dom_len();
        }
        self.entries.len()
    }

    proof fn lemma_dom_len(&self)
        requires
            self.wf(),
        ensures
            self@.dom().len() == self.entries@.len(),
            self@.dom().finite(),
        decreases self.entries@.len(),
    {
        lemma_dom_len_rec(self.entries@);
    }

    /// Merges `item` into the set; an already-present item keeps the
    /// larger of its old and new expiry.
    pub fn insert(&mut self, item: u64, expiry: u64)
        requires
            old(self).wf(),
        ensures
            final(self).wf(),
            final(self)@ == old(self)@.insert(item, merged_expiry(old(self)@, item, expiry)),
    {
        let ghost s0 = self.entries@;
        let n = self.entries.len();
        let mut i: usize = 0;
        while i < n
            invariant
                n == self.entries@.len(),
                0 <= i <= n,
                self.entries@ == s0,
                s0 == old(self).entries@,
                unique_items(s0),
                forall|j: int| 0 <= j < i ==> s0[j].item != item,
            decreases n - i,
        {
            if self.entries[i].item == item {
                let stored = self.entries[i].expiry;
                let merged = if expiry > stored {
                    expiry
                } else {
                    stored
                };
                self.entries.remove(i);
                self.entries.push(ExpireItem { item, expiry: merged });
                proof {
                    lemma_entries_map_value(s0, i as int);
                    assert(merged == merged_expiry(entries_map(s0), item, expiry));
                    lemma_unique_remove(s0, i as int);
                    lemma_entries_map_remove(s0, i as int);
                    let s1 = s0.remove(i as int);
                    assert(!contains_item(s1, item)) by {
                        if contains_item(s1, item) {
                            let j = choose|j: int| 0 <= j < s1.len() && s1[j].item == item;
                            if j < i {
                                assert(s0[j].item == item);
                            } else {
                                assert(s0[j + 1].item == item);
                            }
                        }
                    }
                    assert(self.entries@.drop_last() == s1);
                    assert(self.entries@.last() == ExpireItem { item, expiry: merged });
                    assert(unique_items(self.entries@)) by {
                        assert(forall|j: int| 0 <= j < s1.len() ==> s1[j].item != item);
                        assert(unique_items(s1));
                        assert(self.entries@.drop_last() == s1);
                    }
                    assert(entries_map(self.entries@) == entries_map(s1).insert(item, merged));
                    assert(entries_map(s1).insert(item, merged) =~= entries_map(s0).insert(
                        item,
                        merged,
                    ));
                }
                return ;
            }
            i += 1;
        }
        self.entries.push(ExpireItem { item, expiry });
        proof {
            assert(!contains_item(s0, item));
            lemma_entries_map_contains(s0, item);
            assert(merged_expiry(entries_map(s0), item, expiry) == expiry);
            assert(self.entries@.drop_last() == s0);
            assert(unique_items(self.entries@)) by {
                assert(forall|j: int| 0 <= j < s0.len() ==> s0[j].item != item);
            }
        }
    }

    /// Whether the set currently holds no items at all.
    pub fn is_empty(&self) -> (r: bool)
        requires
            self.wf(),
        ensures
            r == (self@ =~= Map::<u64, u64>::empty()),
            r == !(exists|m: u64| self@.contains_key(m)),
    {
        proof {
            if self.entries@.len() > 0 {
                lemma_entries_map_value(self.entries@, 0);
            } else {
                assert forall|m: u64| !self@.contains_key(m) by {
                    lemma_entries_map_contains(self.entries@, m);
                }
            }
        }
        self.entries.len() == 0
    }

    /// Whether `item` is currently in the set.
    pub fn contains(&self, item: u64) -> (r: bool)
        ensures
            r == self@.contains_key(item),
    {
        let n = self.entries.len();
        let mut i: usize = 0;
        while i < n
            invariant
                n == self.entries@.len(),
                0 <= i <= n,
                forall|j: int| 0 <= j < i ==> self.entries@[j].item != item,
            decreases n - i,
        {
            if self.entries[i].item == item {
                proof {
                    lemma_entries_map_contains(self.entries@, item);
                }
                return true;
            }
            i += 1;
        }
        proof {
            lemma_entries_map_contains(self.entries@, item);
        }
        false
    }

    /// Removes `item` if present; reports whether it was there.
    pub fn remove(&mut self, item: u64) -> (r: bool)
        requires
            old(self).wf(),
        ensures
            final(self).wf(),
            final(self)@ == old(self)@.remove(item),
            r == old(self)@.contains_key(item),
    {
        let ghost s0 = self.entries@;
        let n = self.entries.len();
        let mut i: usize = 0;
        while i < n
            invariant
                n == self.entries@.len(),
                0 <= i <= n,
                self.entries@ == s0,
                s0 == old(self).entries@,
                unique_items(s0),
                forall|j: int| 0 <= j < i ==> s0[j].item != item,
            decreases n - i,
        {
            if self.entries[i].item == item {
                self.entries.remove(i);
                proof {
                    lemma_entries_map_contains(s0, item);
                    lemma_unique_remove(s0, i as int);
                    lemma_entries_map_remove(s0, i as int);
                }
                return true;
            }
            i += 1;
        }
        proof {
            lemma_entries_map_contains(s0, item);
            assert(!contains_item(s0, item));
            assert(entries_map(s0) =~= entries_map(s0).remove(item));
        }
        false
    }

    /// Absorbs another set's contents under the max-expiry merge rule.
    pub fn extend_from(&mut self, other: ExpireSet)
        requires
            old(self).wf(),
            other.wf(),
        ensures
            final(self).wf(),
            final(self)@ == merged_maps(old(self)@, other@),
    {
        let ghost a0 = old(self)@;
        let ghost os = other.entries@;
        let n = other.entries.len();
        let mut i: usize = 0;
        while i < n
            invariant
                n == os.len(),
                0 <= i <= n,
                other.entries@ == os,
                unique_items(os),
                self.wf(),
                self@ == merged_maps(a0, entries_map(os.take(i as int))),
            decreases n - i,
        {
            let e = other.entries[i];
            let ghost pre = self@;
            self.insert(e.item, e.expiry);
            proof {
                assert(os.take(i + 1).drop_last() == os.take(i as int));
                assert(os.take(i + 1).last() == os[i as int]);
                let partial = entries_map(os.take(i as int));
                assert(!contains_item(os.take(i as int), e.item)) by {
                    if contains_item(os.take(i as int), e.item) {
                        let j = choose|j: int|
                            0 <= j < i && os.take(i as int)[j].item == e.item;
                        assert(os[j].item == os[i as int].item);
                    }
                }
                lemma_entries_map_contains(os.take(i as int), e.item);
                assert(self@ == pre.insert(e.item, merged_expiry(pre, e.item, e.expiry)));
                assert(self@ =~= merged_maps(a0, entries_map(os.take(i + 1))));
            }
            i += 1;
        }
        proof {
            assert(os.take(n as int) == os);
        }
    }

    /// Removes every entry whose expiry lies strictly before `now`;
    /// entries due at `now` or later survive unchanged.
    pub fn expire(&mut self, now: u64)
        requires
            old(self).wf(),
        ensures
            final(self).wf(),
            final(self)@ == swept(old(self)@, now),
            forall|m: u64| final(self)@.contains_key(m) ==> final(self)@[m] >= now,
            forall|m: u64|
                old(self)@.contains_key(m) && old(self)@[m] >= now ==> final(self)@.contains_key(m)
                    && final(self)@[m] == old(self)@[m],
    {
        let ghost s0 = self.entries@;
        let n = self.entries.len();
        let mut kept: Vec<ExpireItem> = Vec::new();
        let mut i: usize = 0;
        while i < n
            invariant
                n == self.entries@.len(),
                0 <= i <= n,
                self.entries@ == s0,
                unique_items(s0),
                unique_items(kept@),
                forall|m: u64| contains_item(kept@, m) ==> contains_item(s0.take(i as int), m),
                entries_map(kept@) == swept(entries_map(s0.take(i as int)), now),
            decreases n - i,
        {
            let e = self.entries[i];
            let ghost k0 = kept@;
            let ghost partial = entries_map(s0.take(i as int));
            proof {
                assert(s0.take(i + 1).drop_last() == s0.take(i as int));
                assert(s0.take(i + 1).last() == s0[i as int]);
                assert(!contains_item(s0.take(i as int), e.item)) by {
                    if contains_item(s0.take(i as int), e.item) {
                        let j = choose|j: int| 0 <= j < i && s0.take(i as int)[j].item == e.item;
                        assert(s0[j].item == s0[i as int].item);
                    }
                }
                lemma_entries_map_contains(s0.take(i as int), e.item);
                assert(!contains_item(k0, e.item));
            }
            if e.expiry >= now {
                kept.push(e);
                proof {
                    assert(kept@.drop_last() == k0);
                    assert(entries_map(kept@) =~= swept(entries_map(s0.take(i + 1)), now));
                    assert forall|m: u64| contains_item(kept@, m) implies contains_item(
                        s0.take(i + 1),
                        m,
                    ) by {
                        let j = choose|j: int| 0 <= j < kept@.len() && kept@[j].item == m;
                        if j < k0.len() {
                            assert(contains_item(k0, m));
                            let j2 = choose|j2: int|
                                0 <= j2 < s0.take(i as int).len() && s0.take(i as int)[j2].item
                                    == m;
                            assert(s0.take(i + 1)[j2].item == m);
                        } else {
                            assert(s0.take(i + 1)[i as int].item == m);
                        }
                    }
                }
            } else {
                proof {
                    assert(entries_map(kept@) =~= swept(entries_map(s0.take(i + 1)), now));
                    assert forall|m: u64| contains_item(kept@, m) implies contains_item(
                        s0.take(i + 1),
                        m,
                    ) by {
                        let j2 = choose|j2: int|
                            0 <= j2 < s0.take(i as int).len() && s0.take(i as int)[j2].item == m;
                        assert(s0.take(i + 1)[j2].item == m);
                    }
                }
            }
            i += 1;
        }
        proof {
            assert(s0.take(n as int) == s0);
        }
        self.entries = kept;
    }

    /// Lists the items with their stored expiries, each item exactly once.
    pub fn to_pairs(&self) -> (r: Vec<(u64, u64)>)
        requires
            self.wf(),
        ensures
            forall|i: int, j: int|
                0 <= i < j < r@.len() ==> (#[trigger] r@[i]).0 != (#[trigger] r@[j]).0,
            forall|i: int|
                0 <= i < r@.len() ==> self@.contains_key((#[trigger] r@[i]).0) && self@[r@[i].0]
                    == r@[i].1,
            forall|m: u64|
                self@.contains_key(m) ==> exists|i: int| 0 <= i < r@.len() && (#[trigger] r@[i]).0
                    == m,
    {
        let n = self.entries.len();
        let mut out: Vec<(u64, u64)> = Vec::new();
        let mut i: usize = 0;
        while i < n
            invariant
                n == self.entries@.len(),
                0 <= i <= n,
                self.wf(),
                out@.len() == i,
                forall|j: int|
                    0 <= j < i ==> (#[trigger] out@[j]).0 == self.entries@[j].item && out@[j].1
                        == self.entries@[j].expiry,
            decreases n - i,
        {
            let e = self.entries[i];
            out.push((e.item, e.expiry));
            i += 1;
        }
        proof {
            assert forall|j: int| 0 <= j < out@.len() implies self@.contains_key(
                (#[trigger] out@[j]).0,
            ) && self@[out@[j].0] == out@[j].1 by {
                lemma_entries_map_value(self.entries@, j);
            }
            assert forall|m: u64| self@.contains_key(m) implies exists|i2: int|
                0 <= i2 < out@.len() && (#[trigger] out@[i2]).0 == m by {
                lemma_entries_map_contains(self.entries@, m);
                let j = choose|j: int| 0 <= j < self.entries@.len() && self.entries@[j].item == m;
                assert(out@[j].0 == m);
            }
        }
        out
    }

    /// Lists the items currently in the set, each exactly once;
    /// expiry metadata is not exposed.
    pub fn iter(&self) -> (r: Vec<u64>)
        requires
            self.wf(),
        ensures
            r@.len() == self@.dom().len(),
            forall|i: int, j: int| 0 <= i < j < r@.len() ==> r@[i] != r@[j],
            forall|i: int| 0 <= i < r@.len() ==> self@.contains_key(#[trigger] r@[i]),
            forall|m: u64| self@.contains_key(m) ==> r@.contains(m),
    {
        proof {
            self.lemma_dom_len();
        }
        let n = self.entries.len();
        let mut out: Vec<u64> = Vec::new();
        let mut i: usize = 0;
        while i < n
            invariant
                n == self.entries@.len(),
                0 <= i <= n,
                self.wf(),
                out@.len() == i,
                forall|j: int| 0 <= j < i ==> out@[j] == self.entries@[j].item,
            decreases n - i,
        {
            out.push(self.entries[i].item);
            i += 1;
        }
        proof {
            assert(forall|i: int, j: int| 0 <= i < j < out@.len() ==> out@[i] != out@[j]);
            assert forall|i: int| 0 <= i < out@.len() implies self@.contains_key(
                #[trigger] out@[i],
            ) by {
                lemma_entries_map_value(self.entries@, i);
            }
            assert forall|m: u64| self@.contains_key(m) implies out@.contains(m) by {
                lemma_entries_map_contains(self.entries@, m);
                let j = choose|j: int| 0 <= j < self.entries@.len() && self.entries@[j].item == m;
                assert(out@[j] == m);
            }
        }
        out
    }
}

impl Default for ExpireSet {
    /// An empty set.
    fn default() -> (r: ExpireSet)
        ensures
            r.wf(),
            r@ == Map::<u64, u64>::empty(),
    {
        ExpireSet::new()
    }
}

proof fn lemma_dom_len_rec(s: Seq<ExpireItem>)
    requires
        unique_items(s),
    ensures
        entries_map(s).dom().len() == s.len(),
        entries_map(s).dom().finite(),
    decreases s.len(),
{
    if s.len() == 0 {
    } else {
        assert(unique_items(s.drop_last()));
        lemma_dom_len_rec(s.drop_last());
        lemma_entries_map_contains(s.drop_last(), s.last().item);
        assert(!contains_item(s.drop_last(), s.last().item)) by {
            if contains_item(s.drop_last(), s.last().item) {
                let j = choose|j: int|
                    0 <= j < s.len() - 1 && s.drop_last()[j].item == s.last().item;
                assert(s[j].item == s[s.len() - 1].item);
            }
        }
    }
}

proof fn lemma_unique_remove(s: Seq<ExpireItem>, i: int)
    requires
        unique_items(s),
        0 <= i < s.len(),
    ensures
        unique_items(s.remove(i)),
{
    assert forall|a: int, b: int| 0 <= a < b < s.remove(i).len() implies s.remove(i)[a].item != s.remove(
        i,
    )[b].item by {
        let a2: int = if a < i {
            a
        } else {
            a + 1
        };
        let b2: int = if b < i {
            b
        } else {
            b + 1
        };
        assert(s.remove(i)[a] == s[a2]);
        assert(s.remove(i)[b] == s[b2]);
    }
}

proof fn lemma_entries_map_remove(s: Seq<ExpireItem>, i: int)
    requires
        unique_items(s),
        0 <= i < s.len(),
    ensures
        entries_map(s.remove(i)) =~= entries_map(s).remove(s[i].item),
    decreases s.len(),
{
    if i == s.len() - 1 {
        assert(s.remove(i) == s.drop_last());
        lemma_entries_map_contains(s.drop_last(), s[i].item);
        assert(!contains_item(s.drop_last(), s[i].item)) by {
            if contains_item(s.drop_last(), s[i].item) {
                let j = choose|j: int| 0 <= j < s.len() - 1 && s.drop_last()[j].item == s[i].item;
                assert(s[j].item == s[i].item);
            }
        }
        assert(entries_map(s.drop_last()) =~= entries_map(s.drop_last()).insert(
            s[i].item,
            s[i].expiry,
        ).remove(s[i].item));
    } else {
        assert(unique_items(s.drop_last()));
        lemma_entries_map_remove(s.drop_last(), i);
        assert(s.remove(i).drop_last() == s.drop_last().remove(i));
        assert(s.remove(i).last() == s.last());
        assert(s[i].item != s.last().item);
        assert(entries_map(s.remove(i)) == entries_map(s.drop_last().remove(i)).insert(
            s.last().item,
            s.last().expiry,
        ));
        assert(entries_map(s.remove(i)) =~= entries_map(s).remove(s[i].item));
    }
}

/// The expiry stored for `item` after a whole sequence of insertions
/// `es`, starting from map `m`: each step applies the max-expiry rule.
pub open spec fn insert_seq(m: Map<u64, u64>, item: u64, es: Seq<u64>) -> Map<u64, u64>
    decreases es.len(),
{
    if es.len() == 0 {
        m
    } else {
        let prev = insert_seq(m, item, es.drop_last());
        prev.insert(item, merged_expiry(prev, item, es.last()))
    }
}

/// The largest value in a non-empty sequence of expiries.
pub open spec fn seq_max(es: Seq<u64>) -> u64
    recommends
        es.len() > 0,
    decreases es.len(),
{
    if es.len() <= 1 {
        es[0]
    } else if seq_max(es.drop_last()) > es.last() {
        seq_max(es.drop_last())
    } else {
        es.last()
    }
}

/// Law: expiry monotonicity. Starting from a set that does not hold
/// `item`, a sequence of insertions with expiries `es` leaves `item`
/// stored with expiry `max(es)`, which is never less than any of the
/// inserted values.
pub proof fn lemma_expiry_monotonic(m: Map<u64, u64>, item: u64, es: Seq<u64>)
    requires
        !m.contains_key(item),
        es.len() > 0,
    ensures
        insert_seq(m, item, es).contains_key(item),
        insert_seq(m, item, es)[item] == seq_max(es),
        forall|i: int| 0 <= i < es.len() ==> seq_max(es) >= es[i],
    decreases es.len(),
{
    if es.len() == 1 {
        assert(es.drop_last().len() == 0);
        assert(insert_seq(m, item, es.drop_last()) == m);
        assert(insert_seq(m, item, es) == m.insert(item, merged_expiry(m, item, es.last())));
        assert(merged_expiry(m, item, es.last()) == es.last());
        assert(seq_max(es) == es[0]);
        assert(es.last() == es[0]);
    } else {
        lemma_expiry_monotonic(m, item, es.drop_last());
        let prev = insert_seq(m, item, es.drop_last());
        assert(prev[item] == seq_max(es.drop_last()));
        assert(insert_seq(m, item, es) == prev.insert(
            item,
            merged_expiry(prev, item, es.last()),
        ));
        if seq_max(es.drop_last()) > es.last() {
            assert(merged_expiry(prev, item, es.last()) == seq_max(es.drop_last()));
            assert(seq_max(es) == seq_max(es.drop_last()));
        } else {
            assert(merged_expiry(prev, item, es.last()) == es.last());
            assert(seq_max(es) == es.last());
        }
        assert(forall|i: int| 0 <= i < es.len() - 1 ==> es.drop_last()[i] == es[i]);
    }
}

/// Law: sweep idempotence. Sweeping an already-swept set at the same
/// or a later time gives exactly what a single sweep at the later time
/// gives; in particular a repeated sweep changes nothing.
pub proof fn lemma_sweep_idempotent(m: Map<u64, u64>, t1: u64, t2: u64)
    requires
        t1 <= t2,
    ensures
        swept(swept(m, t1), t2) =~= swept(m, t2),
{
}

} // verus!

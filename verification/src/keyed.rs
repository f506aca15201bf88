//! A small map from `u64` keys to values, kept as a vector of entries in
//! insertion order.

use vstd::prelude::*;

verus! {

/// The map an entry list describes; a later entry for a key wins.
pub open spec fn map_of<V>(entries: Seq<(u64, V)>) -> Map<u64, V>
    decreases entries.len(),
{
    if entries.len() == 0 {
        Map::empty()
    } else {
        map_of(entries.drop_last()).insert(entries.last().0, entries.last().1)
    }
}

pub open spec fn distinct_keys<V>(entries: Seq<(u64, V)>) -> bool {
    forall|i: int, j: int| 0 <= i < j < entries.len() ==> (#[trigger] entries[i]).0 != (
    #[trigger] entries[j]).0
}

pub proof fn lemma_map_of_index<V>(entries: Seq<(u64, V)>, i: int)
    requires
        distinct_keys(entries),
        0 <= i < entries.len(),
    ensures
        map_of(entries).dom().contains(entries[i].0),
        map_of(entries)[entries[i].0] == entries[i].1,
    decreases entries.len(),
{
    if i < entries.len() - 1 {
        lemma_map_of_index(entries.drop_last(), i);
    }
}

pub proof fn lemma_map_of_dom<V>(entries: Seq<(u64, V)>, k: u64)
    ensures
        map_of(entries).dom().contains(k) <==> exists|i: int|
            0 <= i < entries.len() && (#[trigger] entries[i]).0 == k,
    decreases entries.len(),
{
    if entries.len() > 0 {
        lemma_map_of_dom(entries.drop_last(), k);
        if map_of(entries.drop_last()).dom().contains(k) {
            let i = choose|i: int|
                0 <= i < entries.drop_last().len() && (#[trigger] entries.drop_last()[i]).0 == k;
            assert(entries[i] == entries.drop_last()[i]);
        }
        if exists|i: int| 0 <= i < entries.len() && (#[trigger] entries[i]).0 == k {
            let i = choose|i: int| 0 <= i < entries.len() && (#[trigger] entries[i]).0 == k;
            if i < entries.len() - 1 {
                assert(entries.drop_last()[i] == entries[i]);
            }
        }
    }
}

pub proof fn lemma_map_of_finite<V>(entries: Seq<(u64, V)>)
    ensures
        map_of(entries).dom().finite(),
    decreases entries.len(),
{
    if entries.len() > 0 {
        lemma_map_of_finite(entries.drop_last());
    }
}

pub proof fn lemma_map_of_len<V>(entries: Seq<(u64, V)>)
    requires
        distinct_keys(entries),
    ensures
        map_of(entries).dom().len() == entries.len(),
    decreases entries.len(),
{
    if entries.len() > 0 {
        let init = entries.drop_last();
        assert forall|a: int, b: int| 0 <= a < b < init.len() implies (#[trigger] init[a]).0 != (
        #[trigger] init[b]).0 by {
            assert(init[a] == entries[a]);
            assert(init[b] == entries[b]);
        }
        lemma_map_of_len(init);
        lemma_map_of_finite(init);
        lemma_map_of_dom(init, entries.last().0);
        if map_of(init).dom().contains(entries.last().0) {
            let j = choose|j: int| 0 <= j < init.len() && (#[trigger] init[j]).0 == entries.last().0;
            assert(init[j] == entries[j]);
            assert(entries[j].0 != entries[entries.len() - 1].0);
        }
    }
}

pub proof fn lemma_map_of_update<V>(entries: Seq<(u64, V)>, i: int, v: V)
    requires
        distinct_keys(entries),
        0 <= i < entries.len(),
    ensures
        distinct_keys(entries.update(i, (entries[i].0, v))),
        map_of(entries.update(i, (entries[i].0, v))) == map_of(entries).insert(entries[i].0, v),
    decreases entries.len(),
{
    let k = entries[i].0;
    let u = entries.update(i, (k, v));
    assert forall|a: int, b: int| 0 <= a < b < u.len() implies (#[trigger] u[a]).0 != (
    #[trigger] u[b]).0 by {
        assert(u[a].0 == entries[a].0);
        assert(u[b].0 == entries[b].0);
    }
    if i == entries.len() - 1 {
        assert(u.drop_last() =~= entries.drop_last());
        assert(map_of(u) =~= map_of(entries).insert(k, v));
    } else {
        let init = entries.drop_last();
        assert forall|a: int, b: int| 0 <= a < b < init.len() implies (#[trigger] init[a]).0 != (
        #[trigger] init[b]).0 by {
            assert(init[a] == entries[a]);
            assert(init[b] == entries[b]);
        }
        lemma_map_of_update(init, i, v);
        assert(u.drop_last() =~= init.update(i, (k, v)));
        assert(entries.last().0 != k) by {
            assert(entries[i].0 != entries[entries.len() - 1].0);
        }
        assert(map_of(u) =~= map_of(entries).insert(k, v));
    }
}

pub proof fn lemma_map_of_remove<V>(entries: Seq<(u64, V)>, i: int)
    requires
        distinct_keys(entries),
        0 <= i < entries.len(),
    ensures
        distinct_keys(entries.remove(i)),
        map_of(entries.remove(i)) == map_of(entries).remove(entries[i].0),
    decreases entries.len(),
{
    let r = entries.remove(i);
    assert forall|a: int, b: int| 0 <= a < b < r.len() implies (#[trigger] r[a]).0 != (
    #[trigger] r[b]).0 by {
        let a2 = if a < i {
            a
        } else {
            a + 1
        };
        let b2 = if b < i {
            b
        } else {
            b + 1
        };
        assert(r[a] == entries[a2]);
        assert(r[b] == entries[b2]);
    }
    let init = entries.drop_last();
    assert forall|a: int, b: int| 0 <= a < b < init.len() implies (#[trigger] init[a]).0 != (
    #[trigger] init[b]).0 by {
        assert(init[a] == entries[a]);
        assert(init[b] == entries[b]);
    }
    if i == entries.len() - 1 {
        assert(r =~= init);
        lemma_map_of_dom(init, entries[i].0);
        if map_of(init).dom().contains(entries[i].0) {
            let j = choose|j: int| 0 <= j < init.len() && (#[trigger] init[j]).0 == entries[i].0;
            assert(init[j] == entries[j]);
        }
        assert(map_of(r) =~= map_of(entries).remove(entries[i].0));
    } else {
        lemma_map_of_remove(init, i);
        assert(r.drop_last() =~= init.remove(i));
        assert(r.last() == entries.last());
        assert(entries.last().0 != entries[i].0) by {
            assert(entries[i].0 != entries[entries.len() - 1].0);
        }
        assert(map_of(r) =~= map_of(entries).remove(entries[i].0));
    }
}

/// A map from `u64` keys to values.
pub struct KeyedVec<V> {
    entries: Vec<(u64, V)>,
}

impl<V> KeyedVec<V> {
    pub closed spec fn view(&self) -> Map<u64, V> {
        map_of(self.entries@)
    }

    pub closed spec fn inv(&self) -> bool {
        distinct_keys(self.entries@)
    }

    pub fn new() -> (m: Self)
        ensures
            m.inv(),
            m.view() == Map::<u64, V>::empty(),
    {
        let m = KeyedVec { entries: Vec::new() };
        assert(m.view() =~= Map::<u64, V>::empty());
        m
    }

    fn find(&self, k: u64) -> (r: Option<usize>)
        requires
            self.inv(),
        ensures
            match r {
                Some(i) => i < self.entries@.len() && self.entries@[i as int].0 == k,
                None => !self.view().dom().contains(k),
            },
    {
        let mut i: usize = 0;
        while i < self.entries.len()
            invariant
                i <= self.entries@.len(),
                forall|j: int| 0 <= j < i ==> (#[trigger] self.entries@[j]).0 != k,
            decreases self.entries@.len() - i,
        {
            if self.entries[i].0 == k {
                return Some(i);
            }
            i = i + 1;
        }
        proof {
            lemma_map_of_dom(self.entries@, k);
        }
        None
    }

    pub fn contains_key(&self, k: u64) -> (b: bool)
        requires
            self.inv(),
        ensures
            b == self.view().dom().contains(k),
    {
        match self.find(k) {
            Some(i) => {
                proof {
                    lemma_map_of_index(self.entries@, i as int);
                }
                true
            },
            None => false,
        }
    }

    pub fn get(&self, k: u64) -> (r: Option<&V>)
        requires
            self.inv(),
        ensures
            match r {
                Some(v) => self.view().dom().contains(k) && *v == self.view()[k],
                None => !self.view().dom().contains(k),
            },
    {
        match self.find(k) {
            Some(i) => {
                proof {
                    lemma_map_of_index(self.entries@, i as int);
                }
                Some(&self.entries[i].1)
            },
            None => None,
        }
    }

    pub fn insert(&mut self, k: u64, v: V)
        requires
            old(self).inv(),
        ensures
            final(self).inv(),
            final(self).view() == old(self).view().insert(k, v),
    {
        match self.find(k) {
            Some(i) => {
                let ghost before = self.entries@;
                let ghost gv = v;
                proof {
                    lemma_map_of_update(before, i as int, gv);
                }
                self.entries.set(i, (k, v));
                proof {
                    assert(self.entries@ == before.update(i as int, (k, gv)));
                }
            },
            None => {
                let ghost before = self.entries@;
                self.entries.push((k, v));
                proof {
                    assert(self.entries@.drop_last() =~= before);
                    assert forall|a: int, b: int| 0 <= a < b < self.entries@.len() implies (
                    #[trigger] self.entries@[a]).0 != (#[trigger] self.entries@[b]).0 by {
                        if b == self.entries@.len() - 1 {
                            lemma_map_of_dom(before, k);
                            assert(before[a] == self.entries@[a]);
                        } else {
                            assert(before[a] == self.entries@[a]);
                            assert(before[b] == self.entries@[b]);
                        }
                    }
                }
            },
        }
    }

    pub fn remove(&mut self, k: u64) -> (r: Option<V>)
        requires
            old(self).inv(),
        ensures
            final(self).inv(),
            final(self).view() == old(self).view().remove(k),
            match r {
                Some(v) => old(self).view().dom().contains(k) && v == old(self).view()[k],
                None => !old(self).view().dom().contains(k),
            },
    {
        match self.find(k) {
            Some(i) => {
                let ghost before = self.entries@;
                proof {
                    lemma_map_of_index(before, i as int);
                    lemma_map_of_remove(before, i as int);
                }
                let (_, v) = self.entries.remove(i);
                Some(v)
            },
            None => {
                assert(self.view() =~= old(self).view().remove(k));
                None
            },
        }
    }

    /// How many keys the map holds.
    pub fn len(&self) -> (n: usize)
        requires
            self.inv(),
        ensures
            self.view().dom().finite(),
            n == self.view().dom().len(),
    {
        proof {
            lemma_map_of_finite(self.entries@);
            lemma_map_of_len(self.entries@);
        }
        self.entries.len()
    }

    /// Every key, in the order the keys were first inserted.
    pub fn keys(&self) -> (ks: Vec<u64>)
        requires
            self.inv(),
        ensures
            forall|k: u64| self.view().dom().contains(k) <==> ks@.contains(k),
            forall|i: int, j: int| 0 <= i < j < ks@.len() ==> ks@[i] != ks@[j],
    {
        let mut ks: Vec<u64> = Vec::new();
        let mut i: usize = 0;
        while i < self.entries.len()
            invariant
                i <= self.entries@.len(),
                distinct_keys(self.entries@),
                ks@.len() == i,
                forall|j: int| 0 <= j < i ==> ks@[j] == (#[trigger] self.entries@[j]).0,
            decreases self.entries@.len() - i,
        {
            ks.push(self.entries[i].0);
            i = i + 1;
        }
        proof {
            assert forall|k: u64| self.view().dom().contains(k) <==> ks@.contains(k) by {
                lemma_map_of_dom(self.entries@, k);
                if ks@.contains(k) {
                    let j = choose|j: int| 0 <= j < ks@.len() && ks@[j] == k;
                    assert(self.entries@[j].0 == k);
                }
                if self.view().dom().contains(k) {
                    let j = choose|j: int| 0 <= j < self.entries@.len() && (#[trigger] self.entries@[j]).0 == k;
                    assert(ks@[j] == k);
                }
            }
            assert forall|a: int, b: int| 0 <= a < b < ks@.len() implies ks@[a] != ks@[b] by {
                assert(ks@[a] == self.entries@[a].0);
                assert(ks@[b] == self.entries@[b].0);
            }
        }
        ks
    }
}

} // verus!

//! A small verified map from integer keys to copyable values, held as a
//! vector of entries with pairwise distinct keys. Its view is the
//! corresponding mathematical map. It backs every per-account table of the
//! state machine: positions, invitations, deposits, contribution marks,
//! default counters and ledger balances.

use vstd::prelude::*;

verus! {

/// The mathematical map described by a sequence of key-value entries;
/// later entries override earlier ones.
pub open spec fn entries_map<V>(s: Seq<(u64, V)>) -> Map<u64, V>
    decreases s.len(),
{
    if s.len() == 0 {
        Map::empty()
    } else {
        entries_map(s.drop_last()).insert(s.last().0, s.last().1)
    }
}

/// Whether the keys of an entry sequence are pairwise distinct.
pub open spec fn distinct_keys<V>(s: Seq<(u64, V)>) -> bool {
    forall|i: int, j: int| 0 <= i < j < s.len() ==> s[i].0 != s[j].0
}

/// With distinct keys, `entries_map` contains exactly the listed keys and
/// maps each to its listed value.
pub proof fn lemma_entries_map_props<V>(s: Seq<(u64, V)>)
    requires
        distinct_keys(s),
    ensures
        forall|k: u64|
            entries_map(s).contains_key(k) <==> exists|i: int| 0 <= i < s.len() && s[i].0 == k,
        forall|i: int|
            0 <= i < s.len() ==> entries_map(s).contains_key(#[trigger] s[i].0) && entries_map(
                s,
            )[s[i].0] == s[i].1,
    decreases s.len(),
{
    if s.len() > 0 {
        let dl = s.drop_last();
        lemma_entries_map_props(dl);
        assert forall|k: u64| entries_map(s).contains_key(k) implies exists|i: int|
            0 <= i < s.len() && s[i].0 == k by {
            if k == s.last().0 {
                assert(s[s.len() - 1].0 == k);
            } else {
                assert(entries_map(dl).contains_key(k));
                let i = choose|i: int| 0 <= i < dl.len() && dl[i].0 == k;
                assert(dl[i] == s[i]);
                assert(s[i].0 == k);
            }
        }
        assert forall|i: int| 0 <= i < s.len() implies entries_map(s).contains_key(
            #[trigger] s[i].0,
        ) && entries_map(s)[s[i].0] == s[i].1 by {
            if i < s.len() - 1 {
                assert(dl[i] == s[i]);
                assert(s[i].0 != s.last().0);
            }
        }
    }
}

/// Appending a fresh entry inserts it into the map.
pub proof fn lemma_entries_map_push<V>(s: Seq<(u64, V)>, p: (u64, V))
    ensures
        entries_map(s.push(p)) == entries_map(s).insert(p.0, p.1),
{
    let t = s.push(p);
    assert(t.drop_last() =~= s);
    assert(t.last() == p);
}

/// Overwriting the entry that holds a key inserts the new value.
pub proof fn lemma_entries_map_update<V>(s: Seq<(u64, V)>, i: int, p: (u64, V))
    requires
        distinct_keys(s),
        0 <= i < s.len(),
        s[i].0 == p.0,
    ensures
        entries_map(s.update(i, p)) == entries_map(s).insert(p.0, p.1),
    decreases s.len(),
{
    let t = s.update(i, p);
    if i == s.len() - 1 {
        assert(t.drop_last() =~= s.drop_last());
        assert(t.last() == p);
        assert(entries_map(t) == entries_map(s.drop_last()).insert(p.0, p.1));
        assert(entries_map(s.drop_last()).insert(p.0, p.1) =~= entries_map(s.drop_last()).insert(
            s.last().0,
            s.last().1,
        ).insert(p.0, p.1));
    } else {
        let dl = s.drop_last();
        assert(t.drop_last() =~= dl.update(i, p));
        assert(t.last() == s.last());
        lemma_entries_map_update(dl, i, p);
        assert(s[i].0 != s.last().0);
        assert(entries_map(dl).insert(p.0, p.1).insert(s.last().0, s.last().1)
            =~= entries_map(dl).insert(s.last().0, s.last().1).insert(p.0, p.1));
    }
}

/// Removing the entry that holds a key removes the key from the map.
pub proof fn lemma_entries_map_remove<V>(s: Seq<(u64, V)>, i: int)
    requires
        distinct_keys(s),
        0 <= i < s.len(),
    ensures
        entries_map(s.remove(i)) == entries_map(s).remove(s[i].0),
    decreases s.len(),
{
    let t = s.remove(i);
    if i == s.len() - 1 {
        assert(t =~= s.drop_last());
        lemma_entries_map_props(s.drop_last());
        assert forall|j: int| 0 <= j < s.len() - 1 implies s.drop_last()[j].0 != s[i].0 by {
            assert(s[j].0 != s[i].0);
        }
        assert(entries_map(s.drop_last()) =~= entries_map(s.drop_last()).insert(
            s.last().0,
            s.last().1,
        ).remove(s[i].0));
    } else {
        let dl = s.drop_last();
        assert(t.drop_last() =~= dl.remove(i));
        assert(t.last() == s.last());
        lemma_entries_map_remove(dl, i);
        assert(s[i].0 != s.last().0);
        assert(entries_map(dl).remove(s[i].0).insert(s.last().0, s.last().1)
            =~= entries_map(dl).insert(s.last().0, s.last().1).remove(s[i].0));
    }
}

/// A map from `u64` keys to copyable values with a `Map` view.
pub struct UMap<V> {
    entries: Vec<(u64, V)>,
}

impl<V: Copy> View for UMap<V> {
    type V = Map<u64, V>;

    closed spec fn view(&self) -> Map<u64, V> {
        entries_map(self.entries@)
    }
}

impl<V: Copy> UMap<V> {
    /// The entry vector holds each key at most once.
    pub closed spec fn wf(&self) -> bool {
        distinct_keys(self.entries@)
    }

    /// The empty map.
    pub fn new() -> (r: Self)
        ensures
            r@ == Map::<u64, V>::empty(),
            r.wf(),
    {
        UMap { entries: Vec::new() }
    }

    /// The value held under a key, if any.
    pub fn get(&self, k: u64) -> (r: Option<V>)
        requires
            self.wf(),
        ensures
            r == if self@.contains_key(k) {
                Some(self@[k])
            } else {
                None::<V>
            },
    {
        proof {
            lemma_entries_map_props(self.entries@);
        }
        let n = self.entries.len();
        let mut i: usize = 0;
        while i < n
            invariant
                n == self.entries.len(),
                0 <= i <= n,
                self.wf(),
                forall|j: int| 0 <= j < i ==> self.entries@[j].0 != k,
                forall|j: int|
                    0 <= j < self.entries@.len() ==> (self@.contains_key(
                        #[trigger] self.entries@[j].0,
                    ) && self@[self.entries@[j].0] == self.entries@[j].1),
                forall|k2: u64|
                    self@.contains_key(k2) ==> exists|j: int|
                        0 <= j < self.entries@.len() && self.entries@[j].0 == k2,
            decreases n - i,
        {
            let e = self.entries[i];
            if e.0 == k {
                return Some(e.1);
            }
            i = i + 1;
        }
        None
    }

    /// Binds a key to a value, replacing any earlier binding.
    pub fn insert(&mut self, k: u64, v: V)
        requires
            old(self).wf(),
        ensures
            final(self)@ == old(self)@.insert(k, v),
            final(self).wf(),
    {
        proof {
            lemma_entries_map_props(self.entries@);
        }
        let n = self.entries.len();
        let mut i: usize = 0;
        while i < n
            invariant
                n == self.entries.len(),
                0 <= i <= n,
                self == old(self),
                self.wf(),
                forall|j: int| 0 <= j < i ==> self.entries@[j].0 != k,
            decreases n - i,
        {
            if self.entries[i].0 == k {
                proof {
                    lemma_entries_map_update(self.entries@, i as int, (k, v));
                }
                self.entries[i] = (k, v);
                return ;
            }
            i = i + 1;
        }
        proof {
            lemma_entries_map_push(self.entries@, (k, v));
        }
        self.entries.push((k, v));
    }

    /// Drops the binding of a key, if any.
    pub fn remove(&mut self, k: u64)
        requires
            old(self).wf(),
        ensures
            final(self)@ == old(self)@.remove(k),
            final(self).wf(),
    {
        proof {
            lemma_entries_map_props(self.entries@);
        }
        let n = self.entries.len();
        let mut i: usize = 0;
        while i < n
            invariant
                n == self.entries.len(),
                0 <= i <= n,
                self == old(self),
                self.wf(),
                forall|j: int| 0 <= j < i ==> self.entries@[j].0 != k,
            decreases n - i,
        {
            if self.entries[i].0 == k {
                proof {
                    lemma_entries_map_remove(self.entries@, i as int);
                }
                self.entries.remove(i);
                return ;
            }
            i = i + 1;
        }
        proof {
            lemma_entries_map_props(self.entries@);
            assert(!self@.contains_key(k));
            assert(self@ =~= self@.remove(k));
        }
    }

    /// Drops every binding.
    pub fn clear(&mut self)
        ensures
            final(self)@ == Map::<u64, V>::empty(),
            final(self).wf(),
    {
        self.entries = Vec::new();
    }

    /// An independent copy with the same view.
    pub fn snapshot(&self) -> (r: Self)
        requires
            self.wf(),
        ensures
            r@ == self@,
            r.wf(),
    {
        let n = self.entries.len();
        let mut out: Vec<(u64, V)> = Vec::new();
        let mut i: usize = 0;
        while i < n
            invariant
                n == self.entries.len(),
                0 <= i <= n,
                out@ =~= self.entries@.subrange(0, i as int),
            decreases n - i,
        {
            out.push(self.entries[i]);
            proof {
                assert(out@ =~= self.entries@.subrange(0, i + 1 as int));
            }
            i = i + 1;
        }
        proof {
            assert(out@ =~= self.entries@);
        }
        UMap { entries: out }
    }
}

} // verus!

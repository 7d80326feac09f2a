//! An association table keyed by connection identifiers or seeds.
//!
//! The registry maps of the core (connections, worlds, world membership,
//! rosters) are all small maps keyed by a `u32`.  They are held as vectors of
//! key/value pairs with pairwise-distinct keys, which keeps a deterministic
//! iteration order: a roster is walked in join order, so broadcast fan-out is
//! reproducible.  The table's model is the [`Map`] from keys to value views,
//! plus [`Table::order`], the key sequence in insertion order.

use vstd::prelude::*;

verus! {

/// A map from `u32` keys to values, iterable in insertion order.
pub struct Table<V> {
    pub pairs: Vec<(u32, V)>,
}

impl<V: View> Table<V> {
    /// The map a pair sequence denotes; later entries shadow earlier ones,
    /// though a well-formed table never holds two entries with one key.
    pub open spec fn map_of(s: Seq<(u32, V)>) -> Map<u32, V::V>
        decreases s.len(),
    {
        if s.len() == 0 {
            Map::empty()
        } else {
            Self::map_of(s.drop_last()).insert(s.last().0, s.last().1@)
        }
    }

    /// The key of each entry, in entry order.
    pub open spec fn keys_of(s: Seq<(u32, V)>) -> Seq<u32> {
        s.map_values(|p: (u32, V)| p.0)
    }

    /// The keys in insertion order.
    pub open spec fn order(&self) -> Seq<u32> {
        Self::keys_of(self.pairs@)
    }

    /// No key occurs twice.
    pub open spec fn wf(&self) -> bool {
        forall|i: int, j: int|
            0 <= i < j < self.pairs@.len() ==> self.pairs@[i].0 != self.pairs@[j].0
    }

    proof fn lemma_contains(s: Seq<(u32, V)>, k: u32)
        ensures
            Self::map_of(s).contains_key(k) <==> exists|i: int| 0 <= i < s.len() && s[i].0 == k,
        decreases s.len(),
    {
        if s.len() > 0 {
            Self::lemma_contains(s.drop_last(), k);
            if s.last().0 != k && Self::map_of(s.drop_last()).contains_key(k) {
                let i = choose|i: int| 0 <= i < s.drop_last().len() && s.drop_last()[i].0 == k;
                assert(s[i].0 == k);
            }
            if exists|i: int| 0 <= i < s.len() && s[i].0 == k {
                let i = choose|i: int| 0 <= i < s.len() && s[i].0 == k;
                if i < s.len() - 1 {
                    assert(s.drop_last()[i].0 == k);
                }
            }
        }
    }

    proof fn lemma_index(s: Seq<(u32, V)>, i: int)
        requires
            forall|x: int, y: int| 0 <= x < y < s.len() ==> s[x].0 != s[y].0,
            0 <= i < s.len(),
        ensures
            Self::map_of(s).contains_key(s[i].0),
            Self::map_of(s)[s[i].0] == s[i].1@,
        decreases s.len(),
    {
        if i == s.len() - 1 {
        } else {
            Self::lemma_index(s.drop_last(), i);
            assert(s.drop_last()[i] == s[i]);
        }
    }

    proof fn lemma_update(s: Seq<(u32, V)>, i: int, v: V)
        requires
            forall|x: int, y: int| 0 <= x < y < s.len() ==> s[x].0 != s[y].0,
            0 <= i < s.len(),
        ensures
            Self::map_of(s.update(i, (s[i].0, v))) == Self::map_of(s).insert(s[i].0, v@),
        decreases s.len(),
    {
        let t = s.update(i, (s[i].0, v));
        if i == s.len() - 1 {
            assert(t.drop_last() =~= s.drop_last());
            assert(Self::map_of(t) =~= Self::map_of(s).insert(s[i].0, v@));
        } else {
            Self::lemma_update(s.drop_last(), i, v);
            assert(t.drop_last() =~= s.drop_last().update(i, (s[i].0, v)));
            assert(t.last() == s.last());
            assert(Self::map_of(t) =~= Self::map_of(s).insert(s[i].0, v@));
        }
    }

    proof fn lemma_remove(s: Seq<(u32, V)>, i: int)
        requires
            forall|x: int, y: int| 0 <= x < y < s.len() ==> s[x].0 != s[y].0,
            0 <= i < s.len(),
        ensures
            Self::map_of(s.remove(i)) == Self::map_of(s).remove(s[i].0),
        decreases s.len(),
    {
        let t = s.remove(i);
        if i == s.len() - 1 {
            assert(t =~= s.drop_last());
            Self::lemma_contains(s.drop_last(), s[i].0);
            assert(Self::map_of(t) =~= Self::map_of(s).remove(s[i].0));
        } else {
            Self::lemma_remove(s.drop_last(), i);
            assert(t.drop_last() =~= s.drop_last().remove(i));
            assert(t.last() == s.last());
            assert(Self::map_of(t) =~= Self::map_of(s).remove(s[i].0));
        }
    }

    proof fn lemma_push(s: Seq<(u32, V)>, k: u32, v: V)
        ensures
            Self::map_of(s.push((k, v))) == Self::map_of(s).insert(k, v@),
    {
        assert(s.push((k, v)).drop_last() =~= s);
    }

    /// Well-formedness is visible in the model alone: it is exactly
    /// distinctness of the key order.
    pub proof fn lemma_wf_order(&self)
        ensures
            self.wf() <==> self.order().no_duplicates(),
    {
        if self.wf() {
            assert forall|i: int, j: int|
                0 <= i < self.order().len() && 0 <= j < self.order().len() && i != j implies self
                .order()[i] != self.order()[j] by {
                assert(self.order()[i] == self.pairs@[i].0);
                assert(self.order()[j] == self.pairs@[j].0);
            }
        }
        if self.order().no_duplicates() {
            assert forall|i: int, j: int| 0 <= i < j < self.pairs@.len() implies self.pairs@[i].0
                != self.pairs@[j].0 by {
                assert(self.order()[i] == self.pairs@[i].0);
                assert(self.order()[j] == self.pairs@[j].0);
            }
        }
    }

    /// An empty table.
    pub fn new() -> (t: Self)
        ensures
            t@ == Map::<u32, V::V>::empty(),
            t.order() == Seq::<u32>::empty(),
            t.wf(),
    {
        let t = Table { pairs: Vec::new() };
        proof {
            assert(t.order() =~= Seq::<u32>::empty());
        }
        t
    }

    /// How many entries the table holds.
    pub fn len(&self) -> (n: usize)
        ensures
            n == self.order().len(),
    {
        self.pairs.len()
    }

    /// Whether the table is empty.
    pub fn is_empty(&self) -> (b: bool)
        ensures
            b <==> self.order().len() == 0,
    {
        self.pairs.len() == 0
    }

    /// The position of `k`'s entry, if one exists.
    fn position(&self, k: u32) -> (r: Option<usize>)
        ensures
            match r {
                Some(i) => i < self.pairs@.len() && self.pairs@[i as int].0 == k,
                None => forall|i: int| 0 <= i < self.pairs@.len() ==> self.pairs@[i].0 != k,
            },
    {
        let mut i: usize = 0;
        while i < self.pairs.len()
            invariant
                i <= self.pairs@.len(),
                forall|j: int| 0 <= j < i ==> self.pairs@[j].0 != k,
            decreases self.pairs@.len() - i,
        {
            if self.pairs[i].0 == k {
                return Some(i);
            }
            i = i + 1;
        }
        None
    }

    /// Whether `k` has an entry.
    pub fn contains_key(&self, k: u32) -> (b: bool)
        ensures
            b == self@.contains_key(k),
    {
        proof {
            Self::lemma_contains(self.pairs@, k);
        }
        self.position(k).is_some()
    }

    /// The value under `k`, if any.
    pub fn get(&self, k: u32) -> (r: Option<&V>)
        requires
            self.wf(),
        ensures
            match r {
                Some(v) => self@.contains_key(k) && v@ == self@[k],
                None => !self@.contains_key(k),
            },
    {
        proof {
            Self::lemma_contains(self.pairs@, k);
        }
        match self.position(k) {
            Some(i) => {
                proof {
                    Self::lemma_index(self.pairs@, i as int);
                }
                let pair = &self.pairs[i];
                Some(&pair.1)
            },
            None => None,
        }
    }

    /// The key of the entry at position `i` of the insertion order.
    pub fn key_at(&self, i: usize) -> (k: u32)
        requires
            i < self.order().len(),
        ensures
            k == self.order()[i as int],
    {
        self.pairs[i].0
    }

    /// The value of the entry at position `i` of the insertion order.
    pub fn value_at(&self, i: usize) -> (v: &V)
        requires
            self.wf(),
            i < self.order().len(),
        ensures
            self@.contains_key(self.order()[i as int]),
            v@ == self@[self.order()[i as int]],
    {
        proof {
            Self::lemma_index(self.pairs@, i as int);
        }
        let pair = &self.pairs[i];
        &pair.1
    }

    /// Binds `v` to `k`: replaces the existing entry in place, or appends a
    /// new one.
    pub fn insert(&mut self, k: u32, v: V)
        requires
            old(self).wf(),
        ensures
            final(self).wf(),
            final(self)@ == old(self)@.insert(k, v@),
            final(self).order() == if old(self)@.contains_key(k) {
                old(self).order()
            } else {
                old(self).order().push(k)
            },
    {
        proof {
            Self::lemma_contains(self.pairs@, k);
        }
        match self.position(k) {
            Some(i) => {
                proof {
                    Self::lemma_update(self.pairs@, i as int, v);
                }
                let ghost before = self.pairs@;
                let elem = &mut self.pairs[i];
                *elem = (k, v);
                proof {
                    assert(self.pairs@ =~= before.update(i as int, (k, v)));
                    assert(Self::keys_of(self.pairs@) =~= Self::keys_of(before));
                }
            },
            None => {
                proof {
                    Self::lemma_push(self.pairs@, k, v);
                }
                let ghost before = self.pairs@;
                self.pairs.push((k, v));
                proof {
                    assert(Self::keys_of(self.pairs@) =~= Self::keys_of(before).push(k));
                }
            },
        }
    }

    /// Drops the entry under `k`, handing its value back; later entries keep
    /// their relative order.
    pub fn remove(&mut self, k: u32) -> (r: Option<V>)
        requires
            old(self).wf(),
        ensures
            final(self).wf(),
            final(self)@ == old(self)@.remove(k),
            match r {
                Some(v) => old(self)@.contains_key(k) && v@ == old(self)@[k]
                    && final(self).order() == old(self).order().remove(
                    old(self).order().index_of(k),
                ),
                None => !old(self)@.contains_key(k) && final(self).order() == old(self).order(),
            },
    {
        proof {
            Self::lemma_contains(self.pairs@, k);
        }
        match self.position(k) {
            Some(i) => {
                proof {
                    Self::lemma_index(self.pairs@, i as int);
                    Self::lemma_remove(self.pairs@, i as int);
                }
                let ghost before = self.pairs@;
                let (_, v) = self.pairs.remove(i);
                proof {
                    assert(Self::keys_of(self.pairs@) =~= Self::keys_of(before).remove(i as int));
                    let ks = Self::keys_of(before);
                    assert(ks[i as int] == k);
                    assert(exists|x: int| 0 <= x < ks.len() && ks[x] == k);
                    let j = ks.index_of(k);
                    assert(0 <= j < ks.len() && ks[j] == k);
                    assert(ks[j] == before[j].0);
                    assert(j == i as int);
                }
                Some(v)
            },
            None => {
                proof {
                    assert(final(self)@ =~= old(self)@.remove(k));
                }
                None
            },
        }
    }
}

impl<V: View> View for Table<V> {
    type V = Map<u32, V::V>;

    open spec fn view(&self) -> Map<u32, V::V> {
        Self::map_of(self.pairs@)
    }
}

} // verus!

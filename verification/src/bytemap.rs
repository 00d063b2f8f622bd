//! A small byte-to-byte map, backed by an association vector.
//!
//! It carries the two 64-entry substitution tables of the codec; a plain
//! vector of pairs with unique keys keeps every operation easy to reason
//! about.

use vstd::prelude::*;

verus! {

/// A map from bytes to bytes with unique keys.
#[derive(Clone)]
pub struct ByteMap {
    pairs: Vec<(u8, u8)>,
}

impl ByteMap {
    /// The mathematical map this table holds.
    pub closed spec fn view(&self) -> Map<u8, u8> {
        Self::map_of(self.pairs@)
    }

    /// The number of stored pairs.
    pub closed spec fn spec_len(&self) -> nat {
        self.pairs@.len()
    }

    /// The map formed by a pair sequence, later pairs overriding earlier.
    pub closed spec fn map_of(pairs: Seq<(u8, u8)>) -> Map<u8, u8>
        decreases pairs.len(),
    {
        if pairs.len() == 0 {
            Map::empty()
        } else {
            Self::map_of(pairs.drop_last()).insert(pairs.last().0, pairs.last().1)
        }
    }

    /// Keys occur at most once.
    pub closed spec fn wf(&self) -> bool {
        forall|i: int, j: int|
            0 <= i < j < self.pairs@.len() ==> (#[trigger] self.pairs@[i]).0 != (
            #[trigger] self.pairs@[j]).0
    }

    /// A key is in the map exactly when some pair holds it, and the pair
    /// holding it gives its value when keys are unique.
    proof fn lemma_map_of(pairs: Seq<(u8, u8)>)
        ensures
            forall|k: u8|
                #[trigger] Self::map_of(pairs).contains_key(k) <==> exists|i: int|
                    0 <= i < pairs.len() && (#[trigger] pairs[i]).0 == k,
            forall|i: int|
                0 <= i < pairs.len() && (forall|j: int|
                    i < j < pairs.len() ==> (#[trigger] pairs[j]).0 != pairs[i].0)
                    ==> Self::map_of(pairs).contains_key((#[trigger] pairs[i]).0)
                    && Self::map_of(pairs)[pairs[i].0] == pairs[i].1,
        decreases pairs.len(),
    {
        if pairs.len() > 0 {
            Self::lemma_map_of(pairs.drop_last());
            let prefix = pairs.drop_last();
            assert forall|k: u8| #[trigger]
                Self::map_of(pairs).contains_key(k) implies exists|i: int|
                0 <= i < pairs.len() && (#[trigger] pairs[i]).0 == k by {
                if k == pairs.last().0 {
                    assert(pairs[pairs.len() - 1].0 == k);
                } else {
                    assert(Self::map_of(prefix).contains_key(k));
                    let i = choose|i: int| 0 <= i < prefix.len() && (#[trigger] prefix[i]).0 == k;
                    assert(pairs[i].0 == k);
                }
            }
            assert forall|k: u8| (exists|i: int|
                0 <= i < pairs.len() && (#[trigger] pairs[i]).0 == k) implies #[trigger]
                Self::map_of(pairs).contains_key(k) by {
                let i = choose|i: int| 0 <= i < pairs.len() && (#[trigger] pairs[i]).0 == k;
                if i < pairs.len() - 1 {
                    assert(prefix[i].0 == k);
                    assert(Self::map_of(prefix).contains_key(k));
                }
            }
            assert forall|i: int|
                0 <= i < pairs.len() && (forall|j: int|
                    i < j < pairs.len() ==> (#[trigger] pairs[j]).0 != pairs[i].0)
                    implies Self::map_of(pairs).contains_key((#[trigger] pairs[i]).0)
                && Self::map_of(pairs)[pairs[i].0] == pairs[i].1 by {
                if i == pairs.len() - 1 {
                    assert(Self::map_of(pairs)[pairs.last().0] == pairs.last().1);
                } else {
                    assert(prefix[i].0 == pairs[i].0 && prefix[i].1 == pairs[i].1);
                    assert(forall|j: int|
                        i < j < prefix.len() ==> (#[trigger] prefix[j]).0 != prefix[i].0);
                    assert(Self::map_of(prefix).contains_key(prefix[i].0) && Self::map_of(prefix)[
                        prefix[i].0] == prefix[i].1);
                    assert(pairs[pairs.len() - 1].0 != pairs[i].0);
                }
            }
        }
    }

    /// An empty map.
    pub fn new() -> (r: ByteMap)
        ensures
            r@ == Map::<u8, u8>::empty(),
            r.wf(),
            r.spec_len() == 0,
    {
        ByteMap { pairs: Vec::new() }
    }

    /// Binds `key` to `value`, overwriting any earlier binding.
    pub fn insert(&mut self, key: u8, value: u8)
        requires
            old(self).wf(),
        ensures
            final(self).wf(),
            final(self)@ == old(self)@.insert(key, value),
            final(self).spec_len() == if old(self)@.contains_key(key) {
                old(self).spec_len()
            } else {
                old(self).spec_len() + 1
            },
    {
        proof {
            Self::lemma_map_of(self.pairs@);
        }
        let n = self.pairs.len();
        let mut i: usize = 0;
        while i < n
            invariant
                self.pairs@ == old(self).pairs@,
                old(self).wf(),
                n == self.pairs@.len(),
                i <= n,
                forall|j: int| 0 <= j < i ==> (#[trigger] self.pairs@[j]).0 != key,
            decreases n - i,
        {
            if self.pairs[i].0 == key {
                let ghost old_pairs = self.pairs@;
                self.pairs[i] = (key, value);
                proof {
                    assert(self.pairs@ =~= old_pairs.update(i as int, (key, value)));
                    Self::lemma_replace(old_pairs, i as int, key, value);
                    Self::lemma_map_of(old_pairs);
                    assert(old(self)@.contains_key(key));
                    assert forall|a: int, b: int|
                        0 <= a < b < self.pairs@.len() implies (#[trigger] self.pairs@[a]).0 != (
                    #[trigger] self.pairs@[b]).0 by {
                        assert(old_pairs[a].0 != old_pairs[b].0);
                    }
                }
                return ;
            }
            i = i + 1;
        }
        let ghost old_pairs = self.pairs@;
        self.pairs.push((key, value));
        proof {
            assert(self.pairs@.drop_last() =~= old_pairs);
            Self::lemma_map_of(old_pairs);
            assert(!old(self)@.contains_key(key));
            assert forall|a: int, b: int|
                0 <= a < b < self.pairs@.len() implies (#[trigger] self.pairs@[a]).0 != (
            #[trigger] self.pairs@[b]).0 by {
                if b < self.pairs@.len() - 1 {
                    assert(old_pairs[a].0 != old_pairs[b].0);
                } else {
                    assert(self.pairs@[b].0 == key);
                    assert(self.pairs@[a] == old_pairs[a]);
                }
            }
        }
    }

    /// Updating the pair at a key's unique index rebinds exactly that key.
    proof fn lemma_replace(pairs: Seq<(u8, u8)>, i: int, key: u8, value: u8)
        requires
            0 <= i < pairs.len(),
            pairs[i].0 == key,
            forall|a: int, b: int|
                0 <= a < b < pairs.len() ==> (#[trigger] pairs[a]).0 != (#[trigger] pairs[b]).0,
        ensures
            Self::map_of(pairs.update(i, (key, value))) == Self::map_of(pairs).insert(key, value),
        decreases pairs.len(),
    {
        let updated = pairs.update(i, (key, value));
        if i == pairs.len() - 1 {
            assert(updated.drop_last() =~= pairs.drop_last());
            assert(updated.last() == (key, value));
            assert(Self::map_of(updated) == Self::map_of(pairs.drop_last()).insert(key, value));
            assert(Self::map_of(pairs.drop_last()).insert(key, value) =~= Self::map_of(
                pairs,
            ).insert(key, value));
        } else {
            assert(updated.drop_last() =~= pairs.drop_last().update(i, (key, value)));
            Self::lemma_replace(pairs.drop_last(), i, key, value);
            assert(updated.last() == pairs.last());
            assert(Self::map_of(updated) == Self::map_of(pairs.drop_last()).insert(
                key,
                value,
            ).insert(pairs.last().0, pairs.last().1));
            assert(pairs.last().0 != key);
            assert(Self::map_of(pairs.drop_last()).insert(key, value).insert(
                pairs.last().0,
                pairs.last().1,
            ) =~= Self::map_of(pairs).insert(key, value));
        }
    }

    /// The value bound to `key`, if any.
    pub fn get(&self, key: &u8) -> (r: Option<&u8>)
        requires
            self.wf(),
        ensures
            match r {
                Some(v) => self@.contains_key(*key) && *v == self@[*key],
                None => !self@.contains_key(*key),
            },
    {
        proof {
            Self::lemma_map_of(self.pairs@);
        }
        let n = self.pairs.len();
        let mut i: usize = 0;
        while i < n
            invariant
                self.wf(),
                n == self.pairs@.len(),
                i <= n,
                forall|j: int| 0 <= j < i ==> (#[trigger] self.pairs@[j]).0 != *key,
            decreases n - i,
        {
            if self.pairs[i].0 == *key {
                proof {
                    Self::lemma_map_of(self.pairs@);
                }
                return Some(&self.pairs[i].1);
            }
            i = i + 1;
        }
        proof {
            Self::lemma_map_of(self.pairs@);
        }
        None
    }

    /// The number of stored pairs.
    pub fn len(&self) -> (r: usize)
        ensures
            r == self.spec_len(),
    {
        self.pairs.len()
    }

    /// The byte `b` is mapped to, or `b` itself when unmapped.
    pub fn map_byte(&self, b: u8) -> (r: u8)
        requires
            self.wf(),
        ensures
            r == if self@.contains_key(b) {
                self@[b]
            } else {
                b
            },
    {
        match self.get(&b) {
            Some(v) => *v,
            None => b,
        }
    }
}

} // verus!

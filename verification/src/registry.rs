//! The session registry: the process-wide map from client-chosen marks
//! to live sessions.
//!
//! The registry itself holds session identifiers; the surrounding
//! process keeps the identified sessions (their queues and sockets) and
//! takes the lock around each whole operation. Marks are kept as raw
//! bytes, exactly as they arrive in a frame's Mark field.

use vstd::prelude::*;

verus! {

/// Whether two byte vectors hold the same bytes.
pub fn bytes_eq(a: &Vec<u8>, b: &Vec<u8>) -> (r: bool)
    ensures
        r == (a@ == b@),
{
    if a.len() != b.len() {
        proof {
            assert(a@ != b@);
        }
        return false;
    }
    let n = a.len();
    let mut i: usize = 0;
    while i < n
        invariant
            n == a@.len(),
            a@.len() == b@.len(),
            i <= n,
            forall|j: int| 0 <= j < i ==> a@[j] == b@[j],
        decreases n - i,
    {
        if a[i] != b[i] {
            proof {
                assert(a@[i as int] != b@[i as int]);
            }
            return false;
        }
        i = i + 1;
    }
    proof {
        assert(a@ =~= b@);
    }
    true
}

/// The map from mark bytes to session identifier.
pub struct Registry {
    entries: Vec<(Vec<u8>, u64)>,
}

impl Registry {
    /// The entries as a sequence of (mark bytes, session id) pairs.
    pub closed spec fn entries_view(&self) -> Seq<(Seq<u8>, u64)> {
        self.entries@.map_values(|e: (Vec<u8>, u64)| (e.0@, e.1))
    }

    /// The map formed by a pair sequence, later pairs overriding earlier.
    pub open spec fn map_of(pairs: Seq<(Seq<u8>, u64)>) -> Map<Seq<u8>, u64>
        decreases pairs.len(),
    {
        if pairs.len() == 0 {
            Map::empty()
        } else {
            Self::map_of(pairs.drop_last()).insert(pairs.last().0, pairs.last().1)
        }
    }

    /// The mathematical map this registry holds.
    pub closed spec fn view(&self) -> Map<Seq<u8>, u64> {
        Self::map_of(self.entries_view())
    }

    /// Marks occur at most once.
    pub closed spec fn wf(&self) -> bool {
        forall|i: int, j: int|
            0 <= i < j < self.entries_view().len() ==> (#[trigger] self.entries_view()[i]).0 != (
            #[trigger] self.entries_view()[j]).0
    }

    /// A mark is registered exactly when some pair holds it, and with
    /// unique marks the pair holding it gives its session.
    proof fn lemma_map_of(pairs: Seq<(Seq<u8>, u64)>)
        ensures
            forall|k: Seq<u8>|
                #[trigger] Self::map_of(pairs).contains_key(k) <==> exists|i: int|
                    0 <= i < pairs.len() && (#[trigger] pairs[i]).0 == k,
            forall|i: int|
                0 <= i < pairs.len() && (forall|j: int|
                    i < j < pairs.len() ==> (#[trigger] pairs[j]).0 != pairs[i].0)
                    ==> Self::map_of(pairs).contains_key((#[trigger] pairs[i]).0)
                    && Self::map_of(pairs)[pairs[i].0] == pairs[i].1,
        decreases pairs.len(),
    {
        if pairs.len() > 0 {
            Self::lemma_map_of(pairs.drop_last());
            let prefix = pairs.drop_last();
            assert forall|k: Seq<u8>| #[trigger]
                Self::map_of(pairs).contains_key(k) implies exists|i: int|
                0 <= i < pairs.len() && (#[trigger] pairs[i]).0 == k by {
                if k == pairs.last().0 {
                    assert(pairs[pairs.len() - 1].0 == k);
                } else {
                    assert(Self::map_of(prefix).contains_key(k));
                    let i = choose|i: int| 0 <= i < prefix.len() && (#[trigger] prefix[i]).0 == k;
                    assert(pairs[i].0 == k);
                }
            }
            assert forall|k: Seq<u8>| (exists|i: int|
                0 <= i < pairs.len() && (#[trigger] pairs[i]).0 == k) implies #[trigger]
                Self::map_of(pairs).contains_key(k) by {
                let i = choose|i: int| 0 <= i < pairs.len() && (#[trigger] pairs[i]).0 == k;
                if i < pairs.len() - 1 {
                    assert(prefix[i].0 == k);
                    assert(Self::map_of(prefix).contains_key(k));
                }
            }
            assert forall|i: int|
                0 <= i < pairs.len() && (forall|j: int|
                    i < j < pairs.len() ==> (#[trigger] pairs[j]).0 != pairs[i].0)
                    implies Self::map_of(pairs).contains_key((#[trigger] pairs[i]).0)
                && Self::map_of(pairs)[pairs[i].0] == pairs[i].1 by {
                if i == pairs.len() - 1 {
                    assert(Self::map_of(pairs)[pairs.last().0] == pairs.last().1);
                } else {
                    assert(prefix[i].0 == pairs[i].0 && prefix[i].1 == pairs[i].1);
                    assert(forall|j: int|
                        i < j < prefix.len() ==> (#[trigger] prefix[j]).0 != prefix[i].0);
                    assert(Self::map_of(prefix).contains_key(prefix[i].0) && Self::map_of(prefix)[
                        prefix[i].0] == prefix[i].1);
                    assert(pairs[pairs.len() - 1].0 != pairs[i].0);
                }
            }
        }
    }

    /// Rebinding the pair at a mark's unique index rebinds exactly that
    /// mark.
    proof fn lemma_replace(pairs: Seq<(Seq<u8>, u64)>, i: int, key: Seq<u8>, value: u64)
        requires
            0 <= i < pairs.len(),
            pairs[i].0 == key,
            forall|a: int, b: int|
                0 <= a < b < pairs.len() ==> (#[trigger] pairs[a]).0 != (#[trigger] pairs[b]).0,
        ensures
            Self::map_of(pairs.update(i, (key, value))) == Self::map_of(pairs).insert(key, value),
        decreases pairs.len(),
    {
        let updated = pairs.update(i, (key, value));
        if i == pairs.len() - 1 {
            assert(updated.drop_last() =~= pairs.drop_last());
            assert(updated.last() == (key, value));
            assert(Self::map_of(pairs.drop_last()).insert(key, value) =~= Self::map_of(
                pairs,
            ).insert(key, value));
        } else {
            assert(updated.drop_last() =~= pairs.drop_last().update(i, (key, value)));
            Self::lemma_replace(pairs.drop_last(), i, key, value);
            assert(updated.last() == pairs.last());
            assert(pairs.last().0 != key);
            assert(Self::map_of(pairs.drop_last()).insert(key, value).insert(
                pairs.last().0,
                pairs.last().1,
            ) =~= Self::map_of(pairs).insert(key, value));
        }
    }

    /// Removing the pair at a mark's unique index removes exactly that
    /// mark.
    proof fn lemma_remove(pairs: Seq<(Seq<u8>, u64)>, i: int)
        requires
            0 <= i < pairs.len(),
            forall|a: int, b: int|
                0 <= a < b < pairs.len() ==> (#[trigger] pairs[a]).0 != (#[trigger] pairs[b]).0,
        ensures
            Self::map_of(pairs.remove(i)) == Self::map_of(pairs).remove(pairs[i].0),
        decreases pairs.len(),
    {
        Self::lemma_map_of(pairs.drop_last());
        let removed = pairs.remove(i);
        if i == pairs.len() - 1 {
            assert(removed =~= pairs.drop_last());
            assert(!Self::map_of(pairs.drop_last()).contains_key(pairs[i].0)) by {
                if Self::map_of(pairs.drop_last()).contains_key(pairs[i].0) {
                    let j = choose|j: int|
                        0 <= j < pairs.drop_last().len() && (#[trigger] pairs.drop_last()[j]).0
                            == pairs[i].0;
                    assert(pairs[j].0 == pairs[i].0);
                }
            }
            assert(Self::map_of(pairs.drop_last()).insert(pairs[i].0, pairs[i].1).remove(
                pairs[i].0,
            ) =~= Self::map_of(pairs.drop_last()));
        } else {
            assert(removed.drop_last() =~= pairs.drop_last().remove(i));
            Self::lemma_remove(pairs.drop_last(), i);
            assert(removed.last() == pairs.last());
            assert(pairs.drop_last()[i] == pairs[i]);
            assert(pairs.last().0 != pairs[i].0);
            assert(Self::map_of(pairs.drop_last()).remove(pairs[i].0).insert(
                pairs.last().0,
                pairs.last().1,
            ) =~= Self::map_of(pairs).remove(pairs[i].0));
        }
    }

    /// An empty registry.
    pub fn new() -> (r: Registry)
        ensures
            r@ == Map::<Seq<u8>, u64>::empty(),
            r.wf(),
    {
        let r = Registry { entries: Vec::new() };
        proof {
            assert(r.entries_view() =~= Seq::<(Seq<u8>, u64)>::empty());
        }
        r
    }

    /// Registers `sid` under `mark`, unconditionally. A session already
    /// registered under the mark is displaced and handed back; it is not
    /// closed here.
    pub fn insert(&mut self, mark: Vec<u8>, sid: u64) -> (displaced: Option<u64>)
        requires
            old(self).wf(),
        ensures
            final(self).wf(),
            final(self)@ == old(self)@.insert(mark@, sid),
            displaced == if old(self)@.contains_key(mark@) {
                Some(old(self)@[mark@])
            } else {
                None::<u64>
            },
    {
        proof {
            Self::lemma_map_of(self.entries_view());
        }
        let n = self.entries.len();
        let mut i: usize = 0;
        while i < n
            invariant
                self == old(self),
                old(self).wf(),
                n == self.entries@.len(),
                i <= n,
                forall|j: int| 0 <= j < i ==> (#[trigger] self.entries@[j]).0@ != mark@,
            decreases n - i,
        {
            if bytes_eq(&self.entries[i].0, &mark) {
                let ghost old_pairs = self.entries_view();
                proof {
                    Self::lemma_map_of(old_pairs);
                    assert(old_pairs[i as int].0 == mark@);
                    assert(old(self)@.contains_key(mark@) && old(self)@[mark@] == old_pairs[
                        i as int].1);
                }
                let prior = self.entries[i].1;
                self.entries[i] = (mark, sid);
                proof {
                    assert(self.entries_view() =~= old_pairs.update(i as int, (mark@, sid)));
                    Self::lemma_replace(old_pairs, i as int, mark@, sid);
                    assert forall|a: int, b: int|
                        0 <= a < b < self.entries_view().len() implies (
                    #[trigger] self.entries_view()[a]).0 != (#[trigger] self.entries_view()[
                        b]).0 by {
                        assert(old_pairs[a].0 != old_pairs[b].0);
                        if a != i && b != i {
                            assert(self.entries_view()[a] == old_pairs[a]);
                            assert(self.entries_view()[b] == old_pairs[b]);
                        }
                    }
                }
                return Some(prior);
            }
            i = i + 1;
        }
        let ghost old_pairs = self.entries_view();
        self.entries.push((mark, sid));
        proof {
            Self::lemma_map_of(old_pairs);
            assert(!old(self)@.contains_key(mark@)) by {
                if old(self)@.contains_key(mark@) {
                    let j = choose|j: int|
                        0 <= j < old_pairs.len() && (#[trigger] old_pairs[j]).0 == mark@;
                    assert(old(self).entries@[j].0@ == mark@);
                }
            }
            assert(self.entries_view().drop_last() =~= old_pairs);
            assert(self.entries_view().last() == (mark@, sid));
            assert forall|a: int, b: int|
                0 <= a < b < self.entries_view().len() implies (
            #[trigger] self.entries_view()[a]).0 != (#[trigger] self.entries_view()[b]).0 by {
                if b < self.entries_view().len() - 1 {
                    assert(old_pairs[a].0 != old_pairs[b].0);
                } else {
                    assert(self.entries_view()[b].0 == mark@);
                    assert(self.entries_view()[a] == old_pairs[a]);
                    assert(old(self).entries@[a].0@ != mark@);
                }
            }
        }
        None
    }

    /// The session registered under `mark`, if any.
    pub fn get(&self, mark: &Vec<u8>) -> (r: Option<u64>)
        requires
            self.wf(),
        ensures
            r == if self@.contains_key(mark@) {
                Some(self@[mark@])
            } else {
                None::<u64>
            },
    {
        proof {
            Self::lemma_map_of(self.entries_view());
        }
        let n = self.entries.len();
        let mut i: usize = 0;
        while i < n
            invariant
                self.wf(),
                n == self.entries@.len(),
                i <= n,
                forall|j: int| 0 <= j < i ==> (#[trigger] self.entries@[j]).0@ != mark@,
            decreases n - i,
        {
            if bytes_eq(&self.entries[i].0, mark) {
                proof {
                    Self::lemma_map_of(self.entries_view());
                    assert(self.entries_view()[i as int].0 == mark@);
                }
                return Some(self.entries[i].1);
            }
            i = i + 1;
        }
        proof {
            Self::lemma_map_of(self.entries_view());
            assert(!self@.contains_key(mark@)) by {
                if self@.contains_key(mark@) {
                    let j = choose|j: int|
                        0 <= j < self.entries_view().len() && (#[trigger] self.entries_view()[j]).0
                            == mark@;
                    assert(self.entries@[j].0@ == mark@);
                }
            }
        }
        None
    }

    /// Whether a session is registered under `mark`.
    pub fn contains_key(&self, mark: &Vec<u8>) -> (r: bool)
        requires
            self.wf(),
        ensures
            r == self@.contains_key(mark@),
    {
        match self.get(mark) {
            Some(_) => true,
            None => false,
        }
    }

    /// Unregisters `mark` and hands back its session, if one was there.
    pub fn remove(&mut self, mark: &Vec<u8>) -> (r: Option<u64>)
        requires
            old(self).wf(),
        ensures
            final(self).wf(),
            final(self)@ == old(self)@.remove(mark@),
            r == if old(self)@.contains_key(mark@) {
                Some(old(self)@[mark@])
            } else {
                None::<u64>
            },
    {
        proof {
            Self::lemma_map_of(self.entries_view());
        }
        let n = self.entries.len();
        let mut i: usize = 0;
        while i < n
            invariant
                self == old(self),
                old(self).wf(),
                n == self.entries@.len(),
                i <= n,
                forall|j: int| 0 <= j < i ==> (#[trigger] self.entries@[j]).0@ != mark@,
            decreases n - i,
        {
            if bytes_eq(&self.entries[i].0, mark) {
                let ghost old_pairs = self.entries_view();
                proof {
                    Self::lemma_map_of(old_pairs);
                    assert(old_pairs[i as int].0 == mark@);
                    assert(old(self)@.contains_key(mark@) && old(self)@[mark@] == old_pairs[
                        i as int].1);
                }
                let removed = self.entries.remove(i);
                proof {
                    assert(self.entries_view() =~= old_pairs.remove(i as int));
                    Self::lemma_remove(old_pairs, i as int);
                    assert forall|a: int, b: int|
                        0 <= a < b < self.entries_view().len() implies (
                    #[trigger] self.entries_view()[a]).0 != (#[trigger] self.entries_view()[
                        b]).0 by {
                        if b < i {
                            assert(old_pairs[a].0 != old_pairs[b].0);
                        } else if a < i {
                            assert(self.entries_view()[b] == old_pairs[b + 1]);
                            assert(old_pairs[a].0 != old_pairs[b + 1].0);
                        } else {
                            assert(self.entries_view()[a] == old_pairs[a + 1]);
                            assert(self.entries_view()[b] == old_pairs[b + 1]);
                            assert(old_pairs[a + 1].0 != old_pairs[b + 1].0);
                        }
                    }
                }
                return Some(removed.1);
            }
            i = i + 1;
        }
        proof {
            Self::lemma_map_of(self.entries_view());
            assert(!old(self)@.contains_key(mark@)) by {
                if old(self)@.contains_key(mark@) {
                    let j = choose|j: int|
                        0 <= j < self.entries_view().len() && (#[trigger] self.entries_view()[j]).0
                            == mark@;
                    assert(self.entries@[j].0@ == mark@);
                }
            }
            assert(old(self)@.remove(mark@) =~= old(self)@);
        }
        None
    }
}

} // verus!

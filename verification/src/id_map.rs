//! Maps from 20-byte identities.

use vstd::prelude::*;

use crate::bytes::equal;
use crate::order::{
    is_before, lemma_precedes_irreflexive, lemma_precedes_total, lemma_precedes_transitive, precedes,
};

verus! {

/// A map from 20-byte identities, kept in their order.
pub struct IdMap<V> {
    entries: Vec<([u8; 20], V)>,
}

impl<V> IdMap<V> {
    /// The identities in the map, in order.
    pub closed spec fn ids(self) -> Seq<Seq<u8>> {
        Seq::new(self.entries@.len(), |i: int| self.entries@[i].0@)
    }

    /// The values, each at the index of its identity in `ids`.
    pub closed spec fn values(self) -> Seq<V> {
        Seq::new(self.entries@.len(), |i: int| self.entries@[i].1)
    }

    /// The identities are in order, and so no two of them are equal.
    pub open spec fn wf(self) -> bool {
        &&& self.ids().len() == self.values().len()
        &&& forall|i: int, j: int|
            0 <= i < j < self.ids().len() ==> precedes(#[trigger] self.ids()[i], #[trigger] self.ids()[j])
    }
}

impl<V> View for IdMap<V> {
    type V = Map<Seq<u8>, V>;

    open spec fn view(&self) -> Map<Seq<u8>, V> {
        Map::new(
            |id: Seq<u8>| self.ids().contains(id),
            |id: Seq<u8>| self.values()[self.ids().index_of(id)],
        )
    }
}

/// The part of `m` whose values are `wanted`.
pub open spec fn kept<V>(m: Map<Seq<u8>, V>, wanted: spec_fn(V) -> bool) -> Map<Seq<u8>, V> {
    Map::new(|id: Seq<u8>| m.contains_key(id) && wanted(m[id]), |id: Seq<u8>| m[id])
}

/// The identities of a map in order are its domain, each once, and the
/// values stand beside them.
pub proof fn lemma_ids<V>(m: IdMap<V>)
    requires
        m.wf(),
    ensures
        m.ids().no_duplicates(),
        m.ids().to_set() == m@.dom(),
        m@.dom().finite(),
        m@.len() == m.ids().len(),
        m.values().len() == m.ids().len(),
        forall|i: int|
            0 <= i < m.ids().len() ==> {
                &&& m@.contains_key(#[trigger] m.ids()[i])
                &&& m@[m.ids()[i]] == m.values()[i]
            },
{
    let ids = m.ids();
    assert forall|i: int, j: int| 0 <= i < ids.len() && 0 <= j < ids.len() && i != j implies ids[i]
        != ids[j] by {
        lemma_precedes_irreflexive(ids[i]);
        if i < j {
            assert(precedes(ids[i], ids[j]));
        } else {
            assert(precedes(ids[j], ids[i]));
        }
    }
    ids.unique_seq_to_set();
    assert(ids.to_set() =~= m@.dom());
    assert forall|i: int| 0 <= i < ids.len() implies {
        &&& m@.contains_key(#[trigger] ids[i])
        &&& m@[ids[i]] == m.values()[i]
    } by {
        assert(ids.contains(ids[i]));
        assert(ids.index_of(ids[i]) == i);
    }
}

impl<V> IdMap<V> {
    /// An empty map.
    pub fn new() -> (m: Self)
        ensures
            m.wf(),
            m@ == Map::<Seq<u8>, V>::empty(),
    {
        let m = IdMap { entries: Vec::new() };
        assert(m@ =~= Map::<Seq<u8>, V>::empty());
        m
    }

    /// How many identities are in the map.
    pub fn len(&self) -> (n: usize)
        requires
            self.wf(),
        ensures
            n == self@.len(),
            n == self.ids().len(),
            n == self.values().len(),
    {
        proof {
            lemma_ids(*self);
        }
        self.entries.len()
    }

    /// Whether the map holds nothing.
    pub fn is_empty(&self) -> (r: bool)
        ensures
            r == (self.ids().len() == 0),
    {
        self.entries.len() == 0
    }

    /// The identity at an index.
    pub fn id_at(&self, i: usize) -> (id: &[u8; 20])
        requires
            i < self.ids().len(),
        ensures
            id@ == self.ids()[i as int],
    {
        &self.entries[i].0
    }

    /// The value at an index.
    pub fn value_at(&self, i: usize) -> (v: &V)
        requires
            i < self.values().len(),
        ensures
            *v == self.values()[i as int],
    {
        &self.entries[i].1
    }

    /// The value at an index, to change it.
    pub fn value_at_mut(&mut self, i: usize) -> (v: &mut V)
        requires
            i < old(self).values().len(),
        ensures
            *v == old(self).values()[i as int],
            final(self).ids() == old(self).ids(),
            final(self).values() == old(self).values().update(i as int, *final(v)),
    {
        &mut self.entries[i].1
    }

    /// Where `id` is, or where it would have to stand.
    fn locate(&self, id: &[u8; 20]) -> (r: (bool, usize))
        requires
            self.wf(),
        ensures
            r.0 == self@.contains_key(id@),
            r.1 <= self.ids().len(),
            r.0 ==> r.1 < self.ids().len() && self.ids()[r.1 as int] == id@,
            !r.0 ==> {
                &&& forall|i: int| 0 <= i < r.1 ==> precedes(#[trigger] self.ids()[i], id@)
                &&& forall|i: int|
                    r.1 <= i < self.ids().len() ==> precedes(id@, #[trigger] self.ids()[i])
            },
    {
        let mut low: usize = 0;
        let mut high: usize = self.entries.len();
        while low < high
            invariant
                self.wf(),
                low <= high <= self.ids().len(),
                forall|i: int| 0 <= i < low ==> precedes(#[trigger] self.ids()[i], id@),
                forall|i: int|
                    high <= i < self.ids().len() ==> !precedes(#[trigger] self.ids()[i], id@),
            decreases high - low,
        {
            let mid: usize = low + (high - low) / 2;
            let ghost key = self.ids()[mid as int];
            if is_before(&self.entries[mid].0, id) {
                assert forall|i: int| 0 <= i < mid + 1 implies precedes(
                    #[trigger] self.ids()[i],
                    id@,
                ) by {
                    if i < mid {
                        lemma_precedes_transitive(self.ids()[i], key, id@);
                    }
                }
                low = mid + 1;
            } else {
                assert forall|i: int| mid <= i < self.ids().len() implies !precedes(
                    #[trigger] self.ids()[i],
                    id@,
                ) by {
                    if mid < i && precedes(self.ids()[i], id@) {
                        lemma_precedes_transitive(key, self.ids()[i], id@);
                    }
                }
                high = mid;
            }
        }
        let found: bool = low < self.entries.len() && equal(&self.entries[low].0, id);
        proof {
            if found {
                assert(self.ids().contains(self.ids()[low as int]));
            } else {
                lemma_precedes_irreflexive(id@);
                assert forall|i: int| low <= i < self.ids().len() implies precedes(
                    id@,
                    #[trigger] self.ids()[i],
                ) by {
                    lemma_precedes_total(id@, self.ids()[low as int]);
                    if low < i {
                        lemma_precedes_transitive(id@, self.ids()[low as int], self.ids()[i]);
                    }
                }
            }
        }
        (found, low)
    }

    /// The index of `id`, if it is in the map.
    pub fn find(&self, id: &[u8; 20]) -> (r: Option<usize>)
        requires
            self.wf(),
        ensures
            match r {
                Some(i) => i < self.ids().len() && self.ids()[i as int] == id@,
                None => !self@.contains_key(id@),
            },
    {
        let (found, i) = self.locate(id);
        if found {
            Some(i)
        } else {
            None
        }
    }

    /// Maps `id` to `value`, in place of what it was mapped to, and tells its
    /// index.
    pub fn insert(&mut self, id: [u8; 20], value: V) -> (index: usize)
        requires
            old(self).wf(),
        ensures
            final(self).wf(),
            final(self)@ == old(self)@.insert(id@, value),
            index < final(self).ids().len(),
            final(self).ids()[index as int] == id@,
    {
        let (found, i) = self.locate(&id);
        proof {
            lemma_ids(*self);
        }
        if found {
            self.entries[i] = (id, value);
            assert(self.ids() =~= old(self).ids());
            assert(self.values() =~= old(self).values().update(i as int, value));
        } else {
            self.entries.insert(i, (id, value));
            assert(self.ids() =~= old(self).ids().insert(i as int, id@));
            assert(self.values() =~= old(self).values().insert(i as int, value));
        }
        proof {
            lemma_ids(*self);
            assert forall|k: Seq<u8>| self@.contains_key(k) == old(self)@.insert(
                id@,
                value,
            ).contains_key(k) by {
                assert(self.ids()[i as int] == id@);
                if old(self).ids().contains(k) {
                    let j = old(self).ids().index_of(k);
                    assert(self.ids()[if found || j < i {
                        j
                    } else {
                        j + 1
                    }] == k);
                }
            }
            assert forall|k: Seq<u8>| self@.contains_key(k) implies self@[k] == old(self)@.insert(
                id@,
                value,
            )[k] by {
                let j = self.ids().index_of(k);
                assert(self.ids()[j] == k);
                if j != i {
                    let before = if found || j < i {
                        j
                    } else {
                        j - 1
                    };
                    assert(old(self).ids()[before] == k);
                }
            }
            assert(self@ =~= old(self)@.insert(id@, value));
        }
        i
    }

    /// Takes `id` out of the map, if it is there.
    pub fn remove(&mut self, id: &[u8; 20])
        requires
            old(self).wf(),
        ensures
            final(self).wf(),
            final(self)@ == old(self)@.remove(id@),
    {
        let (found, i) = self.locate(id);
        proof {
            lemma_ids(*self);
        }
        if found {
            self.entries.remove(i);
            proof {
                assert(self.ids() =~= old(self).ids().remove(i as int));
                assert(self.values() =~= old(self).values().remove(i as int));
                lemma_ids(*self);
                assert forall|k: Seq<u8>| self@.contains_key(k) == old(self)@.remove(
                    id@,
                ).contains_key(k) by {
                    if old(self).ids().contains(k) && k != id@ {
                        let j = old(self).ids().index_of(k);
                        assert(self.ids()[if j < i {
                            j
                        } else {
                            j - 1
                        }] == k);
                    }
                    if self.ids().contains(k) {
                        let j = self.ids().index_of(k);
                        assert(old(self).ids()[if j < i {
                            j
                        } else {
                            j + 1
                        }] == k);
                    }
                }
                assert forall|k: Seq<u8>| self@.contains_key(k) implies self@[k]
                    == old(self)@[k] by {
                    let j = self.ids().index_of(k);
                    assert(self.ids()[j] == k);
                    assert(old(self).ids()[if j < i {
                        j
                    } else {
                        j + 1
                    }] == k);
                }
            }
        }
        assert(self@ =~= old(self)@.remove(id@));
    }

    /// Keeps the entries whose values `keep` accepts, and no others.
    pub fn retain<F: Fn(&V) -> bool>(&mut self, keep: F, Ghost(wanted): Ghost<spec_fn(V) -> bool>)
        requires
            old(self).wf(),
            forall|v: V| #[trigger] keep.requires((&v,)),
            forall|v: V, b: bool| #[trigger] keep.ensures((&v,), b) ==> b == wanted(v),
        ensures
            final(self).wf(),
            final(self)@ == kept(old(self)@, wanted),
    {
        let mut all: Vec<([u8; 20], V)> = Vec::new();
        std::mem::swap(&mut all, &mut self.entries);
        let ghost source = all@;
        let ghost mut from: Seq<int> = Seq::empty();
        for entry in it: all
            invariant
                it.seq() == source,
                forall|v: V| #[trigger] keep.requires((&v,)),
                forall|v: V, b: bool| #[trigger] keep.ensures((&v,), b) ==> b == wanted(v),
                from.len() == self.entries@.len(),
                forall|k: int| 0 <= k < from.len() ==> 0 <= #[trigger] from[k] < it.index(),
                forall|k: int, l: int| 0 <= k < l < from.len() ==> from[k] < from[l],
                forall|k: int|
                    0 <= k < from.len() ==> self.entries@[k] == source[#[trigger] from[k]],
                forall|k: int| 0 <= k < from.len() ==> wanted(source[#[trigger] from[k]].1),
                forall|j: int|
                    0 <= j < it.index() && wanted((#[trigger] source[j]).1) ==> from.contains(j),
        {
            let ghost index = it.index() as int;
            let ghost before = from;
            if keep(&entry.1) {
                self.entries.push(entry);
                proof {
                    from = from.push(index);
                    assert(from[from.len() - 1] == index);
                    assert forall|j: int| before.contains(j) implies from.contains(j) by {
                        assert(from[before.index_of(j)] == j);
                    }
                }
            }
        }
        proof {
            lemma_ids(*old(self));
            assert(forall|k: int|
                0 <= k < from.len() ==> self.ids()[k] == old(self).ids()[#[trigger] from[k]]);
            assert forall|k: int, l: int| 0 <= k < l < self.ids().len() implies precedes(
                #[trigger] self.ids()[k],
                #[trigger] self.ids()[l],
            ) by {
                assert(precedes(old(self).ids()[from[k]], old(self).ids()[from[l]]));
            }
            lemma_ids(*self);
            let wanted_part = kept(old(self)@, wanted);
            assert forall|id: Seq<u8>| self@.contains_key(id) == wanted_part.contains_key(id) by {
                if self.ids().contains(id) {
                    let k = self.ids().index_of(id);
                    assert(old(self).ids()[from[k]] == id);
                    assert(old(self).values()[from[k]] == source[from[k]].1);
                }
                if wanted_part.contains_key(id) {
                    let j = old(self).ids().index_of(id);
                    assert(wanted(source[j].1));
                    let k = from.index_of(j);
                    assert(self.ids()[k] == id);
                }
            }
            assert forall|id: Seq<u8>| self@.contains_key(id) implies self@[id]
                == wanted_part[id] by {
                let k = self.ids().index_of(id);
                assert(self.ids()[k] == id);
                assert(old(self).ids()[from[k]] == id);
                assert(old(self).values()[from[k]] == source[from[k]].1);
            }
            assert(self@ =~= wanted_part);
        }
    }
}

} // verus!

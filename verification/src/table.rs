//! An ordered table: keys in ascending order, each with one value.

use crate::id::Id;
use vstd::prelude::*;

verus! {

/// The order of the places of keys: by the first number, then by the second.
pub open spec fn place_less(a: (int, int), b: (int, int)) -> bool {
    a.0 < b.0 || (a.0 == b.0 && a.1 < b.1)
}

/// Each place comes before all that follow it.
pub open spec fn ascending(places: Seq<(int, int)>) -> bool {
    forall|i: int, j: int|
        0 <= i < j < places.len() ==> place_less(#[trigger] places[i], #[trigger] places[j])
}

/// A key of a table. Keys are ordered by their places.
pub trait Key: Sized {
    /// Where the key stands among all keys.
    spec fn place(&self) -> (int, int);

    /// Whether `self` comes before `other`.
    fn comes_before(&self, other: &Self) -> (r: bool)
        ensures
            r == place_less(self.place(), other.place()),
    ;

    /// No place holds a negative number.
    proof fn place_bounds(&self)
        ensures
            0 <= self.place().0,
            0 <= self.place().1,
    ;
}

impl Key for Id {
    open spec fn place(&self) -> (int, int) {
        (self.rank(), 0)
    }

    fn comes_before(&self, other: &Self) -> (r: bool) {
        self.less(other)
    }

    proof fn place_bounds(&self) {
        self.rank_bounds();
    }
}

impl Key for (Id, Id) {
    open spec fn place(&self) -> (int, int) {
        (self.0.rank(), self.1.rank())
    }

    fn comes_before(&self, other: &Self) -> (r: bool) {
        self.0.less(&other.0) || (self.0.same(&other.0) && self.1.less(&other.1))
    }

    proof fn place_bounds(&self) {
        self.0.rank_bounds();
        self.1.rank_bounds();
    }
}

/// A table of keys in ascending order, each with its value.
pub struct Table<K: Key, V> {
    entries: Vec<(K, V)>,
}

impl<K: Key, V> Table<K, V> {
    /// The places of the keys, in the order in which the table holds them.
    pub closed spec fn places(&self) -> Seq<(int, int)> {
        Seq::new(self.entries@.len(), |i: int| self.entries@[i].0.place())
    }

    /// The values, each at the position of its key.
    pub closed spec fn values(&self) -> Seq<V> {
        Seq::new(self.entries@.len(), |i: int| self.entries@[i].1)
    }

    /// The keys ascend, so no key stands twice.
    pub open spec fn wf(&self) -> bool {
        &&& ascending(self.places())
        &&& self.values().len() == self.places().len()
    }

    /// The places that hold a key.
    pub open spec fn domain(&self) -> Set<(int, int)> {
        self.places().to_set()
    }

    /// Whether the table holds a key at `place`.
    pub open spec fn has(&self, place: (int, int)) -> bool {
        self.domain().contains(place)
    }

    /// The table as a map from places to values.
    pub open spec fn model(&self) -> Map<(int, int), V> {
        Map::new(
            |p: (int, int)| self.domain().contains(p),
            |p: (int, int)| self.values()[self.places().index_of(p)],
        )
    }

    /// An empty table.
    pub fn new() -> (table: Self)
        ensures
            table.wf(),
            table.places() == Seq::<(int, int)>::empty(),
            table.domain() == Set::<(int, int)>::empty(),
    {
        let table = Table { entries: Vec::new() };
        assert(table.places() =~= Seq::<(int, int)>::empty());
        assert(table.domain() =~= Set::<(int, int)>::empty());
        table
    }

    /// The number of keys.
    pub fn len(&self) -> (n: usize)
        ensures
            n == self.places().len(),
    {
        self.entries.len()
    }

    /// The key at position `i`.
    pub fn key_at(&self, i: usize) -> (key: &K)
        requires
            i < self.places().len(),
        ensures
            key.place() == self.places()[i as int],
    {
        &self.entries[i].0
    }

    /// The value at position `i`.
    pub fn value_at(&self, i: usize) -> (value: &V)
        requires
            i < self.places().len(),
        ensures
            *value == self.values()[i as int],
    {
        &self.entries[i].1
    }

    /// The position of the first key that does not come before `key`: the
    /// number of keys where there is none.
    pub fn seek(&self, key: &K) -> (i: usize)
        requires
            self.wf(),
        ensures
            i <= self.places().len(),
            forall|j: int| 0 <= j < i ==> place_less(#[trigger] self.places()[j], key.place()),
            forall|j: int|
                i <= j < self.places().len() ==> !place_less(
                    #[trigger] self.places()[j],
                    key.place(),
                ),
    {
        let mut low: usize = 0;
        let mut high: usize = self.entries.len();
        while low < high
            invariant
                self.wf(),
                low <= high <= self.places().len(),
                forall|j: int| 0 <= j < low ==> place_less(#[trigger] self.places()[j], key.place()),
                forall|j: int|
                    high <= j < self.places().len() ==> !place_less(
                        #[trigger] self.places()[j],
                        key.place(),
                    ),
            decreases high - low,
        {
            let middle: usize = low + (high - low) / 2;
            if self.entries[middle].0.comes_before(key) {
                assert forall|j: int| 0 <= j < middle + 1 implies place_less(
                    #[trigger] self.places()[j],
                    key.place(),
                ) by {
                    if j < middle {
                        assert(place_less(self.places()[j], self.places()[middle as int]));
                    }
                }
                low = middle + 1;
            } else {
                assert forall|j: int| middle <= j < self.places().len() implies !place_less(
                    #[trigger] self.places()[j],
                    key.place(),
                ) by {
                    if middle < j {
                        assert(place_less(self.places()[middle as int], self.places()[j]));
                    }
                }
                high = middle;
            }
        }
        low
    }

    /// The value of `key`, where the table holds the key.
    pub fn get(&self, key: &K) -> (value: Option<&V>)
        requires
            self.wf(),
        ensures
            value is Some <==> self.has(key.place()),
            value is Some ==> *value->0 == self.model()[key.place()],
    {
        let i = self.seek(key);
        if i < self.entries.len() && !key.comes_before(&self.entries[i].0) {
            proof {
                self.lemma_position(i as int);
            }
            Some(&self.entries[i].1)
        } else {
            proof {
                self.lemma_absent(i as int, key.place());
            }
            None
        }
    }

    /// The positions of a table can be counted in `usize`.
    pub proof fn lemma_len_bound(&self)
        ensures
            self.places().len() <= usize::MAX,
    {
        assert(self.entries@.len() == self.entries.len());
    }

    /// The places of the keys hold no negative number.
    pub proof fn lemma_place_bounds(&self, i: int)
        requires
            0 <= i < self.places().len(),
        ensures
            0 <= self.places()[i].0,
            0 <= self.places()[i].1,
    {
        self.entries@[i].0.place_bounds();
    }

    /// The table holds finitely many keys: as many as it has positions.
    pub proof fn lemma_domain_len(&self)
        requires
            self.wf(),
        ensures
            self.domain().finite(),
            self.domain().len() == self.places().len(),
            self.model().dom() == self.domain(),
    {
        assert forall|i: int, j: int|
            0 <= i < self.places().len() && 0 <= j < self.places().len() && i != j implies self.places()[i]
            != self.places()[j] by {
            if i < j {
                assert(place_less(self.places()[i], self.places()[j]));
            } else {
                assert(place_less(self.places()[j], self.places()[i]));
            }
        }
        self.places().unique_seq_to_set();
        assert(self.model().dom() =~= self.domain());
    }

    /// The key at position `i` is found at that position and nowhere else.
    pub proof fn lemma_position(&self, i: int)
        requires
            self.wf(),
            0 <= i < self.places().len(),
        ensures
            self.has(self.places()[i]),
            self.places().index_of(self.places()[i]) == i,
            self.model()[self.places()[i]] == self.values()[i],
    {
        let p = self.places()[i];
        let j = self.places().index_of(p);
        assert(self.places()[i] == p);
        if j < i {
            assert(place_less(self.places()[j], self.places()[i]));
        }
        if i < j {
            assert(place_less(self.places()[i], self.places()[j]));
        }
    }

    /// A place that the key at its lower bound does not hold is held by no
    /// key.
    pub proof fn lemma_absent(&self, i: int, place: (int, int))
        requires
            self.wf(),
            0 <= i <= self.places().len(),
            forall|j: int| 0 <= j < i ==> place_less(#[trigger] self.places()[j], place),
            i < self.places().len() ==> place_less(place, self.places()[i]),
        ensures
            !self.has(place),
    {
        if self.has(place) {
            let j = self.places().index_of(place);
            assert(self.places()[j] == place);
            if j < i {
                assert(place_less(self.places()[j], place));
            } else if j > i {
                assert(place_less(self.places()[i], self.places()[j]));
            }
        }
    }

    /// A key that comes after the key at position `q` is met at a later
    /// position, and the key at the next position does not come after it.
    pub proof fn lemma_successor(&self, q: int, place: (int, int))
        requires
            self.wf(),
            0 <= q < self.places().len(),
            self.has(place),
            place_less(self.places()[q], place),
        ensures
            q + 1 < self.places().len(),
            !place_less(place, self.places()[q + 1]),
    {
        let j = self.places().index_of(place);
        assert(self.places()[j] == place);
        if j < q {
            assert(place_less(self.places()[j], self.places()[q]));
        }
        if q + 1 < j {
            assert(place_less(self.places()[q + 1], self.places()[j]));
        }
    }

    /// A key that does not come before `from` is met at or after the lower
    /// bound `q` of `from`, and the key at `q` does not come after it.
    pub proof fn lemma_lower_bound(&self, q: int, from: (int, int), place: (int, int))
        requires
            self.wf(),
            0 <= q <= self.places().len(),
            forall|j: int| 0 <= j < q ==> place_less(#[trigger] self.places()[j], from),
            self.has(place),
            !place_less(place, from),
        ensures
            q < self.places().len(),
            !place_less(place, self.places()[q]),
    {
        let j = self.places().index_of(place);
        assert(self.places()[j] == place);
        if j < q {
            assert(place_less(self.places()[j], from));
        }
        if q < j {
            assert(place_less(self.places()[q], self.places()[j]));
        }
    }

    /// Sets the value of `key`, which joins the table where it is new.
    pub fn insert(&mut self, key: K, value: V)
        requires
            old(self).wf(),
        ensures
            final(self).wf(),
            final(self).model() == old(self).model().insert(key.place(), value),
            final(self).domain() == old(self).domain().insert(key.place()),
    {
        let i = self.seek(&key);
        let ghost before = *self;
        let ghost place = key.place();
        if i < self.entries.len() && !key.comes_before(&self.entries[i].0) {
            self.entries.set(i, (key, value));
            proof {
                assert(self.places() =~= before.places());
                assert(self.values() =~= before.values().update(i as int, value));
                before.lemma_position(i as int);
                assert forall|p: (int, int)| self.has(p) implies #[trigger] self.model()[p]
                    == before.model().insert(place, value)[p] by {
                    let j = self.places().index_of(p);
                    assert(self.places()[j] == p);
                    before.lemma_position(j);
                }
                assert(self.model() =~= before.model().insert(place, value));
                assert(self.model().dom() == self.domain());
                assert(before.model().dom() == before.domain());
                assert(self.domain() == before.domain().insert(place));
            }
        } else {
            self.entries.insert(i, (key, value));
            proof {
                before.lemma_absent(i as int, place);
                assert(self.places() =~= before.places().insert(i as int, place));
                assert(self.values() =~= before.values().insert(i as int, value));
                assert forall|a: int, b: int| 0 <= a < b < self.places().len() implies place_less(
                    #[trigger] self.places()[a],
                    #[trigger] self.places()[b],
                ) by {
                    if a < i && b > i {
                        assert(place_less(before.places()[a], place));
                        assert(!place_less(before.places()[b - 1], place));
                    } else if a == i {
                        assert(!place_less(before.places()[b - 1], place));
                        if before.places()[b - 1] == place {
                            if b - 1 > i {
                                assert(place_less(before.places()[i as int], before.places()[b - 1]));
                            }
                        }
                    } else if b == i {
                        assert(place_less(before.places()[a], place));
                    } else if b < i {
                        assert(place_less(before.places()[a], before.places()[b]));
                    } else {
                        assert(place_less(before.places()[a - 1], before.places()[b - 1]));
                    }
                }
                assert forall|p: (int, int)|
                    #![trigger self.domain().contains(p)]
                    #![trigger before.domain().contains(p)]
                    self.has(p) <==> before.has(p) || p == place by {
                    if self.has(p) {
                        let j = self.places().index_of(p);
                        assert(self.places()[j] == p);
                        if j < i {
                            assert(before.places()[j] == p);
                        } else if j > i {
                            assert(before.places()[j - 1] == p);
                        }
                    }
                    if before.has(p) {
                        let j = before.places().index_of(p);
                        assert(before.places()[j] == p);
                        if j < i {
                            assert(self.places()[j] == p);
                        } else {
                            assert(self.places()[j + 1] == p);
                        }
                    }
                    if p == place {
                        assert(self.places()[i as int] == p);
                    }
                }
                assert forall|p: (int, int)| self.has(p) implies #[trigger] self.model()[p]
                    == before.model().insert(place, value)[p] by {
                    let j = self.places().index_of(p);
                    assert(self.places()[j] == p);
                    self.lemma_position(j);
                    if j < i {
                        before.lemma_position(j);
                        assert(place_less(before.places()[j], place));
                    } else if j > i {
                        before.lemma_position(j - 1);
                        assert(!place_less(before.places()[j - 1], place));
                        assert(place_less(self.places()[i as int], self.places()[j]));
                    }
                }
                assert(self.model() =~= before.model().insert(place, value));
                assert(self.model().dom() == self.domain());
                assert(before.model().dom() == before.domain());
                assert(self.domain() == before.domain().insert(place));
            }
        }
    }

    /// Takes `key` out of the table, where the table holds it.
    pub fn remove(&mut self, key: &K)
        requires
            old(self).wf(),
        ensures
            final(self).wf(),
            final(self).model() == old(self).model().remove(key.place()),
            final(self).domain() == old(self).domain().remove(key.place()),
    {
        let i = self.seek(key);
        let ghost before = *self;
        let ghost place = key.place();
        if i < self.entries.len() && !key.comes_before(&self.entries[i].0) {
            self.entries.remove(i);
            proof {
                assert(self.places() =~= before.places().remove(i as int));
                assert(self.values() =~= before.values().remove(i as int));
                assert forall|a: int, b: int| 0 <= a < b < self.places().len() implies place_less(
                    #[trigger] self.places()[a],
                    #[trigger] self.places()[b],
                ) by {
                    let a0 = if a < i { a } else { a + 1 };
                    let b0 = if b < i { b } else { b + 1 };
                    assert(place_less(before.places()[a0], before.places()[b0]));
                }
                assert forall|p: (int, int)|
                    #![trigger self.domain().contains(p)]
                    #![trigger before.domain().contains(p)]
                    self.has(p) <==> before.has(p) && p != place by {
                    if self.has(p) {
                        let j = self.places().index_of(p);
                        assert(self.places()[j] == p);
                        let j0 = if j < i { j } else { j + 1 };
                        assert(before.places()[j0] == p);
                        if j0 < i {
                            assert(place_less(before.places()[j0], before.places()[i as int]));
                        } else {
                            assert(place_less(before.places()[i as int], before.places()[j0]));
                        }
                    }
                    if before.has(p) && p != place {
                        let j = before.places().index_of(p);
                        assert(before.places()[j] == p);
                        if j < i {
                            assert(self.places()[j] == p);
                        } else {
                            assert(self.places()[j - 1] == p);
                        }
                    }
                }
                assert forall|p: (int, int)| self.has(p) implies #[trigger] self.model()[p]
                    == before.model().remove(place)[p] by {
                    let j = self.places().index_of(p);
                    assert(self.places()[j] == p);
                    self.lemma_position(j);
                    before.lemma_position(if j < i { j } else { j + 1 });
                }
                assert(self.model() =~= before.model().remove(place));
                assert(self.model().dom() == self.domain());
                assert(before.model().dom() == before.domain());
                assert(self.domain() == before.domain().remove(place));
            }
        } else {
            proof {
                before.lemma_absent(i as int, place);
                assert(self.model() =~= before.model().remove(place));
                assert(self.model().dom() == self.domain());
                assert(before.model().dom() == before.domain());
                assert(self.domain() == before.domain().remove(place));
            }
        }
    }
}

impl<V> Table<Id, V> {
    /// The place of a single identifier holds zero behind its rank.
    pub proof fn lemma_single(&self, i: int)
        requires
            0 <= i < self.places().len(),
        ensures
            self.places()[i].1 == 0,
            0 <= self.places()[i].0,
    {
        self.entries@[i].0.rank_bounds();
    }
}

} // verus!

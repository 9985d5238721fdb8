//! Reading an index: lookups, and the tags of one object.

use crate::id::Id;
use crate::object::Object;
use crate::schema::{led_by, lemma_led_range, Content, Tables};
use crate::table::place_less;
use vstd::prelude::*;

verus! {

/// The ranks of a sequence of identifiers.
pub open spec fn id_ranks(ids: Seq<Id>) -> Seq<int> {
    ids.map_values(|id: Id| id.rank())
}

/// The ranks of the identifiers of a sequence of objects.
pub open spec fn object_ranks(objects: Seq<Object>) -> Seq<int> {
    objects.map_values(|object: Object| object.rank())
}

/// Each number is smaller than all that follow it.
pub open spec fn increasing(ranks: Seq<int>) -> bool {
    forall|i: int, j: int| 0 <= i < j < ranks.len() ==> ranks[i] < ranks[j]
}

/// A view of an index that reads and changes nothing.
pub struct ReadTransaction<'a> {
    pub(crate) tables: &'a Tables,
}

impl<'a> View for ReadTransaction<'a> {
    type V = Content;

    open(crate) spec fn view(&self) -> Content {
        self.tables@
    }
}

impl<'a> ReadTransaction<'a> {
    /// The tables that the transaction reads are in order and agree.
    pub open(crate) spec fn wf(&self) -> bool {
        self.tables.wf()
    }

    /// A transaction that reads `tables`.
    pub fn new(tables: &'a Tables) -> (transaction: Self)
        ensures
            transaction@ == tables@,
            transaction.wf() == tables.wf(),
    {
        ReadTransaction { tables }
    }

    /// The bytes that `id` was made of, where the index has them.
    pub fn get_source(&self, id: &Id) -> (source: Option<Object>)
        requires
            self.wf(),
        ensures
            source is Some <==> self@.sources.contains_key(id.rank()),
            source is Some ==> source->0.source() == Some(self@.sources[id.rank()]),
    {
        match self.tables.id_to_source.get(id) {
            Some(raw) => {
                let bytes = raw.clone();
                assert(bytes@ =~= raw@);
                Some(Object::Raw(bytes))
            },
            None => None,
        }
    }

    /// Whether `object` is known to the index.
    pub fn has_object(&self, object: &Object) -> (known: bool)
        requires
            self.wf(),
        ensures
            known == self@.known(object.rank()),
    {
        let object_id = object.get_id();
        self.tables.object_to_tags_count.get(&object_id).is_some()
    }

    /// Whether `object` carries `tag`.
    pub fn has_tag(&self, object: &Object, tag: &Object) -> (carried: bool)
        requires
            self.wf(),
        ensures
            carried == self@.carries(object.rank(), tag.rank()),
    {
        let key = (object.get_id(), tag.get_id());
        let carried = self.tables.object_and_tag.get(&key).is_some();
        proof {
            if carried {
                assert(self.tables.object_tag().contains((object.rank(), tag.rank())));
            }
        }
        carried
    }

    /// Whether some object carries `tag`.
    pub fn has_object_with_tag(&self, tag: &Object) -> (alive: bool)
        requires
            self.wf(),
        ensures
            alive == self@.tag_alive(tag.rank()),
    {
        let tag_id = tag.get_id();
        let table = &self.tables.tag_and_object;
        let start = table.seek(&(tag_id, Id::default()));
        let alive = start < table.len() && table.key_at(start).0.same(&tag_id);
        proof {
            let t = tag.rank();
            if alive {
                let o = table.places()[start as int].1;
                assert(table.places().contains((t, o)));
                assert(self.tables.object_tag().contains((o, t)));
                assert(self@.carries(o, t));
            }
            if self@.tag_alive(t) {
                let o = choose|o: int| self@.carries(o, t);
                assert(self.tables.object_tag().contains((o, t)));
                assert(self.tables.tag_object().contains((t, o)));
                let j = table.places().index_of((t, o));
                assert(table.places()[j] == (t, o));
                table.lemma_place_bounds(j);
                if j > start {
                    assert(place_less(table.places()[start as int], table.places()[j]));
                }
            }
        }
        alive
    }

    /// The tags of `object`, in ascending order.
    pub fn get_tags(&self, object: &Object) -> (tags: Vec<Id>)
        requires
            self.wf(),
        ensures
            increasing(id_ranks(tags@)),
            id_ranks(tags@).to_set() == self@.tags_of(object.rank()),
    {
        let tags = scan_tags(self.tables, &object.get_id());
        proof {
            let o = object.rank();
            assert forall|t: int| id_ranks(tags@).contains(t) implies self@.tags_of(o).contains(
                t,
            ) by {
                assert(self.tables.object_tag().contains((o, t)));
            }
            assert(id_ranks(tags@).to_set() =~= self@.tags_of(o));
        }
        tags
    }
}

/// The keys of the table of objects and tags that `object_id` leads, read
/// from the first of them until another object leads.
pub(crate) fn scan_tags(tables: &Tables, object_id: &Id) -> (tags: Vec<Id>)
    requires
        tables.object_and_tag.wf(),
    ensures
        increasing(id_ranks(tags@)),
        forall|t: int|
            id_ranks(tags@).contains(t) <==> tables.object_tag().contains((object_id.rank(), t)),
        led_by(tables.object_tag(), object_id.rank()).finite(),
        tags@.len() == led_by(tables.object_tag(), object_id.rank()).len(),
{
    let table = &tables.object_and_tag;
    let start = table.seek(&(*object_id, Id::default()));
    let mut tags: Vec<Id> = Vec::new();
    let mut i: usize = start;
    while i < table.len() && table.key_at(i).0.same(object_id)
        invariant
            table.wf(),
            start <= i <= table.places().len(),
            tags@.len() == i - start,
            forall|j: int| start <= j < i ==> (#[trigger] table.places()[j]).0 == object_id.rank(),
            forall|j: int|
                start <= j < i ==> (#[trigger] tags@[j - start]).rank() == table.places()[j].1,
        decreases table.places().len() - i,
    {
        tags.push(table.key_at(i).1);
        i = i + 1;
    }
    proof {
        let o = object_id.rank();
        let ranks = id_ranks(tags@);
        assert forall|a: int, b: int| 0 <= a < b < ranks.len() implies ranks[a] < ranks[b] by {
            assert(tags@[(a + start) - start].rank() == table.places()[a + start].1);
            assert(tags@[(b + start) - start].rank() == table.places()[b + start].1);
            assert(place_less(table.places()[a + start], table.places()[b + start]));
        }
        assert forall|j: int| 0 <= j < start implies (#[trigger] table.places()[j]).0 != o by {
            table.lemma_place_bounds(j);
        }
        assert forall|j: int| i <= j < table.places().len() implies (#[trigger] table.places()[j]).0
            != o by {
            if j > i {
                assert(place_less(table.places()[i as int], table.places()[j]));
            }
        }
        lemma_led_range(table, o, start as int, i as int);
        assert forall|t: int| ranks.contains(t) <==> tables.object_tag().contains((o, t)) by {
            if ranks.contains(t) {
                let a = ranks.index_of(t);
                assert(ranks[a] == t);
                assert(tags@[(a + start) - start].rank() == table.places()[a + start].1);
                assert(table.places()[a + start] == (o, t));
                assert(table.places().contains((o, t)));
            }
            if tables.object_tag().contains((o, t)) {
                let j = table.places().index_of((o, t));
                assert(table.places()[j] == (o, t));
                assert(tags@[j - start].rank() == table.places()[j].1);
                assert(ranks[j - start] == t);
            }
        }
    }
    tags
}

} // verus!

//! Changing an index: inserting objects with tags, and removing them.

use crate::id::Id;
use crate::object::Object;
use crate::read::{id_ranks, increasing, scan_tags, ReadTransaction};
use crate::schema::{
    led_by, lemma_count_down, lemma_count_up, lemma_mirror_step, lemma_spared_gone,
    lemma_spared_set, lemma_spared_step, Content, Tables,
};
use vstd::prelude::*;

verus! {

impl Content {
    /// The content once `object` is known: with the tags that it had, and
    /// with its bytes where it is made of bytes.
    pub open spec fn enroll(self, object: Object) -> Content {
        Content {
            tags: self.tags.insert(object.rank(), self.tags_of(object.rank())),
            sources: match object.source() {
                Some(bytes) => self.sources.insert(object.rank(), bytes),
                None => self.sources,
            },
        }
    }

    /// The content once the known `object` carries `tag`. A tag that the
    /// object carries already changes nothing, not even the tag's bytes.
    pub open spec fn attach(self, object: int, tag: Object) -> Content {
        if self.tags_of(object).contains(tag.rank()) {
            self
        } else {
            Content {
                tags: self.tags.insert(object, self.tags_of(object).insert(tag.rank())),
                sources: match tag.source() {
                    Some(bytes) => self.sources.insert(tag.rank(), bytes),
                    None => self.sources,
                },
            }
        }
    }

    /// The content after `object` is inserted with `tags`: the object is
    /// enrolled, and the tags are attached one after the other.
    pub open spec fn insert(self, object: Object, tags: Seq<Object>) -> Content
        decreases tags.len(),
    {
        if tags.len() == 0 {
            self.enroll(object)
        } else {
            self.insert(object, tags.drop_last()).attach(object.rank(), tags.last())
        }
    }

    /// Whether the object is known and carries no tag.
    pub open spec fn bare(self, object: int) -> bool {
        self.known(object) && forall|tag: int| !self.carries(object, tag)
    }

    /// Whether no object but `object` carries the tag.
    pub open spec fn carried_only_by(self, tag: int, object: int) -> bool {
        forall|other: int| other != object ==> !self.carries(other, tag)
    }

    /// The content once `object` no longer carries `tag`. Where no other
    /// object carries the tag, the bytes of a tag that is made of bytes go
    /// too. A tag that the object does not carry changes nothing.
    pub open spec fn detach(self, object: int, tag: Object) -> Content {
        if !self.carries(object, tag.rank()) {
            self
        } else {
            Content {
                tags: self.tags.insert(object, self.tags[object].remove(tag.rank())),
                sources: if self.carried_only_by(tag.rank(), object) && tag.source() is Some {
                    self.sources.remove(tag.rank())
                } else {
                    self.sources
                },
            }
        }
    }

    /// The content once the tags are detached one after the other.
    pub open spec fn detach_all(self, object: int, tags: Seq<Object>) -> Content
        decreases tags.len(),
    {
        if tags.len() == 0 {
            self
        } else {
            self.detach_all(object, tags.drop_last()).detach(object, tags.last())
        }
    }

    /// The content without `object`, and without its bytes where it is made
    /// of bytes.
    pub open spec fn forget(self, object: Object) -> Content {
        Content {
            tags: self.tags.remove(object.rank()),
            sources: if object.source() is Some {
                self.sources.remove(object.rank())
            } else {
                self.sources
            },
        }
    }

    /// The content after `tags` are removed from `object`: an object that
    /// is left without a tag is forgotten; an unknown object changes
    /// nothing.
    pub open spec fn remove_tags(self, object: Object, tags: Seq<Object>) -> Content {
        if !self.known(object.rank()) {
            self
        } else {
            let detached = self.detach_all(object.rank(), tags);
            if detached.bare(object.rank()) {
                detached.forget(object)
            } else {
                detached
            }
        }
    }

    /// The content after `object` is removed with all its tags; an unknown
    /// object changes nothing. The bytes of its tags stay.
    pub open spec fn remove_object(self, object: Object) -> Content {
        if !self.known(object.rank()) {
            self
        } else {
            self.forget(object)
        }
    }
}

/// One tag leaves an object: a key less in each posting table, and one
/// object less for the tag, whose count goes where it falls to zero.
proof fn lemma_unlink_step(before: Tables, after: Tables, o: int, t: int)
    requires
        before.wf_besides(o),
        before.object_tag().contains((o, t)),
        after.ordered(),
        after.tag_object() == before.tag_object().remove((t, o)),
        after.object_tag() == before.object_tag().remove((o, t)),
        after.object_to_tags_count == before.object_to_tags_count,
        before.tag_to_objects_count.model()[(t, 0)] > 1 ==> after.tag_to_objects_count.domain()
            == before.tag_to_objects_count.domain().insert((t, 0))
            && after.tag_to_objects_count.model() == before.tag_to_objects_count.model().insert(
            (t, 0),
            (before.tag_to_objects_count.model()[(t, 0)] - 1) as u32,
        ),
        before.tag_to_objects_count.model()[(t, 0)] <= 1 ==> after.tag_to_objects_count.domain()
            == before.tag_to_objects_count.domain().remove((t, 0))
            && after.tag_to_objects_count.model() == before.tag_to_objects_count.model().remove(
            (t, 0),
        ),
    ensures
        after.wf_besides(o),
        led_by(after.object_tag(), o).len() == led_by(before.object_tag(), o).len() - 1,
        led_by(before.object_tag(), o).len() >= 1,
        before.tag_to_objects_count.model()[(t, 0)] <= 1 <==> (forall|other: int|
            other != o ==> !before.object_tag().contains((other, t))),
{
    assert(before.tag_object().contains((t, o)));
    lemma_mirror_step(
        &before.tag_and_object,
        &before.object_and_tag,
        &after.tag_and_object,
        &after.object_and_tag,
        t,
        o,
    );
    lemma_count_down(
        &before.tag_to_objects_count,
        &before.tag_and_object,
        &after.tag_to_objects_count,
        &after.tag_and_object,
        t,
        o,
    );
    lemma_spared_step(
        &before.object_to_tags_count,
        &before.object_and_tag,
        &after.object_and_tag,
        o,
        t,
    );
    assert forall|other: int|
        before.tag_object().contains((t, other)) <==> before.object_tag().contains((other, t)) by {}
}

/// One tag joins an object: a key in each posting table, one more object
/// for the tag, and the tag's bytes where it has them.
proof fn lemma_attach_step(before: Tables, after: Tables, o: int, tag: Object)
    requires
        before.wf_besides(o),
        !before.object_tag().contains((o, tag.rank())),
        after.ordered(),
        after.tag_object() == before.tag_object().insert((tag.rank(), o)),
        after.object_tag() == before.object_tag().insert((o, tag.rank())),
        after.object_to_tags_count == before.object_to_tags_count,
        after@.sources == (match tag.source() {
            Some(bytes) => before@.sources.insert(tag.rank(), bytes),
            None => before@.sources,
        }),
        after.tag_to_objects_count.domain() == before.tag_to_objects_count.domain().insert(
            (tag.rank(), 0),
        ),
        after.tag_to_objects_count.model() == before.tag_to_objects_count.model().insert(
            (tag.rank(), 0),
            if before.tag_to_objects_count.has((tag.rank(), 0)) {
                (before.tag_to_objects_count.model()[(tag.rank(), 0)] + 1) as u32
            } else {
                1u32
            },
        ),
        before.tag_to_objects_count.has((tag.rank(), 0))
            ==> before.tag_to_objects_count.model()[(tag.rank(), 0)] < u32::MAX,
    ensures
        after.wf_besides(o),
        after.view_knowing(o) == before.view_knowing(o).attach(o, tag),
        led_by(after.object_tag(), o).len() == led_by(before.object_tag(), o).len() + 1,
        after.tag_object().len() == before.tag_object().len() + 1,
{
    let t = tag.rank();
    assert(!before.tag_object().contains((t, o)));
    before.tag_and_object.lemma_domain_len();
    lemma_mirror_step(
        &before.tag_and_object,
        &before.object_and_tag,
        &after.tag_and_object,
        &after.object_and_tag,
        t,
        o,
    );
    lemma_count_up(
        &before.tag_to_objects_count,
        &before.tag_and_object,
        &after.tag_to_objects_count,
        &after.tag_and_object,
        t,
        o,
    );
    lemma_spared_step(
        &before.object_to_tags_count,
        &before.object_and_tag,
        &after.object_and_tag,
        o,
        t,
    );
    assert(after.view_knowing(o).tags =~~= before.view_knowing(o).attach(o, tag).tags) by {
        assert forall|x: int| after.view_knowing(o).tags.contains_key(x) implies (
        #[trigger] after.view_knowing(o).tags[x]) =~= before.view_knowing(o).attach(
            o,
            tag,
        ).tags[x] by {
            assert forall|y: int| after.view_knowing(o).tags[x].contains(y)
                <==> before.view_knowing(o).attach(o, tag).tags[x].contains(y) by {
                assert(after.object_tag().contains((x, y)) <==> before.object_tag().contains((x, y))
                    || (x, y) == (o, t));
            }
        }
    }
}

/// A transaction that changes an index. It holds the tables until it is
/// committed.
pub struct WriteTransaction {
    pub(crate) tables: Tables,
}

impl View for WriteTransaction {
    type V = Content;

    open(crate) spec fn view(&self) -> Content {
        self.tables@
    }
}

impl WriteTransaction {
    /// The tables of the transaction are in order and agree.
    pub open(crate) spec fn wf(&self) -> bool {
        self.tables.wf()
    }

    /// A transaction on `tables`.
    pub fn new(tables: Tables) -> (transaction: Self)
        ensures
            transaction@ == tables@,
            transaction.wf() == tables.wf(),
    {
        WriteTransaction { tables }
    }

    /// Ends the transaction and hands the tables back as it left them.
    pub fn commit(self) -> (tables: Tables)
        ensures
            tables@ == self@,
            tables.wf() == self.wf(),
    {
        self.tables
    }

    /// The number of pairs of an object and one of its tags.
    pub fn links(&self) -> (n: usize)
        requires
            self.wf(),
        ensures
            n == self@.postings().len(),
    {
        proof {
            self.tables.lemma_postings();
        }
        self.tables.tag_and_object.len()
    }

    /// A reading view of the transaction.
    pub fn reader(&self) -> (reader: ReadTransaction<'_>)
        ensures
            reader@ == self@,
            reader.wf() == self.wf(),
    {
        ReadTransaction::new(&self.tables)
    }

    /// The bytes that `id` was made of, where the index has them.
    pub fn get_source(&self, id: &Id) -> (source: Option<Object>)
        requires
            self.wf(),
        ensures
            source is Some <==> self@.sources.contains_key(id.rank()),
            source is Some ==> source->0.source() == Some(self@.sources[id.rank()]),
    {
        self.reader().get_source(id)
    }

    /// Whether `object` is known to the index.
    pub fn has_object(&self, object: &Object) -> (known: bool)
        requires
            self.wf(),
        ensures
            known == self@.known(object.rank()),
    {
        self.reader().has_object(object)
    }

    /// Whether `object` carries `tag`.
    pub fn has_tag(&self, object: &Object, tag: &Object) -> (carried: bool)
        requires
            self.wf(),
        ensures
            carried == self@.carries(object.rank(), tag.rank()),
    {
        self.reader().has_tag(object, tag)
    }

    /// Whether some object carries `tag`.
    pub fn has_object_with_tag(&self, tag: &Object) -> (alive: bool)
        requires
            self.wf(),
        ensures
            alive == self@.tag_alive(tag.rank()),
    {
        self.reader().has_object_with_tag(tag)
    }

    /// The tags of `object`, in ascending order.
    pub fn get_tags(&self, object: &Object) -> (tags: Vec<Id>)
        requires
            self.wf(),
        ensures
            increasing(id_ranks(tags@)),
            id_ranks(tags@).to_set() == self@.tags_of(object.rank()),
    {
        self.reader().get_tags(object)
    }

    /// Makes `object` known and lets it carry each of `tags`. A tag that the
    /// object carries already, or that stands in `tags` a second time, is
    /// passed over.
    pub fn insert(&mut self, object: &Object, tags: &Vec<Object>)
        requires
            old(self).wf(),
            old(self)@.postings().len() + tags.len() <= u32::MAX,
        ensures
            final(self).wf(),
            final(self)@ == old(self)@.insert(*object, tags@),
    {
        let object_id = object.get_id();
        let ghost o = object.rank();
        proof {
            self.tables.lemma_postings();
        }
        if let Object::Raw(raw) = object {
            let bytes = raw.clone();
            assert(bytes@ =~= raw@);
            self.tables.id_to_source.insert(object_id, bytes);
        }
        let existent = scan_tags(&self.tables, &object_id);
        let existent_count: usize = existent.len();
        let mut tags_added: u32 = 0;
        let mut i: usize = 0;
        proof {
            assert(self.tables.view_knowing(o).tags =~~= old(self)@.enroll(*object).tags);
            assert(self.tables.view_knowing(o).sources =~= old(self)@.enroll(*object).sources);
            assert(tags@.take(0) =~= Seq::<Object>::empty());
        }
        while i < tags.len()
            invariant
                0 <= i <= tags.len(),
                o == object.rank(),
                o == object_id.rank(),
                self.tables.wf_besides(o),
                self.tables.view_knowing(o) == old(self)@.insert(*object, tags@.take(i as int)),
                led_by(self.tables.object_tag(), o).len() == existent_count + tags_added,
                self.tables.links() == old(self).tables.links() + tags_added,
                old(self).tables.links() + tags.len() <= u32::MAX,
                tags_added <= i,
                self.tables.object_to_tags_count.wf(),
            decreases tags.len() - i,
        {
            let tag = &tags[i];
            let tag_id = tag.get_id();
            let ghost before = self.tables;
            proof {
                assert(tags@.take(i + 1).drop_last() =~= tags@.take(i as int));
                assert(tags@.take(i + 1).last() == tags@[i as int]);
            }
            if self.tables.object_and_tag.get(&(object_id, tag_id)).is_none() {
                self.tables.tag_and_object.insert((tag_id, object_id), ());
                self.tables.object_and_tag.insert((object_id, tag_id), ());
                if let Object::Raw(raw) = tag {
                    let bytes = raw.clone();
                    assert(bytes@ =~= raw@);
                    self.tables.id_to_source.insert(tag_id, bytes);
                }
                let count: u32 = match self.tables.tag_to_objects_count.get(&tag_id) {
                    Some(count) => *count,
                    None => 0,
                };
                proof {
                    before.lemma_count_bound(tag.rank());
                    before.tag_and_object.lemma_domain_len();
                    before.tag_to_objects_count.lemma_domain_len();
                }
                self.tables.tag_to_objects_count.insert(tag_id, count + 1);
                tags_added = tags_added + 1;
                proof {
                    assert(self.tables@.sources =~= (match tag.source() {
                        Some(bytes) => before@.sources.insert(tag.rank(), bytes),
                        None => before@.sources,
                    }));
                    lemma_attach_step(before, self.tables, o, *tag);
                    self.tables.tag_and_object.lemma_domain_len();
                }
            }
            i = i + 1;
        }
        proof {
            assert(tags@.take(tags.len() as int) =~= tags@);
            self.tables.lemma_count_bound(o);
            self.tables.object_and_tag.lemma_domain_len();
            self.tables.tag_and_object.lemma_domain_len();
        }
        let ghost before = self.tables;
        proof {
            lemma_mirror_len(before);
            vstd::set_lib::lemma_len_subset(led_by(before.object_tag(), o), before.object_tag());
        }
        let total: usize = existent_count + tags_added as usize;
        self.tables.object_to_tags_count.insert(object_id, total as u32);
        proof {
            assert(self.tables@.tags =~~= before.view_knowing(o).tags);
            assert(self.tables@.sources =~= before.view_knowing(o).sources);
            lemma_spared_set(
                &before.object_to_tags_count,
                &self.tables.object_to_tags_count,
                &before.object_and_tag,
                o,
                total as u32,
            );
        }
    }
}

impl WriteTransaction {
    /// Takes one tag from an object that carries it: the keys of both
    /// posting tables, and the tag's count, which goes where it falls to
    /// zero. Says whether it fell to zero.
    fn unlink(&mut self, object_id: &Id, tag_id: &Id) -> (orphaned: bool)
        requires
            old(self).tables.wf_besides(object_id.rank()),
            old(self).tables.object_tag().contains((object_id.rank(), tag_id.rank())),
        ensures
            final(self).tables.wf_besides(object_id.rank()),
            final(self).tables.object_tag() == old(self).tables.object_tag().remove(
                (object_id.rank(), tag_id.rank()),
            ),
            final(self).tables.object_to_tags_count == old(self).tables.object_to_tags_count,
            final(self).tables.id_to_source == old(self).tables.id_to_source,
            led_by(final(self).tables.object_tag(), object_id.rank()).len() == led_by(
                old(self).tables.object_tag(),
                object_id.rank(),
            ).len() - 1,
            orphaned <==> (forall|other: int|
                other != object_id.rank() ==> !old(self).tables.object_tag().contains(
                    (other, tag_id.rank()),
                )),
    {
        let ghost before = self.tables;
        let ghost o = object_id.rank();
        let ghost t = tag_id.rank();
        proof {
            assert(before.tag_object().contains((t, o)));
            assert(before.tag_to_objects_count.domain().contains((t, 0)));
            before.tag_to_objects_count.lemma_domain_len();
        }
        self.tables.tag_and_object.remove(&(*tag_id, *object_id));
        self.tables.object_and_tag.remove(&(*object_id, *tag_id));
        let count: u32 = match self.tables.tag_to_objects_count.get(tag_id) {
            Some(count) => *count,
            None => 0,
        };
        let orphaned = count <= 1;
        if orphaned {
            self.tables.tag_to_objects_count.remove(tag_id);
        } else {
            self.tables.tag_to_objects_count.insert(*tag_id, count - 1);
        }
        proof {
            lemma_unlink_step(before, self.tables, o, t);
        }
        orphaned
    }

    /// Removes `object` with all its tags. An object that is not known is
    /// left alone.
    pub fn remove_object(&mut self, object: &Object)
        requires
            old(self).wf(),
        ensures
            final(self).wf(),
            final(self)@ == old(self)@.remove_object(*object),
    {
        let object_id = object.get_id();
        let ghost o = object.rank();
        if self.tables.object_to_tags_count.get(&object_id).is_none() {
            return ;
        }
        if let Object::Raw(_) = object {
            self.tables.id_to_source.remove(&object_id);
        }
        let tags = scan_tags(&self.tables, &object_id);
        let ghost start = self.tables;
        let ghost ranks = id_ranks(tags@);
        let mut i: usize = 0;
        while i < tags.len()
            invariant
                0 <= i <= tags.len(),
                o == object_id.rank(),
                ranks == id_ranks(tags@),
                increasing(ranks),
                forall|t: int| ranks.contains(t) <==> start.object_tag().contains((o, t)),
                self.tables.wf_besides(o),
                self.tables.object_to_tags_count == start.object_to_tags_count,
                self.tables.id_to_source == start.id_to_source,
                forall|x: int, y: int|
                    #![trigger self.tables.object_tag().contains((x, y))]
                    self.tables.object_tag().contains((x, y)) <==> start.object_tag().contains(
                        (x, y),
                    ) && !(x == o && ranks.take(i as int).contains(y)),
            decreases tags.len() - i,
        {
            let tag_id = tags[i];
            let ghost before = self.tables;
            proof {
                assert(ranks[i as int] == tag_id.rank());
                assert(ranks.contains(tag_id.rank()));
                if ranks.take(i as int).contains(tag_id.rank()) {
                    let j = ranks.take(i as int).index_of(tag_id.rank());
                    assert(ranks[j] == ranks[i as int]);
                }
            }
            self.unlink(&object_id, &tag_id);
            proof {
                assert(ranks.take(i + 1) =~= ranks.take(i as int).push(tag_id.rank()));
                assert forall|x: int, y: int|
                    #![trigger self.tables.object_tag().contains((x, y))]
                    self.tables.object_tag().contains((x, y)) <==> start.object_tag().contains(
                        (x, y),
                    ) && !(x == o && ranks.take(i + 1).contains(y)) by {
                    assert(before.object_tag().contains((x, y)) <==> start.object_tag().contains(
                        (x, y),
                    ) && !(x == o && ranks.take(i as int).contains(y)));
                    if ranks.take(i + 1).contains(y) {
                        let j = ranks.take(i + 1).index_of(y);
                        if j < i {
                            assert(ranks.take(i as int)[j] == y);
                        }
                    }
                    if ranks.take(i as int).contains(y) {
                        let j = ranks.take(i as int).index_of(y);
                        assert(ranks.take(i + 1)[j] == y);
                    }
                    if y == tag_id.rank() {
                        assert(ranks.take(i + 1)[i as int] == y);
                    }
                }
            }
            i = i + 1;
        }
        let ghost before = self.tables;
        self.tables.object_to_tags_count.remove(&object_id);
        proof {
            assert(ranks.take(tags.len() as int) =~= ranks);
            assert forall|t: int| !before.object_and_tag.domain().contains((o, t)) by {
                assert(before.object_tag().contains((o, t)) ==> start.object_tag().contains((o, t))
                    && !ranks.contains(t));
            }
            lemma_spared_gone(
                &before.object_to_tags_count,
                &self.tables.object_to_tags_count,
                &before.object_and_tag,
                o,
            );
            let goal = old(self)@.remove_object(*object);
            assert(self.tables@.tags =~~= goal.tags) by {
                assert forall|x: int| self.tables@.tags.contains_key(x) implies (
                #[trigger] self.tables@.tags[x]) =~= goal.tags[x] by {
                    assert forall|y: int| self.tables@.tags[x].contains(y) <==> goal.tags[x].contains(
                        y,
                    ) by {
                        assert(before.object_tag().contains((x, y)) <==> start.object_tag().contains(
                            (x, y),
                        ) && !(x == o && ranks.contains(y)));
                    }
                }
            }
            assert(self.tables@.sources =~= goal.sources);
        }
    }

    /// Takes `tags` from `object`. A tag that the object does not carry is
    /// passed over; a tag that no object carries any more loses its bytes
    /// where it is made of bytes; an object that is left without a tag is
    /// forgotten. An object that is not known is left alone.
    pub fn remove_tags_from_object(&mut self, object: &Object, tags: &Vec<Object>)
        requires
            old(self).wf(),
        ensures
            final(self).wf(),
            final(self)@ == old(self)@.remove_tags(*object, tags@),
    {
        let object_id = object.get_id();
        let ghost o = object.rank();
        if self.tables.object_to_tags_count.get(&object_id).is_none() {
            return ;
        }
        let existent = scan_tags(&self.tables, &object_id);
        let existent_count: usize = existent.len();
        let mut removed: usize = 0;
        let mut i: usize = 0;
        proof {
            assert(tags@.take(0) =~= Seq::<Object>::empty());
        }
        while i < tags.len()
            invariant
                0 <= i <= tags.len(),
                o == object.rank(),
                o == object_id.rank(),
                self.tables.wf_besides(o),
                self.tables.object_to_tags_count == old(self).tables.object_to_tags_count,
                self.tables@ == old(self)@.detach_all(o, tags@.take(i as int)),
                self.tables.object_to_tags_count.has((o, 0)),
                existent_count == self.tables.object_to_tags_count.model()[(o, 0)],
                led_by(self.tables.object_tag(), o).len() == existent_count - removed,
                removed <= existent_count,
            decreases tags.len() - i,
        {
            let tag = &tags[i];
            let tag_id = tag.get_id();
            let ghost before = self.tables;
            proof {
                assert(tags@.take(i + 1).drop_last() =~= tags@.take(i as int));
                assert(tags@.take(i + 1).last() == tags@[i as int]);
            }
            if self.tables.object_and_tag.get(&(object_id, tag_id)).is_some() {
                let orphaned = self.unlink(&object_id, &tag_id);
                let ghost unlinked = self.tables;
                if orphaned {
                    if let Object::Raw(_) = tag {
                        self.tables.id_to_source.remove(&tag_id);
                    }
                }
                removed = removed + 1;
                proof {
                    let t = tag.rank();
                    let goal = before@.detach(o, *tag);
                    assert(before.object_to_tags_count.has((o, 0)));
                    assert(before.object_and_tag.has((o, t)));
                    assert(before@.tags.contains_key(o));
                    assert(before@.carries(o, t));
                    assert(orphaned <==> before@.carried_only_by(t, o)) by {
                        if orphaned {
                            assert forall|other: int| other != o implies !before@.carries(
                                other,
                                t,
                            ) by {
                                assert(!before.object_tag().contains((other, t)));
                            }
                        }
                        if before@.carried_only_by(t, o) {
                            assert forall|other: int| other != o implies !before.object_tag().contains(
                                (other, t),
                            ) by {
                                if before.object_tag().contains((other, t)) {
                                    assert(before.object_to_tags_count.domain().contains(
                                        (other, 0),
                                    ));
                                    assert(before@.carries(other, t));
                                }
                            }
                        }
                    }
                    assert(self.tables@.tags =~~= goal.tags) by {
                        assert forall|x: int| self.tables@.tags.contains_key(x) implies (
                        #[trigger] self.tables@.tags[x]) =~= goal.tags[x] by {
                            assert forall|y: int| self.tables@.tags[x].contains(y)
                                <==> goal.tags[x].contains(y) by {
                                assert(self.tables.object_tag().contains((x, y))
                                    <==> before.object_tag().contains((x, y)) && (x, y) != (o, t));
                            }
                        }
                    }
                    assert(self.tables@.sources =~= goal.sources);
                }
            } else {
                proof {
                    assert(!before@.carries(o, tag.rank()));
                }
            }
            i = i + 1;
        }
        proof {
            assert(tags@.take(tags.len() as int) =~= tags@);
            self.tables.object_and_tag.lemma_domain_len();
            vstd::set_lib::lemma_len_subset(
                led_by(self.tables.object_tag(), o),
                self.tables.object_tag(),
            );
        }
        let ghost before = self.tables;
        let ghost detached = old(self)@.detach_all(o, tags@);
        if removed == existent_count {
            self.tables.object_to_tags_count.remove(&object_id);
            if let Object::Raw(_) = object {
                self.tables.id_to_source.remove(&object_id);
            }
            proof {
                assert forall|t: int| !before.object_tag().contains((o, t)) by {
                    if before.object_tag().contains((o, t)) {
                        assert(led_by(before.object_tag(), o).contains((o, t)));
                    }
                }
                assert(detached.bare(o));
                let goal = detached.forget(*object);
                assert(self.tables@.tags =~~= goal.tags);
                assert(self.tables@.sources =~= goal.sources);
                lemma_spared_gone(
                    &before.object_to_tags_count,
                    &self.tables.object_to_tags_count,
                    &before.object_and_tag,
                    o,
                );
            }
        } else {
            proof {
                assert(old(self).tables.object_to_tags_count.domain().contains((o, 0)));
                assert(existent_count == old(self).tables.object_to_tags_count.model()[(o, 0)]);
            }
            let left: usize = existent_count - removed;
            self.tables.object_to_tags_count.insert(object_id, left as u32);
            proof {
                let p = led_by(before.object_tag(), o).choose();
                assert(led_by(before.object_tag(), o).contains(p));
                assert(before.object_tag().contains((o, p.1)));
                assert(detached.carries(o, p.1));
                assert(!detached.bare(o));
                assert(self.tables@.tags =~~= detached.tags);
                assert(self.tables@.sources =~= detached.sources);
                lemma_spared_set(
                    &before.object_to_tags_count,
                    &self.tables.object_to_tags_count,
                    &before.object_and_tag,
                    o,
                    left as u32,
                );
            }
        }
    }
}

/// The two posting tables hold equally many keys.
proof fn lemma_mirror_len(tables: Tables)
    requires
        tables.ordered(),
        tables.mirrored(),
    ensures
        tables.object_tag().len() == tables.tag_object().len(),
        tables.object_tag().finite(),
        tables.tag_object().finite(),
{
    tables.tag_and_object.lemma_domain_len();
    tables.object_and_tag.lemma_domain_len();
    lemma_swap_len(tables.tag_object(), tables.object_tag());
}

/// Two finite sets of pairs, each the other with its pairs turned round,
/// have the same size.
proof fn lemma_swap_len(a: Set<(int, int)>, b: Set<(int, int)>)
    requires
        a.finite(),
        b.finite(),
        forall|x: int, y: int| a.contains((x, y)) <==> b.contains((y, x)),
    ensures
        a.len() == b.len(),
    decreases a.len(),
{
    if a.len() == 0 {
        if b.len() > 0 {
            let q = b.choose();
            assert(b.contains((q.0, q.1)));
            assert(a.contains((q.1, q.0)));
        }
    } else {
        let p = a.choose();
        assert(a.contains((p.0, p.1)));
        assert(b.contains((p.1, p.0)));
        let a1 = a.remove(p);
        let b1 = b.remove((p.1, p.0));
        assert forall|x: int, y: int| a1.contains((x, y)) <==> b1.contains((y, x)) by {}
        lemma_swap_len(a1, b1);
    }
}

} // verus!

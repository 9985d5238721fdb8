//! What holds of every index: how inserting, removing and searching agree.

use crate::object::Object;
use crate::read::{increasing, object_ranks};
use crate::schema::Content;
use vstd::prelude::*;

verus! {

/// Two increasing sequences with the same members are the same sequence:
/// what is said of the tags of an object and of the objects of a search, that
/// they come in ascending order and which they are, leaves no choice.
pub proof fn law_increasing_is_unique(a: Seq<int>, b: Seq<int>)
    requires
        increasing(a),
        increasing(b),
        a.to_set() == b.to_set(),
    ensures
        a == b,
    decreases a.len(),
{
    if a.len() == 0 {
        if b.len() > 0 {
            assert(b.to_set().contains(b[0]));
        }
        assert(a =~= b);
    } else if b.len() == 0 {
        assert(a.to_set().contains(a[0]));
    } else {
        let x = a.last();
        let y = b.last();
        assert(a.to_set().contains(x));
        assert(b.to_set().contains(y));
        let i = b.index_of(x);
        let j = a.index_of(y);
        assert(x == y);
        let a0 = a.drop_last();
        let b0 = b.drop_last();
        assert forall|p: int| a0.to_set().contains(p) <==> b0.to_set().contains(p) by {
            if a0.contains(p) {
                let k = a0.index_of(p);
                assert(a[k] == p);
                assert(a.to_set().contains(p));
                let m = b.index_of(p);
                assert(b0[m] == p);
            }
            if b0.contains(p) {
                let k = b0.index_of(p);
                assert(b[k] == p);
                assert(b.to_set().contains(p));
                let m = a.index_of(p);
                assert(a0[m] == p);
            }
        }
        assert(a0.to_set() =~= b0.to_set());
        law_increasing_is_unique(a0, b0);
        assert(a =~= a0.push(x));
        assert(b =~= b0.push(y));
    }
}

/// Inserting changes the tags of the one object only, which then carries
/// the tags that it had and the tags that were inserted; every object that
/// was known stays known.
pub proof fn law_insert_tags(content: Content, object: Object, tags: Seq<Object>)
    ensures
        content.insert(object, tags).tags == content.tags.insert(
            object.rank(),
            content.tags_of(object.rank()).union(object_ranks(tags).to_set()),
        ),
    decreases tags.len(),
{
    let o = object.rank();
    let goal = content.tags.insert(o, content.tags_of(o).union(object_ranks(tags).to_set()));
    if tags.len() == 0 {
        assert(object_ranks(tags).to_set() =~= Set::<int>::empty());
        assert(content.tags_of(o).union(object_ranks(tags).to_set()) =~= content.tags_of(o));
    } else {
        let front = tags.drop_last();
        let tag = tags.last();
        law_insert_tags(content, object, front);
        let before = content.insert(object, front);
        assert(before.tags_of(o) == content.tags_of(o).union(object_ranks(front).to_set()));
        assert(object_ranks(tags) =~= object_ranks(front).push(tag.rank()));
        assert forall|t: int|
            object_ranks(tags).to_set().contains(t) <==> object_ranks(front).to_set().contains(t)
                || t == tag.rank() by {
            if object_ranks(front).contains(t) {
                let k = object_ranks(front).index_of(t);
                assert(object_ranks(tags)[k] == t);
            }
            if object_ranks(tags).contains(t) {
                let k = object_ranks(tags).index_of(t);
                if k < front.len() {
                    assert(object_ranks(front)[k] == t);
                }
            }
            if t == tag.rank() {
                assert(object_ranks(tags)[tags.len() - 1] == t);
            }
        }
        assert(before.tags_of(o).insert(tag.rank()) =~= content.tags_of(o).union(
            object_ranks(tags).to_set(),
        ));
        if before.tags_of(o).contains(tag.rank()) {
            assert(before.tags_of(o) =~= before.tags_of(o).insert(tag.rank()));
        }
        assert(content.insert(object, tags).tags =~= goal);
    }
}

/// After `insert(o, T)` the object `o` carries the tags that it had and the
/// tags of `T`: exactly the tags of `T` where, and only where, it had no
/// other tag before.
pub proof fn law_insert_then_get_tags(content: Content, object: Object, tags: Seq<Object>)
    ensures
        content.insert(object, tags).known(object.rank()),
        content.insert(object, tags).tags_of(object.rank()) == content.tags_of(
            object.rank(),
        ).union(object_ranks(tags).to_set()),
        content.insert(object, tags).tags_of(object.rank()) == object_ranks(tags).to_set()
            <==> content.tags_of(object.rank()).subset_of(object_ranks(tags).to_set()),
{
    let o = object.rank();
    let had = content.tags_of(o);
    let asked = object_ranks(tags).to_set();
    law_insert_tags(content, object, tags);
    if had.subset_of(asked) {
        assert(had.union(asked) =~= asked);
    }
    if had.union(asked) == asked {
        assert forall|t: int| had.contains(t) implies asked.contains(t) by {
            assert(had.union(asked).contains(t));
        }
    }
}

/// Inserting the same object with the same tags a second time changes no
/// tag of any object.
pub proof fn law_insert_twice(content: Content, object: Object, tags: Seq<Object>)
    ensures
        content.insert(object, tags).insert(object, tags).tags == content.insert(object, tags).tags,
{
    let o = object.rank();
    let once = content.insert(object, tags);
    law_insert_tags(content, object, tags);
    law_insert_tags(once, object, tags);
    let asked = object_ranks(tags).to_set();
    assert(once.tags_of(o).union(asked) =~= once.tags_of(o));
    assert(once.insert(object, tags).tags =~= once.tags);
}

/// Detaching tags changes the tags of the one object only, which is left
/// with the tags that it had and that were not detached.
pub proof fn law_detach_tags(content: Content, object: int, tags: Seq<Object>)
    requires
        content.known(object),
    ensures
        content.detach_all(object, tags).tags == content.tags.insert(
            object,
            content.tags_of(object).difference(object_ranks(tags).to_set()),
        ),
    decreases tags.len(),
{
    let goal = content.tags.insert(
        object,
        content.tags_of(object).difference(object_ranks(tags).to_set()),
    );
    if tags.len() == 0 {
        assert(object_ranks(tags).to_set() =~= Set::<int>::empty());
        assert(content.tags_of(object).difference(object_ranks(tags).to_set())
            =~= content.tags_of(object));
        assert(content.tags =~= goal);
    } else {
        let front = tags.drop_last();
        let tag = tags.last();
        law_detach_tags(content, object, front);
        let before = content.detach_all(object, front);
        assert(object_ranks(tags) =~= object_ranks(front).push(tag.rank()));
        assert forall|t: int|
            object_ranks(tags).to_set().contains(t) <==> object_ranks(front).to_set().contains(t)
                || t == tag.rank() by {
            if object_ranks(front).contains(t) {
                let k = object_ranks(front).index_of(t);
                assert(object_ranks(tags)[k] == t);
            }
            if object_ranks(tags).contains(t) {
                let k = object_ranks(tags).index_of(t);
                if k < front.len() {
                    assert(object_ranks(front)[k] == t);
                }
            }
            if t == tag.rank() {
                assert(object_ranks(tags)[tags.len() - 1] == t);
            }
        }
        assert(before.tags_of(object).remove(tag.rank()) =~= content.tags_of(object).difference(
            object_ranks(tags).to_set(),
        ));
        if !before.tags_of(object).contains(tag.rank()) {
            assert(before.tags_of(object) =~= before.tags_of(object).remove(tag.rank()));
        }
        assert(content.detach_all(object, tags).tags =~= goal);
    }
}

/// After `insert(o, T)` and `remove_tags_from_object(o, T)` the object `o`
/// is left with the tags that it had before and that are not in `T`: it is
/// no longer known where, and only where, it had no such tag.
pub proof fn law_insert_then_remove_tags(content: Content, object: Object, tags: Seq<Object>)
    ensures
        !content.insert(object, tags).remove_tags(object, tags).known(object.rank())
            <==> content.tags_of(object.rank()).subset_of(object_ranks(tags).to_set()),
        content.insert(object, tags).remove_tags(object, tags).tags_of(object.rank())
            == content.tags_of(object.rank()).difference(object_ranks(tags).to_set()),
{
    let o = object.rank();
    let had = content.tags_of(o);
    let asked = object_ranks(tags).to_set();
    let inserted = content.insert(object, tags);
    law_insert_tags(content, object, tags);
    law_detach_tags(inserted, o, tags);
    let detached = inserted.detach_all(o, tags);
    let left = had.difference(asked);
    assert(inserted.tags_of(o).difference(asked) =~= left);
    assert(detached.tags_of(o) == left);
    let after = inserted.remove_tags(object, tags);
    if had.subset_of(asked) {
        assert(left =~= Set::<int>::empty());
        assert(detached.bare(o));
        assert(after.tags_of(o) =~= left);
    } else {
        let t = choose|t: int| had.contains(t) && !asked.contains(t);
        assert(left.contains(t));
        assert(detached.carries(o, t));
        assert(!detached.bare(o));
    }
}

/// After `insert(o, T)` and `remove_object(o)` the object `o` is not known
/// and carries no tag.
pub proof fn law_insert_then_remove_object(content: Content, object: Object, tags: Seq<Object>)
    ensures
        !content.insert(object, tags).remove_object(object).known(object.rank()),
        content.insert(object, tags).remove_object(object).tags_of(object.rank()) == Set::<
            int,
        >::empty(),
{
    law_insert_tags(content, object, tags);
}

/// A search without a start yields the known objects that carry every tag
/// that is asked for and no tag that is ruled out.
pub proof fn law_search_all(content: Content, present: Seq<int>, absent: Seq<int>)
    ensures
        forall|object: int|
            content.search(present, absent, None).contains(object) <==> {
                &&& content.known(object)
                &&& present.to_set().subset_of(content.tags_of(object))
                &&& absent.to_set().disjoint(content.tags_of(object))
            },
{
    assert forall|object: int|
        content.search(present, absent, None).contains(object) <==> {
            &&& content.known(object)
            &&& present.to_set().subset_of(content.tags_of(object))
            &&& absent.to_set().disjoint(content.tags_of(object))
        } by {
        let carried = content.tags_of(object);
        if content.matches(present, absent, object) {
            assert forall|t: int| present.to_set().contains(t) implies carried.contains(t) by {
                let i = present.index_of(t);
                assert(content.carries(object, present[i]));
            }
            assert forall|t: int| absent.to_set().contains(t) implies !carried.contains(t) by {
                let j = absent.index_of(t);
                assert(!content.carries(object, absent[j]));
            }
        }
        if content.known(object) && present.to_set().subset_of(carried) && absent.to_set().disjoint(
            carried,
        ) {
            assert forall|i: int| 0 <= i < present.len() implies content.carries(
                object,
                #[trigger] present[i],
            ) by {
                assert(present.to_set().contains(present[i]));
            }
            assert forall|j: int| 0 <= j < absent.len() implies !content.carries(
                object,
                #[trigger] absent[j],
            ) by {
                assert(absent.to_set().contains(absent[j]));
            }
        }
    }
}

/// A search that starts after an identifier of the list that it walks
/// first yields what the search without a start yields behind that
/// identifier.
pub proof fn law_search_after(
    content: Content,
    present: Seq<int>,
    absent: Seq<int>,
    start: int,
)
    requires
        content.driver(present).contains(start),
    ensures
        forall|object: int|
            content.search(present, absent, Some(start)).contains(object) <==> content.search(
                present,
                absent,
                None,
            ).contains(object) && object > start,
{
    assert forall|object: int|
        content.search(present, absent, Some(start)).contains(object) <==> content.search(
            present,
            absent,
            None,
        ).contains(object) && object > start by {
        if content.reached(present, Some(start), object) {
            let passed = choose|passed: int|
                content.driver(present).contains(passed) && start <= passed < object;
        }
        if object > start {
            assert(content.driver(present).contains(start) && start <= start < object);
        }
    }
}

/// Every object that a search yields stands in the list that the search
/// walks first, so a later search may start after it.
pub proof fn law_search_resumes(
    content: Content,
    present: Seq<int>,
    absent: Seq<int>,
    start: Option<int>,
    object: int,
)
    requires
        content.search(present, absent, start).contains(object),
    ensures
        content.driver(present).contains(object),
{
    if present.len() > 0 {
        content.lemma_rarest(present);
        assert(content.carries(object, present[content.rarest(present)]));
    }
}

/// A search for nothing, with nothing ruled out and without a start,
/// yields all known objects.
pub proof fn law_search_everything(content: Content)
    ensures
        content.search(Seq::empty(), Seq::empty(), None) == content.objects(),
{
    assert(content.search(Seq::empty(), Seq::empty(), None) =~= content.objects());
}

/// A search without a start yields the known objects that the search for
/// each single tag that is asked for yields, and that the search for no
/// single tag that is ruled out yields.
pub proof fn law_search_by_single_tags(content: Content, present: Seq<int>, absent: Seq<int>)
    ensures
        forall|object: int|
            content.search(present, absent, None).contains(object) <==> {
                &&& content.known(object)
                &&& forall|i: int|
                    0 <= i < present.len() ==> content.search(
                        seq![#[trigger] present[i]],
                        Seq::empty(),
                        None,
                    ).contains(object)
                &&& forall|j: int|
                    0 <= j < absent.len() ==> !content.search(
                        seq![#[trigger] absent[j]],
                        Seq::empty(),
                        None,
                    ).contains(object)
            },
{
    assert forall|tag: int, object: int|
        content.search(seq![tag], Seq::empty(), None).contains(object) <==> content.carries(
            object,
            tag,
        ) by {
        let single = seq![tag];
        if content.carries(object, tag) {
            assert forall|i: int| 0 <= i < single.len() implies content.carries(
                object,
                #[trigger] single[i],
            ) by {}
        }
        if content.matches(single, Seq::empty(), object) {
            assert(content.carries(object, single[0]));
        }
    }
}

impl Content {
    /// Whether the identifier names a known object or a tag that some
    /// object carries.
    pub open spec fn alive(self, id: int) -> bool {
        self.known(id) || self.tag_alive(id)
    }

    /// Whether the index holds bytes only for identifiers that are alive.
    pub open spec fn sources_alive(self) -> bool {
        forall|id: int| self.sources.contains_key(id) ==> self.alive(id)
    }

    /// Whether taking `tag` from `object` leaves bytes behind for a tag
    /// that nothing carries and that is no object: the tag is named by its
    /// identifier alone, so its bytes are not taken with it.
    pub open spec fn strands_tag(self, object: int, tag: Object) -> bool {
        &&& self.carries(object, tag.rank())
        &&& self.carried_only_by(tag.rank(), object)
        &&& tag.source() is None
        &&& self.sources.contains_key(tag.rank())
        &&& !self.known(tag.rank())
    }

    /// Whether forgetting `object` leaves its bytes behind though it is no
    /// tag of another object: the object is named by its identifier alone.
    pub open spec fn strands_object(self, object: Object) -> bool {
        &&& object.source() is None
        &&& self.sources.contains_key(object.rank())
        &&& forall|other: int| other != object.rank() ==> !self.carries(other, object.rank())
    }
}

/// One tag that is attached, or an object that is enrolled, leaves alive
/// what was alive.
proof fn lemma_attach_alive(before: Content, after: Content, o: int)
    requires
        after.tags == before.tags.insert(o, after.tags[o]),
        before.tags_of(o).subset_of(after.tags[o]),
    ensures
        forall|id: int| before.alive(id) ==> after.alive(id),
        forall|tag: int| after.tags[o].contains(tag) ==> after.alive(tag),
{
    assert forall|id: int| before.alive(id) implies after.alive(id) by {
        if !before.known(id) {
            let carrier = choose|carrier: int| before.carries(carrier, id);
            assert(before.tags_of(carrier).contains(id));
            assert(after.carries(carrier, id));
        }
    }
    assert forall|tag: int| after.tags[o].contains(tag) implies after.alive(tag) by {
        assert(after.carries(o, tag));
    }
}

/// Inserting leaves no bytes behind for an identifier that is not alive.
pub proof fn law_insert_sources_alive(content: Content, object: Object, tags: Seq<Object>)
    requires
        content.sources_alive(),
    ensures
        content.insert(object, tags).sources_alive(),
    decreases tags.len(),
{
    let o = object.rank();
    let after = content.insert(object, tags);
    if tags.len() == 0 {
        lemma_attach_alive(content, after, o);
    } else {
        let before = content.insert(object, tags.drop_last());
        law_insert_sources_alive(content, object, tags.drop_last());
        law_insert_tags(content, object, tags.drop_last());
        if !before.tags_of(o).contains(tags.last().rank()) {
            lemma_attach_alive(before, after, o);
        }
    }
}

/// Removing an object leaves bytes behind for an identifier that is not
/// alive in two cases, and in no other: the object was named by its
/// identifier alone, has bytes and is no tag of another object; or a tag of
/// the object has bytes, is carried by no other object and is no object
/// itself.
pub proof fn law_remove_object_sources_alive(content: Content, object: Object)
    requires
        content.sources_alive(),
        content.known(object.rank()),
    ensures
        content.remove_object(object).sources_alive() <==> {
            &&& !content.strands_object(object)
            &&& forall|tag: int|
                content.carries(object.rank(), tag) && tag != object.rank()
                    && content.sources.contains_key(tag) ==> content.known(tag)
                    || !content.carried_only_by(tag, object.rank())
        },
{
    let o = object.rank();
    let after = content.remove_object(object);
    let kept = forall|tag: int|
        content.carries(o, tag) && tag != o && content.sources.contains_key(tag) ==> content.known(
            tag,
        ) || !content.carried_only_by(tag, o);
    if !content.strands_object(object) && kept {
        assert forall|id: int| after.sources.contains_key(id) implies after.alive(id) by {
            assert(content.alive(id));
            if id == o {
                let other = choose|other: int| other != o && content.carries(other, o);
                assert(after.carries(other, o));
            } else if !content.known(id) {
                let carrier = choose|carrier: int| content.carries(carrier, id);
                if carrier == o {
                    let other = choose|other: int| other != o && content.carries(other, id);
                    assert(after.carries(other, id));
                } else {
                    assert(after.carries(carrier, id));
                }
            }
        }
    }
    if after.sources_alive() {
        if content.strands_object(object) {
            assert(after.sources.contains_key(o));
            assert(after.alive(o));
            let carrier = choose|carrier: int| after.carries(carrier, o);
            assert(content.carries(carrier, o));
        }
        assert forall|tag: int|
            content.carries(o, tag) && tag != o && content.sources.contains_key(
                tag,
            ) implies content.known(tag) || !content.carried_only_by(tag, o) by {
            assert(after.sources.contains_key(tag));
            assert(after.alive(tag));
            if !after.known(tag) {
                let carrier = choose|carrier: int| after.carries(carrier, tag);
                assert(content.carries(carrier, tag) && carrier != o);
            }
        }
    }
}

/// Detaching tags leaves bytes behind for an identifier that is not alive
/// where one of the steps strands a tag, and nowhere else.
pub proof fn law_detach_sources_alive(content: Content, object: int, tags: Seq<Object>)
    requires
        content.sources_alive(),
        content.known(object),
    ensures
        content.detach_all(object, tags).known(object),
        content.detach_all(object, tags).sources_alive() <==> forall|i: int|
            0 <= i < tags.len() ==> !(#[trigger] content.detach_all(
                object,
                tags.take(i),
            )).strands_tag(object, tags[i]),
    decreases tags.len(),
{
    if tags.len() > 0 {
        let front = tags.drop_last();
        let tag = tags.last();
        let t = tag.rank();
        let before = content.detach_all(object, front);
        let after = content.detach_all(object, tags);
        law_detach_sources_alive(content, object, front);
        assert(tags.take(tags.len() - 1) =~= front);
        assert forall|i: int| 0 <= i < front.len() implies #[trigger] tags.take(i) == front.take(
            i,
        ) by {
            assert(tags.take(i) =~= front.take(i));
        }
        let before_kept = forall|i: int|
            0 <= i < front.len() ==> !(#[trigger] content.detach_all(
                object,
                front.take(i),
            )).strands_tag(object, front[i]);
        let kept = forall|i: int|
            0 <= i < tags.len() ==> !(#[trigger] content.detach_all(object, tags.take(i))).strands_tag(
                object,
                tags[i],
            );
        if kept {
            assert forall|i: int| 0 <= i < front.len() implies !(#[trigger] content.detach_all(
                object,
                front.take(i),
            )).strands_tag(object, front[i]) by {
                assert(tags.take(i) == front.take(i));
                assert(!content.detach_all(object, tags.take(i)).strands_tag(object, tags[i]));
            }
            assert(!content.detach_all(object, tags.take(tags.len() - 1)).strands_tag(
                object,
                tags[tags.len() - 1],
            ));
            assert(!before.strands_tag(object, tag));
        }
        if before_kept && !before.strands_tag(object, tag) {
            assert forall|i: int| 0 <= i < tags.len() implies !(#[trigger] content.detach_all(
                object,
                tags.take(i),
            )).strands_tag(object, tags[i]) by {
                if i < front.len() {
                    assert(tags.take(i) == front.take(i));
                    assert(!content.detach_all(object, front.take(i)).strands_tag(
                        object,
                        front[i],
                    ));
                }
            }
        }
        if before.sources_alive() {
            if !before.strands_tag(object, tag) {
                assert forall|id: int| after.sources.contains_key(id) implies after.alive(id) by {
                    assert(before.alive(id));
                    if !before.known(id) {
                        let carrier = choose|carrier: int| before.carries(carrier, id);
                        if carrier == object && id == t {
                            let other = choose|other: int|
                                other != object && before.carries(other, t);
                            assert(after.carries(other, id));
                        } else {
                            assert(after.carries(carrier, id));
                        }
                    }
                }
            } else {
                assert(after.sources.contains_key(t));
                if after.alive(t) {
                    let carrier = choose|carrier: int| after.carries(carrier, t);
                    assert(before.carries(carrier, t));
                }
            }
        } else {
            let id = choose|id: int| before.sources.contains_key(id) && !before.alive(id);
            assert(!before.carries(object, id));
            assert(after.sources.contains_key(id));
            if after.alive(id) {
                let carrier = choose|carrier: int| after.carries(carrier, id);
                assert(before.carries(carrier, id));
            }
        }
    } else {
        assert forall|i: int| 0 <= i < tags.len() implies !(#[trigger] content.detach_all(
            object,
            tags.take(i),
        )).strands_tag(object, tags[i]) by {}
    }
}

/// Removing tags from a known object leaves bytes behind for an identifier
/// that is not alive in two cases, and in no other: a step strands a tag;
/// or the object is forgotten and stranded.
pub proof fn law_remove_tags_sources_alive(content: Content, object: Object, tags: Seq<Object>)
    requires
        content.sources_alive(),
        content.known(object.rank()),
    ensures
        content.remove_tags(object, tags).sources_alive() <==> {
            &&& forall|i: int|
                0 <= i < tags.len() ==> !(#[trigger] content.detach_all(
                    object.rank(),
                    tags.take(i),
                )).strands_tag(object.rank(), tags[i])
            &&& !(content.detach_all(object.rank(), tags).bare(object.rank())
                && content.detach_all(object.rank(), tags).strands_object(object))
        },
{
    let o = object.rank();
    let detached = content.detach_all(o, tags);
    let after = content.remove_tags(object, tags);
    law_detach_sources_alive(content, o, tags);
    if detached.bare(o) {
        if detached.sources_alive() && !detached.strands_object(object) {
            assert forall|id: int| after.sources.contains_key(id) implies after.alive(id) by {
                assert(detached.alive(id));
                if id == o {
                    let other = choose|other: int| other != o && detached.carries(other, o);
                    assert(after.carries(other, o));
                } else if !detached.known(id) {
                    let carrier = choose|carrier: int| detached.carries(carrier, id);
                    assert(after.carries(carrier, id));
                }
            }
        }
        if after.sources_alive() {
            assert forall|id: int| detached.sources.contains_key(id) implies detached.alive(id) by {
                if after.sources.contains_key(id) {
                    assert(after.alive(id));
                    if !after.known(id) {
                        let carrier = choose|carrier: int| after.carries(carrier, id);
                        assert(detached.carries(carrier, id));
                    }
                }
            }
            if detached.strands_object(object) {
                assert(after.sources.contains_key(o));
                assert(after.alive(o));
                let carrier = choose|carrier: int| after.carries(carrier, o);
                assert(detached.carries(carrier, o));
            }
        }
    }
}

} // verus!

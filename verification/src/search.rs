//! The search: a walk over the sorted posting lists of the tags that are
//! asked for, which stops at the objects that all of them hold.

use crate::id::Id;
use crate::object::Object;
use crate::plan::{
    arranged, arranged_back, lemma_arranged, lemma_arranged_back, plan_absent, plan_present,
};
use crate::read::{id_ranks, increasing, object_ranks, ReadTransaction};
use crate::schema::{Content, Tables};
use crate::table::place_less;
use crate::write::WriteTransaction;
use vstd::prelude::*;

verus! {

impl Content {
    /// Whether the known `object` carries every tag of `present` and no tag
    /// of `absent`.
    pub open spec fn matches(self, present: Seq<int>, absent: Seq<int>, object: int) -> bool {
        &&& self.known(object)
        &&& forall|i: int| 0 <= i < present.len() ==> self.carries(object, #[trigger] present[i])
        &&& forall|j: int| 0 <= j < absent.len() ==> !self.carries(object, #[trigger] absent[j])
    }

    /// The list that a search walks first: the objects of the rarest tag
    /// that is asked for, or all known objects where no tag is asked for.
    pub open spec fn driver(self, present: Seq<int>) -> Set<int> {
        if present.len() == 0 {
            self.objects()
        } else {
            self.objects_of(present[self.rarest(present)])
        }
    }

    /// Whether a search that starts after `start` reaches `object`: the
    /// first entry of the driving list from `start` on is passed over, and
    /// the objects behind it are reached.
    pub open spec fn reached(self, present: Seq<int>, start: Option<int>, object: int) -> bool {
        match start {
            None => true,
            Some(from) => exists|passed: int|
                self.driver(present).contains(passed) && from <= passed < object,
        }
    }

    /// What a search yields: the objects that match and are reached.
    pub open spec fn search(self, present: Seq<int>, absent: Seq<int>, start: Option<int>) -> Set<
        int,
    > {
        Set::new(
            |object: int|
                self.matches(present, absent, object) && self.reached(present, start, object),
        )
    }
}

/// The rank of the identifier that a search starts after.
pub open spec fn start_rank(start: Option<Id>) -> Option<int> {
    match start {
        Some(id) => Some(id.rank()),
        None => None,
    }
}

/// The object of the key at which cursor `i` stands.
spec fn object_at(tables: &Tables, cursors: Seq<usize>, i: int) -> int {
    tables.tag_and_object.places()[cursors[i] as int].1
}

/// Cursor `i` stands at a key, and the tag of the cursor leads the key.
spec fn live(tables: &Tables, present: Seq<int>, cursors: Seq<usize>, i: int) -> bool {
    &&& cursors[i] < tables.tag_and_object.places().len()
    &&& tables.tag_and_object.places()[cursors[i] as int].0 == present[i]
}

/// There is a cursor for each of the first tags, and each is live.
spec fn all_live(tables: &Tables, present: Seq<int>, cursors: Seq<usize>) -> bool {
    &&& cursors.len() <= present.len()
    &&& forall|i: int| 0 <= i < cursors.len() ==> live(tables, present, cursors, i)
}

/// The posting list of every tag holds the object; where no tag is asked
/// for, the object is known.
spec fn common(tables: &Tables, present: Seq<int>, object: int) -> bool {
    if present.len() == 0 {
        tables.object_to_tags_count.has((object, 0))
    } else {
        forall|k: int|
            0 <= k < present.len() ==> tables.tag_and_object.has((#[trigger] present[k], object))
    }
}

/// The posting list of no tag that is ruled out holds the object.
spec fn clear(tables: &Tables, absent: Seq<int>, object: int) -> bool {
    forall|j: int| 0 <= j < absent.len() ==> !tables.tag_and_object.has((#[trigger] absent[j], object))
}

/// No cursor has passed an object that all lists hold and that the first
/// cursor has not passed.
spec fn complete(tables: &Tables, present: Seq<int>, cursors: Seq<usize>) -> bool {
    forall|object: int, i: int|
        #![trigger common(tables, present, object), object_at(tables, cursors, i)]
        common(tables, present, object) && object >= object_at(tables, cursors, 0) && 0 <= i
            < cursors.len() ==> object_at(tables, cursors, i) <= object
}

/// Whether the walk has yet to come to `object`. Before the first cursor
/// is opened, that is decided by where the search starts; after that, by
/// where the first cursor stands.
spec fn pending(
    tables: &Tables,
    present: Seq<int>,
    start: Option<int>,
    cursors: Seq<usize>,
    object: int,
) -> bool {
    if cursors.len() == 0 {
        match start {
            None => true,
            Some(from) => exists|passed: int|
                listed(tables, present, passed) && from <= passed < object,
        }
    } else if present.len() == 0 {
        object >= tables.object_to_tags_count.places()[cursors[0] as int].0
    } else {
        object >= object_at(tables, cursors, 0)
    }
}

/// Whether the list that the first cursor walks holds the object.
spec fn listed(tables: &Tables, present: Seq<int>, object: int) -> bool {
    if present.len() == 0 {
        tables.object_to_tags_count.has((object, 0))
    } else {
        tables.tag_and_object.has((present[0], object))
    }
}

/// The objects that a walk has yet to yield.
spec fn rest(
    tables: &Tables,
    present: Seq<int>,
    absent: Seq<int>,
    start: Option<int>,
    cursors: Seq<usize>,
) -> Set<int> {
    Set::new(
        |object: int|
            common(tables, present, object) && clear(tables, absent, object) && pending(
                tables,
                present,
                start,
                cursors,
                object,
            ),
    )
}

/// A cursor that stands before another moves on by one key. Where it is
/// still live, nothing that is yet to be yielded was passed; where it is
/// not, nothing is left to yield.
proof fn lemma_advance(
    tables: &Tables,
    present: Seq<int>,
    absent: Seq<int>,
    start: Option<int>,
    cursors: Seq<usize>,
    j: int,
    k: int,
    moved: usize,
)
    requires
        tables.tag_and_object.wf(),
        present.len() >= 1,
        all_live(tables, present, cursors),
        complete(tables, present, cursors),
        0 <= j < cursors.len(),
        0 <= k < cursors.len(),
        object_at(tables, cursors, j) < object_at(tables, cursors, k),
        moved == cursors[j] + 1,
    ensures
        ({
            let next = cursors.update(j, moved);
            &&& live(tables, present, next, j) ==> all_live(tables, present, next) && complete(
                tables,
                present,
                next,
            ) && rest(tables, present, absent, start, next) == rest(
                tables,
                present,
                absent,
                start,
                cursors,
            )
            &&& !live(tables, present, next, j) ==> rest(tables, present, absent, start, cursors)
                == Set::<int>::empty()
        }),
{
    let table = &tables.tag_and_object;
    let q = cursors[j] as int;
    let next = cursors.update(j, moved);
    assert(live(tables, present, cursors, j));
    assert(live(tables, present, cursors, 0));
    assert forall|x: int|
        common(tables, present, x) && x >= object_at(tables, cursors, 0) implies q + 1
        < table.places().len() && table.places()[q + 1].0 == present[j] && table.places()[q + 1].1
        <= x by {
        assert(object_at(tables, cursors, k) <= x);
        assert(table.has((present[j], x)));
        table.lemma_successor(q, (present[j], x));
        assert(place_less(table.places()[q], table.places()[q + 1]));
    }
    if live(tables, present, next, j) {
        assert(place_less(table.places()[q], table.places()[q + 1]));
        assert(object_at(tables, next, 0) >= object_at(tables, cursors, 0));
        assert forall|i: int| 0 <= i < next.len() implies live(tables, present, next, i) by {
            assert(live(tables, present, cursors, i));
        }
        assert forall|x: int, i: int|
            #![trigger common(tables, present, x), object_at(tables, next, i)]
            common(tables, present, x) && x >= object_at(tables, next, 0) && 0 <= i
                < next.len() implies object_at(tables, next, i) <= x by {
            if i != j {
                assert(object_at(tables, cursors, i) <= x);
            }
        }
        assert forall|x: int|
            rest(tables, present, absent, start, next).contains(x) <==> rest(
                tables,
                present,
                absent,
                start,
                cursors,
            ).contains(x) by {}
        assert(rest(tables, present, absent, start, next) =~= rest(
            tables,
            present,
            absent,
            start,
            cursors,
        ));
    } else {
        assert forall|x: int| !rest(tables, present, absent, start, cursors).contains(x) by {}
        assert(rest(tables, present, absent, start, cursors) =~= Set::<int>::empty());
    }
}

/// All cursors stand at one object, and the first moves on by one key. The
/// object is held by all lists. Where the first cursor is still live, only
/// that object was passed; where it is not, nothing else is left to yield.
proof fn lemma_emit(
    tables: &Tables,
    present: Seq<int>,
    absent: Seq<int>,
    start: Option<int>,
    cursors: Seq<usize>,
    moved: usize,
)
    requires
        tables.tag_and_object.wf(),
        present.len() >= 1,
        cursors.len() == present.len(),
        moved == cursors[0] + 1,
        all_live(tables, present, cursors),
        forall|i: int|
            #![trigger object_at(tables, cursors, i)]
            0 <= i < cursors.len() ==> object_at(tables, cursors, i) == object_at(
                tables,
                cursors,
                0,
            ),
    ensures
        common(tables, present, object_at(tables, cursors, 0)),
        ({
            let next = cursors.update(0, moved);
            let found = object_at(tables, cursors, 0);
            let before = rest(tables, present, absent, start, cursors);
            &&& forall|x: int| before.contains(x) ==> found <= x
            &&& before.contains(found) <==> clear(tables, absent, found)
            &&& live(tables, present, next, 0) ==> all_live(tables, present, next) && complete(
                tables,
                present,
                next,
            ) && rest(tables, present, absent, start, next) == before.remove(found)
            &&& !live(tables, present, next, 0) ==> before.remove(found) == Set::<int>::empty()
        }),
{
    let table = &tables.tag_and_object;
    let q = cursors[0] as int;
    let next = cursors.update(0, moved);
    let found = object_at(tables, cursors, 0);
    let before = rest(tables, present, absent, start, cursors);
    assert(live(tables, present, cursors, 0));
    assert forall|k: int| 0 <= k < present.len() implies table.has((#[trigger] present[k], found)) by {
        assert(live(tables, present, cursors, k));
        assert(object_at(tables, cursors, k) == found);
        assert(table.places()[cursors[k] as int] == (present[k], found));
        assert(table.places().contains((present[k], found)));
    }
    assert forall|x: int| common(tables, present, x) && x > found implies q + 1
        < table.places().len() && table.places()[q + 1].0 == present[0] && table.places()[q + 1].1
        <= x by {
        assert(table.has((present[0], x)));
        table.lemma_successor(q, (present[0], x));
        assert(place_less(table.places()[q], table.places()[q + 1]));
    }
    if live(tables, present, next, 0) {
        assert(place_less(table.places()[q], table.places()[q + 1]));
        assert forall|i: int| 0 <= i < next.len() implies live(tables, present, next, i) by {
            assert(live(tables, present, cursors, i));
        }
        assert forall|x: int, i: int|
            #![trigger common(tables, present, x), object_at(tables, next, i)]
            common(tables, present, x) && x >= object_at(tables, next, 0) && 0 <= i
                < next.len() implies object_at(tables, next, i) <= x by {
            if i != 0 {
                assert(object_at(tables, cursors, i) == found);
            }
        }
        assert forall|x: int|
            rest(tables, present, absent, start, next).contains(x) <==> before.remove(
                found,
            ).contains(x) by {}
        assert(rest(tables, present, absent, start, next) =~= before.remove(found));
    } else {
        assert forall|x: int| !before.remove(found).contains(x) by {}
        assert(before.remove(found) =~= Set::<int>::empty());
    }
}

/// A cursor is opened for the next tag, at the object at which the last
/// cursor stands. Where it is live, nothing that is yet to be yielded was
/// passed; where it is not, nothing is left to yield.
proof fn lemma_open(
    tables: &Tables,
    present: Seq<int>,
    absent: Seq<int>,
    start: Option<int>,
    cursors: Seq<usize>,
    position: usize,
)
    requires
        tables.tag_and_object.wf(),
        1 <= cursors.len() < present.len(),
        all_live(tables, present, cursors),
        complete(tables, present, cursors),
        position <= tables.tag_and_object.places().len(),
        forall|j: int|
            0 <= j < position ==> place_less(
                #[trigger] tables.tag_and_object.places()[j],
                (present[cursors.len() as int], object_at(tables, cursors, cursors.len() - 1)),
            ),
        forall|j: int|
            position <= j < tables.tag_and_object.places().len() ==> !place_less(
                #[trigger] tables.tag_and_object.places()[j],
                (present[cursors.len() as int], object_at(tables, cursors, cursors.len() - 1)),
            ),
    ensures
        ({
            let next = cursors.push(position);
            &&& live(tables, present, next, cursors.len() as int) ==> all_live(
                tables,
                present,
                next,
            ) && complete(tables, present, next) && rest(tables, present, absent, start, next)
                == rest(tables, present, absent, start, cursors)
            &&& !live(tables, present, next, cursors.len() as int) ==> rest(
                tables,
                present,
                absent,
                start,
                cursors,
            ) == Set::<int>::empty()
        }),
{
    let table = &tables.tag_and_object;
    let m = cursors.len() as int;
    let next = cursors.push(position);
    let from = (present[m], object_at(tables, cursors, m - 1));
    assert forall|x: int|
        common(tables, present, x) && x >= object_at(tables, cursors, 0) implies position
        < table.places().len() && table.places()[position as int].0 == present[m]
        && table.places()[position as int].1 <= x by {
        assert(object_at(tables, cursors, m - 1) <= x);
        assert(table.has((present[m], x)));
        table.lemma_lower_bound(position as int, from, (present[m], x));
        assert(!place_less(table.places()[position as int], from));
    }
    assert(object_at(tables, next, 0) == object_at(tables, cursors, 0));
    if live(tables, present, next, m) {
        assert forall|i: int| 0 <= i < next.len() implies live(tables, present, next, i) by {
            if i < m {
                assert(live(tables, present, cursors, i));
            }
        }
        assert forall|x: int, i: int|
            #![trigger common(tables, present, x), object_at(tables, next, i)]
            common(tables, present, x) && x >= object_at(tables, next, 0) && 0 <= i
                < next.len() implies object_at(tables, next, i) <= x by {
            if i < m {
                assert(object_at(tables, cursors, i) <= x);
            }
        }
        assert(rest(tables, present, absent, start, next) =~= rest(
            tables,
            present,
            absent,
            start,
            cursors,
        ));
    } else {
        assert forall|x: int| !rest(tables, present, absent, start, cursors).contains(x) by {}
        assert(rest(tables, present, absent, start, cursors) =~= Set::<int>::empty());
    }
}

/// The first cursor is opened where the search starts, and moves on by one
/// key where a start was given. Where it is live, it stands at the first
/// object that is yet to be yielded or before it; where it is not, nothing
/// is to be yielded.
proof fn lemma_open_first(
    tables: &Tables,
    present: Seq<int>,
    absent: Seq<int>,
    start: Option<int>,
    found: usize,
    position: usize,
)
    requires
        tables.tag_and_object.wf(),
        present.len() >= 1,
        start is Some ==> start->0 >= 0,
        found <= tables.tag_and_object.places().len(),
        position == (if start is Some && found < tables.tag_and_object.places().len() {
            found + 1
        } else {
            found as int
        }),
        forall|j: int|
            0 <= j < found ==> place_less(
                #[trigger] tables.tag_and_object.places()[j],
                (present[0], if start is Some { start->0 } else { 0 }),
            ),
        forall|j: int|
            found <= j < tables.tag_and_object.places().len() ==> !place_less(
                #[trigger] tables.tag_and_object.places()[j],
                (present[0], if start is Some { start->0 } else { 0 }),
            ),
    ensures
        ({
            let next = seq![position];
            let before = rest(tables, present, absent, start, Seq::<usize>::empty());
            &&& live(tables, present, next, 0) ==> all_live(tables, present, next) && complete(
                tables,
                present,
                next,
            ) && rest(tables, present, absent, start, next) == before
            &&& !live(tables, present, next, 0) ==> before == Set::<int>::empty()
        }),
{
    let table = &tables.tag_and_object;
    let size = table.places().len();
    let low = if start is Some { start->0 } else { 0 };
    let from = (present[0], low);
    let next = seq![position];
    let before = rest(tables, present, absent, start, Seq::<usize>::empty());
    // Where an object of the first list is reached, the cursor is live and
    // has not passed it.
    assert forall|x: int|
        common(tables, present, x) && pending(
            tables,
            present,
            start,
            Seq::<usize>::empty(),
            x,
        ) implies position < size && table.places()[position as int].0 == present[0]
        && table.places()[position as int].1 <= x by {
        assert(table.has((present[0], x)));
        let at = table.places().index_of((present[0], x));
        assert(table.places()[at] == (present[0], x));
        table.lemma_place_bounds(at);
        if start is Some {
            let passed = choose|passed: int|
                listed(tables, present, passed) && start->0 <= passed < x;
            assert(table.has((present[0], passed)));
            table.lemma_lower_bound(found as int, from, (present[0], passed));
            assert(!place_less(table.places()[found as int], from));
            assert(place_less(table.places()[found as int], (present[0], x)));
            table.lemma_successor(found as int, (present[0], x));
            assert(place_less(table.places()[found as int], table.places()[found + 1]));
        } else {
            table.lemma_lower_bound(found as int, from, (present[0], x));
            assert(!place_less(table.places()[found as int], from));
        }
    }
    if live(tables, present, next, 0) {
        assert forall|i: int| 0 <= i < next.len() implies live(tables, present, next, i) by {}
        assert forall|x: int|
            rest(tables, present, absent, start, next).contains(x) <==> before.contains(x) by {
            if common(tables, present, x) && x >= object_at(tables, next, 0) && start is Some {
                assert(found < size);
                assert(!place_less(table.places()[found as int], from));
                assert(place_less(table.places()[found as int], table.places()[found + 1]));
                let passed = table.places()[found as int].1;
                assert(table.places()[found as int] == (present[0], passed));
                assert(table.places().contains((present[0], passed)));
                assert(listed(tables, present, passed) && start->0 <= passed < x);
            }
        }
        assert(rest(tables, present, absent, start, next) =~= before);
    } else {
        assert forall|x: int| !before.contains(x) by {}
        assert(before =~= Set::<int>::empty());
    }
}

/// The walk over all known objects moves on by one key. The object that it
/// leaves is known; where the walk has not come to the end of the table, only
/// that object was passed; where it has, nothing else is left to yield.
proof fn lemma_scan_step(
    tables: &Tables,
    absent: Seq<int>,
    start: Option<int>,
    cursors: Seq<usize>,
    moved: usize,
)
    requires
        tables.object_to_tags_count.wf(),
        cursors.len() == 1,
        cursors[0] < tables.object_to_tags_count.places().len(),
        moved == cursors[0] + 1,
    ensures
        ({
            let none = Seq::<int>::empty();
            let next = cursors.update(0, moved);
            let found = tables.object_to_tags_count.places()[cursors[0] as int].0;
            let before = rest(tables, none, absent, start, cursors);
            &&& common(tables, none, found)
            &&& forall|x: int| before.contains(x) ==> found <= x
            &&& before.contains(found) <==> clear(tables, absent, found)
            &&& moved < tables.object_to_tags_count.places().len() ==> rest(
                tables,
                none,
                absent,
                start,
                next,
            ) == before.remove(found)
            &&& moved >= tables.object_to_tags_count.places().len() ==> before.remove(found)
                == Set::<int>::empty()
        }),
{
    let table = &tables.object_to_tags_count;
    let none = Seq::<int>::empty();
    let q = cursors[0] as int;
    let next = cursors.update(0, moved);
    let found = table.places()[q].0;
    let before = rest(tables, none, absent, start, cursors);
    table.lemma_single(q);
    assert(table.places()[q] == (found, 0int));
    assert(table.places().contains((found, 0int)));
    assert forall|x: int| common(tables, none, x) && x > found implies q + 1 < table.places().len()
        && table.places()[q + 1].0 <= x by {
        table.lemma_successor(q, (x, 0));
    }
    if moved < table.places().len() {
        table.lemma_single(q + 1);
        assert(place_less(table.places()[q], table.places()[q + 1]));
        assert forall|x: int|
            rest(tables, none, absent, start, next).contains(x) <==> before.remove(found).contains(
                x,
            ) by {}
        assert(rest(tables, none, absent, start, next) =~= before.remove(found));
    } else {
        assert forall|x: int| !before.remove(found).contains(x) by {}
        assert(before.remove(found) =~= Set::<int>::empty());
    }
}

/// The walk over all known objects is opened where the search starts, and
/// moves on by one key where a start was given.
proof fn lemma_scan_open(
    tables: &Tables,
    absent: Seq<int>,
    start: Option<int>,
    found: usize,
    position: usize,
)
    requires
        tables.object_to_tags_count.wf(),
        start is Some ==> start->0 >= 0,
        found <= tables.object_to_tags_count.places().len(),
        position == (if start is Some && found < tables.object_to_tags_count.places().len() {
            found + 1
        } else {
            found as int
        }),
        forall|j: int|
            0 <= j < found ==> place_less(
                #[trigger] tables.object_to_tags_count.places()[j],
                (if start is Some { start->0 } else { 0 }, 0),
            ),
        forall|j: int|
            found <= j < tables.object_to_tags_count.places().len() ==> !place_less(
                #[trigger] tables.object_to_tags_count.places()[j],
                (if start is Some { start->0 } else { 0 }, 0),
            ),
    ensures
        ({
            let none = Seq::<int>::empty();
            let before = rest(tables, none, absent, start, Seq::<usize>::empty());
            &&& position < tables.object_to_tags_count.places().len() ==> rest(
                tables,
                none,
                absent,
                start,
                seq![position],
            ) == before
            &&& position >= tables.object_to_tags_count.places().len() ==> before == Set::<
                int,
            >::empty()
        }),
{
    let table = &tables.object_to_tags_count;
    let none = Seq::<int>::empty();
    let size = table.places().len();
    let low = if start is Some { start->0 } else { 0 };
    let from = (low, 0int);
    let next = seq![position];
    let before = rest(tables, none, absent, start, Seq::<usize>::empty());
    assert forall|x: int|
        common(tables, none, x) && pending(
            tables,
            none,
            start,
            Seq::<usize>::empty(),
            x,
        ) implies position < size && table.places()[position as int].0 <= x by {
        let at = table.places().index_of((x, 0int));
        assert(table.places()[at] == (x, 0int));
        table.lemma_single(at);
        if start is Some {
            let passed = choose|passed: int| listed(tables, none, passed) && start->0 <= passed < x;
            table.lemma_lower_bound(found as int, from, (passed, 0));
            assert(!place_less(table.places()[found as int], from));
            table.lemma_single(found as int);
            table.lemma_successor(found as int, (x, 0));
        } else {
            table.lemma_lower_bound(found as int, from, (x, 0));
        }
    }
    if position < size {
        assert forall|x: int|
            rest(tables, none, absent, start, next).contains(x) <==> before.contains(x) by {
            if common(tables, none, x) && x >= table.places()[position as int].0 && start is Some {
                assert(!place_less(table.places()[found as int], from));
                assert(place_less(table.places()[found as int], table.places()[found + 1]));
                table.lemma_single(found as int);
                table.lemma_single(found + 1);
                let passed = table.places()[found as int].0;
                assert(table.places()[found as int] == (passed, 0int));
                assert(table.places().contains((passed, 0int)));
                assert(listed(tables, none, passed) && start->0 <= passed < x);
            }
        }
        assert(rest(tables, none, absent, start, next) =~= before);
    } else {
        assert forall|x: int| !before.contains(x) by {}
        assert(before =~= Set::<int>::empty());
    }
}

/// The room that the cursors have left in a table of `size` keys.
spec fn slack(cursors: Seq<usize>, size: nat) -> nat
    decreases cursors.len(),
{
    if cursors.len() == 0 {
        0
    } else {
        slack(cursors.drop_last(), size) + (if cursors.last() <= size {
            (size - cursors.last()) as nat
        } else {
            0
        })
    }
}

/// A cursor that moves on leaves less room.
proof fn lemma_slack(cursors: Seq<usize>, size: nat, j: int, moved: usize)
    requires
        0 <= j < cursors.len(),
        cursors[j] < size,
        moved == cursors[j] + 1,
    ensures
        slack(cursors.update(j, moved), size) < slack(cursors, size),
    decreases cursors.len(),
{
    let next = cursors.update(j, moved);
    if j == cursors.len() - 1 {
        assert(next.drop_last() =~= cursors.drop_last());
    } else {
        assert(next.drop_last() =~= cursors.drop_last().update(j, moved));
        lemma_slack(cursors.drop_last(), size, j, moved);
    }
}

/// The index that follows `i` in a ring of `n` indices.
pub open spec fn ring_next(i: int, n: int) -> int {
    if i + 1 < n {
        i + 1
    } else {
        0
    }
}

/// What one step of a walk does: it yields the least object that was left,
/// or nothing where nothing was left.
pub open spec fn yields(before: Set<int>, item: Option<Id>, after: Set<int>) -> bool {
    match item {
        Some(id) => {
            &&& before.contains(id.rank())
            &&& forall|other: int| before.contains(other) ==> id.rank() <= other
            &&& after == before.remove(id.rank())
        },
        None => before == Set::<int>::empty() && after == Set::<int>::empty(),
    }
}

/// The index after `i`, where the index after the last is the first.
fn following(i: usize, n: usize) -> (next: usize)
    requires
        i < n,
    ensures
        next == ring_next(i as int, n as int),
{
    proof {
        if i + 1 < n {
            vstd::arithmetic::div_mod::lemma_small_mod((i + 1) as nat, n as nat);
        } else {
            vstd::arithmetic::div_mod::lemma_mod_self_0(n as int);
        }
    }
    (i + 1) % n
}

/// Whether the posting list of some tag that is ruled out holds the object.
fn excluded(tables: &Tables, absent: &Vec<Id>, object_id: &Id) -> (out: bool)
    requires
        tables.tag_and_object.wf(),
    ensures
        out == !clear(tables, id_ranks(absent@), object_id.rank()),
{
    let mut j: usize = 0;
    while j < absent.len()
        invariant
            0 <= j <= absent.len(),
            tables.tag_and_object.wf(),
            forall|m: int|
                0 <= m < j ==> !tables.tag_and_object.has(
                    (#[trigger] id_ranks(absent@)[m], object_id.rank()),
                ),
        decreases absent.len() - j,
    {
        if tables.tag_and_object.get(&(absent[j], *object_id)).is_some() {
            assert(tables.tag_and_object.has((id_ranks(absent@)[j as int], object_id.rank())));
            return true;
        }
        j = j + 1;
    }
    false
}

/// Whether every cursor stands at the object `first`.
fn all_at(tables: &Tables, cursors: &Vec<usize>, first: &Id) -> (all: bool)
    requires
        forall|i: int|
            0 <= i < cursors@.len() ==> (#[trigger] cursors@[i])
                < tables.tag_and_object.places().len(),
    ensures
        all == (forall|i: int|
            #![trigger object_at(tables, cursors@, i)]
            0 <= i < cursors@.len() ==> object_at(tables, cursors@, i) == first.rank()),
{
    let mut i: usize = 0;
    while i < cursors.len()
        invariant
            0 <= i <= cursors.len(),
            forall|m: int|
                0 <= m < cursors@.len() ==> (#[trigger] cursors@[m])
                    < tables.tag_and_object.places().len(),
            forall|m: int|
                #![trigger object_at(tables, cursors@, m)]
                0 <= m < i ==> object_at(tables, cursors@, m) == first.rank(),
        decreases cursors.len() - i,
    {
        assert(cursors@[i as int] < tables.tag_and_object.places().len());
        if !tables.tag_and_object.key_at(cursors[i]).1.same(first) {
            assert(object_at(tables, cursors@, i as int) != first.rank());
            return false;
        }
        i = i + 1;
    }
    true
}

/// A search under way. It yields the objects that it finds one by one, in
/// ascending order.
pub struct SearchIterator<'a> {
    tables: &'a Tables,
    present_tags_ids: Vec<Id>,
    absent_tags_ids: Vec<Id>,
    start_after_object: Option<Id>,
    cursors: Vec<usize>,
    index_1: usize,
    index_2: usize,
    end: bool,
}

impl<'a> SearchIterator<'a> {
    /// The ranks of the objects that the search has yet to yield.
    pub closed spec fn remaining(&self) -> Set<int> {
        if self.end {
            Set::empty()
        } else {
            rest(
                self.tables,
                id_ranks(self.present_tags_ids@),
                id_ranks(self.absent_tags_ids@),
                start_rank(self.start_after_object),
                self.cursors@,
            )
        }
    }

    /// The cursors stand where the search has come to.
    pub closed spec fn wf(&self) -> bool {
        let n = self.present_tags_ids@.len();
        let present = id_ranks(self.present_tags_ids@);
        &&& self.tables.wf()
        &&& !self.end ==> if self.cursors@.len() == 0 {
            n >= 2 ==> self.index_1 == 0 && self.index_2 == 1
        } else if n == 0 {
            self.cursors@.len() == 1 && self.cursors@[0]
                < self.tables.object_to_tags_count.places().len()
        } else {
            &&& self.cursors@.len() == n
            &&& all_live(self.tables, present, self.cursors@)
            &&& complete(self.tables, present, self.cursors@)
            &&& n >= 2 ==> self.index_1 < n && self.index_2 == ring_next(
                self.index_1 as int,
                n as int,
            )
        }
    }

    /// The search is the search that `origin` was, with the same objects
    /// left to yield, and it has not come to its end.
    spec fn continues(
        &self,
        origin: &Self,
        present: Seq<int>,
        absent: Seq<int>,
        start: Option<int>,
    ) -> bool {
        &&& self.tables == origin.tables
        &&& self.tables.wf()
        &&& self.present_tags_ids == origin.present_tags_ids
        &&& self.absent_tags_ids == origin.absent_tags_ids
        &&& self.start_after_object == origin.start_after_object
        &&& present == id_ranks(self.present_tags_ids@)
        &&& absent == id_ranks(self.absent_tags_ids@)
        &&& start == start_rank(self.start_after_object)
        &&& !self.end
        &&& rest(self.tables, present, absent, start, self.cursors@) == origin.remaining()
    }

    /// The next object of the search: the least that is left.
    pub fn next(&mut self) -> (item: Option<Id>)
        requires
            old(self).wf(),
        ensures
            final(self).wf(),
            yields(old(self).remaining(), item, final(self).remaining()),
    {
        if self.end {
            return None;
        }
        if self.present_tags_ids.len() == 0 {
            self.scan_objects()
        } else if self.present_tags_ids.len() == 1 {
            self.scan_postings()
        } else {
            self.leap()
        }
    }

    /// The next object where several tags are asked for: the cursors of the
    /// tags leap over each other until all stand at one object.
    fn leap(&mut self) -> (item: Option<Id>)
        requires
            old(self).wf(),
            !old(self).end,
            old(self).present_tags_ids@.len() >= 2,
        ensures
            final(self).wf(),
            yields(old(self).remaining(), item, final(self).remaining()),
    {
        let tables = self.tables;
        let table = &tables.tag_and_object;
        let n = self.present_tags_ids.len();
        let ghost present = id_ranks(self.present_tags_ids@);
        let ghost absent = id_ranks(self.absent_tags_ids@);
        let ghost start = start_rank(self.start_after_object);
        let ghost size = table.places().len();
        // Whether the cursors from the first up to the one in turn stand at
        // one object. A round in which no cursor moves either passes the
        // turn on or takes it back to the first two tags, and while the
        // cursors are anchored so, it can only pass it on: so the rounds
        // come to an end.
        let ghost mut anchored = false;
        loop
            invariant
                self.continues(old(self), present, absent, start),
                self.tables == tables,
                table == &tables.tag_and_object,
                n == present.len(),
                n >= 2,
                size == tables.tag_and_object.places().len(),
                self.cursors@.len() == 0 ==> self.index_1 == 0 && self.index_2 == 1,
                self.cursors@.len() > 0 ==> {
                    &&& 2 <= self.cursors@.len() <= n
                    &&& self.index_1 < self.cursors@.len()
                    &&& self.index_2 == ring_next(self.index_1 as int, n as int)
                    &&& (self.index_1 + 1 == n ==> self.cursors@.len() == n)
                    &&& all_live(tables, present, self.cursors@)
                    &&& complete(tables, present, self.cursors@)
                },
                anchored ==> self.cursors@.len() > 0 && forall|j: int|
                    #![trigger object_at(tables, self.cursors@, j)]
                    0 <= j <= self.index_1 ==> object_at(tables, self.cursors@, j) == object_at(
                        tables,
                        self.cursors@,
                        0,
                    ),
            decreases
                    n - self.cursors@.len(),
                    slack(self.cursors@, size),
                    (if anchored { 0int } else { 1int }),
                    n - self.index_1,
        {
            let ghost head = self.cursors@;
            let ghost head_1 = self.index_1;
            let ghost head_2 = self.index_2;
            let ghost was_anchored = anchored;
            // All cursors at one object: the object is found, and the first
            // cursor moves on.
            if self.cursors.len() == n {
                proof {
                    assert forall|i: int| 0 <= i < self.cursors@.len() implies (
                    #[trigger] self.cursors@[i]) < size by {
                        assert(live(tables, present, self.cursors@, i));
                    }
                }
                let first = table.key_at(self.cursors[0]).1;
                if all_at(tables, &self.cursors, &first) {
                    proof {
                        table.lemma_len_bound();
                    }
                    let moved = self.cursors[0] + 1;
                    proof {
                        lemma_emit(tables, present, absent, start, self.cursors@, moved);
                        lemma_slack(self.cursors@, size, 0, moved);
                    }
                    let out = excluded(tables, &self.absent_tags_ids, &first);
                    proof {
                        let before = rest(tables, present, absent, start, self.cursors@);
                        if out {
                            assert(before.remove(first.rank()) =~= before);
                        }
                    }
                    self.cursors.set(0, moved);
                    if !(moved < table.len() && table.key_at(moved).0.same(
                        &self.present_tags_ids[0],
                    )) {
                        self.end = true;
                    }
                    if !out {
                        return Some(first);
                    }
                    if self.end {
                        return None;
                    }
                    proof {
                        anchored = false;
                    }
                    continue ;
                }
            }
            // The cursors of the two tags in turn are opened where they are
            // not open yet: the first cursor where the search starts, each
            // other at the object of the cursor before it.
            if self.cursors.len() < n && self.cursors.len() <= self.index_1 {
                let from: Id = if self.index_1 == 0 {
                    match self.start_after_object {
                        Some(id) => id,
                        None => Id::default(),
                    }
                } else {
                    table.key_at(self.cursors[self.cursors.len() - 1]).1
                };
                let found = table.seek(&(self.present_tags_ids[self.index_1], from));
                let position = if self.index_1 == 0 && self.start_after_object.is_some() && found
                    < table.len() {
                    found + 1
                } else {
                    found
                };
                proof {
                    from.rank_bounds();
                    assert(self.cursors@ =~= Seq::<usize>::empty());
                    lemma_open_first(tables, present, absent, start, found, position);
                }
                if !(position < table.len() && table.key_at(position).0.same(
                    &self.present_tags_ids[self.index_1],
                )) {
                    self.end = true;
                    return None;
                }
                self.cursors.push(position);
                assert(self.cursors@ =~= seq![position]);
            }
            if self.cursors.len() < n && self.cursors.len() <= self.index_2 {
                assert(live(tables, present, self.cursors@, self.cursors@.len() - 1));
                let from: Id = table.key_at(self.cursors[self.cursors.len() - 1]).1;
                let found = table.seek(&(self.present_tags_ids[self.index_2], from));
                proof {
                    lemma_open(tables, present, absent, start, self.cursors@, found);
                }
                if !(found < table.len() && table.key_at(found).0.same(
                    &self.present_tags_ids[self.index_2],
                )) {
                    self.end = true;
                    return None;
                }
                self.cursors.push(found);
            }
            let ghost opened = self.cursors@;
            let ghost mut moved_any = false;
            // The second cursor catches up with the first.
            assert(live(tables, present, self.cursors@, self.index_1 as int));
            assert(live(tables, present, self.cursors@, self.index_2 as int));
            while table.key_at(self.cursors[self.index_2]).1.less(
                &table.key_at(self.cursors[self.index_1]).1,
            )
                invariant
                    self.continues(old(self), present, absent, start),
                    self.tables == tables,
                    table == &tables.tag_and_object,
                    n == present.len(),
                    n >= 2,
                    size == tables.tag_and_object.places().len(),
                    self.cursors@.len() == opened.len(),
                    self.index_1 == head_1,
                    self.index_2 == head_2,
                    2 <= self.cursors@.len() <= n,
                    self.index_1 < self.cursors@.len(),
                    self.index_2 < self.cursors@.len(),
                    self.cursors@[self.index_1 as int] < size,
                    self.cursors@[self.index_2 as int] < size,
                    all_live(tables, present, self.cursors@),
                    complete(tables, present, self.cursors@),
                    moved_any ==> slack(self.cursors@, size) < slack(opened, size),
                    !moved_any ==> self.cursors@ == opened,
                decreases slack(self.cursors@, size),
            {
                proof {
                    table.lemma_len_bound();
                }
                let moved = self.cursors[self.index_2] + 1;
                proof {
                    lemma_advance(
                        tables,
                        present,
                        absent,
                        start,
                        self.cursors@,
                        self.index_2 as int,
                        self.index_1 as int,
                        moved,
                    );
                    lemma_slack(self.cursors@, size, self.index_2 as int, moved);
                }
                self.cursors.set(self.index_2, moved);
                if !(moved < table.len() && table.key_at(moved).0.same(
                    &self.present_tags_ids[self.index_2],
                )) {
                    self.end = true;
                    return None;
                }
                proof {
                    moved_any = true;
                    assert(live(tables, present, self.cursors@, self.index_1 as int));
                    assert(live(tables, present, self.cursors@, self.index_2 as int));
                }
            }
            if table.key_at(self.cursors[self.index_2]).1.same(
                &table.key_at(self.cursors[self.index_1]).1,
            ) {
                // The two agree: the turn passes to the next two tags.
                proof {
                    let held = was_anchored && self.cursors@ == head;
                    anchored = held || self.index_1 + 1 == n;
                    assert(object_at(tables, self.cursors@, self.index_2 as int) == object_at(
                        tables,
                        self.cursors@,
                        self.index_1 as int,
                    ));
                }
                self.index_1 = following(self.index_1, n);
                self.index_2 = following(self.index_2, n);
            } else {
                // The second cursor has passed the first: the cursor of the
                // rarest tag catches up with it, and the turn goes back to
                // the first two tags.
                let ghost aligned = self.cursors@;
                let ghost mut caught_up = false;
                assert(live(tables, present, self.cursors@, 0));
                assert(object_at(tables, self.cursors@, self.index_2 as int) > object_at(
                    tables,
                    self.cursors@,
                    self.index_1 as int,
                ));
                while table.key_at(self.cursors[0]).1.less(&table.key_at(self.cursors[self.index_2]).1)
                    invariant
                        self.continues(old(self), present, absent, start),
                        self.tables == tables,
                        table == &tables.tag_and_object,
                        n == present.len(),
                        n >= 2,
                        size == tables.tag_and_object.places().len(),
                        self.cursors@.len() == aligned.len(),
                        self.index_1 == head_1,
                        self.index_2 == head_2,
                        2 <= self.cursors@.len() <= n,
                        self.index_1 < self.cursors@.len(),
                        self.index_2 < self.cursors@.len(),
                        self.cursors@[0] < size,
                        self.cursors@[self.index_2 as int] < size,
                        all_live(tables, present, self.cursors@),
                        complete(tables, present, self.cursors@),
                        caught_up ==> slack(self.cursors@, size) < slack(aligned, size),
                        !caught_up ==> self.cursors@ == aligned,
                    decreases slack(self.cursors@, size),
                {
                    proof {
                        table.lemma_len_bound();
                    }
                    let moved = self.cursors[0] + 1;
                    proof {
                        lemma_advance(
                            tables,
                            present,
                            absent,
                            start,
                            self.cursors@,
                            0,
                            self.index_2 as int,
                            moved,
                        );
                        lemma_slack(self.cursors@, size, 0, moved);
                    }
                    self.cursors.set(0, moved);
                    if !(moved < table.len() && table.key_at(moved).0.same(
                        &self.present_tags_ids[0],
                    )) {
                        self.end = true;
                        return None;
                    }
                    proof {
                        caught_up = true;
                        assert(live(tables, present, self.cursors@, 0));
                        assert(live(tables, present, self.cursors@, self.index_2 as int));
                    }
                }
                proof {
                    if !caught_up {
                        assert(object_at(tables, self.cursors@, 0) >= object_at(
                            tables,
                            self.cursors@,
                            self.index_2 as int,
                        ));
                    }
                }
                self.index_1 = 0;
                self.index_2 = 1;
                proof {
                    anchored = true;
                }

            }
        }
    }

    /// The next object where no tag is asked for: a walk over the known
    /// objects.
    fn scan_objects(&mut self) -> (item: Option<Id>)
        requires
            old(self).wf(),
            !old(self).end,
            old(self).present_tags_ids@.len() == 0,
        ensures
            final(self).wf(),
            yields(old(self).remaining(), item, final(self).remaining()),
    {
        let tables = self.tables;
        let table = &tables.object_to_tags_count;
        let ghost none = id_ranks(self.present_tags_ids@);
        let ghost absent = id_ranks(self.absent_tags_ids@);
        let ghost start = start_rank(self.start_after_object);
        assert(none =~= Seq::<int>::empty());
        if self.cursors.len() == 0 {
            let from: Id = match self.start_after_object {
                Some(id) => id,
                None => Id::default(),
            };
            let found = table.seek(&from);
            let position = if self.start_after_object.is_some() && found < table.len() {
                found + 1
            } else {
                found
            };
            proof {
                from.rank_bounds();
                assert(self.cursors@ =~= Seq::<usize>::empty());
                lemma_scan_open(tables, absent, start, found, position);
            }
            if position >= table.len() {
                self.end = true;
                return None;
            }
            self.cursors.push(position);
            assert(self.cursors@ =~= seq![position]);
        }
        loop
            invariant
                self.continues(old(self), none, absent, start),
                self.tables == tables,
                table == &tables.object_to_tags_count,
                none == Seq::<int>::empty(),
                self.cursors@.len() == 1,
                self.cursors@[0] < tables.object_to_tags_count.places().len(),
            decreases tables.object_to_tags_count.places().len() - self.cursors@[0],
        {
            let at = self.cursors[0];
            let object_id = *table.key_at(at);
            proof {
                table.lemma_len_bound();
            }
            let moved = at + 1;
            proof {
                lemma_scan_step(tables, absent, start, self.cursors@, moved);
                table.lemma_single(at as int);
            }
            let out = excluded(tables, &self.absent_tags_ids, &object_id);
            proof {
                let before = rest(tables, id_ranks(self.present_tags_ids@), absent, start, self.cursors@);
                if out {
                    assert(before.remove(object_id.rank()) =~= before);
                }
            }
            self.cursors.set(0, moved);
            if moved >= table.len() {
                self.end = true;
            }
            if !out {
                return Some(object_id);
            }
            if self.end {
                return None;
            }
        }
    }

    /// The next object where one tag is asked for: a walk over the posting
    /// list of the tag.
    fn scan_postings(&mut self) -> (item: Option<Id>)
        requires
            old(self).wf(),
            !old(self).end,
            old(self).present_tags_ids@.len() == 1,
        ensures
            final(self).wf(),
            yields(old(self).remaining(), item, final(self).remaining()),
    {
        let tables = self.tables;
        let table = &tables.tag_and_object;
        let ghost present = id_ranks(self.present_tags_ids@);
        let ghost absent = id_ranks(self.absent_tags_ids@);
        let ghost start = start_rank(self.start_after_object);
        if self.cursors.len() == 0 {
            let from: Id = match self.start_after_object {
                Some(id) => id,
                None => Id::default(),
            };
            let found = table.seek(&(self.present_tags_ids[0], from));
            let position = if self.start_after_object.is_some() && found < table.len() {
                found + 1
            } else {
                found
            };
            proof {
                from.rank_bounds();
                assert(self.cursors@ =~= Seq::<usize>::empty());
                lemma_open_first(tables, present, absent, start, found, position);
            }
            if !(position < table.len() && table.key_at(position).0.same(
                &self.present_tags_ids[0],
            )) {
                self.end = true;
                return None;
            }
            self.cursors.push(position);
            assert(self.cursors@ =~= seq![position]);
        }
        loop
            invariant
                self.continues(old(self), present, absent, start),
                self.tables == tables,
                table == &tables.tag_and_object,
                present.len() == 1,
                self.cursors@.len() == 1,
                all_live(tables, present, self.cursors@),
                complete(tables, present, self.cursors@),
            decreases tables.tag_and_object.places().len() - self.cursors@[0],
        {
            assert(live(tables, present, self.cursors@, 0));
            let at = self.cursors[0];
            let object_id = table.key_at(at).1;
            proof {
                table.lemma_len_bound();
            }
            let moved = at + 1;
            proof {
                lemma_emit(tables, present, absent, start, self.cursors@, moved);
            }
            let out = excluded(tables, &self.absent_tags_ids, &object_id);
            proof {
                let before = rest(tables, id_ranks(self.present_tags_ids@), absent, start, self.cursors@);
                if out {
                    assert(before.remove(object_id.rank()) =~= before);
                }
            }
            self.cursors.set(0, moved);
            if !(moved < table.len() && table.key_at(moved).0.same(&self.present_tags_ids[0])) {
                self.end = true;
            }
            if !out {
                return Some(object_id);
            }
            if self.end {
                return None;
            }
        }
    }
}

/// Before the first step, what is left of a search over the planned tags
/// is what the search is to yield.
proof fn lemma_search_start(
    tables: &Tables,
    present: Seq<int>,
    absent: Seq<int>,
    start: Option<int>,
    planned: Seq<int>,
    perm: Seq<int>,
    ruled_out: Seq<int>,
)
    requires
        tables.wf(),
        arranged(tables@, present, planned, perm),
        forall|x: int|
            #![trigger ruled_out.contains(x)]
            #![trigger absent.contains(x)]
            ruled_out.contains(x) <==> absent.contains(x) && tables@.tag_alive(x),
    ensures
        rest(tables, planned, ruled_out, start, Seq::<usize>::empty()) == tables@.search(
            present,
            absent,
            start,
        ),
{
    let content = tables@;
    let none = Seq::<usize>::empty();
    lemma_arranged(content, present, planned, perm);
    assert forall|t: int, x: int| tables.tag_and_object.has((t, x)) <==> content.carries(x, t) by {
        if tables.tag_and_object.has((t, x)) {
            assert(tables.tag_object().contains((t, x)));
            assert(tables.object_tag().contains((x, t)));
        }
        if content.carries(x, t) {
            assert(tables.object_tag().contains((x, t)));
            assert(tables.tag_object().contains((t, x)));
        }
    }
    assert forall|x: int|
        common(tables, planned, x) <==> content.known(x) && (forall|i: int|
            0 <= i < present.len() ==> content.carries(x, #[trigger] present[i])) by {
        if common(tables, planned, x) {
            assert forall|i: int| 0 <= i < present.len() implies content.carries(
                x,
                #[trigger] present[i],
            ) by {
                assert(present.contains(present[i]));
                assert(planned.contains(present[i]));
                let k = planned.index_of(present[i]);
                assert(tables.tag_and_object.has((planned[k], x)));
            }
            if present.len() > 0 {
                assert(content.carries(x, present[0]));
            }
        }
        if content.known(x) && (forall|i: int|
            0 <= i < present.len() ==> content.carries(x, #[trigger] present[i])) {
            if present.len() > 0 {
                assert forall|k: int| 0 <= k < planned.len() implies tables.tag_and_object.has(
                    (#[trigger] planned[k], x),
                ) by {
                    assert(planned.contains(planned[k]));
                    assert(present.contains(planned[k]));
                    let i = present.index_of(planned[k]);
                    assert(content.carries(x, present[i]));
                }
            }
        }
    }
    assert forall|x: int|
        clear(tables, ruled_out, x) <==> (forall|j: int|
            0 <= j < absent.len() ==> !content.carries(x, #[trigger] absent[j])) by {
        if clear(tables, ruled_out, x) {
            assert forall|j: int| 0 <= j < absent.len() implies !content.carries(
                x,
                #[trigger] absent[j],
            ) by {
                if content.carries(x, absent[j]) {
                    assert(absent.contains(absent[j]));
                    assert(content.tag_alive(absent[j]));
                    assert(ruled_out.contains(absent[j]));
                    let k = ruled_out.index_of(absent[j]);
                    assert(!tables.tag_and_object.has((ruled_out[k], x)));
                }
            }
        }
        if forall|j: int| 0 <= j < absent.len() ==> !content.carries(x, #[trigger] absent[j]) {
            assert forall|k: int| 0 <= k < ruled_out.len() implies !tables.tag_and_object.has(
                (#[trigger] ruled_out[k], x),
            ) by {
                assert(ruled_out.contains(ruled_out[k]));
                assert(absent.contains(ruled_out[k]));
                let j = absent.index_of(ruled_out[k]);
                assert(!content.carries(x, absent[j]));
            }
        }
    }
    assert forall|y: int| listed(tables, planned, y) <==> content.driver(present).contains(y) by {}
    assert forall|x: int|
        rest(tables, planned, ruled_out, start, none).contains(x) <==> content.search(
            present,
            absent,
            start,
        ).contains(x) by {
        assert(common(tables, planned, x) <==> content.known(x) && (forall|i: int|
            0 <= i < present.len() ==> content.carries(x, #[trigger] present[i])));
        assert(clear(tables, ruled_out, x) <==> (forall|j: int|
            0 <= j < absent.len() ==> !content.carries(x, #[trigger] absent[j])));
        if start is Some {
            if pending(tables, planned, start, none, x) {
                let passed = choose|passed: int|
                    listed(tables, planned, passed) && start->0 <= passed < x;
                assert(content.driver(present).contains(passed));
            }
            if content.reached(present, start, x) {
                let passed = choose|passed: int|
                    content.driver(present).contains(passed) && start->0 <= passed < x;
                assert(listed(tables, planned, passed));
            }
        }
        assert(pending(tables, planned, start, none, x) <==> content.reached(present, start, x));
    }
    assert(rest(tables, planned, ruled_out, start, none) =~= content.search(present, absent, start));
}

impl<'a> SearchIterator<'a> {
    /// A search is left with finitely many objects to yield.
    pub proof fn lemma_remaining_finite(&self)
        requires
            self.wf(),
        ensures
            self.remaining().finite(),
    {
        let present = id_ranks(self.present_tags_ids@);
        if !self.end {
            if present.len() == 0 {
                let table = &self.tables.object_to_tags_count;
                table.lemma_domain_len();
                let all = table.domain().map(|p: (int, int)| p.0);
                table.domain().lemma_map_finite(|p: (int, int)| p.0);
                assert forall|x: int| self.remaining().contains(x) implies all.contains(x) by {
                    assert(table.domain().contains((x, 0int)));
                }
                vstd::set_lib::lemma_len_subset(self.remaining(), all);
            } else {
                let table = &self.tables.tag_and_object;
                table.lemma_domain_len();
                let all = table.domain().map(|p: (int, int)| p.1);
                table.domain().lemma_map_finite(|p: (int, int)| p.1);
                assert forall|x: int| self.remaining().contains(x) implies all.contains(x) by {
                    assert(table.domain().contains((present[0], x)));
                }
                vstd::set_lib::lemma_len_subset(self.remaining(), all);
            }
        }
    }

    /// A search of `tables` for the objects that carry every tag of
    /// `present_tags` and no tag of `absent_tags`, from the first such object
    /// behind `start_after_object`.
    pub(crate) fn start(
        tables: &'a Tables,
        present_tags: &Vec<Object>,
        absent_tags: &Vec<Object>,
        start_after_object: Option<Id>,
    ) -> (found: Self)
        requires
            tables.wf(),
        ensures
            found.wf(),
            found.remaining() == tables@.search(
                object_ranks(present_tags@),
                object_ranks(absent_tags@),
                start_rank(start_after_object),
            ),
    {
        let absent_tags_ids = plan_absent(tables, absent_tags);
        let present_tags_ids = plan_present(tables, present_tags);
        proof {
            let perm = choose|perm: Seq<int>|
                arranged(
                    tables@,
                    object_ranks(present_tags@),
                    id_ranks(present_tags_ids@),
                    perm,
                );
            let back = choose|back: Seq<int>|
                arranged_back(
                    tables@,
                    object_ranks(absent_tags@),
                    id_ranks(absent_tags_ids@),
                    back,
                );
            lemma_arranged_back(
                tables@,
                object_ranks(absent_tags@),
                id_ranks(absent_tags_ids@),
                back,
            );
            lemma_search_start(
                tables,
                object_ranks(present_tags@),
                object_ranks(absent_tags@),
                start_rank(start_after_object),
                id_ranks(present_tags_ids@),
                perm,
                id_ranks(absent_tags_ids@),
            );
        }
        SearchIterator {
            tables,
            present_tags_ids,
            absent_tags_ids,
            start_after_object,
            cursors: Vec::new(),
            index_1: 0,
            index_2: 1,
            end: false,
        }
    }

    /// All objects that the search has yet to yield, in ascending order.
    pub fn collect(self) -> (found: Vec<Id>)
        requires
            self.wf(),
        ensures
            increasing(id_ranks(found@)),
            id_ranks(found@).to_set() == self.remaining(),
    {
        let mut walk = self;
        let mut found: Vec<Id> = Vec::new();
        proof {
            assert(id_ranks(found@).to_set().union(walk.remaining()) =~= self.remaining());
        }
        loop
            invariant
                walk.wf(),
                increasing(id_ranks(found@)),
                forall|a: int, y: int|
                    id_ranks(found@).contains(a) && walk.remaining().contains(y) ==> a < y,
                id_ranks(found@).to_set().union(walk.remaining()) == self.remaining(),
            decreases walk.remaining().len(),
        {
            let ghost before = walk.remaining();
            let ghost ranks = id_ranks(found@);
            proof {
                walk.lemma_remaining_finite();
            }
            match walk.next() {
                Some(id) => {
                    found.push(id);
                    proof {
                        let after = id_ranks(found@);
                        assert(after =~= ranks.push(id.rank()));
                        assert forall|i: int, j: int| 0 <= i < j < after.len() implies after[i]
                            < after[j] by {
                            if j == after.len() - 1 {
                                assert(ranks.contains(ranks[i]));
                            }
                        }
                        assert forall|a: int, y: int|
                            after.contains(a) && walk.remaining().contains(y) implies a < y by {
                            let k = after.index_of(a);
                            if k < ranks.len() {
                                assert(ranks.contains(ranks[k]));
                            }
                        }
                        assert forall|x: int|
                            after.to_set().union(walk.remaining()).contains(x)
                                <==> ranks.to_set().union(before).contains(x) by {
                            if after.contains(x) {
                                let k = after.index_of(x);
                                if k < ranks.len() {
                                    assert(ranks.contains(ranks[k]));
                                }
                            }
                            if ranks.contains(x) {
                                let k = ranks.index_of(x);
                                assert(after[k] == x);
                            }
                            if x == id.rank() {
                                assert(after[after.len() - 1] == x);
                            }
                        }
                        assert(after.to_set().union(walk.remaining()) =~= ranks.to_set().union(
                            before,
                        ));
                    }
                },
                None => {
                    proof {
                        assert(ranks.to_set().union(walk.remaining()) =~= ranks.to_set());
                    }
                    return found;
                },
            }
        }
    }
}

impl<'a> ReadTransaction<'a> {
    /// A search for the objects that carry every tag of `present_tags` and no
    /// tag of `absent_tags`. With `start_after_object`, the search walks its
    /// first list from that identifier on, passes over the first entry that
    /// it meets, and yields what lies behind it.
    pub fn search(
        &self,
        present_tags: &Vec<Object>,
        absent_tags: &Vec<Object>,
        start_after_object: Option<Id>,
    ) -> (found: SearchIterator<'a>)
        requires
            self.wf(),
        ensures
            found.wf(),
            found.remaining() == self@.search(
                object_ranks(present_tags@),
                object_ranks(absent_tags@),
                start_rank(start_after_object),
            ),
    {
        SearchIterator::start(self.tables, present_tags, absent_tags, start_after_object)
    }
}

impl WriteTransaction {
    /// A search of what the transaction has written so far; see
    /// `ReadTransaction::search`.
    pub fn search(
        &self,
        present_tags: &Vec<Object>,
        absent_tags: &Vec<Object>,
        start_after_object: Option<Id>,
    ) -> (found: SearchIterator<'_>)
        requires
            self.wf(),
        ensures
            found.wf(),
            found.remaining() == self@.search(
                object_ranks(present_tags@),
                object_ranks(absent_tags@),
                start_rank(start_after_object),
            ),
    {
        SearchIterator::start(&self.tables, present_tags, absent_tags, start_after_object)
    }
}

} // verus!

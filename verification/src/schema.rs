//! The five tables of an index, what they hold, and how they agree.

use crate::id::Id;
use crate::table::{place_less, Table};
use vstd::prelude::*;
use vstd::set_lib::lemma_len_subset;

verus! {

/// What an index holds: the tags of each known object, and the bytes that
/// identifiers were made of. Objects and tags are named by their ranks.
pub struct Content {
    /// Each known object with the tags that it carries.
    pub tags: Map<int, Set<int>>,
    /// The bytes of those identifiers that were inserted as raw bytes.
    pub sources: Map<int, Seq<u8>>,
}

impl Content {
    /// An index that holds nothing.
    pub open spec fn empty() -> Content {
        Content { tags: Map::empty(), sources: Map::empty() }
    }

    /// Whether the object has been inserted and not removed since.
    pub open spec fn known(self, object: int) -> bool {
        self.tags.contains_key(object)
    }

    /// Whether the object carries the tag.
    pub open spec fn carries(self, object: int, tag: int) -> bool {
        self.tags.contains_key(object) && self.tags[object].contains(tag)
    }

    /// The tags of an object: none where the object is not known.
    pub open spec fn tags_of(self, object: int) -> Set<int> {
        if self.tags.contains_key(object) {
            self.tags[object]
        } else {
            Set::empty()
        }
    }

    /// The known objects.
    pub open spec fn objects(self) -> Set<int> {
        self.tags.dom()
    }

    /// The posting list of a tag: the objects that carry it.
    pub open spec fn objects_of(self, tag: int) -> Set<int> {
        Set::new(|object: int| self.carries(object, tag))
    }

    /// Whether some object carries the tag.
    pub open spec fn tag_alive(self, tag: int) -> bool {
        exists|object: int| self.carries(object, tag)
    }

    /// All pairs of a known object and one of its tags, the tag first.
    pub open spec fn postings(self) -> Set<(int, int)> {
        Set::new(|p: (int, int)| self.carries(p.1, p.0))
    }

    /// All pairs of a known object and one of its tags, the object first.
    pub open spec fn taggings(self) -> Set<(int, int)> {
        Set::new(|p: (int, int)| self.carries(p.0, p.1))
    }
}

/// The five ordered tables.
pub struct Tables {
    /// A key for each tag of each object, the tag leading.
    pub tag_and_object: Table<(Id, Id), ()>,
    /// A key for each tag of each object, the object leading.
    pub object_and_tag: Table<(Id, Id), ()>,
    /// The bytes that an identifier was made of.
    pub id_to_source: Table<Id, Vec<u8>>,
    /// For each tag, the number of objects that carry it.
    pub tag_to_objects_count: Table<Id, u32>,
    /// For each known object, the number of its tags.
    pub object_to_tags_count: Table<Id, u32>,
}

impl View for Tables {
    type V = Content;

    open spec fn view(&self) -> Content {
        Content {
            tags: Map::new(
                |object: int| self.object_to_tags_count.has((object, 0)),
                |object: int| Set::new(|tag: int| self.object_and_tag.has((object, tag))),
            ),
            sources: Map::new(
                |id: int| self.id_to_source.has((id, 0)),
                |id: int| self.id_to_source.model()[(id, 0)]@,
            ),
        }
    }
}

/// The entries of `pairs` whose leading component is `lead`.
pub open spec fn led_by(pairs: Set<(int, int)>, lead: int) -> Set<(int, int)> {
    pairs.filter(|p: (int, int)| p.0 == lead)
}

/// Adding a pair adds it to the entries that its leading component leads,
/// and to no others.
pub proof fn lemma_led_by_insert(pairs: Set<(int, int)>, a: int, b: int)
    requires
        pairs.finite(),
    ensures
        led_by(pairs.insert((a, b)), a) == led_by(pairs, a).insert((a, b)),
        forall|x: int| x != a ==> #[trigger] led_by(pairs.insert((a, b)), x) == led_by(pairs, x),
        led_by(pairs, a).finite(),
        led_by(pairs, a).len() <= pairs.len(),
        !pairs.contains((a, b)) ==> led_by(pairs.insert((a, b)), a).len() == led_by(pairs, a).len()
            + 1,
{
    assert(led_by(pairs.insert((a, b)), a) =~= led_by(pairs, a).insert((a, b)));
    assert forall|x: int| x != a implies #[trigger] led_by(pairs.insert((a, b)), x) == led_by(
        pairs,
        x,
    ) by {
        assert(led_by(pairs.insert((a, b)), x) =~= led_by(pairs, x));
    }
    lemma_len_subset(led_by(pairs, a), pairs);
}

/// Taking a pair out takes it from the entries that its leading component
/// leads, and from no others.
pub proof fn lemma_led_by_remove(pairs: Set<(int, int)>, a: int, b: int)
    requires
        pairs.finite(),
    ensures
        led_by(pairs.remove((a, b)), a) == led_by(pairs, a).remove((a, b)),
        forall|x: int| x != a ==> #[trigger] led_by(pairs.remove((a, b)), x) == led_by(pairs, x),
        led_by(pairs, a).finite(),
        led_by(pairs, a).len() <= pairs.len(),
        pairs.contains((a, b)) ==> led_by(pairs.remove((a, b)), a).len() == led_by(pairs, a).len()
            - 1,
{
    assert(led_by(pairs.remove((a, b)), a) =~= led_by(pairs, a).remove((a, b)));
    assert forall|x: int| x != a implies #[trigger] led_by(pairs.remove((a, b)), x) == led_by(
        pairs,
        x,
    ) by {
        assert(led_by(pairs.remove((a, b)), x) =~= led_by(pairs, x));
    }
    lemma_len_subset(led_by(pairs, a), pairs);
}

/// Where no entry is led by `lead`, the entries that it leads number zero.
pub proof fn lemma_led_by_none(pairs: Set<(int, int)>, lead: int)
    requires
        forall|other: int| !pairs.contains((lead, other)),
    ensures
        led_by(pairs, lead) == Set::<(int, int)>::empty(),
        led_by(pairs, lead).len() == 0,
{
    assert forall|p: (int, int)| !led_by(pairs, lead).contains(p) by {
        if led_by(pairs, lead).contains(p) {
            assert(pairs.contains((lead, p.1)));
        }
    }
    assert(led_by(pairs, lead) =~= Set::<(int, int)>::empty());
}

/// In a table of pairs, the keys that one leading component leads stand
/// side by side: where they fill the positions from `start` up to `stop`,
/// they number `stop - start`.
pub proof fn lemma_led_range(table: &Table<(Id, Id), ()>, lead: int, start: int, stop: int)
    requires
        table.wf(),
        0 <= start <= stop <= table.places().len(),
        forall|j: int| start <= j < stop ==> (#[trigger] table.places()[j]).0 == lead,
        forall|j: int| 0 <= j < start ==> (#[trigger] table.places()[j]).0 != lead,
        forall|j: int| stop <= j < table.places().len() ==> (#[trigger] table.places()[j]).0 != lead,
    ensures
        led_by(table.domain(), lead).finite(),
        led_by(table.domain(), lead).len() == stop - start,
{
    let run = table.places().subrange(start, stop);
    assert forall|i: int, j: int| 0 <= i < run.len() && 0 <= j < run.len() && i != j implies run[i]
        != run[j] by {
        if i < j {
            assert(place_less(table.places()[start + i], table.places()[start + j]));
        } else {
            assert(place_less(table.places()[start + j], table.places()[start + i]));
        }
    }
    run.unique_seq_to_set();
    assert forall|p: (int, int)| run.to_set().contains(p) <==> led_by(table.domain(), lead).contains(
        p,
    ) by {
        if run.to_set().contains(p) {
            let i = run.index_of(p);
            assert(run[i] == p);
            assert(table.places()[start + i] == p);
            assert(table.places().contains(p));
        }
        if led_by(table.domain(), lead).contains(p) {
            let j = table.places().index_of(p);
            assert(table.places()[j] == p);
            assert(start <= j < stop);
            assert(run[j - start] == p);
        }
    }
    assert(run.to_set() =~= led_by(table.domain(), lead));
}

/// Each table holds the pairs of the other, turned round.
pub open spec fn mirror(a: &Table<(Id, Id), ()>, b: &Table<(Id, Id), ()>) -> bool {
    forall|x: int, y: int|
        #![trigger a.domain().contains((x, y))]
        #![trigger b.domain().contains((y, x))]
        a.domain().contains((x, y)) <==> b.domain().contains((y, x))
}

/// Whatever leads a pair has a count.
pub open spec fn counts_cover(counts: &Table<Id, u32>, pairs: &Table<(Id, Id), ()>) -> bool {
    forall|x: int, y: int|
        #![trigger pairs.domain().contains((x, y))]
        pairs.domain().contains((x, y)) ==> counts.domain().contains((x, 0))
}

/// Each count is the number of pairs that its key leads.
pub open spec fn counts_exact(counts: &Table<Id, u32>, pairs: &Table<(Id, Id), ()>) -> bool {
    forall|x: int|
        #![trigger counts.domain().contains((x, 0))]
        #![trigger led_by(pairs.domain(), x)]
        counts.domain().contains((x, 0)) ==> counts.model()[(x, 0)] == led_by(pairs.domain(), x).len()
}

/// No count is zero.
pub open spec fn counts_positive(counts: &Table<Id, u32>) -> bool {
    forall|x: int|
        #![trigger counts.domain().contains((x, 0))]
        counts.domain().contains((x, 0)) ==> counts.model()[(x, 0)] > 0
}

/// As `counts_cover`, but for `spared`.
pub open spec fn counts_cover_besides(
    counts: &Table<Id, u32>,
    pairs: &Table<(Id, Id), ()>,
    spared: int,
) -> bool {
    forall|x: int, y: int|
        #![trigger pairs.domain().contains((x, y))]
        pairs.domain().contains((x, y)) && x != spared ==> counts.domain().contains((x, 0))
}

/// As `counts_exact`, but for `spared`.
pub open spec fn counts_exact_besides(
    counts: &Table<Id, u32>,
    pairs: &Table<(Id, Id), ()>,
    spared: int,
) -> bool {
    forall|x: int|
        #![trigger counts.domain().contains((x, 0))]
        #![trigger led_by(pairs.domain(), x)]
        counts.domain().contains((x, 0)) && x != spared ==> counts.model()[(x, 0)] == led_by(
            pairs.domain(),
            x,
        ).len()
}

/// Two tables that mirror each other still do when a pair joins the one and
/// the pair turned round joins the other, and when both leave.
pub proof fn lemma_mirror_step(
    a: &Table<(Id, Id), ()>,
    b: &Table<(Id, Id), ()>,
    a2: &Table<(Id, Id), ()>,
    b2: &Table<(Id, Id), ()>,
    x: int,
    y: int,
)
    requires
        mirror(a, b),
        (a2.domain() == a.domain().insert((x, y)) && b2.domain() == b.domain().insert((y, x))) || (
        a2.domain() == a.domain().remove((x, y)) && b2.domain() == b.domain().remove((y, x))),
    ensures
        mirror(a2, b2),
{
    assert forall|u: int, v: int|
        #![trigger a2.domain().contains((u, v))]
        #![trigger b2.domain().contains((v, u))]
        a2.domain().contains((u, v)) <==> b2.domain().contains((v, u)) by {
        assert(a.domain().contains((u, v)) <==> b.domain().contains((v, u)));
    }
}

/// A pair joins the pairs, and the count of what leads it grows by one: the
/// counts stay exact.
pub proof fn lemma_count_up(
    counts: &Table<Id, u32>,
    pairs: &Table<(Id, Id), ()>,
    counts2: &Table<Id, u32>,
    pairs2: &Table<(Id, Id), ()>,
    x: int,
    y: int,
)
    requires
        pairs.wf(),
        counts_cover(counts, pairs),
        counts_exact(counts, pairs),
        counts_positive(counts),
        !pairs.has((x, y)),
        pairs2.domain() == pairs.domain().insert((x, y)),
        counts2.domain() == counts.domain().insert((x, 0)),
        counts.has((x, 0)) ==> counts.model()[(x, 0)] < u32::MAX,
        counts2.model() == counts.model().insert(
            (x, 0),
            if counts.has((x, 0)) {
                (counts.model()[(x, 0)] + 1) as u32
            } else {
                1u32
            },
        ),
    ensures
        counts_cover(counts2, pairs2),
        counts_exact(counts2, pairs2),
        counts_positive(counts2),
{
    pairs.lemma_domain_len();
    lemma_led_by_insert(pairs.domain(), x, y);
    if !counts.has((x, 0)) {
        lemma_led_by_none(pairs.domain(), x);
    }
    assert forall|u: int|
        #![trigger counts2.domain().contains((u, 0))]
        counts2.domain().contains((u, 0)) implies counts2.model()[(u, 0)] == led_by(
        pairs2.domain(),
        u,
    ).len() && counts2.model()[(u, 0)] > 0 by {
        if u != x {
            assert(counts.domain().contains((u, 0)));
        }
    }
    assert forall|u: int, v: int|
        #![trigger pairs2.domain().contains((u, v))]
        pairs2.domain().contains((u, v)) implies counts2.domain().contains((u, 0)) by {
        if (u, v) != (x, y) {
            assert(pairs.domain().contains((u, v)));
        }
    }
}

/// A pair leaves the pairs, and the count of what led it falls by one, or
/// goes where it was one: the counts stay exact. It was one where the pair
/// was the only one that its leading component led, and nowhere else.
pub proof fn lemma_count_down(
    counts: &Table<Id, u32>,
    pairs: &Table<(Id, Id), ()>,
    counts2: &Table<Id, u32>,
    pairs2: &Table<(Id, Id), ()>,
    x: int,
    y: int,
)
    requires
        pairs.wf(),
        counts_cover(counts, pairs),
        counts_exact(counts, pairs),
        counts_positive(counts),
        pairs.has((x, y)),
        pairs2.domain() == pairs.domain().remove((x, y)),
        counts.model()[(x, 0)] > 1 ==> counts2.domain() == counts.domain().insert((x, 0))
            && counts2.model() == counts.model().insert(
            (x, 0),
            (counts.model()[(x, 0)] - 1) as u32,
        ),
        counts.model()[(x, 0)] <= 1 ==> counts2.domain() == counts.domain().remove((x, 0))
            && counts2.model() == counts.model().remove((x, 0)),
    ensures
        counts_cover(counts2, pairs2),
        counts_exact(counts2, pairs2),
        counts_positive(counts2),
        counts.model()[(x, 0)] <= 1 <==> (forall|other: int|
            other != y ==> !pairs.domain().contains((x, other))),
{
    pairs.lemma_domain_len();
    lemma_led_by_remove(pairs.domain(), x, y);
    assert(pairs.domain().contains((x, y)));
    assert(counts.domain().contains((x, 0)));
    let count = counts.model()[(x, 0)];
    let left = led_by(pairs2.domain(), x);
    assert(led_by(pairs.domain(), x).contains((x, y)));
    assert(left.len() == count - 1);
    if count <= 1 {
        assert forall|other: int| other != y implies !pairs.domain().contains((x, other)) by {
            if pairs.domain().contains((x, other)) {
                assert(left.contains((x, other)));
            }
        }
    } else {
        let p = left.choose();
        assert(left.contains(p));
        assert(pairs.domain().contains((x, p.1)));
    }
    assert forall|u: int|
        #![trigger counts2.domain().contains((u, 0))]
        counts2.domain().contains((u, 0)) implies counts2.model()[(u, 0)] == led_by(
        pairs2.domain(),
        u,
    ).len() && counts2.model()[(u, 0)] > 0 by {
        if u != x {
            assert(counts.domain().contains((u, 0)));
        }
    }
    assert forall|u: int, v: int|
        #![trigger pairs2.domain().contains((u, v))]
        pairs2.domain().contains((u, v)) implies counts2.domain().contains((u, 0)) by {
        assert(pairs.domain().contains((u, v)));
        if u == x {
            assert(left.contains((u, v)));
        }
    }
}

/// A pair that `spared` leads joins or leaves the pairs: the counts of all
/// others stay exact, and `spared` leads one pair more or less.
pub proof fn lemma_spared_step(
    counts: &Table<Id, u32>,
    pairs: &Table<(Id, Id), ()>,
    pairs2: &Table<(Id, Id), ()>,
    spared: int,
    y: int,
)
    requires
        pairs.wf(),
        counts_cover_besides(counts, pairs, spared),
        counts_exact_besides(counts, pairs, spared),
        (!pairs.has((spared, y)) && pairs2.domain() == pairs.domain().insert((spared, y))) || (
        pairs.has((spared, y)) && pairs2.domain() == pairs.domain().remove((spared, y))),
    ensures
        counts_cover_besides(counts, pairs2, spared),
        counts_exact_besides(counts, pairs2, spared),
        led_by(pairs.domain(), spared).finite(),
        led_by(pairs2.domain(), spared).len() == led_by(pairs.domain(), spared).len() + (if pairs.has(
            (spared, y),
        ) {
            -1int
        } else {
            1int
        }),
        pairs.has((spared, y)) ==> led_by(pairs.domain(), spared).len() >= 1,
{
    pairs.lemma_domain_len();
    lemma_led_by_insert(pairs.domain(), spared, y);
    lemma_led_by_remove(pairs.domain(), spared, y);
    if pairs.has((spared, y)) {
        assert(led_by(pairs.domain(), spared).contains((spared, y)));
    }
    assert forall|u: int, v: int|
        #![trigger pairs2.domain().contains((u, v))]
        pairs2.domain().contains((u, v)) && u != spared implies counts.domain().contains(
        (u, 0),
    ) by {
        assert(pairs.domain().contains((u, v)));
    }
}

/// The count of `spared` is set to the number of pairs that it leads: all
/// counts are exact.
pub proof fn lemma_spared_set(
    counts: &Table<Id, u32>,
    counts2: &Table<Id, u32>,
    pairs: &Table<(Id, Id), ()>,
    spared: int,
    count: u32,
)
    requires
        counts_cover_besides(counts, pairs, spared),
        counts_exact_besides(counts, pairs, spared),
        counts2.domain() == counts.domain().insert((spared, 0)),
        counts2.model() == counts.model().insert((spared, 0), count),
        count == led_by(pairs.domain(), spared).len(),
    ensures
        counts_cover(counts2, pairs),
        counts_exact(counts2, pairs),
{
    assert forall|u: int|
        #![trigger counts2.domain().contains((u, 0))]
        counts2.domain().contains((u, 0)) implies counts2.model()[(u, 0)] == led_by(
        pairs.domain(),
        u,
    ).len() by {
        if u != spared {
            assert(counts.domain().contains((u, 0)));
        }
    }
    assert forall|u: int, v: int|
        #![trigger pairs.domain().contains((u, v))]
        pairs.domain().contains((u, v)) implies counts2.domain().contains((u, 0)) by {}
}

/// The count of `spared`, which leads no pair, is taken out: all counts are
/// exact.
pub proof fn lemma_spared_gone(
    counts: &Table<Id, u32>,
    counts2: &Table<Id, u32>,
    pairs: &Table<(Id, Id), ()>,
    spared: int,
)
    requires
        counts_cover_besides(counts, pairs, spared),
        counts_exact_besides(counts, pairs, spared),
        counts2.domain() == counts.domain().remove((spared, 0)),
        counts2.model() == counts.model().remove((spared, 0)),
        forall|other: int| !pairs.domain().contains((spared, other)),
    ensures
        counts_cover(counts2, pairs),
        counts_exact(counts2, pairs),
{
    assert forall|u: int|
        #![trigger counts2.domain().contains((u, 0))]
        counts2.domain().contains((u, 0)) implies counts2.model()[(u, 0)] == led_by(
        pairs.domain(),
        u,
    ).len() by {
        assert(counts.domain().contains((u, 0)));
    }
    assert forall|u: int, v: int|
        #![trigger pairs.domain().contains((u, v))]
        pairs.domain().contains((u, v)) implies counts2.domain().contains((u, 0)) by {}
}

/// Whether the second table holds every pair of the first, turned round.
fn turned_into(a: &Table<(Id, Id), ()>, b: &Table<(Id, Id), ()>) -> (all: bool)
    requires
        a.wf(),
        b.wf(),
    ensures
        all == (forall|x: int, y: int|
            #![trigger a.domain().contains((x, y))]
            a.domain().contains((x, y)) ==> b.domain().contains((y, x))),
{
    let mut i: usize = 0;
    while i < a.len()
        invariant
            a.wf(),
            b.wf(),
            0 <= i <= a.places().len(),
            forall|j: int|
                0 <= j < i ==> b.domain().contains(
                    ((#[trigger] a.places()[j]).1, a.places()[j].0),
                ),
        decreases a.places().len() - i,
    {
        let key = a.key_at(i);
        if b.get(&(key.1, key.0)).is_none() {
            proof {
                let p = a.places()[i as int];
                assert(a.places().contains(p));
                assert(a.domain().contains((p.0, p.1)));
            }
            return false;
        }
        i = i + 1;
    }
    proof {
        assert forall|x: int, y: int|
            #![trigger a.domain().contains((x, y))]
            a.domain().contains((x, y)) implies b.domain().contains((y, x)) by {
            let j = a.places().index_of((x, y));
            assert(a.places()[j] == (x, y));
        }
    }
    true
}

/// Whether whatever leads a pair has a count.
fn covered(counts: &Table<Id, u32>, pairs: &Table<(Id, Id), ()>) -> (all: bool)
    requires
        counts.wf(),
        pairs.wf(),
    ensures
        all == counts_cover(counts, pairs),
{
    let mut i: usize = 0;
    while i < pairs.len()
        invariant
            counts.wf(),
            pairs.wf(),
            0 <= i <= pairs.places().len(),
            forall|j: int|
                0 <= j < i ==> counts.domain().contains(((#[trigger] pairs.places()[j]).0, 0)),
        decreases pairs.places().len() - i,
    {
        if counts.get(&pairs.key_at(i).0).is_none() {
            proof {
                let p = pairs.places()[i as int];
                assert(pairs.places().contains(p));
                assert(pairs.domain().contains((p.0, p.1)));
            }
            return false;
        }
        i = i + 1;
    }
    proof {
        assert forall|x: int, y: int|
            #![trigger pairs.domain().contains((x, y))]
            pairs.domain().contains((x, y)) implies counts.domain().contains((x, 0)) by {
            let j = pairs.places().index_of((x, y));
            assert(pairs.places()[j] == (x, y));
        }
    }
    true
}

/// The number of keys that `lead` leads.
fn run_length(pairs: &Table<(Id, Id), ()>, lead: &Id) -> (n: usize)
    requires
        pairs.wf(),
    ensures
        led_by(pairs.domain(), lead.rank()).finite(),
        n == led_by(pairs.domain(), lead.rank()).len(),
{
    let start = pairs.seek(&(*lead, Id::default()));
    let mut stop: usize = start;
    while stop < pairs.len() && pairs.key_at(stop).0.same(lead)
        invariant
            pairs.wf(),
            start <= stop <= pairs.places().len(),
            forall|j: int| start <= j < stop ==> (#[trigger] pairs.places()[j]).0 == lead.rank(),
        decreases pairs.places().len() - stop,
    {
        stop = stop + 1;
    }
    proof {
        let x = lead.rank();
        assert forall|j: int| 0 <= j < start implies (#[trigger] pairs.places()[j]).0 != x by {
            pairs.lemma_place_bounds(j);
        }
        assert forall|j: int| stop <= j < pairs.places().len() implies (
        #[trigger] pairs.places()[j]).0 != x by {
            if j > stop {
                assert(place_less(pairs.places()[stop as int], pairs.places()[j]));
            }
        }
        lemma_led_range(pairs, x, start as int, stop as int);
    }
    stop - start
}

/// Whether each count is the number of pairs that its key leads, and, where
/// `positive` is asked for, none is zero.
fn counted(counts: &Table<Id, u32>, pairs: &Table<(Id, Id), ()>, positive: bool) -> (all: bool)
    requires
        counts.wf(),
        pairs.wf(),
    ensures
        all == (counts_exact(counts, pairs) && (positive ==> counts_positive(counts))),
{
    let mut i: usize = 0;
    while i < counts.len()
        invariant
            counts.wf(),
            pairs.wf(),
            0 <= i <= counts.places().len(),
            forall|j: int|
                0 <= j < i ==> (#[trigger] counts.values()[j]) == led_by(
                    pairs.domain(),
                    counts.places()[j].0,
                ).len() && (positive ==> counts.values()[j] > 0),
        decreases counts.places().len() - i,
    {
        let run = run_length(pairs, counts.key_at(i));
        let count: u32 = *counts.value_at(i);
        if count as usize != run || (positive && count == 0) {
            proof {
                let p = counts.places()[i as int];
                counts.lemma_single(i as int);
                counts.lemma_position(i as int);
                assert(counts.domain().contains((p.0, 0)));
                assert(counts.model()[(p.0, 0)] == count);
            }
            return false;
        }
        i = i + 1;
    }
    proof {
        assert forall|x: int|
            #![trigger counts.domain().contains((x, 0))]
            counts.domain().contains((x, 0)) implies counts.model()[(x, 0)] == led_by(
            pairs.domain(),
            x,
        ).len() && (positive ==> counts.model()[(x, 0)] > 0) by {
            let j = counts.places().index_of((x, 0int));
            assert(counts.places()[j] == (x, 0int));
            counts.lemma_position(j);
            assert(counts.values()[j] == led_by(pairs.domain(), counts.places()[j].0).len());
        }
    }
    true
}

impl Tables {
    /// The keys of the table that leads with the tag.
    pub open spec fn tag_object(&self) -> Set<(int, int)> {
        self.tag_and_object.domain()
    }

    /// The keys of the table that leads with the object.
    pub open spec fn object_tag(&self) -> Set<(int, int)> {
        self.object_and_tag.domain()
    }

    /// The recorded number of objects of each tag that has a record.
    pub open spec fn tag_counts(&self) -> Map<int, int> {
        Map::new(
            |tag: int| self.tag_to_objects_count.has((tag, 0)),
            |tag: int| self.tag_to_objects_count.model()[(tag, 0)] as int,
        )
    }

    /// The recorded number of tags of each object that has a record.
    pub open spec fn object_counts(&self) -> Map<int, int> {
        Map::new(
            |object: int| self.object_to_tags_count.has((object, 0)),
            |object: int| self.object_to_tags_count.model()[(object, 0)] as int,
        )
    }

    /// Each of the five tables holds its keys in ascending order.
    pub open spec fn ordered(&self) -> bool {
        &&& self.tag_and_object.wf()
        &&& self.object_and_tag.wf()
        &&& self.id_to_source.wf()
        &&& self.tag_to_objects_count.wf()
        &&& self.object_to_tags_count.wf()
    }

    /// The two posting tables hold the same pairs, each in its own order.
    pub open spec fn mirrored(&self) -> bool {
        mirror(&self.tag_and_object, &self.object_and_tag)
    }

    /// A tag has a count exactly while some object carries it, and the count
    /// is the number of keys that the tag leads.
    pub open spec fn tags_counted(&self) -> bool {
        &&& counts_cover(&self.tag_to_objects_count, &self.tag_and_object)
        &&& counts_exact(&self.tag_to_objects_count, &self.tag_and_object)
        &&& counts_positive(&self.tag_to_objects_count)
    }

    /// Every object with a tag has a count, and the count of an object is
    /// the number of keys that the object leads.
    pub open spec fn objects_counted(&self) -> bool {
        &&& counts_cover(&self.object_to_tags_count, &self.object_and_tag)
        &&& counts_exact(&self.object_to_tags_count, &self.object_and_tag)
    }

    /// The tables are in order and agree with each other.
    pub open spec fn wf(&self) -> bool {
        &&& self.ordered()
        &&& self.mirrored()
        &&& self.tags_counted()
        &&& self.objects_counted()
    }

    /// As `wf`, but that nothing is asked of the count of `object`.
    pub open spec fn wf_besides(&self, object: int) -> bool {
        &&& self.ordered()
        &&& self.mirrored()
        &&& self.tags_counted()
        &&& counts_cover_besides(&self.object_to_tags_count, &self.object_and_tag, object)
        &&& counts_exact_besides(&self.object_to_tags_count, &self.object_and_tag, object)
    }

    /// What the tables hold once `object` is known.
    pub open spec fn view_knowing(&self, object: int) -> Content {
        Content {
            tags: self@.tags.insert(
                object,
                Set::new(|tag: int| self.object_and_tag.has((object, tag))),
            ),
            sources: self@.sources,
        }
    }

    /// The pairs of the content are the keys of the posting table.
    pub proof fn lemma_postings(&self)
        requires
            self.wf(),
        ensures
            self@.postings() == self.tag_object(),
            self@.postings().finite(),
            self@.postings().len() == self.links(),
    {
        assert forall|p: (int, int)| self@.postings().contains(p) <==> self.tag_object().contains(
            p,
        ) by {
            if self.tag_object().contains(p) {
                assert(self.tag_object().contains((p.0, p.1)));
                assert(self.object_tag().contains((p.1, p.0)));
            }
            if self@.postings().contains(p) {
                assert(self.object_tag().contains((p.1, p.0)));
                assert(self.tag_object().contains((p.0, p.1)));
            }
        }
        assert(self@.postings() =~= self.tag_object());
        self.tag_and_object.lemma_domain_len();
    }

    /// No tag is counted higher than the number of all pairs.
    pub proof fn lemma_count_bound(&self, tag: int)
        requires
            self.ordered(),
            self.tags_counted(),
        ensures
            self.tag_to_objects_count.has((tag, 0)) ==> self.tag_to_objects_count.model()[(tag, 0)]
                <= self.links(),
    {
        self.tag_and_object.lemma_domain_len();
        lemma_len_subset(led_by(self.tag_object(), tag), self.tag_object());
    }

    /// Whatever one posting table holds, the other holds turned round.
    pub proof fn law_postings_mirrored(&self, tag: int, object: int)
        requires
            self.wf(),
        ensures
            self.tag_object().contains((tag, object)) <==> self.object_tag().contains(
                (object, tag),
            ),
    {
    }

    /// The count of a tag is the number of keys that the tag leads, and a
    /// tag has a count exactly while it leads a key.
    pub proof fn law_tag_counts(&self, tag: int)
        requires
            self.wf(),
        ensures
            led_by(self.tag_object(), tag).finite(),
            self.tag_counts().contains_key(tag) <==> led_by(self.tag_object(), tag).len() > 0,
            self.tag_counts().contains_key(tag) ==> self.tag_counts()[tag] == led_by(
                self.tag_object(),
                tag,
            ).len(),
    {
        self.tag_and_object.lemma_domain_len();
        lemma_len_subset(led_by(self.tag_object(), tag), self.tag_object());
        if self.tag_counts().contains_key(tag) {
            assert(self.tag_to_objects_count.domain().contains((tag, 0)));
        } else {
            assert forall|object: int| !self.tag_object().contains((tag, object)) by {}
            lemma_led_by_none(self.tag_object(), tag);
        }
    }

    /// The count of an object is the number of keys that the object leads,
    /// and an object without a count leads no key.
    pub proof fn law_object_counts(&self, object: int)
        requires
            self.wf(),
        ensures
            led_by(self.object_tag(), object).finite(),
            self.object_counts().contains_key(object) ==> self.object_counts()[object] == led_by(
                self.object_tag(),
                object,
            ).len(),
            !self.object_counts().contains_key(object) ==> led_by(self.object_tag(), object).len()
                == 0,
    {
        self.object_and_tag.lemma_domain_len();
        lemma_len_subset(led_by(self.object_tag(), object), self.object_tag());
        if self.object_counts().contains_key(object) {
            assert(self.object_to_tags_count.domain().contains((object, 0)));
        } else {
            assert forall|tag: int| !self.object_tag().contains((object, tag)) by {}
            lemma_led_by_none(self.object_tag(), object);
        }
    }

    /// The content of the tables is what the tables hold: the pairs of both
    /// posting tables, and the objects that have a count.
    pub proof fn law_content(&self)
        requires
            self.wf(),
        ensures
            self@.postings() == self.tag_object(),
            self@.taggings() == self.object_tag(),
            self@.objects() == self.object_counts().dom(),
    {
        self.lemma_postings();
        assert forall|p: (int, int)| self@.taggings().contains(p) <==> self.object_tag().contains(
            p,
        ) by {
            if self.object_tag().contains(p) {
                assert(self.object_tag().contains((p.0, p.1)));
            }
        }
        assert(self@.taggings() =~= self.object_tag());
        assert(self@.objects() =~= self.object_counts().dom());
    }

    /// The number of pairs of an object and one of its tags.
    pub open spec fn links(&self) -> nat {
        self.tag_and_object.places().len()
    }

    /// Whether the tables agree with each other: the two posting tables
    /// hold the same pairs, and every count is the number of the keys that
    /// it counts.
    pub fn is_consistent(&self) -> (consistent: bool)
        requires
            self.ordered(),
        ensures
            consistent == self.wf(),
    {
        turned_into(&self.tag_and_object, &self.object_and_tag) && turned_into(
            &self.object_and_tag,
            &self.tag_and_object,
        ) && covered(&self.tag_to_objects_count, &self.tag_and_object) && counted(
            &self.tag_to_objects_count,
            &self.tag_and_object,
            true,
        ) && covered(&self.object_to_tags_count, &self.object_and_tag) && counted(
            &self.object_to_tags_count,
            &self.object_and_tag,
            false,
        )
    }

    /// Five empty tables.
    pub fn new() -> (tables: Tables)
        ensures
            tables.wf(),
            tables@ == Content::empty(),
            tables.links() == 0,
    {
        let tables = Tables {
            tag_and_object: Table::new(),
            object_and_tag: Table::new(),
            id_to_source: Table::new(),
            tag_to_objects_count: Table::new(),
            object_to_tags_count: Table::new(),
        };
        proof {
            assert(tables@.tags =~= Map::empty());
            assert(tables@.sources =~= Map::empty());
        }
        tables
    }
}

} // verus!

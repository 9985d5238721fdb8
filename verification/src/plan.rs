//! The planner: the tags of a search in the order of their frequency.

use crate::id::Id;
use crate::object::Object;
use crate::read::{id_ranks, object_ranks};
use crate::schema::{led_by, lemma_led_by_none, Content, Tables};
use vstd::prelude::*;

verus! {

impl Content {
    /// The number of objects that carry the tag.
    pub open spec fn frequency(self, tag: int) -> nat {
        led_by(self.postings(), tag).len()
    }

    /// Whether the tag at place `i` of `tags` is planned before the one at
    /// place `j`: it is carried by fewer objects, or by as many and it
    /// stands first.
    pub open spec fn rarer(self, tags: Seq<int>, i: int, j: int) -> bool {
        self.frequency(tags[i]) < self.frequency(tags[j]) || (self.frequency(tags[i])
            == self.frequency(tags[j]) && i < j)
    }

    /// The place in `tags` of the tag that the fewest objects carry: among
    /// several such tags, the first.
    pub open spec fn rarest(self, tags: Seq<int>) -> int
        decreases tags.len(),
    {
        if tags.len() <= 1 {
            0
        } else {
            let rest = self.rarest(tags.drop_last());
            if self.frequency(tags.last()) < self.frequency(tags[rest]) {
                tags.len() - 1
            } else {
                rest
            }
        }
    }

    /// The rarest tag is planned before every other.
    pub proof fn lemma_rarest(self, tags: Seq<int>)
        requires
            tags.len() > 0,
        ensures
            0 <= self.rarest(tags) < tags.len(),
            forall|j: int|
                0 <= j < tags.len() && j != self.rarest(tags) ==> self.rarer(
                    tags,
                    self.rarest(tags),
                    j,
                ),
        decreases tags.len(),
    {
        if tags.len() > 1 {
            self.lemma_rarest(tags.drop_last());
            let rest = self.rarest(tags.drop_last());
            assert forall|j: int| 0 <= j < tags.len() && j != self.rarest(tags) implies self.rarer(
                tags,
                self.rarest(tags),
                j,
            ) by {
                if j < tags.len() - 1 && j != rest {
                    assert(self.rarer(tags.drop_last(), rest, j));
                }
            }
        }
    }
}

/// Whether `plan` holds the tags of `tags` from the rarest to the most
/// frequent, tags of one frequency in the order in which `tags` holds them;
/// `perm` gives for each place of the plan the place in `tags` that it was
/// taken from.
pub open spec fn arranged(content: Content, tags: Seq<int>, plan: Seq<int>, perm: Seq<int>) -> bool {
    &&& plan.len() == tags.len()
    &&& perm.len() == tags.len()
    &&& forall|k: int|
        0 <= k < perm.len() ==> 0 <= #[trigger] perm[k] < tags.len() && plan[k] == tags[perm[k]]
    &&& forall|j: int| 0 <= j < tags.len() ==> perm.contains(j)
    &&& forall|k: int, l: int|
        0 <= k < l < perm.len() ==> content.rarer(tags, #[trigger] perm[k], #[trigger] perm[l])
}

/// A plan holds the tags that it was made of, and starts with the rarest.
pub proof fn lemma_arranged(content: Content, tags: Seq<int>, plan: Seq<int>, perm: Seq<int>)
    requires
        arranged(content, tags, plan, perm),
    ensures
        forall|x: int| plan.contains(x) <==> tags.contains(x),
        tags.len() > 0 ==> plan[0] == tags[content.rarest(tags)],
{
    assert forall|x: int| plan.contains(x) <==> tags.contains(x) by {
        if plan.contains(x) {
            let k = plan.index_of(x);
            assert(plan[k] == x);
            assert(tags[perm[k]] == x);
        }
        if tags.contains(x) {
            let j = tags.index_of(x);
            assert(tags[j] == x);
            assert(perm.contains(j));
            let k = perm.index_of(j);
            assert(perm[k] == j);
            assert(plan[k] == x);
        }
    }
    if tags.len() > 0 {
        content.lemma_rarest(tags);
        let r = content.rarest(tags);
        let m = perm[0];
        if m != r {
            assert(perm.contains(r));
            let k = perm.index_of(r);
            assert(perm[k] == r);
            assert(content.rarer(tags, perm[0], perm[k]));
            assert(content.rarer(tags, r, m));
        }
    }
}

/// The recorded number of objects of a tag: none where no object carries
/// the tag.
pub(crate) fn count_of(tables: &Tables, tag_id: &Id) -> (count: Option<u32>)
    requires
        tables.wf(),
    ensures
        count is Some <==> tables@.tag_alive(tag_id.rank()),
        count is Some ==> count->0 == tables@.frequency(tag_id.rank()),
        count is None ==> tables@.frequency(tag_id.rank()) == 0,
{
    let count = tables.tag_to_objects_count.get(tag_id);
    proof {
        let t = tag_id.rank();
        tables.lemma_postings();
        tables.tag_and_object.lemma_domain_len();
        if count is Some {
            assert(tables.tag_to_objects_count.domain().contains((t, 0)));
            let fiber = led_by(tables.tag_object(), t);
            vstd::set_lib::lemma_len_subset(fiber, tables.tag_object());
            assert(fiber.len() > 0);
            let p = fiber.choose();
            assert(fiber.contains(p));
            assert(tables.tag_object().contains((t, p.1)));
            assert(tables.object_tag().contains((p.1, t)));
            assert(tables@.carries(p.1, t));
        } else {
            assert forall|o: int| !tables.tag_object().contains((t, o)) by {}
            lemma_led_by_none(tables.tag_object(), t);
            if tables@.tag_alive(t) {
                let o = choose|o: int| tables@.carries(o, t);
                assert(tables.object_tag().contains((o, t)));
                assert(tables.tag_object().contains((t, o)));
            }
        }
    }
    match count {
        Some(count) => Some(*count),
        None => None,
    }
}

/// The first place of `counts` that holds more than `count`.
fn slot(counts: &Vec<u32>, count: u32) -> (place: usize)
    ensures
        place <= counts.len(),
        forall|k: int| 0 <= k < place ==> counts[k] <= count,
        place < counts.len() ==> counts[place as int] > count,
{
    let mut place: usize = 0;
    while place < counts.len() && counts[place] <= count
        invariant
            place <= counts.len(),
            forall|k: int| 0 <= k < place ==> counts[k] <= count,
        decreases counts.len() - place,
    {
        place = place + 1;
    }
    place
}

/// Whether the tag at place `j` of `tags` is planned: every tag is where
/// `every` tag is taken, and else the tags that some object carries.
pub open spec fn taken(content: Content, tags: Seq<int>, every: bool, j: int) -> bool {
    every || content.tag_alive(tags[j])
}

/// Whether `ids` holds the tags at the first `n` places of `tags`, or of
/// these the tags that some object carries where not `every` tag is taken,
/// from the rarest to the most frequent; `perm` gives for each place of `ids`
/// the place in `tags` that it was taken from.
pub open spec fn sorted_places(
    content: Content,
    tags: Seq<int>,
    every: bool,
    n: int,
    ids: Seq<int>,
    perm: Seq<int>,
) -> bool {
    &&& ids.len() == perm.len()
    &&& every ==> perm.len() == n
    &&& forall|k: int|
        0 <= k < perm.len() ==> 0 <= #[trigger] perm[k] < n && ids[k] == tags[perm[k]] && taken(
            content,
            tags,
            every,
            perm[k],
        )
    &&& forall|j: int|
        0 <= j < n && #[trigger] taken(content, tags, every, j) ==> perm.contains(j)
    &&& forall|k: int, l: int|
        0 <= k < l < perm.len() ==> content.rarer(tags, #[trigger] perm[k], #[trigger] perm[l])
}

/// Whether `plan` holds those tags of `tags` that some object carries, from
/// the most frequent to the rarest, tags of one frequency in the order
/// against that in which `tags` holds them; `perm` gives for each place of
/// the plan the place in `tags` that it was taken from.
pub open spec fn arranged_back(
    content: Content,
    tags: Seq<int>,
    plan: Seq<int>,
    perm: Seq<int>,
) -> bool {
    &&& plan.len() == perm.len()
    &&& forall|k: int|
        0 <= k < perm.len() ==> 0 <= #[trigger] perm[k] < tags.len() && plan[k] == tags[perm[k]]
            && content.tag_alive(tags[perm[k]])
    &&& forall|j: int|
        0 <= j < tags.len() && content.tag_alive(#[trigger] tags[j]) ==> perm.contains(j)
    &&& forall|k: int, l: int|
        0 <= k < l < perm.len() ==> content.rarer(tags, #[trigger] perm[l], #[trigger] perm[k])
}

/// A plan of the tags that are ruled out holds those of them that some
/// object carries, and no others.
pub proof fn lemma_arranged_back(content: Content, tags: Seq<int>, plan: Seq<int>, perm: Seq<int>)
    requires
        arranged_back(content, tags, plan, perm),
    ensures
        forall|x: int|
            #![trigger plan.contains(x)]
            #![trigger tags.contains(x)]
            plan.contains(x) <==> tags.contains(x) && content.tag_alive(x),
{
    assert forall|x: int|
        #![trigger plan.contains(x)]
        #![trigger tags.contains(x)]
        plan.contains(x) <==> tags.contains(x) && content.tag_alive(x) by {
        if plan.contains(x) {
            let k = plan.index_of(x);
            assert(plan[k] == x);
            assert(tags[perm[k]] == x);
        }
        if tags.contains(x) && content.tag_alive(x) {
            let j = tags.index_of(x);
            assert(content.tag_alive(tags[j]));
            assert(perm.contains(j));
            let k = perm.index_of(j);
            assert(perm[k] == j);
            assert(plan[k] == x);
        }
    }
}

/// The tag at place `n` goes into a sorted plan behind all tags that are no
/// more frequent than it.
proof fn lemma_sorted_insert(
    content: Content,
    tags: Seq<int>,
    every: bool,
    n: int,
    ids: Seq<int>,
    perm: Seq<int>,
    counts: Seq<u32>,
    place: int,
    count: u32,
)
    requires
        sorted_places(content, tags, every, n, ids, perm),
        0 <= n < tags.len(),
        counts.len() == perm.len(),
        forall|k: int|
            0 <= k < perm.len() ==> counts[k] == content.frequency(tags[#[trigger] perm[k]]),
        0 <= place <= perm.len(),
        forall|k: int| 0 <= k < place ==> counts[k] <= count,
        place < counts.len() ==> counts[place] > count,
        count == content.frequency(tags[n]),
        taken(content, tags, every, n),
    ensures
        sorted_places(
            content,
            tags,
            every,
            n + 1,
            ids.insert(place, tags[n]),
            perm.insert(place, n),
        ),
        forall|k: int|
            0 <= k < perm.len() + 1 ==> counts.insert(place, count)[k] == content.frequency(
                tags[#[trigger] perm.insert(place, n)[k]],
            ),
{
    let after = perm.insert(place, n);
    let ranks = ids.insert(place, tags[n]);
    let counted = counts.insert(place, count);
    assert forall|k: int| 0 <= k < after.len() implies 0 <= #[trigger] after[k] < n + 1 && ranks[k]
        == tags[after[k]] && taken(content, tags, every, after[k]) && counted[k]
        == content.frequency(tags[after[k]]) by {
        if k < place {
            assert(after[k] == perm[k]);
        } else if k > place {
            assert(after[k] == perm[k - 1]);
        }
    }
    assert forall|j: int|
        0 <= j < n + 1 && #[trigger] taken(content, tags, every, j) implies after.contains(j) by {
        if j < n {
            assert(perm.contains(j));
            let k = perm.index_of(j);
            assert(perm[k] == j);
            if k < place {
                assert(after[k] == j);
            } else {
                assert(after[k + 1] == j);
            }
        } else {
            assert(after[place] == j);
        }
    }
    assert forall|k: int, l: int| 0 <= k < l < after.len() implies content.rarer(
        tags,
        #[trigger] after[k],
        #[trigger] after[l],
    ) by {
        let k0 = if k < place { k } else { k - 1 };
        let l0 = if l < place { l } else { l - 1 };
        if k == place {
            assert(after[l] == perm[l0]);
            assert(counts[l0] == content.frequency(tags[perm[l0]]));
            if l0 > place {
                assert(content.rarer(tags, perm[place], perm[l0]));
            }
            assert(counts[place] == content.frequency(tags[perm[place]]));
        } else if l == place {
            assert(after[k] == perm[k0]);
            assert(counts[k0] == content.frequency(tags[perm[k0]]));
        } else {
            assert(after[k] == perm[k0]);
            assert(after[l] == perm[l0]);
            assert(content.rarer(tags, perm[k0], perm[l0]));
        }
    }
}

/// A tag that is not taken leaves a sorted plan as it is.
proof fn lemma_sorted_skip(
    content: Content,
    tags: Seq<int>,
    n: int,
    ids: Seq<int>,
    perm: Seq<int>,
)
    requires
        sorted_places(content, tags, false, n, ids, perm),
        0 <= n < tags.len(),
        !content.tag_alive(tags[n]),
    ensures
        sorted_places(content, tags, false, n + 1, ids, perm),
{
    assert forall|j: int|
        0 <= j < n + 1 && #[trigger] taken(content, tags, false, j) implies perm.contains(j) by {}
}

/// The identifiers of `tags`, or of those that some object carries where
/// not `every` tag is taken, from the rarest to the most frequent. A tag
/// goes behind all tags that are no more frequent than it.
fn arrange(tables: &Tables, tags: &Vec<Object>, every: bool) -> (sorted: (Vec<Id>, Ghost<Seq<int>>))
    requires
        tables.wf(),
    ensures
        sorted_places(
            tables@,
            object_ranks(tags@),
            every,
            tags@.len() as int,
            id_ranks(sorted.0@),
            sorted.1@,
        ),
{
    let ghost asked = object_ranks(tags@);
    let ghost content = tables@;
    let mut ids: Vec<Id> = Vec::new();
    let mut counts: Vec<u32> = Vec::new();
    let ghost mut perm: Seq<int> = Seq::empty();
    let mut i: usize = 0;
    while i < tags.len()
        invariant
            tables.wf(),
            content == tables@,
            asked == object_ranks(tags@),
            0 <= i <= tags.len(),
            ids.len() == counts.len(),
            sorted_places(content, asked, every, i as int, id_ranks(ids@), perm),
            forall|k: int|
                0 <= k < perm.len() ==> counts[k] == content.frequency(asked[#[trigger] perm[k]]),
        decreases tags.len() - i,
    {
        let tag_id = tags[i].get_id();
        let found = count_of(tables, &tag_id);
        proof {
            assert(asked[i as int] == tags@[i as int].rank());
        }
        if every || found.is_some() {
            let count: u32 = match found {
                Some(count) => count,
                None => 0,
            };
            let place = slot(&counts, count);
            proof {
                lemma_sorted_insert(
                    content,
                    asked,
                    every,
                    i as int,
                    id_ranks(ids@),
                    perm,
                    counts@,
                    place as int,
                    count,
                );
                assert(id_ranks(ids@.insert(place as int, tag_id)) =~= id_ranks(ids@).insert(
                    place as int,
                    asked[i as int],
                ));
                perm = perm.insert(place as int, i as int);
            }
            ids.insert(place, tag_id);
            counts.insert(place, count);
        } else {
            proof {
                lemma_sorted_skip(content, asked, i as int, id_ranks(ids@), perm);
            }
        }
        i = i + 1;
    }
    (ids, Ghost(perm))
}

/// The identifiers of the tags that a search asks for, the rarest first and
/// tags of one frequency in the order in which they are asked for. A tag
/// that no object carries counts as carried by none.
pub fn plan_present(tables: &Tables, tags: &Vec<Object>) -> (plan: Vec<Id>)
    requires
        tables.wf(),
    ensures
        exists|perm: Seq<int>| arranged(tables@, object_ranks(tags@), id_ranks(plan@), perm),
{
    let (plan, Ghost(perm)) = arrange(tables, tags, true);
    proof {
        let asked = object_ranks(tags@);
        assert forall|j: int| 0 <= j < asked.len() implies perm.contains(j) by {
            assert(taken(tables@, asked, true, j));
        }
        assert(arranged(tables@, asked, id_ranks(plan@), perm));
    }
    plan
}

/// The identifiers of the tags that a search rules out, the most frequent
/// first. A tag that no object carries is left out: it rules out nothing.
pub fn plan_absent(tables: &Tables, tags: &Vec<Object>) -> (plan: Vec<Id>)
    requires
        tables.wf(),
    ensures
        exists|perm: Seq<int>| arranged_back(tables@, object_ranks(tags@), id_ranks(plan@), perm),
{
    let (ids, Ghost(perm)) = arrange(tables, tags, false);
    let mut plan: Vec<Id> = Vec::new();
    let mut k: usize = ids.len();
    while k > 0
        invariant
            0 <= k <= ids.len(),
            plan.len() == ids.len() - k,
            forall|m: int| 0 <= m < plan.len() ==> plan[m] == ids[ids.len() - 1 - m],
        decreases k,
    {
        k = k - 1;
        plan.push(ids[k]);
    }
    proof {
        let n = ids.len() as int;
        let asked = object_ranks(tags@);
        let back = Seq::new(n as nat, |m: int| perm[n - 1 - m]);
        assert forall|j: int|
            0 <= j < asked.len() && tables@.tag_alive(#[trigger] asked[j]) implies back.contains(
            j,
        ) by {
            assert(taken(tables@, asked, false, j));
            assert(perm.contains(j));
            let m = perm.index_of(j);
            assert(back[n - 1 - m] == j);
        }
        assert forall|a: int, b: int| 0 <= a < b < back.len() implies tables@.rarer(
            asked,
            #[trigger] back[b],
            #[trigger] back[a],
        ) by {
            assert(tables@.rarer(asked, perm[n - 1 - b], perm[n - 1 - a]));
        }
        assert forall|m: int| 0 <= m < back.len() implies 0 <= #[trigger] back[m] < asked.len()
            && id_ranks(plan@)[m] == asked[back[m]] && tables@.tag_alive(asked[back[m]]) by {
            assert(perm[n - 1 - m] == back[m]);
            assert(id_ranks(ids@)[n - 1 - m] == asked[perm[n - 1 - m]]);
        }
        assert(arranged_back(tables@, asked, id_ranks(plan@), back));
    }
    plan
}

} // verus!

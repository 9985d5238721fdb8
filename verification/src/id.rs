//! Identifiers: sixteen bytes, ordered as unsigned byte strings.

use vstd::prelude::*;

verus! {

/// The number that a byte string spells when it is read with the most
/// significant byte first.
pub open spec fn be_value(bytes: Seq<u8>) -> int
    decreases bytes.len(),
{
    if bytes.len() == 0 {
        0
    } else {
        be_value(bytes.drop_last()) * 256 + bytes.last() as int
    }
}

/// Lexicographic order on byte strings of one length: at the first place
/// where the two differ, `a` holds the smaller byte.
pub open spec fn lex_less(a: Seq<u8>, b: Seq<u8>) -> bool {
    exists|i: int| 0 <= i < a.len() && i < b.len() && a.take(i) == b.take(i) && a[i] < b[i]
}

/// The number of byte strings of length `n`.
pub open spec fn span(n: nat) -> int
    decreases n,
{
    if n == 0 {
        1
    } else {
        256 * span((n - 1) as nat)
    }
}

/// One more than the largest rank of an identifier: two to the 128th power.
pub open spec fn rank_limit() -> int {
    u128::MAX as int + 1
}

/// The bytes of `x`, least significant first.
pub open spec fn le_bytes(x: u128) -> Seq<u8> {
    Seq::new(16, |i: int| ((x >> ((8 * i) as u128)) & 0xff) as u8)
}

/// A byte string spells one of the numbers from zero up to the number of
/// byte strings of its length.
pub proof fn lemma_be_value_bounds(bytes: Seq<u8>)
    ensures
        0 <= be_value(bytes) < span(bytes.len()),
    decreases bytes.len(),
{
    if bytes.len() > 0 {
        lemma_be_value_bounds(bytes.drop_last());
    }
}

/// There are two to the 128th power strings of sixteen bytes.
pub proof fn lemma_span_sixteen()
    ensures
        span(16) == rank_limit(),
{
    reveal_with_fuel(span, 17);
}

/// A byte string that is smaller at the first difference spells a smaller
/// number.
pub proof fn lemma_first_difference(a: Seq<u8>, b: Seq<u8>, i: int)
    requires
        a.len() == b.len(),
        0 <= i < a.len(),
        a.take(i) == b.take(i),
        a[i] < b[i],
    ensures
        be_value(a) < be_value(b),
    decreases a.len(),
{
    let n = a.len() - 1;
    if i == n {
        assert(a.drop_last() =~= a.take(i));
        assert(b.drop_last() =~= b.take(i));
    } else {
        assert(a.drop_last().take(i) =~= a.take(i));
        assert(b.drop_last().take(i) =~= b.take(i));
        lemma_first_difference(a.drop_last(), b.drop_last(), i);
    }
}

/// Byte strings of one length that spell the same number are equal.
pub proof fn lemma_be_value_injective(a: Seq<u8>, b: Seq<u8>)
    requires
        a.len() == b.len(),
        be_value(a) == be_value(b),
    ensures
        a == b,
    decreases a.len(),
{
    if a.len() > 0 {
        lemma_be_value_injective(a.drop_last(), b.drop_last());
        assert(a =~= a.drop_last().push(a.last()));
        assert(b =~= b.drop_last().push(b.last()));
    } else {
        assert(a =~= b);
    }
}

/// A 128-bit identifier of an object or of a tag.
#[derive(Clone, Copy, Debug, PartialEq, Eq, PartialOrd, Ord, Hash)]
pub struct Id {
    pub value: [u8; 16],
}

impl View for Id {
    type V = Seq<u8>;

    open spec fn view(&self) -> Seq<u8> {
        self.value@
    }
}

impl Id {
    /// The place of the identifier among all identifiers: its bytes read as
    /// one number, most significant byte first.
    pub open spec fn rank(&self) -> int {
        be_value(self@)
    }

    /// The ranks fill the range from zero up to `rank_limit()`.
    pub proof fn rank_bounds(&self)
        ensures
            0 <= self.rank() < rank_limit(),
    {
        lemma_be_value_bounds(self@);
        lemma_span_sixteen();
    }

    /// The order of the ranks is the lexicographic order of the bytes.
    pub proof fn rank_order_is_lexicographic(&self, other: &Id)
        ensures
            self.rank() < other.rank() <==> lex_less(self@, other@),
            self.rank() == other.rank() <==> self@ == other@,
    {
        self.rank_bounds();
        if self@ == other@ {
            assert forall|i: int| 0 <= i < 16 && self@.take(i) == other@.take(i) implies !(self@[i]
                < other@[i]) by {}
        } else {
            if self.rank() == other.rank() {
                lemma_be_value_injective(self@, other@);
            }
            assert(self@.take(0) =~= other@.take(0));
            lemma_first_difference_found(self@, other@, 0);
            let i = first_difference(self@, other@, 0);
            if self@[i] < other@[i] {
                lemma_first_difference(self@, other@, i);
            } else {
                lemma_first_difference(other@, self@, i);
            }
            if lex_less(self@, other@) {
                let j = choose|j: int|
                    0 <= j < 16 && self@.take(j) == other@.take(j) && self@[j] < other@[j];
                lemma_first_difference(self@, other@, j);
            }
        }
    }

    /// The identifier with the bytes of `hash`, least significant first.
    pub fn from_hash(hash: u128) -> (id: Id)
        ensures
            id@ == le_bytes(hash),
    {
        let mut value: [u8; 16] = [0u8; 16];
        let mut i: usize = 0;
        while i < 16
            invariant
                0 <= i <= 16,
                forall|j: int| 0 <= j < i ==> value@[j] == le_bytes(hash)[j],
            decreases 16 - i,
        {
            let shift: u128 = (8 * i) as u128;
            let low: u128 = (hash >> shift) & 0xff;
            assert(low <= 0xff) by (bit_vector)
                requires
                    low == (hash >> shift) & 0xff,
            ;
            value[i] = low as u8;
            i = i + 1;
        }
        assert(value@ =~= le_bytes(hash));
        Id { value }
    }

    /// Whether `self` comes before `other`.
    pub fn less(&self, other: &Id) -> (r: bool)
        ensures
            r == (self.rank() < other.rank()),
    {
        let i = self.differ_at(other);
        i < 16 && self.value[i] < other.value[i]
    }

    /// Whether the two identifiers are the same.
    pub fn same(&self, other: &Id) -> (r: bool)
        ensures
            r == (self.rank() == other.rank()),
            r == (self@ == other@),
    {
        let i = self.differ_at(other);
        i == 16
    }

    /// The first place at which the two identifiers differ; 16 where they
    /// are the same.
    fn differ_at(&self, other: &Id) -> (i: usize)
        ensures
            i <= 16,
            self@.take(i as int) == other@.take(i as int),
            i < 16 ==> self@[i as int] != other@[i as int],
            i == 16 <==> self.rank() == other.rank(),
            i == 16 <==> self@ == other@,
            i < 16 ==> (self@[i as int] < other@[i as int] <==> self.rank() < other.rank()),
    {
        let mut i: usize = 0;
        while i < 16 && self.value[i] == other.value[i]
            invariant
                0 <= i <= 16,
                forall|j: int| 0 <= j < i ==> self@[j] == other@[j],
            decreases 16 - i,
        {
            i = i + 1;
        }
        proof {
            assert(self@.take(i as int) =~= other@.take(i as int));
            if i == 16 {
                assert(self@ =~= self@.take(16));
                assert(other@ =~= other@.take(16));
            } else if self@[i as int] < other@[i as int] {
                lemma_first_difference(self@, other@, i as int);
            } else {
                lemma_first_difference(other@, self@, i as int);
            }
        }
        i
    }
}

impl Default for Id {
    /// The smallest identifier: sixteen zero bytes.
    fn default() -> (id: Id)
        ensures
            id@ == Seq::new(16, |i: int| 0u8),
            id.rank() == 0,
    {
        let id = Id { value: [0u8; 16] };
        proof {
            assert(id@ =~= Seq::new(16, |i: int| 0u8));
            lemma_zero_bytes(id@);
        }
        id
    }
}

/// The first place from `from` on at which two different strings differ.
pub open spec fn first_difference(a: Seq<u8>, b: Seq<u8>, from: int) -> int
    decreases a.len() - from,
{
    if from >= a.len() || a[from] != b[from] {
        from
    } else {
        first_difference(a, b, from + 1)
    }
}

proof fn lemma_first_difference_found(a: Seq<u8>, b: Seq<u8>, from: int)
    requires
        a.len() == b.len(),
        a != b,
        0 <= from <= a.len(),
        a.take(from) == b.take(from),
    ensures
        from <= first_difference(a, b, from) < a.len(),
        a.take(first_difference(a, b, from)) == b.take(first_difference(a, b, from)),
        a[first_difference(a, b, from)] != b[first_difference(a, b, from)],
    decreases a.len() - from,
{
    if from >= a.len() {
        assert(a =~= a.take(from));
        assert(b =~= b.take(from));
    } else if a[from] == b[from] {
        assert(a.take(from + 1) =~= a.take(from).push(a[from]));
        assert(b.take(from + 1) =~= b.take(from).push(b[from]));
        lemma_first_difference_found(a, b, from + 1);
    }
}

proof fn lemma_zero_bytes(bytes: Seq<u8>)
    requires
        forall|i: int| 0 <= i < bytes.len() ==> bytes[i] == 0,
    ensures
        be_value(bytes) == 0,
    decreases bytes.len(),
{
    if bytes.len() > 0 {
        lemma_zero_bytes(bytes.drop_last());
    }
}

} // verus!

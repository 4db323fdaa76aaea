//! Ordered sets: the worklists of the register allocator and the sets of the
//! dataflow analysis. The elements are kept in increasing order of their
//! rank, so that walking a set, or taking its first element, depends on
//! nothing but what the set holds.

use std::collections::HashMap;
use vstd::prelude::*;
use crate::temp::Temp;

verus! {

/// A value with a total order given by an integer rank.
pub trait Key: Copy {
    /// The integer by which values are ordered and told apart.
    spec fn rank(self) -> int;

    /// Values of equal rank are equal.
    proof fn rank_is_injective(a: Self, b: Self)
        requires
            a.rank() == b.rank(),
        ensures
            a == b,
    ;

    /// Whether `self` comes before `other`.
    fn before(&self, other: &Self) -> (result: bool)
        ensures
            result == (self.rank() < other.rank()),
    ;

    /// Whether the two values are equal.
    fn same(&self, other: &Self) -> (result: bool)
        ensures
            result == (*self == *other),
    ;
}

impl Key for Temp {
    open spec fn rank(self) -> int {
        self.num as int
    }

    proof fn rank_is_injective(a: Self, b: Self) {
    }

    fn before(&self, other: &Self) -> (result: bool) {
        self.num < other.num
    }

    fn same(&self, other: &Self) -> (result: bool) {
        self.num == other.num
    }
}

/// A move between two temporaries. Moves are ordered by destination, then
/// by source.
#[derive(Clone, Copy, Debug, PartialEq, Eq, Structural, Hash, PartialOrd, Ord)]
pub struct Move {
    pub destination: Temp,
    pub source: Temp,
}

impl Key for Move {
    open spec fn rank(self) -> int {
        self.destination.num * 0x1_0000_0000 + self.source.num
    }

    proof fn rank_is_injective(a: Self, b: Self) {
    }

    fn before(&self, other: &Self) -> (result: bool) {
        self.destination.num < other.destination.num || (self.destination.num
            == other.destination.num && self.source.num < other.source.num)
    }

    fn same(&self, other: &Self) -> (result: bool) {
        self.destination.num == other.destination.num && self.source.num == other.source.num
    }
}

/// An edge between two temporaries. Edges are ordered by their first end,
/// then by their second.
#[derive(Clone, Copy, Debug, PartialEq, Eq, Structural, Hash, PartialOrd, Ord)]
pub struct Edge {
    pub first: Temp,
    pub second: Temp,
}

impl Key for Edge {
    open spec fn rank(self) -> int {
        self.first.num * 0x1_0000_0000 + self.second.num
    }

    proof fn rank_is_injective(a: Self, b: Self) {
    }

    fn before(&self, other: &Self) -> (result: bool) {
        self.first.num < other.first.num || (self.first.num == other.first.num && self.second.num
            < other.second.num)
    }

    fn same(&self, other: &Self) -> (result: bool) {
        self.first.num == other.first.num && self.second.num == other.second.num
    }
}

/// Whether the ranks of a sequence increase strictly.
pub open spec fn increasing<T: Key>(s: Seq<T>) -> bool {
    forall|i: int, j: int| 0 <= i < j < s.len() ==> (#[trigger] s[i]).rank() < (#[trigger] s[j]).rank()
}

/// A strictly increasing sequence holds nothing twice.
pub proof fn lemma_increasing_no_duplicates<T: Key>(s: Seq<T>)
    requires
        increasing(s),
    ensures
        s.no_duplicates(),
        s.to_set().finite(),
        s.to_set().len() == s.len(),
{
    assert forall|i: int, j: int| 0 <= i < s.len() && 0 <= j < s.len() && i != j implies s[i]
        != s[j] by {
        if i < j {
            assert(s[i].rank() < s[j].rank());
        } else {
            assert(s[j].rank() < s[i].rank());
        }
    }
    s.unique_seq_to_set();
}

/// Two strictly increasing sequences with the same elements are equal.
pub proof fn lemma_increasing_unique<T: Key>(a: Seq<T>, b: Seq<T>)
    requires
        increasing(a),
        increasing(b),
        a.to_set() == b.to_set(),
    ensures
        a == b,
    decreases a.len(),
{
    lemma_increasing_no_duplicates(a);
    lemma_increasing_no_duplicates(b);
    if a.len() == 0 {
        assert(b.len() == 0);
        assert(a =~= b);
    } else {
        let last_a = a.last();
        let last_b = b.last();
        assert(a.to_set().contains(last_a));
        assert(b.to_set().contains(last_a));
        assert(b.to_set().contains(last_b));
        assert(a.to_set().contains(last_b));
        let ia = choose|i: int| 0 <= i < a.len() && a[i] == last_b;
        let ib = choose|i: int| 0 <= i < b.len() && b[i] == last_a;
        assert(a[ia].rank() <= last_a.rank());
        assert(b[ib].rank() <= last_b.rank());
        T::rank_is_injective(last_a, last_b);
        let a0 = a.drop_last();
        let b0 = b.drop_last();
        assert(increasing(a0));
        assert(increasing(b0));
        assert(a0.to_set() =~= b0.to_set()) by {
            assert forall|x: T| a0.to_set().contains(x) <==> b0.to_set().contains(x) by {
                if a0.to_set().contains(x) {
                    let i = choose|i: int| 0 <= i < a0.len() && a0[i] == x;
                    assert(a[i] == x);
                    assert(a[i].rank() < last_a.rank());
                    assert(b.to_set().contains(x));
                    let j = choose|j: int| 0 <= j < b.len() && b[j] == x;
                    assert(j != b.len() - 1);
                    assert(b0[j] == x);
                }
                if b0.to_set().contains(x) {
                    let i = choose|i: int| 0 <= i < b0.len() && b0[i] == x;
                    assert(b[i] == x);
                    assert(b[i].rank() < last_b.rank());
                    assert(a.to_set().contains(x));
                    let j = choose|j: int| 0 <= j < a.len() && a[j] == x;
                    assert(j != a.len() - 1);
                    assert(a0[j] == x);
                }
            }
        }
        lemma_increasing_unique(a0, b0);
        assert(a =~= a0.push(last_a));
        assert(b =~= b0.push(last_b));
    }
}

/// A copy of `items` with `value` put in at `index`.
fn insert_at<T: Copy>(items: &Vec<T>, index: usize, value: T) -> (result: Vec<T>)
    requires
        index <= items@.len(),
    ensures
        result@ == items@.insert(index as int, value),
{
    let mut result: Vec<T> = Vec::new();
    let mut i: usize = 0;
    while i < index
        invariant
            i <= index <= items@.len(),
            result@ == items@.subrange(0, i as int),
        decreases index - i,
    {
        result.push(items[i]);
        assert(result@ =~= items@.subrange(0, i + 1));
        i = i + 1;
    }
    result.push(value);
    while i < items.len()
        invariant
            index <= i <= items@.len(),
            result@ == items@.subrange(0, index as int).push(value) + items@.subrange(
                index as int,
                i as int,
            ),
        decreases items@.len() - i,
    {
        result.push(items[i]);
        assert(result@ =~= items@.subrange(0, index as int).push(value) + items@.subrange(
            index as int,
            i + 1,
        ));
        i = i + 1;
    }
    assert(result@ =~= items@.insert(index as int, value));
    result
}

/// A copy of `items` without the element at `index`.
fn remove_at<T: Copy>(items: &Vec<T>, index: usize) -> (result: Vec<T>)
    requires
        index < items@.len(),
    ensures
        result@ == items@.remove(index as int),
{
    let mut result: Vec<T> = Vec::new();
    let mut i: usize = 0;
    while i < items.len()
        invariant
            i <= items@.len(),
            index < items@.len(),
            i <= index ==> result@ == items@.subrange(0, i as int),
            i > index ==> result@ == items@.subrange(0, index as int) + items@.subrange(
                index + 1,
                i as int,
            ),
        decreases items@.len() - i,
    {
        if i != index {
            result.push(items[i]);
        }
        proof {
            if i < index {
                assert(result@ =~= items@.subrange(0, i + 1));
            } else if i == index {
                assert(result@ =~= items@.subrange(0, index as int) + items@.subrange(
                    index + 1,
                    i + 1,
                ));
            } else {
                assert(result@ =~= items@.subrange(0, index as int) + items@.subrange(
                    index + 1,
                    i + 1,
                ));
            }
        }
        i = i + 1;
    }
    assert(result@ =~= items@.remove(index as int));
    result
}

/// The elements of a finite set in increasing order.
pub open spec fn ordered<T: Key>(set: Set<T>) -> Seq<T> {
    choose|s: Seq<T>| increasing(s) && s.to_set() == set
}

/// The position at which `value` stands, or would stand, in an increasing
/// sequence: that of the first element that does not come before it.
pub open spec fn place<T: Key>(s: Seq<T>, value: T) -> int
    decreases s.len(),
{
    if s.len() == 0 {
        0
    } else if s.last().rank() < value.rank() {
        s.len() as int
    } else {
        place(s.drop_last(), value)
    }
}

/// What comes before the place of a value comes before the value, and what
/// comes at or after it does not.
pub proof fn lemma_place<T: Key>(s: Seq<T>, value: T)
    requires
        increasing(s),
    ensures
        0 <= place(s, value) <= s.len(),
        forall|i: int| 0 <= i < place(s, value) ==> (#[trigger] s[i]).rank() < value.rank(),
        forall|i: int| place(s, value) <= i < s.len() ==> (#[trigger] s[i]).rank() >= value.rank(),
    decreases s.len(),
{
    if s.len() == 0 {
    } else if s.last().rank() < value.rank() {
        assert forall|i: int| 0 <= i < s.len() implies (#[trigger] s[i]).rank() < value.rank() by {
            if i < s.len() - 1 {
                assert(s[i].rank() < s[s.len() - 1].rank());
            }
        }
    } else {
        let shorter = s.drop_last();
        assert(increasing(shorter));
        lemma_place(shorter, value);
        assert forall|i: int| 0 <= i < place(s, value) implies (#[trigger] s[i]).rank()
            < value.rank() by {
            assert(shorter[i] == s[i]);
        }
        assert forall|i: int| place(s, value) <= i < s.len() implies (#[trigger] s[i]).rank()
            >= value.rank() by {
            if i < s.len() - 1 {
                assert(shorter[i] == s[i]);
            }
        }
    }
}

/// A new value put in at its place leaves the sequence increasing and adds
/// the value to its set.
pub proof fn lemma_insert_increasing<T: Key>(s: Seq<T>, value: T)
    requires
        increasing(s),
        !s.to_set().contains(value),
    ensures
        increasing(s.insert(place(s, value), value)),
        s.insert(place(s, value), value).to_set() == s.to_set().insert(value),
{
    lemma_place(s, value);
    let index = place(s, value);
    let after = s.insert(index, value);
    if index < s.len() {
        if s[index].rank() == value.rank() {
            T::rank_is_injective(s[index], value);
            assert(s.to_set().contains(s[index]));
        }
    }
    assert forall|i: int, j: int| 0 <= i < j < after.len() implies (#[trigger] after[i]).rank() < (
    #[trigger] after[j]).rank() by {
        if j < index {
            assert(after[i] == s[i] && after[j] == s[j]);
        } else if j == index {
            assert(after[i] == s[i]);
        } else if i < index {
            assert(after[i] == s[i] && after[j] == s[j - 1]);
            if index < j - 1 {
                assert(s[index].rank() < s[j - 1].rank());
            }
        } else if i == index {
            assert(after[j] == s[j - 1]);
            if index < j - 1 {
                assert(s[index].rank() < s[j - 1].rank());
            }
        } else {
            assert(after[i] == s[i - 1] && after[j] == s[j - 1]);
        }
    }
    assert forall|x: T| after.to_set().contains(x) <==> s.to_set().insert(value).contains(x) by {
        if after.to_set().contains(x) {
            let k = choose|k: int| 0 <= k < after.len() && after[k] == x;
            if k < index {
                assert(s[k] == x);
            } else if k > index {
                assert(s[k - 1] == x);
            }
        }
        if s.to_set().contains(x) {
            let k = choose|k: int| 0 <= k < s.len() && s[k] == x;
            if k < index {
                assert(after[k] == x);
            } else {
                assert(after[k + 1] == x);
            }
        }
        if x == value {
            assert(after[index] == x);
        }
    }
    assert(after.to_set() =~= s.to_set().insert(value));
}

/// The elements of a finite set can be put in increasing order, in one way
/// only.
pub proof fn lemma_ordered_exists<T: Key>(set: Set<T>)
    requires
        set.finite(),
    ensures
        increasing(ordered(set)),
        ordered(set).to_set() == set,
        ordered(set).len() == set.len(),
        ordered(set).no_duplicates(),
        set.len() > 0 ==> set.contains(ordered(set)[0]),
    decreases set.len(),
{
    if set.len() == 0 {
        let empty = Seq::<T>::empty();
        assert(set =~= Set::<T>::empty());
        assert(empty.to_set() =~= set);
        assert(increasing(empty) && empty.to_set() == set);
    } else {
        let value = set.choose();
        let rest = set.remove(value);
        lemma_ordered_exists(rest);
        let shorter = ordered(rest);
        lemma_insert_increasing(shorter, value);
        let longer = shorter.insert(place(shorter, value), value);
        assert(rest.insert(value) =~= set);
        assert(increasing(longer) && longer.to_set() == set);
    }
    lemma_increasing_no_duplicates(ordered(set));
    if set.len() > 0 {
        assert(ordered(set).to_set().contains(ordered(set)[0]));
    }
}

/// A finite set whose elements are kept in increasing order.
#[derive(Debug)]
pub struct OrdSet<T: Key> {
    pub(crate) items: Vec<T>,
}

impl<T: Key> View for OrdSet<T> {
    type V = Set<T>;

    closed spec fn view(&self) -> Set<T> {
        self.items@.to_set()
    }
}

impl<T: Key> OrdSet<T> {
    /// The elements are strictly increasing.
    #[verifier::type_invariant]
    pub closed spec fn wf(self) -> bool {
        increasing(self.items@)
    }

    /// The elements in increasing order.
    pub closed spec fn seq(self) -> Seq<T> {
        self.items@
    }

    /// What the ordered sequence and the set of a well-formed value have to
    /// do with each other.
    pub proof fn lemma_seq(self)
        requires
            self.wf(),
        ensures
            increasing(self.seq()),
            self.seq().no_duplicates(),
            self.seq().to_set() == self@,
            self@.finite(),
            self@.len() == self.seq().len(),
            forall|i: int| 0 <= i < self.seq().len() ==> self@.contains(#[trigger] self.seq()[i]),
    {
        lemma_increasing_no_duplicates(self.items@);
    }

    /// The sequence of a well-formed value is its set in increasing order.
    pub proof fn lemma_ordered(self)
        requires
            self.wf(),
        ensures
            self.seq() == ordered(self@),
            increasing(ordered(self@)),
            ordered(self@).to_set() == self@,
    {
        let witness = self.items@;
        assert(increasing(witness) && witness.to_set() == self@);
        lemma_increasing_unique(witness, ordered(self@));
    }

    /// What stands in the sequence is in the set.
    pub proof fn lemma_holds(self, index: int)
        requires
            0 <= index < self.seq().len(),
        ensures
            self@.contains(self.seq()[index]),
    {
        assert(self.items@.to_set().contains(self.items@[index]));
    }

    /// The set of any value is finite.
    pub proof fn lemma_finite(self)
        ensures
            self@.finite(),
    {
        vstd::seq_lib::seq_to_set_is_finite(self.items@);
    }

    /// Well-formed values with the same elements hold them in the same order.
    pub proof fn lemma_same_set_same_seq(self, other: Self)
        requires
            self.wf(),
            other.wf(),
            self@ == other@,
        ensures
            self.seq() == other.seq(),
    {
        lemma_increasing_unique(self.items@, other.items@);
    }

    /// The empty set.
    pub fn new() -> (set: Self)
        ensures
            set@ == Set::<T>::empty(),
            set.seq() == Seq::<T>::empty(),
    {
        let set = OrdSet { items: Vec::new() };
        assert(set.items@.to_set() =~= Set::<T>::empty());
        set
    }

    /// The number of elements.
    pub fn len(&self) -> (n: usize)
        ensures
            n == self@.len(),
            n == self.seq().len(),
            self@.finite(),
            self.seq() == ordered(self@),
    {
        proof {
            use_type_invariant(self);
            self.lemma_seq();
            self.lemma_ordered();
        }
        self.items.len()
    }

    /// Whether the set holds nothing.
    pub fn is_empty(&self) -> (empty: bool)
        ensures
            empty == (self@ == Set::<T>::empty()),
            empty == (self.seq().len() == 0),
    {
        proof {
            use_type_invariant(self);
            self.lemma_seq();
            if self.items@.len() == 0 {
                assert(self@ =~= Set::<T>::empty());
            } else {
                assert(self@.contains(self.items@[0]));
            }
        }
        self.items.len() == 0
    }

    /// The element at a position of the increasing order.
    pub fn get(&self, index: usize) -> (value: T)
        requires
            index < self.seq().len(),
        ensures
            value == self.seq()[index as int],
            self@.contains(value),
    {
        proof {
            use_type_invariant(self);
            self.lemma_seq();
        }
        self.items[index]
    }

    /// The position of the first element that does not come before `value`.
    fn position(&self, value: &T) -> (index: usize)
        ensures
            index <= self.items@.len(),
            forall|k: int| 0 <= k < index ==> (#[trigger] self.items@[k]).rank() < value.rank(),
            index < self.items@.len() ==> self.items@[index as int].rank() >= value.rank(),
    {
        let mut index: usize = 0;
        while index < self.items.len() && self.items[index].before(value)
            invariant
                index <= self.items@.len(),
                forall|k: int| 0 <= k < index ==> (#[trigger] self.items@[k]).rank() < value.rank(),
            decreases self.items@.len() - index,
        {
            index = index + 1;
        }
        index
    }

    /// Whether the set holds `value`.
    pub fn contains(&self, value: &T) -> (found: bool)
        ensures
            found == self@.contains(*value),
    {
        proof {
            use_type_invariant(self);
        }
        let index = self.position(value);
        if index < self.items.len() && self.items[index].same(value) {
            assert(self.items@[index as int] == *value);
            true
        } else {
            proof {
                if self@.contains(*value) {
                    let k = choose|k: int| 0 <= k < self.items@.len() && self.items@[k] == *value;
                    if k < index {
                        assert(self.items@[k].rank() < value.rank());
                    } else if k > index {
                        assert(self.items@[index as int].rank() < self.items@[k].rank());
                    }
                }
            }
            false
        }
    }

    /// Adds `value`; says whether it was new.
    pub fn insert(&mut self, value: T) -> (added: bool)
        ensures
            final(self)@ == old(self)@.insert(value),
            added == !old(self)@.contains(value),
            added ==> final(self)@.len() == old(self)@.len() + 1,
            !added ==> final(self).seq() == old(self).seq(),
    {
        proof {
            use_type_invariant(&*self);
            self.lemma_seq();
        }
        let index = self.position(&value);
        if index < self.items.len() && self.items[index].same(&value) {
            assert(self.items@[index as int] == value);
            assert(self@ =~= self@.insert(value));
            false
        } else {
            let ghost before = self.items@;
            proof {
                if index < before.len() {
                    if before[index as int].rank() == value.rank() {
                        T::rank_is_injective(before[index as int], value);
                    }
                }
                let after = before.insert(index as int, value);
                assert forall|i: int, j: int| 0 <= i < j < after.len() implies (#[trigger] after[i]).rank()
                    < (#[trigger] after[j]).rank() by {
                    if j < index {
                        assert(after[i] == before[i] && after[j] == before[j]);
                    } else if j == index {
                        assert(after[i] == before[i]);
                    } else if i < index {
                        assert(after[i] == before[i] && after[j] == before[j - 1]);
                        if index < j - 1 {
                            assert(before[index as int].rank() < before[j - 1].rank());
                        }
                    } else if i == index {
                        assert(after[j] == before[j - 1]);
                        if index < j - 1 {
                            assert(before[index as int].rank() < before[j - 1].rank());
                        }
                    } else {
                        assert(after[i] == before[i - 1] && after[j] == before[j - 1]);
                    }
                }
                assert(after.to_set() =~= before.to_set().insert(value)) by {
                    assert forall|x: T| after.to_set().contains(x) <==> before.to_set().insert(
                        value,
                    ).contains(x) by {
                        if after.to_set().contains(x) {
                            let k = choose|k: int| 0 <= k < after.len() && after[k] == x;
                            if k < index {
                                assert(before[k] == x);
                            } else if k > index {
                                assert(before[k - 1] == x);
                            }
                        }
                        if before.to_set().contains(x) {
                            let k = choose|k: int| 0 <= k < before.len() && before[k] == x;
                            if k < index {
                                assert(after[k] == x);
                            } else {
                                assert(after[k + 1] == x);
                            }
                        }
                        if x == value {
                            assert(after[index as int] == x);
                        }
                    }
                }
                lemma_increasing_no_duplicates(after);
                if before.to_set().contains(value) {
                    let k = choose|k: int| 0 <= k < before.len() && before[k] == value;
                    if k < index {
                        assert(before[k].rank() < value.rank());
                    } else if k > index {
                        assert(before[index as int].rank() < before[k].rank());
                    }
                }
            }
            self.items = insert_at(&self.items, index, value);
            true
        }
    }

    /// Takes `value` out; says whether it was there.
    pub fn remove(&mut self, value: &T) -> (removed: bool)
        ensures
            final(self)@ == old(self)@.remove(*value),
            removed == old(self)@.contains(*value),
            removed ==> final(self)@.len() == old(self)@.len() - 1,
            !removed ==> final(self).seq() == old(self).seq(),
    {
        proof {
            use_type_invariant(&*self);
            self.lemma_seq();
        }
        let index = self.position(value);
        if index < self.items.len() && self.items[index].same(value) {
            let ghost before = self.items@;
            proof {
                let after = before.remove(index as int);
                lemma_remove_increasing(before, index as int);
            }
            self.items = remove_at(&self.items, index);
            true
        } else {
            proof {
                if self@.contains(*value) {
                    let k = choose|k: int| 0 <= k < self.items@.len() && self.items@[k] == *value;
                    if k < index {
                        assert(self.items@[k].rank() < value.rank());
                    } else if k > index {
                        assert(self.items@[index as int].rank() < self.items@[k].rank());
                    }
                }
                assert(self@ =~= self@.remove(*value));
            }
            false
        }
    }

    /// Takes out the first element of the increasing order, if there is one.
    pub fn pop_first(&mut self) -> (first: Option<T>)
        ensures
            match first {
                Some(value) => {
                    &&& old(self)@.contains(value)
                    &&& forall|other: T| old(self)@.contains(other) ==> value.rank() <= other.rank()
                    &&& final(self)@ == old(self)@.remove(value)
                    &&& final(self)@.len() == old(self)@.len() - 1
                    &&& value == old(self).seq()[0]
                    &&& value == ordered(old(self)@)[0]
                    &&& old(self)@.finite()
                },
                None => old(self)@ == Set::<T>::empty() && final(self)@ == old(self)@,
            },
    {
        proof {
            use_type_invariant(&*self);
            self.lemma_seq();
            self.lemma_ordered();
        }
        if self.items.len() == 0 {
            assert(self@ =~= Set::<T>::empty());
            None
        } else {
            let ghost before = self.items@;
            let value = self.items[0];
            proof {
                lemma_remove_increasing(before, 0);
                assert forall|other: T| self@.contains(other) implies value.rank()
                    <= other.rank() by {
                    let k = choose|k: int| 0 <= k < before.len() && before[k] == other;
                    if k > 0 {
                        assert(before[0].rank() < before[k].rank());
                    }
                }
            }
            self.items = remove_at(&self.items, 0);
            Some(value)
        }
    }

    /// A copy of the set.
    pub fn copy(&self) -> (set: Self)
        ensures
            set@ == self@,
            set.seq() == self.seq(),
    {
        proof {
            use_type_invariant(self);
        }
        let mut items: Vec<T> = Vec::new();
        let mut index: usize = 0;
        while index < self.items.len()
            invariant
                index <= self.items@.len(),
                items@ == self.items@.subrange(0, index as int),
            decreases self.items@.len() - index,
        {
            items.push(self.items[index]);
            assert(items@ =~= self.items@.subrange(0, index + 1));
            index = index + 1;
        }
        assert(items@ =~= self.items@);
        OrdSet { items }
    }

    /// The elements in increasing order.
    pub fn to_vec(&self) -> (items: Vec<T>)
        ensures
            items@ == self.seq(),
            items@ == ordered(self@),
            items@.to_set() == self@,
            increasing(items@),
    {
        proof {
            use_type_invariant(self);
            self.lemma_ordered();
        }
        let copy = self.copy();
        proof {
            use_type_invariant(&copy);
        }
        copy.items
    }

    /// The set of the elements of a vector.
    pub fn from_vec(items: &Vec<T>) -> (set: Self)
        ensures
            set@ == items@.to_set(),
    {
        let mut set = OrdSet::new();
        let mut index: usize = 0;
        while index < items.len()
            invariant
                index <= items@.len(),
                set@ == items@.subrange(0, index as int).to_set(),
            decreases items@.len() - index,
        {
            set.insert(items[index]);
            proof {
                let shorter = items@.subrange(0, index as int);
                let longer = items@.subrange(0, index + 1);
                assert(longer =~= shorter.push(items@[index as int]));
                lemma_push_to_set(shorter, items@[index as int]);
            }
            index = index + 1;
        }
        assert(items@.subrange(0, index as int) =~= items@);
        set
    }

    /// Adds every element of `other`.
    pub fn extend(&mut self, other: &OrdSet<T>)
        ensures
            final(self)@ == old(self)@.union(other@),
    {
        proof {
            use_type_invariant(other);
            other.lemma_seq();
        }
        let mut index: usize = 0;
        while index < other.len()
            invariant
                index <= other.seq().len(),
                other.seq().to_set() == other@,
                self@ == old(self)@.union(other.seq().subrange(0, index as int).to_set()),
            decreases other.seq().len() - index,
        {
            self.insert(other.get(index));
            proof {
                let shorter = other.seq().subrange(0, index as int);
                let longer = other.seq().subrange(0, index + 1);
                assert(longer =~= shorter.push(other.seq()[index as int]));
                lemma_push_to_set(shorter, other.seq()[index as int]);
                assert(self@ =~= old(self)@.union(longer.to_set()));
            }
            index = index + 1;
        }
        assert(other.seq().subrange(0, index as int) =~= other.seq());
    }

    /// Takes out every element of `other`.
    pub fn subtract(&mut self, other: &OrdSet<T>)
        ensures
            final(self)@ == old(self)@.difference(other@),
    {
        proof {
            use_type_invariant(other);
            other.lemma_seq();
        }
        let mut index: usize = 0;
        while index < other.len()
            invariant
                index <= other.seq().len(),
                other.seq().to_set() == other@,
                self@ == old(self)@.difference(other.seq().subrange(0, index as int).to_set()),
            decreases other.seq().len() - index,
        {
            let value = other.get(index);
            self.remove(&value);
            proof {
                let shorter = other.seq().subrange(0, index as int);
                let longer = other.seq().subrange(0, index + 1);
                assert(longer =~= shorter.push(other.seq()[index as int]));
                lemma_push_to_set(shorter, other.seq()[index as int]);
                assert(self@ =~= old(self)@.difference(longer.to_set()));
            }
            index = index + 1;
        }
        assert(other.seq().subrange(0, index as int) =~= other.seq());
    }

    /// The elements that both sets hold.
    pub fn intersection(&self, other: &OrdSet<T>) -> (common: Self)
        ensures
            common@ == self@.intersect(other@),
    {
        proof {
            use_type_invariant(self);
            self.lemma_seq();
        }
        let mut common = OrdSet::new();
        let mut index: usize = 0;
        while index < self.len()
            invariant
                index <= self.seq().len(),
                self.seq().to_set() == self@,
                common@ == self.seq().subrange(0, index as int).to_set().intersect(other@),
            decreases self.seq().len() - index,
        {
            let value = self.get(index);
            if other.contains(&value) {
                common.insert(value);
            }
            proof {
                let shorter = self.seq().subrange(0, index as int);
                let longer = self.seq().subrange(0, index + 1);
                assert(longer =~= shorter.push(self.seq()[index as int]));
                lemma_push_to_set(shorter, self.seq()[index as int]);
                assert(common@ =~= longer.to_set().intersect(other@));
            }
            index = index + 1;
        }
        assert(self.seq().subrange(0, index as int) =~= self.seq());
        common
    }

    /// Whether the two sets hold the same elements.
    pub fn equals(&self, other: &OrdSet<T>) -> (equal: bool)
        ensures
            equal == (self@ == other@),
    {
        proof {
            use_type_invariant(self);
            use_type_invariant(other);
            self.lemma_seq();
            other.lemma_seq();
        }
        if self.items.len() != other.items.len() {
            return false;
        }
        let mut index: usize = 0;
        while index < self.items.len()
            invariant
                index <= self.items@.len(),
                self.items@.len() == other.items@.len(),
                self.items@.subrange(0, index as int) == other.items@.subrange(0, index as int),
                self.wf(),
                other.wf(),
            decreases self.items@.len() - index,
        {
            if !self.items[index].same(&other.items[index]) {
                proof {
                    if self@ == other@ {
                        lemma_increasing_unique(self.items@, other.items@);
                    }
                }
                return false;
            }
            assert(self.items@.subrange(0, index + 1) =~= self.items@.subrange(0, index as int).push(
                self.items@[index as int],
            ));
            assert(other.items@.subrange(0, index + 1) =~= other.items@.subrange(
                0,
                index as int,
            ).push(other.items@[index as int]));
            index = index + 1;
        }
        assert(self.items@ =~= self.items@.subrange(0, index as int));
        assert(other.items@ =~= other.items@.subrange(0, index as int));
        true
    }
}

/// The set of a sequence with one more element at its end.
pub proof fn lemma_push_to_set<T>(s: Seq<T>, value: T)
    ensures
        s.push(value).to_set() == s.to_set().insert(value),
{
    let longer = s.push(value);
    assert forall|x: T| longer.to_set().contains(x) <==> s.to_set().insert(value).contains(x) by {
        if longer.to_set().contains(x) {
            let k = choose|k: int| 0 <= k < longer.len() && longer[k] == x;
            if k < s.len() {
                assert(s[k] == x);
            }
        }
        if s.to_set().contains(x) {
            let k = choose|k: int| 0 <= k < s.len() && s[k] == x;
            assert(longer[k] == x);
        }
        if x == value {
            assert(longer[s.len() as int] == x);
        }
    }
    assert(longer.to_set() =~= s.to_set().insert(value));
}

/// Taking one element out of a strictly increasing sequence leaves one, and
/// takes exactly that element out of its set.
pub proof fn lemma_remove_increasing<T: Key>(s: Seq<T>, index: int)
    requires
        increasing(s),
        0 <= index < s.len(),
    ensures
        increasing(s.remove(index)),
        s.remove(index).to_set() == s.to_set().remove(s[index]),
        s.remove(index).to_set().len() == s.to_set().len() - 1,
{
    let after = s.remove(index);
    assert forall|i: int, j: int| 0 <= i < j < after.len() implies (#[trigger] after[i]).rank() < (
    #[trigger] after[j]).rank() by {
        let i0 = if i < index { i } else { i + 1 };
        let j0 = if j < index { j } else { j + 1 };
        assert(after[i] == s[i0] && after[j] == s[j0]);
    }
    lemma_increasing_no_duplicates(s);
    lemma_increasing_no_duplicates(after);
    assert forall|x: T| after.to_set().contains(x) <==> s.to_set().remove(s[index]).contains(
        x,
    ) by {
        if after.to_set().contains(x) {
            let k = choose|k: int| 0 <= k < after.len() && after[k] == x;
            let k0 = if k < index { k } else { k + 1 };
            assert(s[k0] == x);
            assert(s[k0] != s[index]);
        }
        if s.to_set().remove(s[index]).contains(x) {
            let k = choose|k: int| 0 <= k < s.len() && s[k] == x;
            assert(k != index);
            let k1 = if k < index { k } else { k - 1 };
            assert(after[k1] == x);
        }
    }
    assert(after.to_set() =~= s.to_set().remove(s[index]));
}

/// The set listed under a key of a table of sets; empty where the table
/// has no entry.
pub open spec fn set_at<T: Key>(table: Map<u32, OrdSet<T>>, key: u32) -> Set<T> {
    if table.contains_key(key) {
        table[key]@
    } else {
        Set::empty()
    }
}

/// The table as a function from every key to a set.
pub open spec fn table_view<T: Key>(table: Map<u32, OrdSet<T>>) -> Map<u32, Set<T>> {
    Map::new(|key: u32| true, |key: u32| set_at(table, key))
}

/// Adds `value` to the set listed under `key`; says whether it was new.
pub fn table_insert<T: Key>(table: &mut HashMap<u32, OrdSet<T>>, key: u32, value: T) -> (added:
    bool)
    ensures
        table_view(final(table)@) == table_view(old(table)@).insert(
            key,
            set_at(old(table)@, key).insert(value),
        ),
        added == !set_at(old(table)@, key).contains(value),
        added ==> set_at(final(table)@, key).len() == set_at(old(table)@, key).len() + 1,
        set_at(final(table)@, key).finite(),
        set_at(final(table)@, key).len() <= usize::MAX,
{
    let mut set = match table.remove(&key) {
        Some(set) => set,
        None => OrdSet::new(),
    };
    let added = set.insert(value);
    let size = set.len();
    table.insert(key, set);
    assert(table_view(table@) =~= table_view(old(table)@).insert(
        key,
        set_at(old(table)@, key).insert(value),
    ));
    added
}

/// A copy of the set listed under `key`.
pub fn table_get<T: Key>(table: &HashMap<u32, OrdSet<T>>, key: u32) -> (set: OrdSet<T>)
    ensures
        set@ == set_at(table@, key),
{
    match table.get(&key) {
        Some(set) => set.copy(),
        None => OrdSet::new(),
    }
}

/// Adds every element of `values` to the set listed under `key`.
pub fn table_extend<T: Key>(table: &mut HashMap<u32, OrdSet<T>>, key: u32, values: &OrdSet<T>)
    ensures
        table_view(final(table)@) == table_view(old(table)@).insert(
            key,
            set_at(old(table)@, key).union(values@),
        ),
{
    let mut set = match table.remove(&key) {
        Some(set) => set,
        None => OrdSet::new(),
    };
    set.extend(values);
    table.insert(key, set);
    assert(table_view(table@) =~= table_view(old(table)@).insert(
        key,
        set_at(old(table)@, key).union(values@),
    ));
}

} // verus!

//! Stable ordering of values.
//!
//! SPDX-License-Identifier: MIT OR Apache-2.0

use crate::attribution::amount::Amount;
use crate::attribution::result::RootCauseRank;
use vstd::prelude::*;

verus! {

/// Values with a place before or after others.
pub trait Placed: Copy + Sized {
    /// Whether a value goes before another.
    open spec fn goes_before(self, other: Self) -> bool {
        arbitrary()
    }

    /// Test whether a value goes before another.
    fn is_before(&self, other: &Self) -> (yes: bool)
        ensures
            yes == self.goes_before(*other),
    ;
}

/// Smaller amounts go first.
impl<N: Amount> Placed for N {
    open spec fn goes_before(self, other: Self) -> bool {
        self.below(other)
    }

    fn is_before(&self, other: &Self) -> bool {
        self.is_below(*other)
    }
}

/// A value that is sorted among all others, those included that do not compare.
#[derive(Clone, Copy, Debug, PartialEq)]
pub struct Draw<N> {
    /// The value.
    pub value: N,
}

/// Draws go by the order that values are sorted by.
impl<N: Amount> Placed for Draw<N> {
    open spec fn goes_before(self, other: Self) -> bool {
        self.value.precedes(other.value)
    }

    fn is_before(&self, other: &Self) -> bool {
        self.value.is_preceding(other.value)
    }
}

/// Values as draws.
pub open spec fn as_draws<N>(values: Seq<N>) -> Seq<Draw<N>> {
    values.map_values(|value: N| Draw { value })
}

/// Values sorted, every one of them.
pub open spec fn sorted<N: Amount>(values: Seq<N>) -> Seq<N> {
    arranged(as_draws(values)).map_values(|draw: Draw<N>| draw.value)
}

/// Higher scores go first.
impl<N: Amount> Placed for RootCauseRank<N> {
    open spec fn goes_before(self, other: Self) -> bool {
        other.score.below(self.score)
    }

    fn is_before(&self, other: &Self) -> bool {
        other.score.is_below(self.score)
    }
}

/// A value taken in: behind everything that it does not go before.
pub open spec fn inserted<T: Placed>(s: Seq<T>, x: T) -> Seq<T>
    decreases s.len(),
{
    if s.len() > 0 && x.goes_before(s.last()) {
        inserted(s.drop_last(), x).push(s.last())
    } else {
        s.push(x)
    }
}

/// Values in order, those without one in the order they came.
pub open spec fn arranged<T: Placed>(s: Seq<T>) -> Seq<T>
    decreases s.len(),
{
    if s.len() == 0 {
        s
    } else {
        inserted(arranged(s.drop_last()), s.last())
    }
}

proof fn lemma_inserted_len<T: Placed>(s: Seq<T>, x: T)
    ensures
        inserted(s, x).len() == s.len() + 1,
        inserted(s, x).to_multiset() =~= s.to_multiset().insert(x),
    decreases s.len(),
{
    broadcast use vstd::seq_lib::group_to_multiset_ensures;

    if s.len() > 0 && x.goes_before(s.last()) {
        lemma_inserted_len(s.drop_last(), x);
        assert(s.drop_last().push(s.last()) =~= s);
        vstd::seq_lib::to_multiset_build(s.drop_last(), s.last());
        vstd::seq_lib::to_multiset_build(inserted(s.drop_last(), x), s.last());
    } else {
        vstd::seq_lib::to_multiset_build(s, x);
    }
}

/// Ordering keeps every value as often as it came.
pub proof fn law_arranging_keeps_values<T: Placed>(s: Seq<T>)
    ensures
        arranged(s).len() == s.len(),
        arranged(s).to_multiset() =~= s.to_multiset(),
    decreases s.len(),
{
    if s.len() > 0 {
        law_arranging_keeps_values(s.drop_last());
        lemma_inserted_len(arranged(s.drop_last()), s.last());
        assert(s.drop_last().push(s.last()) =~= s);
        vstd::seq_lib::to_multiset_build(s.drop_last(), s.last());
    }
}

/// Places form a strict weak order.
pub open spec fn is_weak_order<T: Placed>() -> bool {
    &&& forall|a: T, b: T| #[trigger] a.goes_before(b) ==> !b.goes_before(a)
    &&& forall|a: T, b: T, c: T|
        #![trigger a.goes_before(b), b.goes_before(c)]
        !a.goes_before(b) && !b.goes_before(c) ==> !a.goes_before(c)
}

/// No value goes before one that stands ahead of it.
pub open spec fn in_order<T: Placed>(s: Seq<T>) -> bool {
    forall|i: int, j: int|
        #![trigger s[i], s[j]]
        0 <= i < j < s.len() ==> !s[j].goes_before(s[i])
}

proof fn lemma_inserted_members<T: Placed>(s: Seq<T>, x: T)
    ensures
        inserted(s, x).len() == s.len() + 1,
        forall|i: int|
            0 <= i < inserted(s, x).len() ==> #[trigger] inserted(s, x)[i] == x || s.contains(
                inserted(s, x)[i],
            ),
    decreases s.len(),
{
    if s.len() > 0 && x.goes_before(s.last()) {
        let before = s.drop_last();
        lemma_inserted_members(before, x);
        assert forall|i: int| 0 <= i < inserted(s, x).len() implies #[trigger] inserted(s, x)[i]
            == x || s.contains(inserted(s, x)[i]) by {
            if i < before.len() + 1 {
                assert(inserted(s, x)[i] == inserted(before, x)[i]);
                if inserted(before, x)[i] != x {
                    let j = choose|j: int| 0 <= j < before.len() && before[j] == inserted(before, x)[i];
                    assert(s[j] == before[j]);
                }
            } else {
                assert(inserted(s, x)[i] == s[s.len() - 1]);
            }
        }
    } else {
        assert forall|i: int| 0 <= i < s.push(x).len() implies #[trigger] s.push(x)[i] == x
            || s.contains(s.push(x)[i]) by {
            if i < s.len() {
                assert(s[i] == s.push(x)[i]);
            }
        }
    }
}

proof fn lemma_inserted_in_order<T: Placed>(s: Seq<T>, x: T)
    requires
        is_weak_order::<T>(),
        in_order(s),
    ensures
        in_order(inserted(s, x)),
    decreases s.len(),
{
    let after = inserted(s, x);
    if s.len() > 0 && x.goes_before(s.last()) {
        let before = s.drop_last();
        assert(in_order(before)) by {
            assert forall|i: int, j: int|
                #![trigger before[i], before[j]]
                0 <= i < j < before.len() implies !before[j].goes_before(before[i]) by {
                assert(before[i] == s[i] && before[j] == s[j]);
            }
        }
        lemma_inserted_in_order(before, x);
        lemma_inserted_members(before, x);
        let shorter = inserted(before, x);
        assert forall|i: int, j: int|
            #![trigger after[i], after[j]]
            0 <= i < j < after.len() implies !after[j].goes_before(after[i]) by {
            assert(after[i] == shorter[i]);
            if j < shorter.len() {
                assert(after[j] == shorter[j]);
            } else {
                assert(after[j] == s.last());
                if shorter[i] == x {
                    assert(x.goes_before(s.last()));
                } else {
                    let k = choose|k: int| 0 <= k < before.len() && before[k] == shorter[i];
                    assert(s[k] == shorter[i]);
                    assert(!s[s.len() - 1].goes_before(s[k]));
                }
            }
        }
    } else {
        assert forall|i: int, j: int|
            #![trigger after[i], after[j]]
            0 <= i < j < after.len() implies !after[j].goes_before(after[i]) by {
            assert(after[i] == s[i]);
            if j < s.len() {
                assert(after[j] == s[j]);
            } else {
                let last = s[s.len() - 1];
                assert(!x.goes_before(last));
                if i < s.len() - 1 {
                    assert(!last.goes_before(s[i]));
                    assert(!x.goes_before(s[i]));
                }
            }
        }
    }
}

/// Under a strict weak order, no value ends up ahead of one that goes before it.
pub proof fn law_arranged_values_are_in_order<T: Placed>(s: Seq<T>)
    requires
        is_weak_order::<T>(),
    ensures
        in_order(arranged(s)),
    decreases s.len(),
{
    if s.len() > 0 {
        law_arranged_values_are_in_order(s.drop_last());
        lemma_inserted_in_order(arranged(s.drop_last()), s.last());
    }
}

/// Neither goes before the other.
pub open spec fn tied<T: Placed>(a: T, b: T) -> bool {
    !a.goes_before(b) && !b.goes_before(a)
}

/// The values that are tied with one, in the order they stand.
pub open spec fn tied_with<T: Placed>(s: Seq<T>, a: T) -> Seq<T>
    decreases s.len(),
{
    if s.len() == 0 {
        s
    } else if tied(s.last(), a) {
        tied_with(s.drop_last(), a).push(s.last())
    } else {
        tied_with(s.drop_last(), a)
    }
}

proof fn lemma_inserted_ties<T: Placed>(s: Seq<T>, x: T, a: T)
    requires
        is_weak_order::<T>(),
    ensures
        tied_with(inserted(s, x), a) == tied_with(s.push(x), a),
    decreases s.len(),
{
    assert(s.push(x).drop_last() =~= s);
    if s.len() > 0 && x.goes_before(s.last()) {
        let before = s.drop_last();
        lemma_inserted_ties(before, x, a);
        assert(inserted(s, x).drop_last() =~= inserted(before, x));
        assert(before.push(x).drop_last() =~= before);
        if tied(x, a) && tied(s.last(), a) {
            assert(!x.goes_before(a) && !a.goes_before(s.last()));
            assert(!x.goes_before(s.last()));
        }
        let rest = tied_with(before, a);
        assert(before.push(x).last() == x);
        assert(inserted(s, x).last() == s.last());
        assert(s.push(x).last() == x);
        assert(tied_with(before.push(x), a) == if tied(x, a) {
            rest.push(x)
        } else {
            rest
        });
        assert(tied_with(s, a) == if tied(s.last(), a) {
            rest.push(s.last())
        } else {
            rest
        });
    }
}

/// Under a strict weak order, tied values keep the order they came in.
pub proof fn law_arranging_is_stable<T: Placed>(s: Seq<T>, a: T)
    requires
        is_weak_order::<T>(),
    ensures
        tied_with(arranged(s), a) == tied_with(s, a),
    decreases s.len(),
{
    if s.len() > 0 {
        let before = s.drop_last();
        law_arranging_is_stable(before, a);
        lemma_inserted_ties(arranged(before), s.last(), a);
        assert(arranged(before).push(s.last()).drop_last() =~= arranged(before));
    }
}

/// Put values in order.
pub fn arrange<T: Placed>(values: &Vec<T>) -> (ordered: Vec<T>)
    ensures
        ordered@ == arranged(values@),
        ordered@.len() == values@.len(),
{
    let mut ordered: Vec<T> = Vec::new();
    let mut i: usize = 0;
    assert(values@.take(0) =~= Seq::<T>::empty());
    while i < values.len()
        invariant
            0 <= i <= values@.len(),
            ordered@ == arranged(values@.take(i as int)),
            ordered@.len() == i,
        decreases values.len() - i,
    {
        let x = values[i];
        let ghost before = ordered@;
        assert(values@.take(i + 1).drop_last() =~= values@.take(i as int));
        let mut at: usize = ordered.len();
        proof {
            assert(before.take(at as int) =~= before);
            assert(before.skip(at as int) =~= Seq::<T>::empty());
            assert(inserted(before, x) =~= inserted(before.take(at as int), x) + before.skip(
                at as int,
            ));
        }
        while at > 0 && x.is_before(&ordered[at - 1])
            invariant
                0 <= at <= before.len(),
                ordered@ == before,
                inserted(before, x) == inserted(before.take(at as int), x) + before.skip(
                    at as int,
                ),
            ensures
                0 <= at <= before.len(),
                ordered@ == before,
                inserted(before, x) == inserted(before.take(at as int), x) + before.skip(
                    at as int,
                ),
                at > 0 ==> !x.goes_before(before[at - 1]),
            decreases at,
        {
            proof {
                let head = before.take(at as int);
                assert(head.last() == before[at - 1]);
                assert(head.drop_last() =~= before.take(at - 1));
                assert(inserted(head, x) == inserted(before.take(at - 1), x).push(
                    before[at - 1],
                ));
                assert(inserted(before, x) =~= inserted(before.take(at - 1), x) + before.skip(
                    at - 1,
                ));
            }
            at = at - 1;
        }
        proof {
            let head = before.take(at as int);
            if at > 0 {
                assert(head.last() == before[at - 1]);
            }
            assert(inserted(head, x) == head.push(x));
            assert(before.insert(at as int, x) =~= head.push(x) + before.skip(at as int));
        }
        ordered.insert(at, x);
        i = i + 1;
    }
    assert(values@.take(values@.len() as int) =~= values@);
    ordered
}

/// Sort values, every one of them.
pub fn sort<N: Amount>(values: &Vec<N>) -> (ordered: Vec<N>)
    ensures
        ordered@ == sorted(values@),
        ordered@.len() == values@.len(),
{
    let mut draws: Vec<Draw<N>> = Vec::new();
    while draws.len() < values.len()
        invariant
            draws@.len() <= values@.len(),
            draws@ == as_draws(values@).take(draws@.len() as int),
        decreases values.len() - draws.len(),
    {
        draws.push(Draw { value: values[draws.len()] });
        assert(draws@ =~= as_draws(values@).take(draws@.len() as int));
    }
    assert(draws@ =~= as_draws(values@));
    let placed = arrange(&draws);
    let mut ordered: Vec<N> = Vec::new();
    while ordered.len() < placed.len()
        invariant
            placed@ == arranged(as_draws(values@)),
            ordered@.len() <= placed@.len(),
            ordered@ == sorted(values@).take(ordered@.len() as int),
        decreases placed.len() - ordered.len(),
    {
        ordered.push(placed[ordered.len()].value);
        assert(ordered@ =~= sorted(values@).take(ordered@.len() as int));
    }
    assert(ordered@ =~= sorted(values@));
    ordered
}

} // verus!

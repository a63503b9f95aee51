//! Arranging records by a key.
//!
//! SPDX-License-Identifier: MIT OR Apache-2.0

use vstd::prelude::*;

verus! {

/// Records with a strict order of their keys.
pub trait Keyed: Sized {
    /// This record's key is below the other's.
    spec fn precedes(self, other: Self) -> bool;

    /// The order is strict, and records that it does not separate are alike to it.
    proof fn lemma_order(a: Self, b: Self, c: Self)
        ensures
            !a.precedes(a),
            a.precedes(b) && b.precedes(c) ==> a.precedes(c),
            !a.precedes(b) && !b.precedes(c) ==> !a.precedes(c),
    ;

    /// Whether this record's key is below the other's.
    fn before(&self, other: &Self) -> (yes: bool)
        ensures
            yes == self.precedes(*other),
    ;
}

/// No record stands after one whose key is above its own.
pub open spec fn ordered<T: Keyed>(records: Seq<T>) -> bool {
    forall|i: int, j: int|
        0 <= i < j < records.len() ==> !(#[trigger] records[j]).precedes(#[trigger] records[i])
}

/// The records in order of their keys.
pub fn arrange<T: Keyed>(records: Vec<T>) -> (arranged: Vec<T>)
    ensures
        ordered(arranged@),
        arranged@.to_multiset() == records@.to_multiset(),
        arranged@.len() == records@.len(),
{
    let mut rest = records;
    let mut arranged: Vec<T> = Vec::new();
    let ghost all = records@.to_multiset();
    proof {
        broadcast use vstd::seq_lib::group_to_multiset_ensures;

        assert(all =~= arranged@.to_multiset().add(rest@.to_multiset()));
    }
    while rest.len() > 0
        invariant
            ordered(arranged@),
            all == arranged@.to_multiset().add(rest@.to_multiset()),
            arranged@.len() + rest@.len() == records@.len(),
        decreases rest.len(),
    {
        let ghost before = arranged@;
        let ghost waiting = rest@;
        match rest.pop() {
            Some(record) => {
                proof {
                    assert(waiting =~= rest@.push(record));
                }
                place(&mut arranged, record);
                proof {
                    broadcast use vstd::seq_lib::group_to_multiset_ensures;

                    assert(all =~= arranged@.to_multiset().add(rest@.to_multiset()));
                }
            },
            None => {},
        }
    }
    proof {
        broadcast use vstd::seq_lib::group_to_multiset_ensures;

        assert(rest@ =~= Seq::<T>::empty());
        assert(all =~= arranged@.to_multiset());
    }
    arranged
}

fn place<T: Keyed>(arranged: &mut Vec<T>, record: T)
    requires
        ordered(old(arranged)@),
    ensures
        ordered(final(arranged)@),
        final(arranged)@.to_multiset() == old(arranged)@.to_multiset().insert(record),
        final(arranged)@.len() == old(arranged)@.len() + 1,
{
    let ghost before = arranged@;
    let mut at: usize = 0;
    while at < arranged.len() && arranged[at].before(&record)
        invariant
            0 <= at <= arranged.len(),
            arranged@ == before,
            forall|k: int| 0 <= k < at ==> (#[trigger] arranged@[k]).precedes(record),
        decreases arranged.len() - at,
    {
        at = at + 1;
    }
    arranged.insert(at, record);
    proof {
        vstd::seq_lib::to_multiset_insert(before, at as int, record);
        let after = arranged@;
        assert forall|i: int, j: int| 0 <= i < j < after.len() implies !(
        #[trigger] after[j]).precedes(#[trigger] after[i]) by {
            if i == at {
                let next = before[at as int];
                let later = before[j - 1];
                T::lemma_order(later, next, record);
                T::lemma_order(next, record, later);
            } else if j == at {
                T::lemma_order(record, before[i], record);
                T::lemma_order(record, record, record);
            } else {
                let p = if i < at {
                    i
                } else {
                    i - 1
                };
                let q = if j < at {
                    j
                } else {
                    j - 1
                };
                assert(after[i] == before[p] && after[j] == before[q]);
            }
        }
    }
}

/// Arranged records are the given ones.
pub proof fn lemma_same_members<T>(a: Seq<T>, b: Seq<T>, x: T)
    requires
        a.to_multiset() == b.to_multiset(),
    ensures
        a.contains(x) == b.contains(x),
{
    vstd::seq_lib::to_multiset_contains(a, x);
    vstd::seq_lib::to_multiset_contains(b, x);
}

/// Records without duplicates stay so when arranged.
pub proof fn lemma_still_distinct<T>(a: Seq<T>, b: Seq<T>)
    requires
        a.to_multiset() == b.to_multiset(),
        b.no_duplicates(),
    ensures
        a.no_duplicates(),
{
    b.lemma_multiset_has_no_duplicates();
    a.lemma_multiset_has_no_duplicates_conv();
}

/// Where keys differ, arranged records ascend strictly.
pub proof fn lemma_strictly_ordered<T: Keyed>(arranged: Seq<T>, given: Seq<T>)
    requires
        ordered(arranged),
        arranged.to_multiset() == given.to_multiset(),
        forall|p: int, q: int|
            0 <= p < q < given.len() ==> (#[trigger] given[p]).precedes(#[trigger] given[q])
                || given[q].precedes(given[p]),
    ensures
        forall|j: int, k: int|
            0 <= j < k < arranged.len() ==> (#[trigger] arranged[j]).precedes(
                #[trigger] arranged[k],
            ),
{
    assert forall|p: int, q: int|
        0 <= p < given.len() && 0 <= q < given.len() && p != q implies given[p] != given[q] by {
        T::lemma_order(given[p], given[p], given[p]);
        if p < q {
            assert(given[p].precedes(given[q]) || given[q].precedes(given[p]));
        } else {
            assert(given[q].precedes(given[p]) || given[p].precedes(given[q]));
        }
    }
    assert(given.no_duplicates());
    lemma_still_distinct(arranged, given);
    assert forall|j: int, k: int| 0 <= j < k < arranged.len() implies (
    #[trigger] arranged[j]).precedes(#[trigger] arranged[k]) by {
        lemma_same_members(arranged, given, arranged[j]);
        lemma_same_members(arranged, given, arranged[k]);
        assert(arranged.contains(arranged[j]) && arranged.contains(arranged[k]));
        let p = choose|p: int| 0 <= p < given.len() && given[p] == arranged[j];
        let q = choose|q: int| 0 <= q < given.len() && given[q] == arranged[k];
        assert(arranged[j] != arranged[k]);
        if p < q {
            assert(given[p].precedes(given[q]) || given[q].precedes(given[p]));
        } else {
            assert(given[q].precedes(given[p]) || given[p].precedes(given[q]));
        }
    }
}

} // verus!

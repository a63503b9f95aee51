//! Integer identifiers.
//!
//! Names live at the boundary; rules take identifiers.
//!
//! SPDX-License-Identifier: MIT OR Apache-2.0

use vstd::prelude::*;

verus! {

/// Dense schema variable id.
#[derive(Clone, Copy, Debug, PartialEq, Eq, PartialOrd, Ord, Hash, Structural)]
pub struct VariableId {
    /// Raw id.
    pub raw: u32,
}

impl VariableId {
    /// Wrap a raw id.
    #[must_use]
    pub fn from_raw(raw: u32) -> (id: Self)
        ensures
            id.raw == raw,
    {
        VariableId { raw }
    }

    /// The raw id.
    #[must_use]
    pub fn raw(self) -> (raw: u32)
        ensures
            raw == self.raw,
    {
        self.raw
    }

    /// The raw id as an index.
    #[must_use]
    pub fn as_usize(self) -> (index: usize)
        ensures
            index == self.raw,
    {
        self.raw as usize
    }
}

/// Environment id.
#[derive(Clone, Copy, Debug, PartialEq, Eq, PartialOrd, Ord, Hash, Structural)]
pub struct EnvironmentId {
    /// Raw id.
    pub raw: u32,
}

impl EnvironmentId {
    /// Wrap a raw id.
    #[must_use]
    pub fn from_raw(raw: u32) -> (id: Self)
        ensures
            id.raw == raw,
    {
        EnvironmentId { raw }
    }

    /// The raw id.
    #[must_use]
    pub fn raw(self) -> (raw: u32)
        ensures
            raw == self.raw,
    {
        self.raw
    }
}

/// Data-collection regime id.
#[derive(Clone, Copy, Debug, PartialEq, Eq, PartialOrd, Ord, Hash, Structural)]
pub struct RegimeId {
    /// Raw id.
    pub raw: u32,
}

impl RegimeId {
    /// Wrap a raw id.
    #[must_use]
    pub fn from_raw(raw: u32) -> (id: Self)
        ensures
            id.raw == raw,
    {
        RegimeId { raw }
    }

    /// The raw id.
    #[must_use]
    pub fn raw(self) -> (raw: u32)
        ensures
            raw == self.raw,
    {
        self.raw
    }
}

/// Reference to a registered distribution.
#[derive(Clone, Copy, Debug, PartialEq, Eq, PartialOrd, Ord, Hash, Structural)]
pub struct DistributionRef {
    /// Raw id.
    pub raw: u32,
}

impl DistributionRef {
    /// Wrap a raw id.
    #[must_use]
    pub fn from_raw(raw: u32) -> (id: Self)
        ensures
            id.raw == raw,
    {
        DistributionRef { raw }
    }

    /// The raw id.
    #[must_use]
    pub fn raw(self) -> (raw: u32)
        ensures
            raw == self.raw,
    {
        self.raw
    }
}

/// Reference to a registered dynamic treatment rule.
#[derive(Clone, Copy, Debug, PartialEq, Eq, PartialOrd, Ord, Hash, Structural)]
pub struct DynamicRuleId {
    /// Raw id.
    pub raw: u32,
}

impl DynamicRuleId {
    /// Wrap a raw id.
    #[must_use]
    pub fn from_raw(raw: u32) -> (id: Self)
        ensures
            id.raw == raw,
    {
        DynamicRuleId { raw }
    }

    /// The raw id.
    #[must_use]
    pub fn raw(self) -> (raw: u32)
        ensures
            raw == self.raw,
    {
        self.raw
    }
}

/// Attribution component id.
#[derive(Clone, Copy, Debug, PartialEq, Eq, PartialOrd, Ord, Hash, Structural)]
pub struct ComponentId {
    /// Raw id.
    pub raw: u32,
}

impl ComponentId {
    /// Wrap a raw id.
    #[must_use]
    pub fn from_raw(raw: u32) -> (id: Self)
        ensures
            id.raw == raw,
    {
        ComponentId { raw }
    }

    /// The raw id.
    #[must_use]
    pub fn raw(self) -> (raw: u32)
        ensures
            raw == self.raw,
    {
        self.raw
    }

    /// The raw id as an index.
    #[must_use]
    pub fn as_usize(self) -> (index: usize)
        ensures
            index == self.raw,
    {
        self.raw as usize
    }

    /// The component that stands for one variable's mechanism.
    #[must_use]
    pub fn from_variable(variable: VariableId) -> (id: Self)
        ensures
            id.variable_of() == variable,
            id.raw == variable.raw,
    {
        ComponentId { raw: variable.raw }
    }

    /// The variable behind a component.
    pub open spec fn variable_of(self) -> VariableId {
        VariableId { raw: self.raw }
    }

    /// The variable behind a component.
    #[must_use]
    pub fn variable(self) -> (variable: VariableId)
        ensures
            variable == self.variable_of(),
    {
        VariableId { raw: self.raw }
    }
}

/// Dense graph node id.
#[derive(Clone, Copy, Debug, PartialEq, Eq, PartialOrd, Ord, Hash, Structural)]
pub struct DenseNodeId {
    /// Raw id.
    pub raw: u32,
}

impl DenseNodeId {
    /// Wrap a raw id.
    #[must_use]
    pub fn from_raw(raw: u32) -> (id: Self)
        ensures
            id.raw == raw,
    {
        DenseNodeId { raw }
    }

    /// The raw id.
    #[must_use]
    pub fn raw(self) -> (raw: u32)
        ensures
            raw == self.raw,
    {
        self.raw
    }

    /// The raw id as an index.
    #[must_use]
    pub fn as_usize(self) -> (index: usize)
        ensures
            index == self.raw,
    {
        self.raw as usize
    }
}

/// Non-negative temporal lag (`0` is contemporaneous).
#[derive(Clone, Copy, Debug, PartialEq, Eq, PartialOrd, Ord, Hash, Structural)]
pub struct Lag {
    /// Steps into the past.
    pub steps: u32,
}

impl Lag {
    /// Wrap a step count.
    #[must_use]
    pub fn from_raw(steps: u32) -> (lag: Self)
        ensures
            lag.steps == steps,
    {
        Lag { steps }
    }

    /// Steps into the past.
    #[must_use]
    pub fn raw(self) -> (steps: u32)
        ensures
            steps == self.steps,
    {
        self.steps
    }
}

/// Whether a list holds an id.
pub fn contains_id(list: &Vec<VariableId>, id: VariableId) -> (found: bool)
    ensures
        found == list@.contains(id),
{
    let mut i: usize = 0;
    while i < list.len()
        invariant
            0 <= i <= list.len(),
            forall|k: int| 0 <= k < i ==> #[trigger] list@[k] != id,
        decreases list.len() - i,
    {
        if list[i] == id {
            assert(list@[i as int] == id);
            return true;
        }
        i = i + 1;
    }
    false
}

/// Whether two lists share an id.
pub open spec fn share_an_id(left: Seq<VariableId>, right: Seq<VariableId>) -> bool {
    exists|i: int| 0 <= i < left.len() && right.contains(#[trigger] left[i])
}

/// Whether two lists share an id.
pub fn any_shared(left: &Vec<VariableId>, right: &Vec<VariableId>) -> (yes: bool)
    ensures
        yes == share_an_id(left@, right@),
{
    let mut i: usize = 0;
    while i < left.len()
        invariant
            0 <= i <= left.len(),
            forall|k: int| 0 <= k < i ==> !right@.contains(#[trigger] left@[k]),
        decreases left.len() - i,
    {
        if contains_id(right, left[i]) {
            assert(right@.contains(left@[i as int]));
            return true;
        }
        i = i + 1;
    }
    false
}

/// Copy of a list of ids.
pub fn copied_ids(list: &Vec<VariableId>) -> (copy: Vec<VariableId>)
    ensures
        copy@ == list@,
{
    let mut copy: Vec<VariableId> = Vec::new();
    let mut i: usize = 0;
    while i < list.len()
        invariant
            0 <= i <= list.len(),
            copy@ == list@.take(i as int),
        decreases list.len() - i,
    {
        copy.push(list[i]);
        i = i + 1;
        assert(copy@ =~= list@.take(i as int));
    }
    assert(copy@ =~= list@);
    copy
}

/// Whether a slice holds an id.
pub fn slice_contains(list: &[VariableId], id: VariableId) -> (found: bool)
    ensures
        found == list@.contains(id),
{
    let mut i: usize = 0;
    while i < list.len()
        invariant
            0 <= i <= list.len(),
            forall|k: int| 0 <= k < i ==> #[trigger] list@[k] != id,
        decreases list.len() - i,
    {
        if list[i] == id {
            assert(list@[i as int] == id);
            return true;
        }
        i = i + 1;
    }
    false
}

/// Whether no id occurs twice.
pub fn distinct_ids(list: &Vec<VariableId>) -> (yes: bool)
    ensures
        yes == list@.no_duplicates(),
{
    let mut i: usize = 0;
    while i < list.len()
        invariant
            0 <= i <= list.len(),
            forall|j: int, k: int|
                0 <= j < k < i ==> #[trigger] list@[j] != #[trigger] list@[k],
        decreases list.len() - i,
    {
        let mut k: usize = 0;
        while k < i
            invariant
                0 <= k <= i < list.len(),
                forall|j: int| 0 <= j < k ==> #[trigger] list@[j] != list@[i as int],
            decreases i - k,
        {
            if list[k] == list[i] {
                assert(list@[k as int] == list@[i as int]);
                return false;
            }
            k = k + 1;
        }
        i = i + 1;
    }
    true
}

/// Each id is below every later one.
pub open spec fn ascending(list: Seq<VariableId>) -> bool {
    forall|i: int, j: int| 0 <= i < j < list.len() ==> (#[trigger] list[i]).raw < (
    #[trigger] list[j]).raw
}

/// Add an id to an ascending list; one that is there already is not repeated.
pub fn insert_id(list: &mut Vec<VariableId>, id: VariableId)
    requires
        ascending(old(list)@),
    ensures
        ascending(final(list)@),
        forall|x: VariableId|
            #[trigger] final(list)@.contains(x) <==> old(list)@.contains(x) || x == id,
{
    let ghost before = list@;
    let mut at: usize = 0;
    while at < list.len() && list[at].raw < id.raw
        invariant
            0 <= at <= list.len(),
            list@ == before,
            forall|k: int| 0 <= k < at ==> (#[trigger] list@[k]).raw < id.raw,
        decreases list.len() - at,
    {
        at = at + 1;
    }
    if at < list.len() && list[at].raw == id.raw {
        assert(list@[at as int] == id);
        return;
    }
    list.insert(at, id);
    proof {
        let after = list@;
        assert(after =~= before.insert(at as int, id));
        assert forall|x: VariableId| #[trigger] after.contains(x) <==> before.contains(x) || x
            == id by {
            if before.contains(x) {
                let k = choose|k: int| 0 <= k < before.len() && before[k] == x;
                assert(after[if k < at {
                    k
                } else {
                    k + 1
                }] == x);
            }
            if x == id {
                assert(after[at as int] == x);
            }
            if after.contains(x) {
                let k = choose|k: int| 0 <= k < after.len() && after[k] == x;
                if k < at {
                    assert(before[k] == x);
                } else if k > at {
                    assert(before[k - 1] == x);
                }
            }
        }
    }
}

/// Two lists hold the same ids, each as often.
pub open spec fn same_ids(left: Seq<VariableId>, right: Seq<VariableId>) -> bool {
    left.to_multiset() == right.to_multiset()
}

/// Whether two lists hold the same ids, in any order.
pub fn same_variable_set(left: &[VariableId], right: &[VariableId]) -> (yes: bool)
    ensures
        yes == same_ids(left@, right@),
{
    broadcast use vstd::seq_lib::group_to_multiset_ensures;

    proof {
        vstd::seq_lib::to_multiset_len(left@);
        vstd::seq_lib::to_multiset_len(right@);
    }
    if left.len() != right.len() {
        return false;
    }
    let mut pool: Vec<VariableId> = Vec::new();
    let mut j: usize = 0;
    while j < right.len()
        invariant
            0 <= j <= right.len(),
            pool@ == right@.take(j as int),
        decreases right.len() - j,
    {
        pool.push(right[j]);
        j = j + 1;
        assert(pool@ =~= right@.take(j as int));
    }
    assert(pool@ =~= right@);
    let ghost all = right@.to_multiset();
    let mut i: usize = 0;
    assert(left@.take(0).to_multiset().add(pool@.to_multiset()) =~= all) by {
        assert(left@.take(0) =~= Seq::<VariableId>::empty());
    }
    while i < left.len()
        invariant
            0 <= i <= left.len(),
            left@.take(i as int).to_multiset().add(pool@.to_multiset()) == all,
            all == right@.to_multiset(),
            pool@.len() + i == left@.len(),
        decreases left.len() - i,
    {
        let id = left[i];
        match position(&pool, id) {
            None => {
                proof {
                    let seen = left@.take(i as int);
                    let rest = left@.skip(i as int);
                    assert(left@ =~= seen + rest);
                    vstd::seq_lib::lemma_multiset_commutative(seen, rest);
                    assert(rest.contains(rest[0]));
                    vstd::seq_lib::to_multiset_contains(rest, id);
                    vstd::seq_lib::to_multiset_contains(pool@, id);
                    assert(left@.to_multiset().count(id) > right@.to_multiset().count(id));
                }
                return false;
            },
            Some(at) => {
                proof {
                    broadcast use vstd::seq_lib::group_to_multiset_ensures;

                    assert(left@.take(i + 1) =~= left@.take(i as int).push(id));
                    assert(left@.take(i + 1).to_multiset().add(pool@.remove(at as int).to_multiset())
                        =~= all);
                }
                pool.remove(at);
            },
        }
        i = i + 1;
    }
    proof {
        assert(pool@ =~= Seq::<VariableId>::empty());
        assert(left@.take(i as int) =~= left@);
        assert(left@.to_multiset() =~= all);
    }
    true
}

fn position(list: &Vec<VariableId>, id: VariableId) -> (at: Option<usize>)
    ensures
        match at {
            Some(k) => k < list@.len() && list@[k as int] == id,
            None => !list@.contains(id),
        },
{
    let mut i: usize = 0;
    while i < list.len()
        invariant
            0 <= i <= list.len(),
            forall|k: int| 0 <= k < i ==> #[trigger] list@[k] != id,
        decreases list.len() - i,
    {
        if list[i] == id {
            return Some(i);
        }
        i = i + 1;
    }
    None
}

/// The ids of a list that another list does not hold, in order.
pub open spec fn without(list: Seq<VariableId>, dropped: Seq<VariableId>) -> Seq<VariableId>
    decreases list.len(),
{
    if list.len() == 0 {
        Seq::empty()
    } else {
        let before = without(list.drop_last(), dropped);
        if dropped.contains(list.last()) {
            before
        } else {
            before.push(list.last())
        }
    }
}

/// The ids of a list that another list does not hold, in order.
pub fn filter_out(list: &Vec<VariableId>, dropped: &Vec<VariableId>) -> (kept: Vec<VariableId>)
    ensures
        kept@ == without(list@, dropped@),
{
    let mut kept: Vec<VariableId> = Vec::new();
    let mut i: usize = 0;
    while i < list.len()
        invariant
            0 <= i <= list.len(),
            kept@ == without(list@.take(i as int), dropped@),
        decreases list.len() - i,
    {
        proof {
            assert(list@.take(i + 1).drop_last() =~= list@.take(i as int));
        }
        if !contains_id(dropped, list[i]) {
            kept.push(list[i]);
        }
        i = i + 1;
    }
    assert(list@.take(i as int) =~= list@);
    kept
}

/// What a filtered list holds.
pub proof fn lemma_without(list: Seq<VariableId>, dropped: Seq<VariableId>)
    ensures
        forall|x: VariableId|
            #[trigger] without(list, dropped).contains(x) <==> list.contains(x)
                && !dropped.contains(x),
        list.no_duplicates() ==> without(list, dropped).no_duplicates(),
    decreases list.len(),
{
    if list.len() > 0 {
        let before = list.drop_last();
        lemma_without(before, dropped);
        let kept = without(before, dropped);
        let out = without(list, dropped);
        assert forall|x: VariableId| #[trigger] out.contains(x) <==> list.contains(x)
            && !dropped.contains(x) by {
            if out.contains(x) {
                let k = choose|k: int| 0 <= k < out.len() && out[k] == x;
                if k < kept.len() {
                    assert(kept[k] == x);
                    assert(kept.contains(x));
                    let b = choose|b: int| 0 <= b < before.len() && before[b] == x;
                    assert(list[b] == x);
                } else {
                    assert(list[list.len() - 1] == x);
                }
            }
            if list.contains(x) && !dropped.contains(x) {
                let b = choose|b: int| 0 <= b < list.len() && list[b] == x;
                if b < before.len() {
                    assert(before[b] == x);
                    assert(kept.contains(x));
                    let k = choose|k: int| 0 <= k < kept.len() && kept[k] == x;
                    assert(out[k] == x);
                } else {
                    assert(out[kept.len() as int] == x);
                }
            }
        }
        if list.no_duplicates() {
            assert(before.no_duplicates());
            if !dropped.contains(list.last()) {
                assert forall|i: int, j: int|
                    0 <= i < out.len() && 0 <= j < out.len() && i != j implies out[i]
                    != out[j] by {
                    if i == kept.len() {
                        assert(kept.contains(kept[j]));
                        assert(before.contains(kept[j]));
                    } else if j == kept.len() {
                        assert(kept.contains(kept[i]));
                        assert(before.contains(kept[i]));
                    }
                }
            }
        }
    }
}

} // verus!

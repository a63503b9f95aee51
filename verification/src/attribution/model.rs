//! Compiled causal models: variables, parents in topological order, and fitted mechanisms.
//!
//! SPDX-License-Identifier: MIT OR Apache-2.0

use crate::attribution::error::AttributionError;
use crate::ids::{DenseNodeId, VariableId};
use vstd::prelude::*;

verus! {

/// Message for parent sets that admit no order.
pub const CYCLIC_STRUCTURE: &'static str =
    "hybrid structure for this coalition is cyclic; structure contribution undefined";

/// A fitted mechanism.
#[derive(Clone, Debug, PartialEq)]
#[non_exhaustive]
pub enum MechanismSlot<N> {
    /// Linear in the parents, with Gaussian noise.
    LinearGaussian {
        /// Value where every parent is zero.
        intercept: N,
        /// Coefficient per parent.
        coeffs: Vec<N>,
        /// Noise standard deviation.
        sigma: N,
    },
    /// Linear with coefficients shrunk toward a common mean.
    HierarchicalLinear {
        /// Value where every parent is zero.
        intercept: N,
        /// Coefficient per parent.
        coeffs: Vec<N>,
        /// Noise standard deviation.
        sigma: N,
    },
    /// One equation of a Bayesian vector autoregression.
    Bvar {
        /// Value where every parent is zero.
        intercept: N,
        /// Coefficient per parent.
        coeffs: Vec<N>,
        /// Noise standard deviation.
        sigma: N,
    },
    /// One value.
    Constant {
        /// The value.
        value: N,
    },
    /// A choice among listed values.
    Discrete {
        /// The values.
        support: Vec<N>,
        /// Their weights.
        probs: Vec<N>,
        /// Dependence of the weights on the parents, if any.
        logit_coeffs: Option<Vec<N>>,
    },
    /// A mechanism without a closed form.
    Opaque,
}

/// Intercept, coefficients and noise of a linear mechanism.
pub struct LinearForm<N> {
    /// Value where every parent is zero.
    pub intercept: N,
    /// Coefficient per parent.
    pub coeffs: Seq<N>,
    /// Noise standard deviation.
    pub sigma: N,
}

impl<N> MechanismSlot<N> {
    /// The linear mechanism behind a slot, if it is of the linear family.
    pub open spec fn linear(self) -> Option<LinearForm<N>> {
        match self {
            MechanismSlot::LinearGaussian { intercept, coeffs, sigma } => Some(
                LinearForm { intercept, coeffs: coeffs@, sigma },
            ),
            MechanismSlot::HierarchicalLinear { intercept, coeffs, sigma } => Some(
                LinearForm { intercept, coeffs: coeffs@, sigma },
            ),
            MechanismSlot::Bvar { intercept, coeffs, sigma } => Some(
                LinearForm { intercept, coeffs: coeffs@, sigma },
            ),
            _ => None,
        }
    }
}

impl<N: Copy> MechanismSlot<N> {
    /// Intercept, coefficients and noise of a linear mechanism.
    pub fn linear_parts(&self) -> (parts: Option<(N, &Vec<N>, N)>)
        ensures
            match parts {
                Some((intercept, coeffs, sigma)) => self.linear() matches Some(form)
                    && form.intercept == intercept && form.coeffs == coeffs@ && form.sigma
                    == sigma,
                None => self.linear() is None,
            },
    {
        match self {
            MechanismSlot::LinearGaussian { intercept, coeffs, sigma } => Some(
                (*intercept, coeffs, *sigma),
            ),
            MechanismSlot::HierarchicalLinear { intercept, coeffs, sigma } => Some(
                (*intercept, coeffs, *sigma),
            ),
            MechanismSlot::Bvar { intercept, coeffs, sigma } => Some((*intercept, coeffs, *sigma)),
            _ => None,
        }
    }
}

/// A node and its parents.
#[derive(Clone, Debug, PartialEq, Eq)]
pub struct ParentGather {
    /// The node.
    pub child: DenseNodeId,
    /// Its parents, in the order of the coefficients.
    pub parents: Vec<DenseNodeId>,
}

/// Parents of every node, by node.
pub open spec fn respects(rank: spec_fn(int) -> nat, parents: Seq<Seq<DenseNodeId>>) -> bool {
    forall|c: int, k: int|
        #![trigger parents[c][k]]
        0 <= c < parents.len() && 0 <= k < parents[c].len() ==> rank(parents[c][k].raw as int)
            < rank(c)
}

/// Some rank puts every parent before its child.
pub open spec fn acyclic(parents: Seq<Seq<DenseNodeId>>) -> bool {
    exists|rank: spec_fn(int) -> nat| respects(rank, parents)
}

/// Every parent is a node.
pub open spec fn closed_under_parents(parents: Seq<Seq<DenseNodeId>>) -> bool {
    forall|c: int, k: int|
        #![trigger parents[c][k]]
        0 <= c < parents.len() && 0 <= k < parents[c].len() ==> parents[c][k].raw
            < parents.len()
}

/// A causal model in topological order.
#[derive(Clone, Debug, PartialEq, Eq)]
pub struct CausalModel {
    /// Variable of each node.
    pub variables: Vec<VariableId>,
    /// Every node with its parents, parents first.
    pub gathers: Vec<ParentGather>,
}

/// A node and its parents, as a specification sees them.
#[verifier::ext_equal]
pub struct GatherView {
    /// The node.
    pub child: DenseNodeId,
    /// Its parents.
    pub parents: Seq<DenseNodeId>,
}

impl View for ParentGather {
    type V = GatherView;

    open spec fn view(&self) -> GatherView {
        GatherView { child: self.child, parents: self.parents@ }
    }
}

/// A causal model, as a specification sees it.
#[verifier::ext_equal]
pub struct ModelView {
    /// Variable of each node.
    pub variables: Seq<VariableId>,
    /// Every node with its parents, parents first.
    pub gathers: Seq<GatherView>,
}

impl View for CausalModel {
    type V = ModelView;

    open spec fn view(&self) -> ModelView {
        ModelView {
            variables: self.variables@,
            gathers: self.gathers@.map_values(|g: ParentGather| g@),
        }
    }
}

impl ModelView {
    /// Number of nodes.
    pub open spec fn nodes(self) -> nat {
        self.variables.len()
    }

    /// Node at a place of the order.
    pub open spec fn child(self, k: int) -> int {
        self.gathers[k].child.raw as int
    }

    /// Parents of the node at a place of the order.
    pub open spec fn parents(self, k: int) -> Seq<DenseNodeId> {
        self.gathers[k].parents
    }

    /// Every node occurs once, after its parents.
    pub open spec fn well_formed(self) -> bool {
        &&& self.gathers.len() == self.nodes()
        &&& self.nodes() <= u32::MAX
        &&& forall|k: int| 0 <= k < self.nodes() ==> #[trigger] self.child(k) < self.nodes()
        &&& forall|j: int, k: int|
            0 <= j < k < self.nodes() ==> #[trigger] self.child(j) != #[trigger] self.child(k)
        &&& forall|k: int, i: int|
            #![trigger self.parents(k)[i]]
            0 <= k < self.nodes() && 0 <= i < self.parents(k).len() ==> self.parents(k)[i].raw
                < self.nodes() && self.comes_before(self.parents(k)[i].raw as int, k)
    }

    /// A node comes before a place of the order.
    #[verifier::opaque]
    pub open spec fn comes_before(self, node: int, k: int) -> bool {
        exists|j: int| 0 <= j < k && #[trigger] self.child(j) == node
    }

    /// `a` is a parent of `b`.
    #[verifier::opaque]
    pub open spec fn is_parent(self, a: int, b: int) -> bool {
        exists|k: int, i: int|
            #![trigger self.parents(k)[i]]
            0 <= k < self.nodes() && self.child(k) == b && 0 <= i < self.parents(k).len()
                && self.parents(k)[i].raw == a
    }

    /// `a` leads to `b` in at most `steps` steps.
    pub open spec fn leads(self, a: int, b: int, steps: nat) -> bool
        decreases steps,
    {
        a == b || (steps > 0 && exists|c: int|
            #[trigger] self.is_parent(c, b) && self.leads(a, c, (steps - 1) as nat))
    }

    /// `a` is `b` or one of its ancestors.
    pub open spec fn is_ancestor(self, a: int, b: int) -> bool {
        exists|steps: nat| self.leads(a, b, steps)
    }

    /// First node of a variable.
    pub open spec fn node_of(self, variable: VariableId, node: int) -> bool {
        &&& 0 <= node < self.nodes()
        &&& self.variables[node] == variable
        &&& forall|k: int| 0 <= k < node ==> #[trigger] self.variables[k] != variable
    }

    /// Every node has a place in the order.
    pub proof fn lemma_placed(self, node: int)
        requires
            self.well_formed(),
            0 <= node < self.nodes(),
        ensures
            exists|k: int| 0 <= k < self.nodes() && #[trigger] self.child(k) == node,
    {
        let n = self.nodes();
        let numbers = Seq::new(n, |k: int| self.child(k));
        assert(numbers.no_duplicates()) by {
            assert forall|a: int, b: int|
                0 <= a < numbers.len() && 0 <= b < numbers.len() && a != b implies numbers[a]
                != numbers[b] by {
                if a < b {
                    assert(self.child(a) != self.child(b));
                } else {
                    assert(self.child(b) != self.child(a));
                }
            }
        }
        numbers.unique_seq_to_set();
        let all = vstd::set_lib::set_int_range(0, n as int);
        vstd::set_lib::lemma_int_range(0, n as int);
        assert(numbers.to_set().subset_of(all)) by {
            assert forall|x: int| numbers.to_set().contains(x) implies all.contains(x) by {
                let a = choose|a: int| 0 <= a < numbers.len() && numbers[a] == x;
                assert(self.child(a) < n);
            }
        }
        vstd::set_lib::lemma_subset_equality(numbers.to_set(), all);
        assert(numbers.to_set().contains(node));
        let k = choose|k: int| 0 <= k < numbers.len() && numbers[k] == node;
        assert(self.child(k) == node);
    }

    /// A parent of a node that leads somewhere leads there too.
    proof fn lemma_extend(self, p: int, c: int, target: int, steps: nat)
        requires
            self.is_parent(p, c),
            self.leads(c, target, steps),
        ensures
            self.is_ancestor(p, target),
            self.leads(p, target, steps + 1),
        decreases steps,
    {
        if c == target {
            assert(self.leads(p, p, steps));
            assert(self.is_parent(p, target) && self.leads(p, p, steps));
        } else {
            let d = choose|d: int|
                #[trigger] self.is_parent(d, target) && self.leads(c, d, (steps - 1) as nat);
            self.lemma_extend(p, c, d, (steps - 1) as nat);
            assert(self.is_parent(d, target) && self.leads(p, d, steps));
        }
        assert(self.leads(p, target, steps + 1));
    }

    /// A set that holds a node's parents with the node holds its ancestors.
    proof fn lemma_closed(self, marked: Seq<bool>, x: int, b: int, steps: nat)
        requires
            self.well_formed(),
            marked.len() == self.nodes(),
            0 <= b < self.nodes(),
            marked[b],
            forall|j: int, i: int|
                #![trigger self.parents(j)[i]]
                0 <= j < self.nodes() && 0 <= i < self.parents(j).len() && marked[self.child(j)]
                    ==> marked[self.parents(j)[i].raw as int],
            self.leads(x, b, steps),
        ensures
            marked[x],
        decreases steps,
    {
        if x != b {
            let c = choose|c: int|
                #[trigger] self.is_parent(c, b) && self.leads(x, c, (steps - 1) as nat);
            reveal(ModelView::is_parent);
            let (k, i) = choose|k: int, i: int|
                #![trigger self.parents(k)[i]]
                0 <= k < self.nodes() && self.child(k) == b && 0 <= i < self.parents(k).len()
                    && self.parents(k)[i].raw == c;
            assert(self.comes_before(self.parents(k)[i].raw as int, k));
            reveal(ModelView::comes_before);
            let j = choose|j: int| 0 <= j < k && #[trigger] self.child(j) == c;
            assert(self.child(j) < self.nodes());
            self.lemma_closed(marked, x, c, (steps - 1) as nat);
        }
    }

    /// Places in the order rank the nodes.
    proof fn lemma_ranked(self, lists: Seq<Seq<DenseNodeId>>)
        requires
            self.well_formed(),
            lists.len() == self.nodes(),
            forall|k: int|
                0 <= k < self.nodes() ==> #[trigger] self.parents(k) == lists[self.child(k)],
        ensures
            acyclic(lists),
    {
        let rank = |x: int|
            choose|k: nat| k < self.nodes() && #[trigger] self.child(k as int) == x;
        assert forall|c: int, i: int|
            #![trigger lists[c][i]]
            0 <= c < lists.len() && 0 <= i < lists[c].len() implies rank(lists[c][i].raw as int)
            < rank(c) by {
            self.lemma_placed(c);
            let k = choose|k: int| 0 <= k < self.nodes() && #[trigger] self.child(k) == c;
            assert(self.child((k as nat) as int) == c);
            let at: nat = rank(c);
            if at < k {
                assert(self.child(at as int) != self.child(k));
            } else if k < at {
                assert(self.child(k) != self.child(at as int));
            }
            assert(at == k);
            assert(self.parents(k)[i] == lists[c][i]);
            let p = lists[c][i].raw as int;
            assert(self.comes_before(p, k));
            reveal(ModelView::comes_before);
            let j = choose|j: int| 0 <= j < k && #[trigger] self.child(j) == p;
            assert(self.child((j as nat) as int) == p);
            let pat: nat = rank(p);
            if pat < j {
                assert(self.child(pat as int) != self.child(j));
            } else if j < pat {
                assert(self.child(j) != self.child(pat as int));
            }
        }
        assert(respects(rank, lists));
    }
}

impl CausalModel {
    /// Number of nodes.
    #[must_use]
    pub fn n_nodes(&self) -> (n: usize)
        ensures
            n == self@.nodes(),
    {
        self.variables.len()
    }

    /// Node of a variable.
    pub fn dense_of(&self, variable: VariableId) -> (found: Option<usize>)
        ensures
            match found {
                Some(node) => self@.node_of(variable, node as int),
                None => !self.variables@.contains(variable),
            },
    {
        let mut node: usize = 0;
        while node < self.variables.len()
            invariant
                0 <= node <= self.variables.len(),
                forall|k: int| 0 <= k < node ==> #[trigger] self.variables@[k] != variable,
            decreases self.variables.len() - node,
        {
            if self.variables[node] == variable {
                return Some(node);
            }
            node = node + 1;
        }
        None
    }

    /// Place of a node in the order.
    pub fn place_of(&self, node: usize) -> (found: Option<usize>)
        ensures
            match found {
                Some(place) => {
                    &&& place < self.gathers@.len()
                    &&& self@.child(place as int) == node
                    &&& forall|k: int| 0 <= k < place ==> #[trigger] self@.child(k) != node
                },
                None => forall|k: int|
                    0 <= k < self.gathers@.len() ==> #[trigger] self@.child(k) != node,
            },
    {
        let mut place: usize = 0;
        while place < self.gathers.len()
            invariant
                0 <= place <= self.gathers.len(),
                forall|k: int| 0 <= k < place ==> #[trigger] self@.child(k) != node,
            decreases self.gathers.len() - place,
        {
            if self.gathers[place].child.raw as usize == node {
                return Some(place);
            }
            place = place + 1;
        }
        None
    }

    /// Whether the node at a place is listed there first, after its parents.
    fn is_placed(&self, k: usize) -> (yes: bool)
        requires
            k < self.gathers@.len(),
            self.gathers@.len() == self.variables@.len(),
        ensures
            yes == ({
                &&& self@.child(k as int) < self@.nodes()
                &&& forall|j: int| 0 <= j < k ==> #[trigger] self@.child(j) != self@.child(k as int)
                &&& forall|i: int|
                    0 <= i < self@.parents(k as int).len() ==> (#[trigger] self@.parents(
                        k as int,
                    )[i]).raw < self@.nodes() && self@.comes_before(
                        self@.parents(k as int)[i].raw as int,
                        k as int,
                    )
            }),
    {
        let gather = &self.gathers[k];
        let node: usize = gather.child.raw as usize;
        if node >= self.variables.len() {
            return false;
        }
        assert(self@.child(k as int) == node);
        match self.place_of(node) {
            Some(place) => {
                if place != k {
                    return false;
                }
            },
            None => {
                return false;
            },
        }
        let mut i: usize = 0;
        while i < gather.parents.len()
            invariant
                0 <= i <= gather.parents@.len(),
                k < self.gathers@.len(),
                gather.parents@ == self@.parents(k as int),
                forall|h: int|
                    0 <= h < i ==> (#[trigger] self@.parents(k as int)[h]).raw < self@.nodes()
                        && self@.comes_before(
                        self@.parents(k as int)[h].raw as int,
                        k as int,
                    ),
            decreases gather.parents.len() - i,
        {
            let parent: usize = gather.parents[i].raw as usize;
            let found = self.place_of(parent);
            assert(self@.parents(k as int)[i as int].raw == parent);
            let before = match found {
                Some(place) => place < k,
                None => false,
            };
            assert(before == self@.comes_before(parent as int, k as int)) by {
                reveal(ModelView::comes_before);
                if before {
                    assert(self@.child(found->0 as int) == parent);
                }
            }
            if parent >= self.variables.len() || !before {
                return false;
            }
            i = i + 1;
        }
        true
    }

    /// Whether every node occurs once, after its parents.
    #[must_use]
    pub fn is_well_formed(&self) -> (yes: bool)
        ensures
            yes == self@.well_formed(),
    {
        let n: usize = self.variables.len();
        if self.gathers.len() != n || n as u64 > u32::MAX as u64 {
            return false;
        }
        let mut k: usize = 0;
        while k < n
            invariant
                0 <= k <= n,
                n == self.variables@.len(),
                n == self.gathers@.len(),
                n <= u32::MAX,
                forall|h: int| 0 <= h < k ==> #[trigger] self@.child(h) < n,
                forall|j: int, h: int|
                    0 <= j < h < k ==> #[trigger] self@.child(j) != #[trigger] self@.child(h),
                forall|h: int, i: int|
                    #![trigger self@.parents(h)[i]]
                    0 <= h < k && 0 <= i < self@.parents(h).len() ==> self@.parents(h)[i].raw < n
                        && self@.comes_before(self@.parents(h)[i].raw as int, h),
            decreases n - k,
        {
            if !self.is_placed(k) {
                return false;
            }
            k = k + 1;
        }
        true
    }

    /// Mark a node and its ancestors.
    #[must_use]
    pub fn ancestors_of(&self, target: usize) -> (marked: Vec<bool>)
        requires
            self@.well_formed(),
            target < self@.nodes(),
        ensures
            marked@.len() == self@.nodes(),
            forall|x: int|
                0 <= x < self@.nodes() ==> #[trigger] marked@[x] == self@.is_ancestor(
                    x,
                    target as int,
                ),
    {
        let n: usize = self.variables.len();
        let mut marked: Vec<bool> = Vec::new();
        while marked.len() < n
            invariant
                marked@.len() <= n,
                n == self@.nodes(),
                forall|x: int| 0 <= x < marked@.len() ==> !(#[trigger] marked@[x]),
            decreases n - marked.len(),
        {
            marked.push(false);
        }
        marked.set(target, true);
        proof {
            assert(self@.leads(target as int, target as int, 0));
        }
        let mut k: usize = n;
        while k > 0
            invariant
                0 <= k <= n,
                n == self@.nodes(),
                self@.well_formed(),
                target < n,
                marked@.len() == n,
                marked@[target as int],
                forall|x: int|
                    0 <= x < n && #[trigger] marked@[x] ==> self@.is_ancestor(x, target as int),
                forall|j: int, i: int|
                    #![trigger self@.parents(j)[i]]
                    k <= j < n && 0 <= i < self@.parents(j).len() && marked@[self@.child(j)]
                        ==> marked@[self@.parents(j)[i].raw as int],
            decreases k,
        {
            k = k - 1;
            let gather = &self.gathers[k];
            let child: usize = gather.child.raw as usize;
            proof {
                assert(self@.child(k as int) < n);
            }
            if marked[child] {
                let mut i: usize = 0;
                while i < gather.parents.len()
                    invariant
                        0 <= i <= gather.parents@.len(),
                        k < n,
                        n == self@.nodes(),
                        self@.well_formed(),
                        target < n,
                        gather == self.gathers@[k as int],
                        child == self@.child(k as int),
                        marked@.len() == n,
                        marked@[target as int],
                        marked@[child as int],
                        forall|x: int|
                            0 <= x < n && #[trigger] marked@[x] ==> self@.is_ancestor(
                                x,
                                target as int,
                            ),
                        forall|j: int, h: int|
                            #![trigger self@.parents(j)[h]]
                            k < j < n && 0 <= h < self@.parents(j).len() && marked@[self@.child(j)]
                                ==> marked@[self@.parents(j)[h].raw as int],
                        forall|h: int|
                            0 <= h < i ==> marked@[(#[trigger] self@.parents(k as int)[h]).raw
                                as int],
                    decreases gather.parents.len() - i,
                {
                    let parent: usize = gather.parents[i].raw as usize;
                    proof {
                        let p = self@.parents(k as int)[i as int].raw as int;
                        assert(self@.comes_before(p, k as int));
                        assert(exists|j: int| 0 <= j < k && #[trigger] self@.child(j) == p) by {
                            reveal(ModelView::comes_before);
                        }
                        assert(self@.is_parent(p, child as int)) by {
                            reveal(ModelView::is_parent);
                        }
                        let steps = choose|steps: nat|
                            self@.leads(child as int, target as int, steps);
                        self@.lemma_extend(p, child as int, target as int, steps);
                        assert forall|j: int, h: int|
                            #![trigger self@.parents(j)[h]]
                            k < j < n && 0 <= h < self@.parents(j).len() && self@.child(j)
                                == p implies false by {
                            let q = choose|q: int| 0 <= q < k && #[trigger] self@.child(q) == p;
                            assert(self@.child(q) != self@.child(j));
                        }
                    }
                    let ghost earlier = marked@;
                    marked.set(parent, true);
                    proof {
                        assert forall|j: int, h: int|
                            #![trigger self@.parents(j)[h]]
                            k < j < n && 0 <= h < self@.parents(j).len()
                                && marked@[self@.child(j)] implies marked@[self@.parents(
                            j,
                        )[h].raw as int] by {
                            assert(self@.child(j) < n);
                            assert(self@.child(j) != parent);
                            assert(earlier[self@.child(j)]);
                        }
                        assert forall|h: int| 0 <= h < i + 1 implies marked@[(
                        #[trigger] self@.parents(k as int)[h]).raw as int] by {
                            assert(self@.parents(k as int)[h].raw < n);
                        }
                    }
                    i = i + 1;
                }
            }
        }
        proof {
            assert forall|x: int| 0 <= x < n implies #[trigger] marked@[x] == self@.is_ancestor(
                x,
                target as int,
            ) by {
                if self@.is_ancestor(x, target as int) {
                    let steps = choose|steps: nat| self@.leads(x, target as int, steps);
                    self@.lemma_closed(marked@, x, target as int, steps);
                }
            }
        }
        marked
    }
}

/// Parents as sequences.
pub open spec fn parent_lists(parents: Seq<Vec<DenseNodeId>>) -> Seq<Seq<DenseNodeId>> {
    parents.map_values(|list: Vec<DenseNodeId>| list@)
}

/// Every parent of a node is done.
pub open spec fn is_ready(parents: Seq<Seq<DenseNodeId>>, done: Seq<int>, x: int) -> bool {
    forall|i: int|
        0 <= i < parents[x].len() ==> done.contains((#[trigger] parents[x][i]).raw as int)
}

/// The first node that is not done and whose parents are.
pub open spec fn is_next(parents: Seq<Seq<DenseNodeId>>, done: Seq<int>, x: int) -> bool {
    &&& 0 <= x < parents.len()
    &&& !done.contains(x)
    &&& is_ready(parents, done, x)
    &&& forall|y: int| 0 <= y < x ==> done.contains(y) || !(#[trigger] is_ready(parents, done, y))
}

/// The first `k` nodes of the order.
pub open spec fn schedule(parents: Seq<Seq<DenseNodeId>>, k: nat) -> Seq<int>
    decreases k,
{
    if k == 0 {
        Seq::empty()
    } else {
        let done = schedule(parents, (k - 1) as nat);
        done.push(choose|x: int| is_next(parents, done, x))
    }
}

/// The model in the order of [`schedule`].
pub open spec fn compiled(
    variables: Seq<VariableId>,
    parents: Seq<Seq<DenseNodeId>>,
) -> ModelView {
    let order = schedule(parents, parents.len());
    ModelView {
        variables,
        gathers: Seq::new(
            parents.len(),
            |k: int|
                GatherView {
                    child: DenseNodeId { raw: order[k] as u32 },
                    parents: parents[order[k]],
                },
        ),
    }
}

proof fn lemma_next_is_one(parents: Seq<Seq<DenseNodeId>>, done: Seq<int>, a: int, b: int)
    requires
        is_next(parents, done, a),
        is_next(parents, done, b),
    ensures
        a == b,
{
    if a < b {
        assert(done.contains(a) || !is_ready(parents, done, a));
    }
    if b < a {
        assert(done.contains(b) || !is_ready(parents, done, b));
    }
}

/// A node is listed before a place.
#[verifier::opaque]
spec fn listed(gathers: Seq<ParentGather>, node: int, k: int) -> bool {
    exists|j: int| 0 <= j < k && (#[trigger] gathers[j]).child.raw == node
}

/// Some parent of a node is not yet placed.
#[verifier::opaque]
spec fn waits(parents: Seq<Seq<DenseNodeId>>, placed: Seq<bool>, node: int) -> bool {
    exists|i: int|
        0 <= i < parents[node].len() && !placed[(#[trigger] parents[node][i]).raw as int]
}

/// Where nodes can be ranked, not all that are left can wait for each other.
proof fn lemma_stuck(
    rank: spec_fn(int) -> nat,
    parents: Seq<Seq<DenseNodeId>>,
    placed: Seq<bool>,
    node: int,
)
    requires
        respects(rank, parents),
        closed_under_parents(parents),
        placed.len() == parents.len(),
        0 <= node < parents.len(),
        forall|x: int| 0 <= x < parents.len() && !placed[x] ==> #[trigger] waits(parents, placed, x),
    ensures
        placed[node],
    decreases rank(node),
{
    if !placed[node] {
        assert(waits(parents, placed, node));
        reveal(waits);
        let i = choose|i: int|
            0 <= i < parents[node].len() && !placed[(#[trigger] parents[node][i]).raw as int];
        lemma_stuck(rank, parents, placed, parents[node][i].raw as int);
    }
}

/// Whether every parent of a node is placed.
fn all_placed(list: &Vec<DenseNodeId>, placed: &Vec<bool>) -> (yes: bool)
    requires
        forall|i: int| 0 <= i < list@.len() ==> (#[trigger] list@[i]).raw < placed@.len(),
    ensures
        yes == forall|i: int| 0 <= i < list@.len() ==> placed@[(#[trigger] list@[i]).raw as int],
{
    let mut i: usize = 0;
    while i < list.len()
        invariant
            0 <= i <= list.len(),
            forall|k: int| 0 <= k < list@.len() ==> (#[trigger] list@[k]).raw < placed@.len(),
            forall|k: int| 0 <= k < i ==> placed@[(#[trigger] list@[k]).raw as int],
        decreases list.len() - i,
    {
        if !placed[list[i].raw as usize] {
            assert(!placed@[list@[i as int].raw as int]);
            return false;
        }
        i = i + 1;
    }
    true
}

/// Copy of a list of nodes.
pub fn copied_nodes(list: &Vec<DenseNodeId>) -> (copy: Vec<DenseNodeId>)
    ensures
        copy@ == list@,
{
    let mut copy: Vec<DenseNodeId> = Vec::new();
    let mut i: usize = 0;
    while i < list.len()
        invariant
            0 <= i <= list.len(),
            copy@ == list@.take(i as int),
        decreases list.len() - i,
    {
        copy.push(list[i]);
        i = i + 1;
        assert(copy@ =~= list@.take(i as int));
    }
    assert(list@.take(list@.len() as int) =~= list@);
    copy
}

impl CausalModel {
    /// Put nodes in topological order; parent sets that form a cycle are refused.
    pub fn compile(variables: Vec<VariableId>, parents: &Vec<Vec<DenseNodeId>>) -> (r: Result<
        Self,
        AttributionError,
    >)
        requires
            variables@.len() == parents@.len(),
            parents@.len() <= u32::MAX,
            closed_under_parents(parent_lists(parents@)),
        ensures
            match r {
                Ok(model) => {
                    &&& acyclic(parent_lists(parents@))
                    &&& model@.well_formed()
                    &&& model@ == compiled(variables@, parent_lists(parents@))
                    &&& model.variables == variables
                    &&& forall|k: int|
                        0 <= k < model@.nodes() ==> #[trigger] model@.parents(k)
                            == parents@[model@.child(k)]@
                },
                Err(error) => {
                    &&& !acyclic(parent_lists(parents@))
                    &&& error == AttributionError::Unsupported { message: CYCLIC_STRUCTURE }
                },
            },
    {
        let n: usize = parents.len();
        let ghost lists = parent_lists(parents@);
        let mut placed: Vec<bool> = Vec::new();
        while placed.len() < n
            invariant
                placed@.len() <= n,
                forall|x: int| 0 <= x < placed@.len() ==> !(#[trigger] placed@[x]),
            decreases n - placed.len(),
        {
            placed.push(false);
        }
        let mut gathers: Vec<ParentGather> = Vec::new();
        while gathers.len() < n
            invariant
                schedule(lists, gathers@.len()).len() == gathers@.len(),
                forall|k: int|
                    0 <= k < gathers@.len() ==> (#[trigger] gathers@[k]).child.raw == schedule(
                        lists,
                        gathers@.len(),
                    )[k],
                n == parents@.len(),
                n <= u32::MAX,
                lists == parent_lists(parents@),
                closed_under_parents(lists),
                placed@.len() == n,
                gathers@.len() <= n,
                forall|k: int|
                    0 <= k < gathers@.len() ==> (#[trigger] gathers@[k]).child.raw < n
                        && placed@[gathers@[k].child.raw as int],
                forall|k: int|
                    0 <= k < gathers@.len() ==> (#[trigger] gathers@[k]).parents@
                        == parents@[gathers@[k].child.raw as int]@,
                forall|j: int, k: int|
                    0 <= j < k < gathers@.len() ==> (#[trigger] gathers@[j]).child
                        != (#[trigger] gathers@[k]).child,
                forall|x: int|
                    0 <= x < n && #[trigger] placed@[x] ==> listed(
                        gathers@,
                        x,
                        gathers@.len() as int,
                    ),
                forall|k: int, i: int|
                    #![trigger gathers@[k].parents@[i]]
                    0 <= k < gathers@.len() && 0 <= i < gathers@[k].parents@.len() ==> listed(
                        gathers@,
                        gathers@[k].parents@[i].raw as int,
                        k,
                    ),
            decreases n - gathers.len(),
        {
            let mut node: usize = 0;
            let mut chosen: Option<usize> = None;
            while node < n && chosen.is_none()
                invariant
                    0 <= node <= n,
                    n == parents@.len(),
                    lists == parent_lists(parents@),
                    closed_under_parents(lists),
                    placed@.len() == n,
                    forall|x: int|
                        0 <= x < node && !placed@[x] ==> #[trigger] waits(lists, placed@, x),
                    chosen matches Some(c) ==> c == node && c < n && !placed@[c as int] && forall|
                        i: int,
                    |
                        0 <= i < parents@[c as int]@.len() ==> placed@[(
                        #[trigger] parents@[c as int]@[i]).raw as int],
                decreases
                        n - node,
                        if chosen is None {
                            1int
                        } else {
                            0
                        },
            {
                proof {
                    assert(lists[node as int] == parents@[node as int]@);
                    assert forall|i: int| 0 <= i < parents@[node as int]@.len() implies (
                    #[trigger] parents@[node as int]@[i]).raw < placed@.len() by {
                        assert(lists[node as int][i].raw < lists.len());
                    }
                }
                if !placed[node] {
                    if all_placed(&parents[node], &placed) {
                        chosen = Some(node);
                    } else {
                        assert(waits(lists, placed@, node as int)) by {
                            reveal(waits);
                            let i = choose|i: int|
                                0 <= i < parents@[node as int]@.len() && !placed@[(
                                #[trigger] parents@[node as int]@[i]).raw as int];
                            assert(!placed@[lists[node as int][i].raw as int]);
                        }
                        node = node + 1;
                    }
                } else {
                    node = node + 1;
                }
            }
            let child: usize = match chosen {
                Some(child) => child,
                None => {
                    proof {
                        let count = gathers@.len();
                        lemma_room(gathers@, placed@, n as nat);
                        let left = choose|x: int| 0 <= x < n && !(#[trigger] placed@[x]);
                        if acyclic(lists) {
                            let rank = choose|rank: spec_fn(int) -> nat| respects(rank, lists);
                            lemma_stuck(rank, lists, placed@, left);
                        }
                    }
                    return Err(AttributionError::unsupported(CYCLIC_STRUCTURE));
                },
            };
            let ghost before = gathers@;
            proof {
                let done = schedule(lists, before.len());
                lemma_done(before, placed@, done, n as nat);
                assert(is_next(lists, done, child as int)) by {
                    assert(lists[child as int] == parents@[child as int]@);
                    assert(is_ready(lists, done, child as int)) by {
                        assert forall|i: int| 0 <= i < lists[child as int].len() implies
                            done.contains((#[trigger] lists[child as int][i]).raw as int) by {
                            assert(placed@[parents@[child as int]@[i].raw as int]);
                            assert(lists[child as int][i].raw < lists.len());
                        }
                    }
                    assert forall|y: int| 0 <= y < child implies done.contains(y)
                        || !(#[trigger] is_ready(lists, done, y)) by {
                        if !placed@[y] {
                            assert(waits(lists, placed@, y));
                            reveal(waits);
                            let i = choose|i: int|
                                0 <= i < lists[y].len() && !placed@[(
                                #[trigger] lists[y][i]).raw as int];
                            assert(lists[y][i].raw < lists.len());
                            assert(!done.contains(lists[y][i].raw as int));
                        }
                    }
                }
                lemma_next_is_one(
                    lists,
                    done,
                    child as int,
                    choose|x: int| is_next(lists, done, x),
                );
                assert(schedule(lists, before.len() + 1) == done.push(child as int));
            }
            let own = copied_nodes(&parents[child]);
            gathers.push(
                ParentGather { child: DenseNodeId::from_raw(child as u32), parents: own },
            );
            let ghost earlier = placed@;
            placed.set(child, true);
            proof {
                let count = before.len() as int;
                assert forall|j: int| 0 <= j < count implies (#[trigger] gathers@[j]).child
                    != gathers@[count].child by {
                    assert(gathers@[j] == before[j]);
                    assert(earlier[before[j].child.raw as int]);
                }
                assert forall|x: int| 0 <= x < n && #[trigger] placed@[x] implies listed(
                    gathers@,
                    x,
                    gathers@.len() as int,
                ) by {
                    reveal(listed);
                    if x == child {
                        assert(gathers@[count].child.raw == x);
                    } else {
                        assert(earlier[x]);
                        let j = choose|j: int|
                            0 <= j < count && (#[trigger] before[j]).child.raw == x;
                        assert(gathers@[j].child.raw == x);
                    }
                }
                assert forall|k: int, i: int|
                    #![trigger gathers@[k].parents@[i]]
                    0 <= k < gathers@.len() && 0 <= i
                        < gathers@[k].parents@.len() implies listed(
                    gathers@,
                    gathers@[k].parents@[i].raw as int,
                    k,
                ) by {
                    reveal(listed);
                    let p = gathers@[k].parents@[i].raw as int;
                    if k < count {
                        assert(gathers@[k] == before[k]);
                        assert(listed(before, before[k].parents@[i].raw as int, k));
                        let j = choose|j: int|
                            0 <= j < k && (#[trigger] before[j]).child.raw == p;
                        assert(gathers@[j].child.raw == p);
                    } else {
                        assert(parents@[child as int]@[i].raw == p);
                        assert(lists[child as int][i].raw < lists.len());
                        assert(earlier[p]);
                        let j = choose|j: int|
                            0 <= j < count && (#[trigger] before[j]).child.raw == p;
                        assert(gathers@[j].child.raw == p);
                    }
                }
            }
        }
        let model = CausalModel { variables, gathers };
        proof {
            reveal(ModelView::comes_before);
            reveal(listed);
            assert forall|k: int, i: int|
                #![trigger model@.parents(k)[i]]
                0 <= k < model@.nodes() && 0 <= i < model@.parents(k).len() implies model@.parents(
                k,
            )[i].raw < model@.nodes() && model@.comes_before(model@.parents(k)[i].raw as int, k) by {
                assert(model.gathers@[k].parents@[i] == model@.parents(k)[i]);
                assert(listed(model.gathers@, model@.parents(k)[i].raw as int, k));
                let p = model@.parents(k)[i].raw as int;
                let j = choose|j: int|
                    0 <= j < k && (#[trigger] model.gathers@[j]).child.raw == p;
                assert(model@.child(j) == p);
            }
            assert forall|k: int| 0 <= k < model@.nodes() implies #[trigger] model@.child(k)
                < model@.nodes() by {
                assert(model.gathers@[k].child.raw < n);
            }
            assert forall|j: int, k: int|
                0 <= j < k < model@.nodes() implies #[trigger] model@.child(j)
                != #[trigger] model@.child(k) by {
                assert(model.gathers@[j].child != model.gathers@[k].child);
            }
            assert(model@.well_formed());
            assert(model@ =~= compiled(variables@, lists)) by {
                assert forall|k: int| 0 <= k < n implies model@.gathers[k] == compiled(
                    variables@,
                    lists,
                ).gathers[k] by {
                    let gather = model.gathers@[k];
                    assert(gather.child.raw == schedule(lists, n as nat)[k]);
                    assert(gather.parents@ == lists[gather.child.raw as int]);
                    assert(gather@ =~= compiled(variables@, lists).gathers[k]);
                }
            }
            model@.lemma_ranked(lists);
        }
        Ok(model)
    }
}

/// What is placed is what is done.
proof fn lemma_done(gathers: Seq<ParentGather>, placed: Seq<bool>, done: Seq<int>, n: nat)
    requires
        placed.len() == n,
        done.len() == gathers.len(),
        forall|k: int| 0 <= k < gathers.len() ==> (#[trigger] gathers[k]).child.raw == done[k],
        forall|k: int|
            0 <= k < gathers.len() ==> (#[trigger] gathers[k]).child.raw < n
                && placed[gathers[k].child.raw as int],
        forall|x: int|
            0 <= x < n && #[trigger] placed[x] ==> listed(gathers, x, gathers.len() as int),
    ensures
        forall|x: int| 0 <= x < n ==> #[trigger] placed[x] == done.contains(x),
{
    assert forall|x: int| 0 <= x < n implies #[trigger] placed[x] == done.contains(x) by {
        if placed[x] {
            assert(listed(gathers, x, gathers.len() as int));
            reveal(listed);
            let j = choose|j: int|
                0 <= j < gathers.len() && (#[trigger] gathers[j]).child.raw == x;
            assert(done[j] == x);
        }
        if done.contains(x) {
            let k = choose|k: int| 0 <= k < done.len() && done[k] == x;
            assert(gathers[k].child.raw == x);
        }
    }
}

/// Fewer gathers than nodes leave a node unplaced.
proof fn lemma_room(gathers: Seq<ParentGather>, placed: Seq<bool>, n: nat)
    requires
        gathers.len() < n,
        placed.len() == n,
        forall|x: int|
            0 <= x < n && #[trigger] placed[x] ==> listed(gathers, x, gathers.len() as int),
    ensures
        exists|x: int| 0 <= x < n && !(#[trigger] placed[x]),
{
    if forall|x: int| 0 <= x < n ==> #[trigger] placed[x] {
        let all = vstd::set_lib::set_int_range(0, n as int);
        vstd::set_lib::lemma_int_range(0, n as int);
        let numbers = gathers.map_values(|g: ParentGather| g.child.raw as int);
        numbers.lemma_cardinality_of_set();
        assert(all.subset_of(numbers.to_set())) by {
            assert forall|x: int| all.contains(x) implies numbers.to_set().contains(x) by {
                assert(placed[x]);
                assert(listed(gathers, x, gathers.len() as int));
                reveal(listed);
                let j = choose|j: int|
                    0 <= j < gathers.len() && (#[trigger] gathers[j]).child.raw == x;
                assert(numbers[j] == x);
            }
        }
        vstd::set_lib::lemma_len_subset(all, numbers.to_set());
    }
}

} // verus!

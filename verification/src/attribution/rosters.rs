//! Who plays in a game of attribution, and what a coalition exchanges.
//!
//! SPDX-License-Identifier: MIT OR Apache-2.0

use crate::attribution::distribution;
use crate::attribution::distribution::Roster;
use crate::attribution::model::ModelView;
use crate::attribution::scores;
use crate::attribution::sequential;
use crate::attribution::structure;
use crate::ids::{ComponentId, DenseNodeId, VariableId};
use crate::query::attribution::AttributionComponents;
use vstd::prelude::*;

verus! {

/// A variable is found at the node that has it, and only there.
pub proof fn law_variables_are_found_at_their_nodes(
    model: ModelView,
    variable: VariableId,
    x: int,
)
    requires
        model.variables.no_duplicates(),
        model.nodes() <= usize::MAX,
        0 <= x < model.nodes(),
    ensures
        distribution::dense(model, variable) == Some(x as usize) <==> model.variables[x]
            == variable,
        distribution::dense(model, variable) is None <==> !model.variables.contains(variable),
{
    if model.variables.contains(variable) {
        let at = model.variables.index_of(variable);
        assert(model.variables[at] == variable);
    }
}

/// The parents of a node are those that its place in the order lists.
pub proof fn law_parents_are_those_of_the_place(model: ModelView, k: int)
    requires
        model.well_formed(),
        0 <= k < model.nodes(),
    ensures
        distribution::parents_of(model, model.child(k)) == model.parents(k),
{
    let node = model.child(k);
    let c = choose|c: int| 0 <= c < model.nodes() && #[trigger] model.child(c) == node;
    assert(model.child(c) == model.child(k));
}

/// The component of a node carries the node's variable.
pub open spec fn plays_as(model: ModelView, x: int) -> ComponentId {
    ComponentId { raw: model.variables[x].raw }
}

/// The players for mechanisms are the outcome and its ancestors, all of them and nobody else.
pub proof fn law_mechanism_players_are_the_ancestors(model: ModelView, outcome: int, x: int)
    requires
        model.well_formed(),
        model.variables.no_duplicates(),
        0 <= x < model.nodes(),
        model.comes_before(x, model.nodes() as int),
    ensures
        distribution::mechanism_roster(model, outcome).players.contains(plays_as(model, x))
            <==> model.is_ancestor(x, outcome),
        distribution::mechanism_roster(model, outcome).kinds.len()
            == distribution::mechanism_roster(model, outcome).players.len(),
        forall|i: int|
            0 <= i < distribution::mechanism_roster(model, outcome).kinds.len() ==> (
            #[trigger] distribution::mechanism_roster(model, outcome).kinds[i]) is Mechanism,
{
    let nodes = distribution::upstream(model, outcome, model.nodes());
    let players = distribution::mechanism_roster(model, outcome).players;
    scores::law_players_are_the_ancestors(model, outcome, x);
    if nodes.contains(x) {
        let i = choose|i: int| 0 <= i < nodes.len() && nodes[i] == x;
        assert(players[i] == plays_as(model, x));
    }
    if players.contains(plays_as(model, x)) {
        let i = choose|i: int| 0 <= i < players.len() && players[i] == plays_as(model, x);
        let y = nodes[i];
        assert(nodes.contains(y));
        lemma_upstream_is_placed(model, outcome, model.nodes(), i);
        assert(model.variables[y].raw == model.variables[x].raw);
        assert(model.variables[y] == model.variables[x]);
        assert(y == x);
    }
}

proof fn lemma_upstream_is_placed(model: ModelView, outcome: int, k: nat, i: int)
    requires
        model.well_formed(),
        k <= model.nodes(),
        0 <= i < distribution::upstream(model, outcome, k).len(),
    ensures
        0 <= distribution::upstream(model, outcome, k)[i] < model.nodes(),
    decreases k,
{
    let before = distribution::upstream(model, outcome, (k - 1) as nat);
    assert(model.child(k - 1) < model.nodes());
    if i < before.len() {
        lemma_upstream_is_placed(model, outcome, (k - 1) as nat, i);
    }
}

/// One of the first `k` parents has a component.
pub open spec fn is_input(
    model: ModelView,
    parents: Seq<DenseNodeId>,
    k: nat,
    component: ComponentId,
) -> bool {
    exists|j: int|
        0 <= j < k && plays_as(model, (#[trigger] parents[j]).raw as int) == component
}

proof fn lemma_joined(
    first: Roster,
    model: ModelView,
    parents: Seq<DenseNodeId>,
    k: nat,
)
    requires
        first.players.no_duplicates(),
        first.players.len() == first.kinds.len(),
        first.players.len() + parents.len() <= usize::MAX,
        forall|i: int| 0 <= i < first.kinds.len() ==> (#[trigger] first.kinds[i]) is Mechanism,
        forall|i: int, j: int|
            0 <= i < j < parents.len() ==> plays_as(model, (#[trigger] parents[i]).raw as int)
                != plays_as(model, (#[trigger] parents[j]).raw as int),
        k <= parents.len(),
    ensures
        ({
            let roster = distribution::with_inputs(first, model, parents, k);
            &&& roster.players.no_duplicates()
            &&& roster.players.len() == roster.kinds.len()
            &&& roster.players.len() <= first.players.len() + k
            &&& forall|c: ComponentId| #[trigger]
                roster.players.contains(c) <==> first.players.contains(c) || is_input(
                    model,
                    parents,
                    k,
                    c,
                )
            &&& forall|i: int|
                0 <= i < roster.players.len() ==> {
                    &&& (#[trigger] roster.kinds[i]) is Mechanism || roster.kinds[i] is Both
                        <==> first.players.contains(roster.players[i])
                    &&& roster.kinds[i] is Input || roster.kinds[i] is Both <==> is_input(
                        model,
                        parents,
                        k,
                        roster.players[i],
                    )
                }
        }),
    decreases k,
{
    let roster = distribution::with_inputs(first, model, parents, k);
    if k == 0 {
        assert forall|i: int| 0 <= i < roster.players.len() implies first.players.contains(
            #[trigger] roster.players[i],
        ) by {}
        assert forall|i: int| 0 <= i < roster.players.len() implies {
            &&& (#[trigger] roster.kinds[i]) is Mechanism || roster.kinds[i] is Both
                <==> first.players.contains(roster.players[i])
            &&& roster.kinds[i] is Input || roster.kinds[i] is Both <==> is_input(
                model,
                parents,
                k,
                roster.players[i],
            )
        } by {
            assert(first.players.contains(roster.players[i]));
            assert(!is_input(model, parents, 0, roster.players[i]));
        }
    } else {
        lemma_joined(first, model, parents, (k - 1) as nat);
        let before = distribution::with_inputs(first, model, parents, (k - 1) as nat);
        let component = plays_as(model, parents[k - 1].raw as int);
        assert(component == distribution::component_of(model, parents[k - 1].raw as int));
        sequential::lemma_place(before.players, component);
        assert forall|c: ComponentId| #[trigger] is_input(model, parents, k, c) == (is_input(
            model,
            parents,
            (k - 1) as nat,
            c,
        ) || c == component) by {
            if is_input(model, parents, k, c) {
                let j = choose|j: int|
                    0 <= j < k && plays_as(model, (#[trigger] parents[j]).raw as int) == c;
                if j < k - 1 {
                    assert(is_input(model, parents, (k - 1) as nat, c));
                }
            }
            if is_input(model, parents, (k - 1) as nat, c) {
                let j = choose|j: int|
                    0 <= j < k - 1 && plays_as(model, (#[trigger] parents[j]).raw as int) == c;
                assert(0 <= j < k && plays_as(model, parents[j].raw as int) == c);
            }
            assert(plays_as(model, parents[k - 1].raw as int) == component);
        }
        assert(!is_input(model, parents, (k - 1) as nat, component)) by {
            if is_input(model, parents, (k - 1) as nat, component) {
                let j = choose|j: int|
                    0 <= j < k - 1 && plays_as(model, (#[trigger] parents[j]).raw as int)
                        == component;
                assert(plays_as(model, parents[j].raw as int) != plays_as(
                    model,
                    parents[k - 1].raw as int,
                ));
            }
        }
        match sequential::place_of(before.players, component) {
            Some(place) => {
                let p = place as int;
                assert(before.players.contains(component));
                assert forall|i: int| 0 <= i < roster.players.len() implies {
                    &&& (#[trigger] roster.kinds[i]) is Mechanism || roster.kinds[i] is Both
                        <==> first.players.contains(roster.players[i])
                    &&& roster.kinds[i] is Input || roster.kinds[i] is Both <==> is_input(
                        model,
                        parents,
                        k,
                        roster.players[i],
                    )
                } by {
                    assert(before.kinds[i] is Input || before.kinds[i] is Mechanism
                        || before.kinds[i] is Both);
                    if i == p {
                        assert(roster.kinds[i] is Both);
                        assert(first.players.contains(component));
                        assert(is_input(model, parents, k, component));
                    } else {
                        assert(roster.players[i] != component) by {
                            assert(before.players[i] != before.players[p]);
                        }
                        assert(roster.kinds[i] == before.kinds[i]);
                    }
                }
                assert forall|c: ComponentId| #[trigger] roster.players.contains(c)
                    <==> first.players.contains(c) || is_input(model, parents, k, c) by {
                    if c == component {
                        assert(roster.players[p] == c);
                    }
                    assert(before.players.contains(c) <==> first.players.contains(c) || is_input(
                        model,
                        parents,
                        (k - 1) as nat,
                        c,
                    ));
                }
            },
            None => {
                assert(!before.players.contains(component));
                assert(!first.players.contains(component));
                assert(!is_input(model, parents, (k - 1) as nat, component));
                let n = before.players.len() as int;
                assert forall|i: int, j: int|
                    0 <= i < roster.players.len() && 0 <= j < roster.players.len() && i
                        != j implies roster.players[i] != roster.players[j] by {
                    if i == n {
                        assert(before.players.contains(before.players[j]));
                    } else if j == n {
                        assert(before.players.contains(before.players[i]));
                    }
                }
                assert forall|i: int| 0 <= i < roster.players.len() implies {
                    &&& (#[trigger] roster.kinds[i]) is Mechanism || roster.kinds[i] is Both
                        <==> first.players.contains(roster.players[i])
                    &&& roster.kinds[i] is Input || roster.kinds[i] is Both <==> is_input(
                        model,
                        parents,
                        k,
                        roster.players[i],
                    )
                } by {
                    if i < n {
                        assert(before.players.contains(before.players[i]));
                        assert(roster.kinds[i] == before.kinds[i]);
                    } else {
                        assert(roster.players[i] == component);
                    }
                }
                assert forall|c: ComponentId| #[trigger] roster.players.contains(c)
                    <==> first.players.contains(c) || is_input(model, parents, k, c) by {
                    assert(before.players.contains(c) <==> first.players.contains(c) || is_input(
                        model,
                        parents,
                        (k - 1) as nat,
                        c,
                    ));
                    if before.players.contains(c) {
                        let i = choose|i: int| 0 <= i < n && before.players[i] == c;
                        assert(roster.players[i] == c);
                    }
                    if roster.players.contains(c) && c != component {
                        let i = choose|i: int|
                            0 <= i < roster.players.len() && roster.players[i] == c;
                        assert(before.players[i] == c);
                    }
                    assert(roster.players[n] == component);
                }
            },
        }
    }
}

/// The roster of a query: a component plays for its mechanism exactly where mechanisms are asked
/// for and it is the outcome's or an ancestor's, and as an input exactly where inputs are asked
/// for and it is a parent's; one that does both is listed once, for both.
pub proof fn law_rosters_hold_what_is_asked_for(
    model: ModelView,
    outcome: int,
    components: AttributionComponents,
    c: ComponentId,
    i: int,
)
    requires
        model.well_formed(),
        model.variables.no_duplicates(),
        0 <= outcome < model.nodes(),
        model.nodes() + distribution::parents_of(model, outcome).len() <= usize::MAX,
        forall|a: int, b: int|
            0 <= a < b < distribution::parents_of(model, outcome).len() ==> plays_as(
                model,
                (#[trigger] distribution::parents_of(model, outcome)[a]).raw as int,
            ) != plays_as(
                model,
                (#[trigger] distribution::parents_of(model, outcome)[b]).raw as int,
            ),
    ensures
        ({
            let roster = distribution::roster_of(model, outcome, components);
            let parents = distribution::parents_of(model, outcome);
            let first = distribution::mechanism_roster(model, outcome).players;
            let mechanisms = components == AttributionComponents::Mechanisms || components
                == AttributionComponents::InputsAndMechanisms || components
                == AttributionComponents::All;
            let inputs = components == AttributionComponents::Inputs || components
                == AttributionComponents::InputsAndMechanisms || components
                == AttributionComponents::All;
            &&& roster.kinds.len() == roster.players.len()
            &&& roster.players.contains(c) <==> mechanisms && first.contains(c) || inputs
                && is_input(model, parents, parents.len(), c)
            &&& 0 <= i < roster.players.len() ==> {
                &&& roster.kinds[i] is Mechanism || roster.kinds[i] is Both <==> mechanisms
                    && first.contains(roster.players[i])
                &&& roster.kinds[i] is Input || roster.kinds[i] is Both <==> inputs && is_input(
                    model,
                    parents,
                    parents.len(),
                    roster.players[i],
                )
            }
        }),
{
    let parents = distribution::parents_of(model, outcome);
    let first = distribution::mechanism_roster(model, outcome);
    let roster = distribution::roster_of(model, outcome, components);
    distribution::law_players_are_distinct(model, outcome, AttributionComponents::Mechanisms);
    lemma_upstream_fits(model, outcome, model.nodes());
    let none = Roster { players: Seq::empty(), kinds: Seq::empty() };
    lemma_joined(first, model, parents, parents.len());
    lemma_joined(none, model, parents, parents.len());
    if 0 <= i < roster.players.len() {
        assert(roster.players.contains(roster.players[i]));
    }
    assert(roster.kinds.len() == roster.players.len());
}

proof fn lemma_upstream_fits(model: ModelView, outcome: int, k: nat)
    ensures
        distribution::upstream(model, outcome, k).len() <= k,
    decreases k,
{
    if k > 0 {
        lemma_upstream_fits(model, outcome, (k - 1) as nat);
    }
}

/// A player exchanges the mechanism of its own variable's node, unless it is an input only: such
/// a player exchanges nothing.
pub proof fn law_players_exchange_their_own_node(
    model: ModelView,
    roster: Roster,
    i: int,
    x: int,
)
    requires
        model.variables.no_duplicates(),
        model.nodes() <= usize::MAX,
        0 <= i < roster.players.len(),
        0 <= x < model.nodes(),
    ensures
        distribution::exchangeable(model, roster).len() == roster.players.len(),
        distribution::exchangeable(model, roster)[i] == Some(x as usize) <==> roster.kinds[i]
            !is Input && model.variables[x].raw == roster.players[i].raw,
        roster.kinds[i] is Input ==> distribution::exchangeable(model, roster)[i] is None,
{
    let variable = roster.players[i].variable_of();
    law_variables_are_found_at_their_nodes(model, variable, x);
    assert(variable.raw == roster.players[i].raw);
    if model.variables[x].raw == variable.raw {
        assert(model.variables[x] == variable);
    }
}

proof fn lemma_differing(
    baseline: ModelView,
    comparison: ModelView,
    outcome: int,
    relevant: bool,
    k: nat,
    x: int,
)
    ensures
        structure::differing(baseline, comparison, outcome, relevant, k).contains(x) <==> 0 <= x
            < k && !structure::same_parents(
            distribution::parents_of(baseline, x),
            distribution::parents_of(comparison, x),
        ) && relevant == (baseline.is_ancestor(x, outcome) || comparison.is_ancestor(x, outcome)),
    decreases k,
{
    if k > 0 {
        lemma_differing(baseline, comparison, outcome, relevant, (k - 1) as nat, x);
        let before = structure::differing(
            baseline,
            comparison,
            outcome,
            relevant,
            (k - 1) as nat,
        );
        let after = structure::differing(baseline, comparison, outcome, relevant, k);
        if before.contains(x) {
            let i = choose|i: int| 0 <= i < before.len() && before[i] == x;
            assert(after[i] == x);
        }
        if after.len() > before.len() {
            assert(after[before.len() as int] == k - 1);
        }
        if after.contains(x) && x != k - 1 {
            let i = choose|i: int| 0 <= i < after.len() && after[i] == x;
            assert(before[i] == x);
        }
    }
}

/// The players of a change of structure are the nodes with other parents in the two graphs from
/// which the outcome is reached in one of them. Nodes with other parents that lead to the outcome
/// in neither are set apart, and nodes with the same parents are in neither list.
pub proof fn law_structure_players_have_other_parents(
    baseline: ModelView,
    comparison: ModelView,
    outcome: int,
    x: int,
)
    requires
        0 <= x < baseline.nodes(),
    ensures
        ({
            let n = baseline.nodes();
            let players = structure::differing(baseline, comparison, outcome, true, n);
            let apart = structure::differing(baseline, comparison, outcome, false, n);
            let reached = baseline.is_ancestor(x, outcome) || comparison.is_ancestor(x, outcome);
            let changed = exists|p: DenseNodeId| #[trigger]
                structure::occurrences(distribution::parents_of(baseline, x), p)
                    != structure::occurrences(distribution::parents_of(comparison, x), p);
            &&& players.contains(x) <==> changed && reached
            &&& apart.contains(x) <==> changed && !reached
        }),
{
    let n = baseline.nodes();
    lemma_differing(baseline, comparison, outcome, true, n, x);
    lemma_differing(baseline, comparison, outcome, false, n, x);
}

/// A node occurs in a list as often as the list holds it: lists of the same length that agree up
/// to order hold every node equally often, and one of them holds a node exactly where the other
/// does.
pub proof fn law_occurrences_count(list: Seq<DenseNodeId>, node: DenseNodeId)
    ensures
        structure::occurrences(list, node) == list.to_multiset().count(node),
        structure::occurrences(list, node) > 0 <==> list.contains(node),
    decreases list.len(),
{
    if list.len() > 0 {
        let rest = list.drop_last();
        law_occurrences_count(rest, node);
        assert(rest.push(list.last()) =~= list);
        vstd::seq_lib::to_multiset_build(rest, list.last());
        if rest.contains(node) {
            let i = choose|i: int| 0 <= i < rest.len() && rest[i] == node;
            assert(list[i] == node);
        }
        if list.contains(node) && list.last() != node {
            let i = choose|i: int| 0 <= i < list.len() && list[i] == node;
            assert(rest[i] == node);
        }
        assert(list[list.len() - 1] == list.last());
    } else {
        broadcast use vstd::multiset::group_multiset_axioms;

        list.to_multiset_ensures();
        assert(list =~= Seq::empty());
        assert(list.to_multiset().count(node) == 0);
    }
}

/// A coalition has the comparison's parents at the nodes of its players, and the baseline's at
/// every other node.
pub proof fn law_coalitions_exchange_their_own_parents(
    baseline: Seq<Seq<DenseNodeId>>,
    comparison: Seq<Seq<DenseNodeId>>,
    nodes: Seq<Option<usize>>,
    mask: u64,
    x: int,
)
    requires
        0 <= x < baseline.len(),
    ensures
        structure::hybrid_lists(baseline, comparison, nodes, mask).len() == baseline.len(),
        structure::hybrid_lists(baseline, comparison, nodes, mask)[x] == if exists|i: int|
            0 <= i < nodes.len() && #[trigger] nodes[i] == Some(x as usize) && mask & (1u64 << (
            i as u64)) != 0 {
            comparison[x]
        } else {
            baseline[x]
        },
{
    assert forall|i: int| #[trigger] crate::attribution::coalition::member(mask, i) == (mask & (1u64
        << (i as u64)) != 0) by {}
}

} // verus!

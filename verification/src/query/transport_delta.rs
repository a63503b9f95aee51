//! Hypothetical evidence changes for transport planning.
//!
//! SPDX-License-Identifier: MIT OR Apache-2.0

use crate::query::error;
use crate::query::error::{QueryError, QueryFault};
use crate::query::evidence::{EvidenceKind, EvidenceRegime, FactorNeed, RegimeView};
use crate::query::transport_catalog;
use crate::query::transport_catalog::{CatalogView, EvidenceCatalog};
use vstd::prelude::*;

verus! {

/// A proposed set of new study laws. It is never itself available evidence.
#[derive(Clone, Debug, PartialEq)]
pub struct EvidenceCatalogDelta {
    /// Proposed regimes, each with an identity absent from the base catalog.
    pub proposed_regimes: Vec<EvidenceRegime>,
}

/// A proposal that has results, or whose id is taken by the base catalog or by an
/// earlier proposal.
pub open spec fn improper_proposal(base: CatalogView, proposed: Seq<RegimeView>, i: int) -> bool {
    ||| !(proposed[i].evidence_kind is Proposed)
    ||| exists|k: int| 0 <= k < base.regimes.len() && (#[trigger] base.regimes[k]).id
        == proposed[i].id
    ||| exists|k: int| 0 <= k < i && (#[trigger] proposed[k]).id == proposed[i].id
}

/// The catalog with proposals appended as they are.
pub open spec fn extended(base: CatalogView, proposed: Seq<RegimeView>) -> CatalogView {
    CatalogView { regimes: base.regimes + proposed, ..base }
}

/// The proposals as if their results existed.
pub open spec fn realized(proposed: Seq<RegimeView>) -> Seq<RegimeView> {
    Seq::new(
        proposed.len(),
        |i: int| RegimeView { evidence_kind: EvidenceKind::Available, ..proposed[i] },
    )
}

/// Why a delta is refused: an improper proposal, else the combined catalog's fault.
pub open spec fn delta_refusal(base: CatalogView, proposed: Seq<RegimeView>) -> Option<QueryFault> {
    if exists|i: int| 0 <= i < proposed.len() && #[trigger] improper_proposal(base, proposed, i) {
        Some(QueryFault::Transport("catalog delta requires distinct proposed regimes"@))
    } else {
        extended(base, proposed).refusal()
    }
}

fn any_improper(base: &EvidenceCatalog, proposed: &Vec<EvidenceRegime>) -> (yes: bool)
    ensures
        yes == exists|i: int|
            0 <= i < proposed@.len() && #[trigger] improper_proposal(
                base@,
                transport_catalog::regime_views(proposed@),
                i,
            ),
{
    let ghost views = transport_catalog::regime_views(proposed@);
    let mut i: usize = 0;
    while i < proposed.len()
        invariant
            0 <= i <= proposed.len(),
            views == transport_catalog::regime_views(proposed@),
            forall|k: int| 0 <= k < i ==> !#[trigger] improper_proposal(base@, views, k),
        decreases proposed.len() - i,
    {
        assert(views[i as int] == proposed@[i as int]@);
        let fresh = match proposed[i].evidence_kind {
            EvidenceKind::Proposed => true,
            _ => false,
        };
        if !fresh || holds_id(&base.regimes, proposed[i].id.raw, base.regimes.len()) || holds_id(
            proposed,
            proposed[i].id.raw,
            i,
        ) {
            assert(improper_proposal(base@, views, i as int)) by {
                if fresh {
                    if exists|k: int|
                        0 <= k < base.regimes@.len() && (#[trigger] base.regimes@[k]).id
                            == proposed@[i as int].id {
                        let k = choose|k: int|
                            0 <= k < base.regimes@.len() && (#[trigger] base.regimes@[k]).id
                                == proposed@[i as int].id;
                        assert(base@.regimes[k].id == views[i as int].id);
                    } else {
                        let k = choose|k: int|
                            0 <= k < i && (#[trigger] proposed@[k]).id == proposed@[i as int].id;
                        assert(views[k].id == views[i as int].id);
                    }
                }
            }
            return true;
        }
        proof {
            assert forall|k: int| 0 <= k < base@.regimes.len() implies (
            #[trigger] base@.regimes[k]).id != views[i as int].id by {
                assert(base@.regimes[k] == base.regimes@[k]@);
            }
            assert forall|k: int| 0 <= k < i implies (#[trigger] views[k]).id
                != views[i as int].id by {
                assert(views[k] == proposed@[k]@);
            }
            assert(!improper_proposal(base@, views, i as int));
        }
        i = i + 1;
    }
    false
}

fn holds_id(list: &Vec<EvidenceRegime>, raw: u32, limit: usize) -> (yes: bool)
    requires
        limit <= list@.len(),
    ensures
        yes == exists|k: int| 0 <= k < limit && (#[trigger] list@[k]).id.raw == raw,
{
    let mut k: usize = 0;
    while k < limit
        invariant
            0 <= k <= limit <= list@.len(),
            forall|j: int| 0 <= j < k ==> (#[trigger] list@[j]).id.raw != raw,
        decreases limit - k,
    {
        if list[k].id.raw == raw {
            assert(list@[k as int].id.raw == raw);
            return true;
        }
        k = k + 1;
    }
    false
}

fn combined(base: &EvidenceCatalog, proposed: &Vec<EvidenceRegime>, realize: bool) -> (catalog:
    EvidenceCatalog)
    ensures
        catalog@ == extended(
            base@,
            if realize {
                realized(transport_catalog::regime_views(proposed@))
            } else {
                transport_catalog::regime_views(proposed@)
            },
        ),
{
    let ghost views = transport_catalog::regime_views(proposed@);
    let ghost wanted = if realize {
        realized(views)
    } else {
        views
    };
    let mut catalog = base.duplicate();
    let mut regimes = transport_catalog::copied_regimes(&base.regimes);
    let mut i: usize = 0;
    proof {
        assert(transport_catalog::regime_views(regimes@) =~= base@.regimes + wanted.take(0));
    }
    while i < proposed.len()
        invariant
            0 <= i <= proposed.len(),
            views == transport_catalog::regime_views(proposed@),
            wanted == (if realize {
                realized(views)
            } else {
                views
            }),
            transport_catalog::regime_views(regimes@) == base@.regimes + wanted.take(i as int),
        decreases proposed.len() - i,
    {
        let ghost before = regimes@;
        let mut regime = proposed[i].duplicate();
        if realize {
            regime.evidence_kind = EvidenceKind::Available;
        }
        proof {
            assert(regime@ =~= wanted[i as int]);
        }
        regimes.push(regime);
        proof {
            let after = transport_catalog::regime_views(regimes@);
            let goal = base@.regimes + wanted.take(i + 1);
            let earlier = transport_catalog::regime_views(before);
            assert(earlier == base@.regimes + wanted.take(i as int));
            assert(earlier.len() == base@.regimes.len() + i);
            assert(after.len() == earlier.len() + 1);
            assert(goal.len() == earlier.len() + 1);
            assert forall|k: int| 0 <= k < after.len() implies after[k] == goal[k] by {
                if k < earlier.len() {
                    assert(after[k] == earlier[k]);
                    assert(goal[k] == earlier[k]);
                } else {
                    assert(goal[k] == wanted[i as int]);
                    assert(after[k] == regimes@[k]@);
                }
            }
            assert(after =~= goal);
        }
        i = i + 1;
    }
    catalog.regimes = regimes;
    proof {
        assert(wanted.take(i as int) =~= wanted);
    }
    catalog
}

impl EvidenceCatalogDelta {
    /// Validate a hypothetical addition without changing the source catalog.
    pub fn try_new(base: &EvidenceCatalog, proposed_regimes: Vec<EvidenceRegime>) -> (r: Result<
        Self,
        QueryError,
    >)
        ensures
            error::answers(
                r,
                delta_refusal(base@, transport_catalog::regime_views(proposed_regimes@)),
            ),
            r matches Ok(delta) ==> delta.proposed_regimes == proposed_regimes,
    {
        match EvidenceCatalogDelta::check(base, &proposed_regimes) {
            Ok(_) => Ok(EvidenceCatalogDelta { proposed_regimes }),
            Err(error) => Err(error),
        }
    }

    fn check(base: &EvidenceCatalog, proposed: &Vec<EvidenceRegime>) -> (r: Result<(), QueryError>)
        ensures
            error::answers(
                r,
                delta_refusal(base@, transport_catalog::regime_views(proposed@)),
            ),
    {
        if any_improper(base, proposed) {
            return Err(
                QueryError::InvalidTransport(
                    "catalog delta requires distinct proposed regimes".to_owned(),
                ),
            );
        }
        combined(base, proposed, false).validate()
    }

    /// Build a temporary catalog for structural identification and factor binding. No
    /// data or dataset binding is created by this preview.
    ///
    /// It is refused exactly where the delta is: realizing accepted proposals breaks
    /// no rule of the catalog.
    pub fn preview_catalog(&self, base: &EvidenceCatalog) -> (r: Result<
        EvidenceCatalog,
        QueryError,
    >)
        ensures
            error::answers(
                r,
                delta_refusal(base@, transport_catalog::regime_views(self.proposed_regimes@)),
            ),
            r matches Ok(catalog) ==> catalog@ == extended(
                base@,
                realized(transport_catalog::regime_views(self.proposed_regimes@)),
            ) && catalog@.refusal() is None,
    {
        match EvidenceCatalogDelta::check(base, &self.proposed_regimes) {
            Ok(_) => {},
            Err(error) => {
                return Err(error);
            },
        }
        proof {
            lemma_realizing_breaks_nothing(
                base@,
                transport_catalog::regime_views(self.proposed_regimes@),
            );
        }
        let catalog = combined(base, &self.proposed_regimes, true);
        match catalog.validate() {
            Ok(_) => Ok(catalog),
            Err(error) => Err(error),
        }
    }
}

proof fn lemma_realizing_breaks_nothing(base: CatalogView, proposed: Seq<RegimeView>)
    requires
        delta_refusal(base, proposed) is None,
    ensures
        extended(base, realized(proposed)).refusal() is None,
{
    let before = extended(base, proposed);
    let after = extended(base, realized(proposed));
    let n = base.regimes.len();
    error::lemma_no_fault(before.regime_faults());
    error::lemma_no_fault(before.binding_faults());
    assert forall|i: int| 0 <= i < after.regimes.len() implies after.regimes[i] == (RegimeView {
        evidence_kind: after.regimes[i].evidence_kind,
        ..before.regimes[i]
    }) by {
        if i >= n {
            assert(after.regimes[i] == realized(proposed)[i - n]);
            assert(before.regimes[i] == proposed[i - n]);
        } else {
            assert(after.regimes[i] == base.regimes[i]);
            assert(before.regimes[i] == base.regimes[i]);
        }
    }
    assert forall|i: int| 0 <= i < after.regimes.len() implies (
    #[trigger] after.regime_faults()[i]) is None by {
        assert(before.regime_faults()[i] is None);
        assert(before.regime_fault(i) is None);
        let old_regime = before.regimes[i];
        let new_regime = after.regimes[i];
        assert forall|j: int| 0 <= j < new_regime.intervention_values.len() implies !(
        #[trigger] new_regime.bad_assignment(j)) by {
            assert(!old_regime.bad_assignment(j));
            assert forall|k: int| 0 <= k < j implies (
            #[trigger] new_regime.intervention_values[k]).variable
                != new_regime.intervention_values[j].variable by {
                assert(old_regime.intervention_values[k].variable
                    != old_regime.intervention_values[j].variable);
            }
        }
        assert(new_regime.refusal() is None);
        assert(!after.bad_label(i)) by {
            assert(!before.bad_label(i));
            assert forall|k: int| 0 <= k < i implies (#[trigger] after.regimes[k]).label
                == before.regimes[k].label by {}
        }
        assert(!after.off_domain(i)) by {
            assert(!before.off_domain(i));
            assert forall|j: int|
                0 <= j < new_regime.intervention_values.len() implies transport_catalog::settled_domain(
                transport_catalog::declared(after.environments),
                (#[trigger] after.regimes[i].intervention_values[j]).variable,
            ).holds(after.regimes[i].intervention_values[j].value) by {
                assert(before.regimes[i].intervention_values[j]
                    == after.regimes[i].intervention_values[j]);
            }
        }
        assert forall|k: int| 0 <= k < i implies (#[trigger] after.regimes[k]).id
            != new_regime.id by {
            assert(before.regimes[k].id == after.regimes[k].id);
            assert(before.regimes[k].id != before.regimes[i].id);
        }
        if after.environments.len() > 0 {
            assert(before.names_population(old_regime.population));
            assert(after.names_population(new_regime.population));
            assert(after.undeclared_in(new_regime.interventions) == before.undeclared_in(
                old_regime.interventions,
            ));
            assert(after.undeclared_in(new_regime.measured) == before.undeclared_in(
                old_regime.measured,
            ));
        }
    }
    error::lemma_no_fault(after.regime_faults());
    assert forall|i: int| 0 <= i < after.bindings.len() implies (
    #[trigger] after.binding_faults()[i]) is None by {
        assert(before.binding_faults()[i] is None);
        assert(before.binding_fault(i) is None);
        assert(after.bindings == before.bindings);
        assert(after.malformed_binding(i) == before.malformed_binding(i));
        let id = before.bindings[i].regime;
        lemma_found_in_base(base.regimes, proposed, id);
        lemma_found_in_base(base.regimes, realized(proposed), id);
        assert forall|k: int| 0 <= k < proposed.len() implies !((
        #[trigger] proposed[k]).evidence_kind is Available) by {
            assert(!improper_proposal(base, proposed, k));
        }
        if transport_catalog::find_regime(base.regimes, id) is None {
            lemma_found_kind(proposed, id);
        }
    }
    error::lemma_no_fault(after.binding_faults());
}

proof fn lemma_found_in_base(
    base: Seq<RegimeView>,
    more: Seq<RegimeView>,
    id: crate::ids::RegimeId,
)
    ensures
        transport_catalog::find_regime(base + more, id) == match transport_catalog::find_regime(
            base,
            id,
        ) {
            Some(regime) => Some(regime),
            None => transport_catalog::find_regime(more, id),
        },
    decreases base.len(),
{
    if base.len() == 0 {
        assert(base + more =~= more);
    } else {
        assert((base + more).skip(1) =~= base.skip(1) + more);
        lemma_found_in_base(base.skip(1), more, id);
    }
}

proof fn lemma_found_kind(list: Seq<RegimeView>, id: crate::ids::RegimeId)
    requires
        forall|k: int| 0 <= k < list.len() ==> !((#[trigger] list[k]).evidence_kind is Available),
    ensures
        transport_catalog::find_regime(list, id) matches Some(regime) ==> !(
        regime.evidence_kind is Available),
    decreases list.len(),
{
    if list.len() > 0 {
        let rest = list.skip(1);
        assert forall|k: int| 0 <= k < rest.len() implies !((
        #[trigger] rest[k]).evidence_kind is Available) by {
            assert(rest[k] == list[k + 1]);
        }
        lemma_found_kind(rest, id);
    }
}

/// A proposal is never itself evidence: beside an accepted delta the catalog meets
/// exactly the factors it met before. Its preview loses none of them.
pub proof fn law_proposals_are_not_evidence(
    base: CatalogView,
    proposed: Seq<RegimeView>,
    need: FactorNeed,
)
    requires
        delta_refusal(base, proposed) is None,
    ensures
        extended(base, proposed).meets(need) == base.meets(need),
        base.meets(need) ==> extended(base, realized(proposed)).meets(need),
{
    let n = base.regimes.len();
    if base.meets(need) {
        let k = choose|k: int|
            0 <= k < base.regimes.len() && (#[trigger] base.regimes[k]).supplies(need);
        assert(extended(base, proposed).regimes[k].supplies(need));
        assert(extended(base, realized(proposed)).regimes[k].supplies(need));
    }
    if extended(base, proposed).meets(need) {
        let all = extended(base, proposed).regimes;
        let k = choose|k: int| 0 <= k < all.len() && (#[trigger] all[k]).supplies(need);
        if k >= n {
            assert(all[k] == proposed[k - n]);
            assert(!improper_proposal(base, proposed, k - n));
        } else {
            assert(base.regimes[k].supplies(need));
        }
    }
}

} // verus!

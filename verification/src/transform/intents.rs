//! What intents do to the layers of an analysis.
//!
//! SPDX-License-Identifier: MIT OR Apache-2.0

use crate::assumption::AssumptionStatus;
use crate::obligation::{ObligationKind, ObligationRecord};
use crate::transform;
use crate::transform::{
    LayerEffectView, SemanticLayer, TransformEffect, TransformIntent, TransformationReport,
};
use vstd::prelude::*;

verus! {

/// An intent has an effect on a layer.
pub open spec fn does(intent: TransformIntent, layer: SemanticLayer, effect: TransformEffect) -> bool {
    exists|k: int|
        0 <= k < transform::standard_effects(intent).len() && (
        #[trigger] transform::standard_effects(intent)[k]).layer == layer
            && transform::standard_effects(intent)[k].effects.contains(effect)
}

proof fn lemma_has(
    entries: Seq<LayerEffectView>,
    k: int,
    layer: SemanticLayer,
    effect: TransformEffect,
    i: int,
)
    requires
        0 <= k < entries.len(),
        entries[k].layer == layer,
        0 <= i < entries[k].effects.len(),
        entries[k].effects[i] == effect,
    ensures
        entries[k].effects.contains(effect),
{
}

/// Averaging over a class without weights is refused; no other intent is.
pub proof fn law_only_unweighted_averages_are_refused(intent: TransformIntent)
    ensures
        transform::any_refused(transform::standard_effects(intent)) <==> intent
            == TransformIntent::AverageUnweightedClass,
{
    let entries = transform::standard_effects(intent);
    if intent == TransformIntent::AverageUnweightedClass {
        lemma_has(entries, 2, SemanticLayer::Program, TransformEffect::Refused, 0);
    } else {
        assert forall|k: int| 0 <= k < entries.len() implies !(
        #[trigger] entries[k]).effects.contains(TransformEffect::Refused) by {
            assert(entries[k].effects.len() <= 2);
        }
    }
}

/// What is identified must be identified anew exactly where the population, the condition or the
/// graph changes.
pub proof fn law_changed_premises_are_identified_anew(intent: TransformIntent)
    ensures
        does(
            intent,
            SemanticLayer::Identification,
            TransformEffect::RequiresReidentification,
        ) <==> intent == TransformIntent::FilterPopulation || intent
            == TransformIntent::NewConditionalQuery || intent == TransformIntent::ChangeGraph,
{
    let entries = transform::standard_effects(intent);
    if intent == TransformIntent::FilterPopulation || intent
        == TransformIntent::NewConditionalQuery || intent == TransformIntent::ChangeGraph {
        lemma_has(
            entries,
            1,
            SemanticLayer::Identification,
            TransformEffect::RequiresReidentification,
            0,
        );
        assert(entries[1].layer == SemanticLayer::Identification);
    } else {
        assert forall|k: int| 0 <= k < entries.len() && (#[trigger] entries[k]).layer
            == SemanticLayer::Identification implies !entries[k].effects.contains(
            TransformEffect::RequiresReidentification,
        ) by {
            assert(entries[k].effects.len() <= 2);
        }
    }
}

/// The target stays what it was exactly where neither the query nor the population changes.
pub proof fn law_the_target_changes_with_the_query(intent: TransformIntent)
    ensures
        does(intent, SemanticLayer::Target, TransformEffect::Invalidates) <==> intent
            == TransformIntent::Retarget || intent == TransformIntent::FilterPopulation || intent
            == TransformIntent::NewConditionalQuery,
        does(intent, SemanticLayer::Target, TransformEffect::Preserves) <==> !does(
            intent,
            SemanticLayer::Target,
            TransformEffect::Invalidates,
        ),
{
    let entries = transform::standard_effects(intent);
    assert(entries[0].layer == SemanticLayer::Target);
    assert forall|k: int| 0 < k < entries.len() implies (#[trigger] entries[k]).layer
        != SemanticLayer::Target by {}
    assert(entries[0].effects.len() == 1);
    if intent == TransformIntent::Retarget || intent == TransformIntent::FilterPopulation || intent
        == TransformIntent::NewConditionalQuery {
        lemma_has(entries, 0, SemanticLayer::Target, TransformEffect::Invalidates, 0);
    } else {
        lemma_has(entries, 0, SemanticLayer::Target, TransformEffect::Preserves, 0);
    }
}

/// Results stay valid exactly where only their display or where they are computed changes.
pub proof fn law_results_outlast_display_changes(intent: TransformIntent)
    ensures
        does(intent, SemanticLayer::Results, TransformEffect::Invalidates) <==> intent
            == TransformIntent::CompatibleDataReplace || intent == TransformIntent::Retarget
            || intent == TransformIntent::FilterPopulation || intent
            == TransformIntent::NewConditionalQuery || intent == TransformIntent::ChangeGraph
            || intent == TransformIntent::ChangePrior,
{
    let entries = transform::standard_effects(intent);
    let last = entries.len() - 1;
    assert forall|k: int| 0 <= k < last implies (#[trigger] entries[k]).layer
        != SemanticLayer::Results by {}
    if intent == TransformIntent::CompatibleDataReplace || intent == TransformIntent::Retarget
        || intent == TransformIntent::FilterPopulation || intent
        == TransformIntent::NewConditionalQuery || intent == TransformIntent::ChangeGraph || intent
        == TransformIntent::ChangePrior {
        lemma_has(entries, last, SemanticLayer::Results, TransformEffect::Invalidates, 0);
        assert(entries[last].layer == SemanticLayer::Results);
    } else {
        assert(entries[last].effects.len() == 1);
        assert(entries[last].layer == SemanticLayer::Results ==> !entries[last].effects.contains(
            TransformEffect::Invalidates,
        ));
    }
}

/// An obligation is open where its check failed or was not run, or where what it rests on is
/// only declared or is contradicted.
pub proof fn law_open_obligations(record: ObligationRecord)
    ensures
        record.unresolved() <==> record.kind == ObligationKind::CheckNotRun || record.kind
            == ObligationKind::FailedCheck || record.status == AssumptionStatus::Declared
            || record.status == AssumptionStatus::Contradicted,
{
}

/// Data are invalidated by replacing them, execution by another physical policy, and nothing
/// else.
pub proof fn law_data_and_execution_have_one_cause(intent: TransformIntent)
    ensures
        does(intent, SemanticLayer::Data, TransformEffect::Invalidates) <==> intent
            == TransformIntent::CompatibleDataReplace,
        does(intent, SemanticLayer::Execution, TransformEffect::Invalidates) <==> intent
            == TransformIntent::ChangePhysicalPolicy,
{
    let entries = transform::standard_effects(intent);
    if intent == TransformIntent::CompatibleDataReplace {
        lemma_has(entries, 4, SemanticLayer::Data, TransformEffect::Invalidates, 0);
    }
    if intent == TransformIntent::ChangePhysicalPolicy {
        lemma_has(entries, 3, SemanticLayer::Execution, TransformEffect::Invalidates, 0);
    }
}

/// Inference starts anew, and is estimated again, with other data or another prior.
pub proof fn law_inference_depends_on_data_and_prior(intent: TransformIntent)
    ensures
        does(intent, SemanticLayer::Inference, TransformEffect::Invalidates) <==> intent
            == TransformIntent::CompatibleDataReplace || intent == TransformIntent::ChangePrior,
        does(intent, SemanticLayer::Inference, TransformEffect::RequiresReestimation) <==> intent
            == TransformIntent::CompatibleDataReplace || intent == TransformIntent::ChangePrior,
{
    let entries = transform::standard_effects(intent);
    if intent == TransformIntent::CompatibleDataReplace {
        lemma_has(entries, 5, SemanticLayer::Inference, TransformEffect::Invalidates, 1);
        lemma_has(entries, 5, SemanticLayer::Inference, TransformEffect::RequiresReestimation, 0);
    }
    if intent == TransformIntent::ChangePrior {
        lemma_has(entries, 3, SemanticLayer::Inference, TransformEffect::Invalidates, 1);
        lemma_has(entries, 3, SemanticLayer::Inference, TransformEffect::RequiresReestimation, 0);
    }
}

/// The program is kept, invalidated or refused, never two of these; it is invalidated with the
/// query and with the graph.
pub proof fn law_programs_change_with_the_question(intent: TransformIntent)
    ensures
        does(intent, SemanticLayer::Program, TransformEffect::Invalidates) <==> intent
            == TransformIntent::Retarget || intent == TransformIntent::FilterPopulation || intent
            == TransformIntent::NewConditionalQuery || intent == TransformIntent::ChangeGraph,
        does(intent, SemanticLayer::Program, TransformEffect::Preserves) <==> !does(
            intent,
            SemanticLayer::Program,
            TransformEffect::Invalidates,
        ) && !transform::any_refused(transform::standard_effects(intent)),
{
    let entries = transform::standard_effects(intent);
    law_only_unweighted_averages_are_refused(intent);
    assert(entries[2].layer == SemanticLayer::Program);
    assert forall|k: int| 0 <= k < entries.len() && k != 2 implies (#[trigger] entries[k]).layer
        != SemanticLayer::Program by {}
    assert(entries[2].effects.len() == 1);
    let effect = entries[2].effects[0];
    lemma_has(entries, 2, SemanticLayer::Program, effect, 0);
    assert(does(intent, SemanticLayer::Program, effect));
}

/// Identification is invalidated by another graph alone, and kept wherever it need not be done
/// again.
pub proof fn law_identification_outlasts_other_changes(intent: TransformIntent)
    ensures
        does(intent, SemanticLayer::Identification, TransformEffect::Invalidates) <==> intent
            == TransformIntent::ChangeGraph,
        does(intent, SemanticLayer::Identification, TransformEffect::Preserves) <==> !does(
            intent,
            SemanticLayer::Identification,
            TransformEffect::RequiresReidentification,
        ),
{
    let entries = transform::standard_effects(intent);
    law_changed_premises_are_identified_anew(intent);
    assert(entries[1].layer == SemanticLayer::Identification);
    assert forall|k: int| 0 <= k < entries.len() && k != 1 implies (#[trigger] entries[k]).layer
        != SemanticLayer::Identification by {}
    assert(1 <= entries[1].effects.len() <= 2);
    let effect = entries[1].effects[0];
    lemma_has(entries, 1, SemanticLayer::Identification, effect, 0);
    assert(does(intent, SemanticLayer::Identification, effect));
    if intent == TransformIntent::ChangeGraph {
        lemma_has(entries, 1, SemanticLayer::Identification, TransformEffect::Invalidates, 1);
    }
}

/// Support has to be estimated again for other data and another target.
pub proof fn law_support_depends_on_data_and_target(intent: TransformIntent)
    ensures
        does(intent, SemanticLayer::Support, TransformEffect::RequiresReestimation) <==> intent
            == TransformIntent::CompatibleDataReplace || intent == TransformIntent::Retarget,
        does(intent, SemanticLayer::Support, TransformEffect::Invalidates) <==> intent
            == TransformIntent::CompatibleDataReplace,
{
    let entries = transform::standard_effects(intent);
    if intent == TransformIntent::CompatibleDataReplace {
        lemma_has(entries, 3, SemanticLayer::Support, TransformEffect::RequiresReestimation, 0);
        lemma_has(entries, 3, SemanticLayer::Support, TransformEffect::Invalidates, 1);
    }
    if intent == TransformIntent::Retarget {
        lemma_has(entries, 3, SemanticLayer::Support, TransformEffect::RequiresReestimation, 0);
    }
}

/// Results are weakened by what changes their display alone.
pub proof fn law_display_changes_weaken_results(intent: TransformIntent)
    ensures
        does(intent, SemanticLayer::Results, TransformEffect::Weakens) <==> intent
            == TransformIntent::DisplayPrecision || intent == TransformIntent::FilterDisplay,
{
    let entries = transform::standard_effects(intent);
    if intent == TransformIntent::DisplayPrecision || intent == TransformIntent::FilterDisplay {
        lemma_has(entries, 3, SemanticLayer::Results, TransformEffect::Weakens, 0);
    }
}

/// Merging keeps the obligations that were there, in their places, and adds none but incoming
/// ones; every incoming one is covered.
pub proof fn law_merging_adds_uncovered_obligations(
    before: Seq<ObligationRecord>,
    incoming: Seq<ObligationRecord>,
)
    ensures
        before.len() <= transform::merged_obligations(before, incoming).len() <= before.len()
            + incoming.len(),
        forall|k: int|
            0 <= k < before.len() ==> #[trigger] transform::merged_obligations(before, incoming)[k]
                == before[k],
        forall|k: int|
            before.len() <= k < transform::merged_obligations(before, incoming).len()
                ==> incoming.contains(#[trigger] transform::merged_obligations(before, incoming)[k]),
        forall|k: int|
            0 <= k < incoming.len() ==> transform::covers(
                transform::merged_obligations(before, incoming),
                #[trigger] incoming[k],
            ),
        incoming.len() > 0 && transform::covers(before, incoming[0]) && incoming.len() == 1
            ==> transform::merged_obligations(before, incoming) == before,
    decreases incoming.len(),
{
    if incoming.len() > 0 {
        let rest = incoming.drop_last();
        let merged = transform::merged_obligations(before, rest);
        let after = transform::merged_obligations(before, incoming);
        law_merging_adds_uncovered_obligations(before, rest);
        assert forall|k: int| before.len() <= k < after.len() implies incoming.contains(
            #[trigger] after[k],
        ) by {
            if k < merged.len() {
                assert(after[k] == merged[k]);
                let i = choose|i: int| 0 <= i < rest.len() && rest[i] == merged[k];
                assert(incoming[i] == after[k]);
            } else {
                assert(incoming[incoming.len() - 1] == after[k]);
            }
        }
        assert forall|k: int| 0 <= k < incoming.len() implies transform::covers(
            after,
            #[trigger] incoming[k],
        ) by {
            if k < rest.len() {
                assert(rest[k] == incoming[k]);
                assert(transform::covers(merged, rest[k]));
                assert forall|m: int| 0 <= m < merged.len() implies after[m] == #[trigger] merged[m]
                    by {}
            } else if !transform::covers(merged, incoming.last()) {
                assert(after[merged.len() as int] == incoming.last());
            }
        }
    }
}

/// A report is refused exactly where one of its layers is, and its layers stand in their order.
pub proof fn law_one_refused_layer_refuses_the_report(report: TransformationReport, i: int, j: int)
    requires
        report.well_formed(),
    ensures
        report.refused <==> exists|k: int|
            0 <= k < report.layers().len() && (#[trigger] report.layers()[k]).effects.contains(
                TransformEffect::Refused,
            ),
        0 <= i < j < report.layers().len() ==> report.layers()[i].layer.rank()
            <= report.layers()[j].layer.rank(),
{
}

/// Effects of a layer in canonical form ascend, hence none is listed twice, and are those given.
pub proof fn law_canonical_effects_ascend(
    canonical: Seq<TransformEffect>,
    given: Seq<TransformEffect>,
    effect: TransformEffect,
    i: int,
    j: int,
)
    requires
        transform::is_canonical_of(canonical, given),
    ensures
        canonical.contains(effect) <==> given.contains(effect),
        0 <= i < j < canonical.len() ==> canonical[i].rank() < canonical[j].rank(),
        0 <= i < j < canonical.len() ==> canonical[i] != canonical[j],
{
}

/// Sorting by layer neither adds nor drops entries, keeps the order within a layer, and puts
/// lower layers first.
pub proof fn law_sorted_layers_ascend(
    sorted: Seq<LayerEffectView>,
    given: Seq<LayerEffectView>,
    layer: SemanticLayer,
    i: int,
    j: int,
)
    requires
        transform::is_layer_sort_of(sorted, given),
    ensures
        sorted.len() == given.len(),
        0 <= i < j < sorted.len() ==> sorted[i].layer.rank() <= sorted[j].layer.rank(),
        sorted.filter(|e: LayerEffectView| e.layer == layer) == given.filter(
            |e: LayerEffectView| e.layer == layer,
        ),
{
    assert(transform::of_layer(sorted, layer) == transform::of_layer(given, layer));
}

} // verus!

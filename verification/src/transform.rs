//! Transformation-effect reports for incremental compilation.
//!
//! Labels are a set, not a total order: an operation can preserve
//! identification, invalidate support, and require estimation at once.
//! Composition unions layer effects and concatenates unresolved
//! obligations; it cannot drop an earlier unresolved obligation.
//!
//! SPDX-License-Identifier: MIT OR Apache-2.0

use crate::identity::{ContractIdentities, IdentityDomain, IdentityRef, SemanticDigest};
use crate::obligation::ObligationRecord;
use crate::text;
use vstd::prelude::*;

pub mod intents;

verus! {

/// One semantic layer a transformation can affect, in canonical order.
#[derive(Clone, Copy, Debug, PartialEq, Eq, Hash, Structural, PartialOrd, Ord)]
pub enum SemanticLayer {
    /// Causal target or query identity.
    Target,
    /// Structural identification.
    Identification,
    /// Licensed program (premises, products and inferential commitments).
    Program,
    /// Inference binding (priors, numeric knobs, validation).
    Inference,
    /// Empirical support.
    Support,
    /// Bound data or snapshot.
    Data,
    /// Physical execution resources.
    Execution,
    /// Published results.
    Results,
}

impl SemanticLayer {
    /// The name as text.
    pub open spec fn name(self) -> Seq<char> {
        match self {
            SemanticLayer::Target => "target"@,
            SemanticLayer::Identification => "identification"@,
            SemanticLayer::Program => "program"@,
            SemanticLayer::Inference => "inference"@,
            SemanticLayer::Support => "support"@,
            SemanticLayer::Data => "data"@,
            SemanticLayer::Execution => "execution"@,
            SemanticLayer::Results => "results"@,
        }
    }

    /// Stable `snake_case` name.
    #[must_use]
    pub fn as_str(self) -> (out: &'static str)
        ensures
            out@ == self.name(),
    {
        match self {
            SemanticLayer::Target => "target",
            SemanticLayer::Identification => "identification",
            SemanticLayer::Program => "program",
            SemanticLayer::Inference => "inference",
            SemanticLayer::Support => "support",
            SemanticLayer::Data => "data",
            SemanticLayer::Execution => "execution",
            SemanticLayer::Results => "results",
        }
    }
}

/// Different variants of [`SemanticLayer`] have different names.
pub proof fn law_semantic_layer_names_are_distinct(a: SemanticLayer, b: SemanticLayer)
    requires
        a.name() == b.name(),
    ensures
        a == b,
{
    reveal_strlit("target");
    assert("target"@.len() == 6 && "target"@[0] == 't');
    reveal_strlit("identification");
    assert("identification"@.len() == 14 && "identification"@[0] == 'i');
    reveal_strlit("program");
    assert("program"@.len() == 7 && "program"@[0] == 'p');
    reveal_strlit("inference");
    assert("inference"@.len() == 9 && "inference"@[0] == 'i');
    reveal_strlit("support");
    assert("support"@.len() == 7 && "support"@[0] == 's');
    reveal_strlit("data");
    assert("data"@.len() == 4 && "data"@[0] == 'd');
    reveal_strlit("execution");
    assert("execution"@.len() == 9 && "execution"@[0] == 'e');
    reveal_strlit("results");
    assert("results"@.len() == 7 && "results"@[0] == 'r');
}

impl SemanticLayer {
    /// Position in the canonical layer order.
    pub open spec fn rank(self) -> int {
        match self {
            SemanticLayer::Target => 0,
            SemanticLayer::Identification => 1,
            SemanticLayer::Program => 2,
            SemanticLayer::Inference => 3,
            SemanticLayer::Support => 4,
            SemanticLayer::Data => 5,
            SemanticLayer::Execution => 6,
            SemanticLayer::Results => 7,
        }
    }

    fn order(self) -> (rank: u8)
        ensures
            rank == self.rank(),
    {
        match self {
            SemanticLayer::Target => 0,
            SemanticLayer::Identification => 1,
            SemanticLayer::Program => 2,
            SemanticLayer::Inference => 3,
            SemanticLayer::Support => 4,
            SemanticLayer::Data => 5,
            SemanticLayer::Execution => 6,
            SemanticLayer::Results => 7,
        }
    }
}

/// Effect of a transformation on one layer.
///
/// Several variants may apply to the same layer; the declaration order is only
/// the order in which they are listed.
#[derive(Clone, Copy, Debug, PartialEq, Eq, Hash, Structural, PartialOrd, Ord)]
pub enum TransformEffect {
    /// Layer meaning is unchanged.
    Preserves,
    /// Layer meaning is weaker (for instance a lossy view).
    Weakens,
    /// Identification products must be recomputed.
    RequiresReidentification,
    /// Estimation, scores or posterior must be recomputed.
    RequiresReestimation,
    /// Layer products are no longer valid.
    Invalidates,
    /// The transformation is refused for this layer.
    Refused,
}

impl TransformEffect {
    /// The name as text.
    pub open spec fn name(self) -> Seq<char> {
        match self {
            TransformEffect::Preserves => "preserves"@,
            TransformEffect::Weakens => "weakens"@,
            TransformEffect::RequiresReidentification => "requires_reidentification"@,
            TransformEffect::RequiresReestimation => "requires_reestimation"@,
            TransformEffect::Invalidates => "invalidates"@,
            TransformEffect::Refused => "refused"@,
        }
    }

    /// Stable `snake_case` name.
    #[must_use]
    pub fn as_str(self) -> (out: &'static str)
        ensures
            out@ == self.name(),
    {
        match self {
            TransformEffect::Preserves => "preserves",
            TransformEffect::Weakens => "weakens",
            TransformEffect::RequiresReidentification => "requires_reidentification",
            TransformEffect::RequiresReestimation => "requires_reestimation",
            TransformEffect::Invalidates => "invalidates",
            TransformEffect::Refused => "refused",
        }
    }
}

/// Different variants of [`TransformEffect`] have different names.
pub proof fn law_transform_effect_names_are_distinct(a: TransformEffect, b: TransformEffect)
    requires
        a.name() == b.name(),
    ensures
        a == b,
{
    reveal_strlit("preserves");
    assert("preserves"@.len() == 9 && "preserves"@[0] == 'p');
    reveal_strlit("weakens");
    assert("weakens"@.len() == 7 && "weakens"@[0] == 'w');
    reveal_strlit("requires_reidentification");
    assert("requires_reidentification"@.len() == 25 && "requires_reidentification"@[0] == 'r');
    reveal_strlit("requires_reestimation");
    assert("requires_reestimation"@.len() == 21 && "requires_reestimation"@[0] == 'r');
    reveal_strlit("invalidates");
    assert("invalidates"@.len() == 11 && "invalidates"@[0] == 'i');
    reveal_strlit("refused");
    assert("refused"@.len() == 7 && "refused"@[0] == 'r');
}

impl TransformEffect {
    /// Position in the listing order.
    pub open spec fn rank(self) -> int {
        match self {
            TransformEffect::Preserves => 0,
            TransformEffect::Weakens => 1,
            TransformEffect::RequiresReidentification => 2,
            TransformEffect::RequiresReestimation => 3,
            TransformEffect::Invalidates => 4,
            TransformEffect::Refused => 5,
        }
    }

    fn order(self) -> (rank: u8)
        ensures
            rank == self.rank(),
    {
        match self {
            TransformEffect::Preserves => 0,
            TransformEffect::Weakens => 1,
            TransformEffect::RequiresReidentification => 2,
            TransformEffect::RequiresReestimation => 3,
            TransformEffect::Invalidates => 4,
            TransformEffect::Refused => 5,
        }
    }
}

/// Canonical effect list: strictly ascending, so sorted and with nothing twice.
pub open spec fn effects_ascending(effects: Seq<TransformEffect>) -> bool {
    forall|i: int, j: int|
        0 <= i < j < effects.len() ==> (#[trigger] effects[i]).rank() < (
        #[trigger] effects[j]).rank()
}

/// Effects recorded for one semantic layer.
#[derive(Debug, PartialEq, Eq)]
pub struct LayerEffect {
    /// Layer these effects apply to.
    pub layer: SemanticLayer,
    /// Distinct effects; order is canonical (sorted).
    pub effects: Vec<TransformEffect>,
}

/// Mathematical form of [`LayerEffect`].
#[verifier::ext_equal]
pub struct LayerEffectView {
    /// Layer.
    pub layer: SemanticLayer,
    /// Effects in their listed order.
    pub effects: Seq<TransformEffect>,
}

impl View for LayerEffect {
    type V = LayerEffectView;

    open spec fn view(&self) -> LayerEffectView {
        LayerEffectView { layer: self.layer, effects: self.effects@ }
    }
}

impl Clone for LayerEffect {
    fn clone(&self) -> (copy: Self)
        ensures
            copy@ == self@,
    {
        let mut effects: Vec<TransformEffect> = Vec::new();
        let mut i: usize = 0;
        while i < self.effects.len()
            invariant
                0 <= i <= self.effects.len(),
                effects@ == self.effects@.take(i as int),
            decreases self.effects.len() - i,
        {
            effects.push(self.effects[i]);
            assert(effects@ =~= self.effects@.take(i + 1));
            i = i + 1;
        }
        assert(effects@ =~= self.effects@);
        LayerEffect { layer: self.layer, effects }
    }
}

/// The canonical list of the effects in `given`: the one ascending list with the
/// same members.
pub open spec fn is_canonical_of(
    canonical: Seq<TransformEffect>,
    given: Seq<TransformEffect>,
) -> bool {
    &&& effects_ascending(canonical)
    &&& forall|e: TransformEffect| #[trigger] canonical.contains(e) <==> given.contains(e)
}

/// Insert one effect into a canonical list, unless it is there already.
fn insert_effect(effects: &mut Vec<TransformEffect>, effect: TransformEffect)
    requires
        effects_ascending(old(effects)@),
    ensures
        effects_ascending(final(effects)@),
        forall|e: TransformEffect| #[trigger]
            final(effects)@.contains(e) <==> (e == effect || old(effects)@.contains(e)),
{
    let mut at: usize = 0;
    while at < effects.len() && effects[at].order() < effect.order()
        invariant
            0 <= at <= effects.len(),
            effects@ == old(effects)@,
            forall|k: int| 0 <= k < at ==> (#[trigger] effects@[k]).rank() < effect.rank(),
        decreases effects.len() - at,
    {
        at = at + 1;
    }
    let ghost before = effects@;
    if at < effects.len() && effects[at] == effect {
        assert(before[at as int] == effect);
        return ;
    }
    effects.insert(at, effect);
    proof {
        let after = effects@;
        assert(after =~= before.insert(at as int, effect));
        if at < before.len() {
            assert(before[at as int].rank() > effect.rank());
        }
        assert forall|i: int, j: int| 0 <= i < j < after.len() implies (
        #[trigger] after[i]).rank() < (#[trigger] after[j]).rank() by {
            let p = if i < at {
                i
            } else {
                i - 1
            };
            let q = if j < at {
                j
            } else {
                j - 1
            };
            if i != at && j != at {
                assert(before[p].rank() < before[q].rank());
            } else if i == at && j - 1 > at {
                assert(before[at as int].rank() < before[j - 1].rank());
            }
        }
        assert forall|e: TransformEffect| #[trigger]
            after.contains(e) <==> (e == effect || before.contains(e)) by {
            if after.contains(e) {
                let k = choose|k: int| 0 <= k < after.len() && after[k] == e;
                if k < at {
                    assert(before[k] == e);
                } else if k > at {
                    assert(before[k - 1] == e);
                }
            }
            if before.contains(e) {
                let k = choose|k: int| 0 <= k < before.len() && before[k] == e;
                if k < at {
                    assert(after[k] == e);
                } else {
                    assert(after[k + 1] == e);
                }
            }
            if e == effect {
                assert(after[at as int] == e);
            }
        }
    }
}

impl LayerEffect {
    /// Construct from effects in any order (deduplicated and sorted).
    #[must_use]
    pub fn new(layer: SemanticLayer, effects: Vec<TransformEffect>) -> (entry: Self)
        ensures
            entry.layer == layer,
            is_canonical_of(entry.effects@, effects@),
    {
        let mut canonical: Vec<TransformEffect> = Vec::new();
        let mut i: usize = 0;
        while i < effects.len()
            invariant
                0 <= i <= effects.len(),
                is_canonical_of(canonical@, effects@.take(i as int)),
            decreases effects.len() - i,
        {
            insert_effect(&mut canonical, effects[i]);
            proof {
                let seen = effects@.take(i as int);
                let next = effects@.take(i + 1);
                assert forall|e: TransformEffect|
                    next.contains(e) <==> (e == effects@[i as int] || seen.contains(e)) by {
                    if next.contains(e) {
                        let k = choose|k: int| 0 <= k < next.len() && next[k] == e;
                        if k < i {
                            assert(seen[k] == e);
                        }
                    }
                    if seen.contains(e) {
                        let k = choose|k: int| 0 <= k < seen.len() && seen[k] == e;
                        assert(next[k] == e);
                    }
                    if e == effects@[i as int] {
                        assert(next[i as int] == e);
                    }
                }
            }
            i = i + 1;
        }
        assert(effects@.take(i as int) =~= effects@);
        LayerEffect { layer, effects: canonical }
    }

    /// Union with another entry on the same layer.
    #[must_use]
    pub fn union(&self, other: &Self) -> (entry: Self)
        requires
            self.layer == other.layer,
        ensures
            entry.layer == self.layer,
            is_canonical_of(entry.effects@, self.effects@ + other.effects@),
    {
        let mut both = self.clone();
        let mut more = other.clone();
        both.effects.append(&mut more.effects);
        LayerEffect::new(self.layer, both.effects)
    }

    /// Whether a list of effects refuses the transformation.
    pub open spec fn refuses(self) -> bool {
        self.effects@.contains(TransformEffect::Refused)
    }

    /// Whether this layer was refused.
    #[must_use]
    pub fn is_refused(&self) -> (yes: bool)
        ensures
            yes == self.refuses(),
    {
        let mut i: usize = 0;
        while i < self.effects.len()
            invariant
                0 <= i <= self.effects.len(),
                forall|k: int| 0 <= k < i ==> self.effects@[k] != TransformEffect::Refused,
            decreases self.effects.len() - i,
        {
            if self.effects[i] == TransformEffect::Refused {
                return true;
            }
            i = i + 1;
        }
        false
    }
}

/// A canonical list is determined by its members.
pub proof fn law_canonical_effects_are_unique(
    a: Seq<TransformEffect>,
    b: Seq<TransformEffect>,
    given: Seq<TransformEffect>,
)
    requires
        is_canonical_of(a, given),
        is_canonical_of(b, given),
    ensures
        a == b,
    decreases a.len() + b.len(),
{
    if a.len() == 0 || b.len() == 0 {
        if a.len() > 0 {
            assert(a.contains(a[0]));
            assert(b.contains(a[0]));
        }
        if b.len() > 0 {
            assert(b.contains(b[0]));
            assert(a.contains(b[0]));
        }
        assert(a =~= b);
    } else {
        let x = a.last();
        let y = b.last();
        assert(y == b[b.len() - 1] && x == a[a.len() - 1]);
        assert(a.contains(x));
        assert(given.contains(x));
        assert(b.contains(x));
        assert(b.contains(y));
        assert(given.contains(y));
        assert(a.contains(y));
        let p = choose|p: int| 0 <= p < b.len() && b[p] == x;
        let q = choose|q: int| 0 <= q < a.len() && a[q] == y;
        assert(x.rank() <= y.rank());
        assert(y.rank() <= x.rank());
        assert(x == y);
        let rest = a.drop_last();
        assert forall|e: TransformEffect|
            rest.contains(e) <==> b.drop_last().contains(e) by {
            if rest.contains(e) {
                let k = choose|k: int| 0 <= k < rest.len() && rest[k] == e;
                assert(a[k] == e);
                assert(a.contains(e));
                assert(b.contains(e));
                let m = choose|m: int| 0 <= m < b.len() && b[m] == e;
                assert(a[k].rank() < x.rank());
                assert(b.drop_last()[m] == e);
            }
            if b.drop_last().contains(e) {
                let k = choose|k: int| 0 <= k < b.drop_last().len() && b.drop_last()[k] == e;
                assert(b[k] == e);
                assert(b.contains(e));
                assert(a.contains(e));
                let m = choose|m: int| 0 <= m < a.len() && a[m] == e;
                assert(b[k].rank() < y.rank());
                assert(rest[m] == e);
            }
        }
        assert(is_canonical_of(rest, rest));
        assert(is_canonical_of(b.drop_last(), rest));
        law_canonical_effects_are_unique(rest, b.drop_last(), rest);
        assert(a =~= rest.push(x));
        assert(b =~= b.drop_last().push(y));
    }
}

/// Caller intent for a transformation preview.
#[derive(Clone, Copy, Debug, PartialEq, Eq, Hash, Structural)]
pub enum TransformIntent {
    /// Display precision or a view that retains the full contract reference.
    DisplayPrecision,
    /// Compatible data append or replace (same observation contract).
    CompatibleDataReplace,
    /// Licensed prepared retarget.
    Retarget,
    /// Display-only filter; not a new population or query.
    FilterDisplay,
    /// Declared population reweighting.
    FilterPopulation,
    /// New conditional causal query.
    NewConditionalQuery,
    /// Change graph, query, intervention policy, horizon, or structural assumption.
    ChangeGraph,
    /// Change prior or its mapping.
    ChangePrior,
    /// Change only physical execution policy.
    ChangePhysicalPolicy,
    /// Average an unweighted equivalence class into a probability-weighted mixture.
    AverageUnweightedClass,
}

impl TransformIntent {
    /// The name as text.
    pub open spec fn name(self) -> Seq<char> {
        match self {
            TransformIntent::DisplayPrecision => "display_precision"@,
            TransformIntent::CompatibleDataReplace => "compatible_data_replace"@,
            TransformIntent::Retarget => "retarget"@,
            TransformIntent::FilterDisplay => "filter_display"@,
            TransformIntent::FilterPopulation => "filter_population"@,
            TransformIntent::NewConditionalQuery => "new_conditional_query"@,
            TransformIntent::ChangeGraph => "change_graph"@,
            TransformIntent::ChangePrior => "change_prior"@,
            TransformIntent::ChangePhysicalPolicy => "change_physical_policy"@,
            TransformIntent::AverageUnweightedClass => "average_unweighted_class"@,
        }
    }

    /// Stable `snake_case` name.
    #[must_use]
    pub fn as_str(self) -> (out: &'static str)
        ensures
            out@ == self.name(),
    {
        match self {
            TransformIntent::DisplayPrecision => "display_precision",
            TransformIntent::CompatibleDataReplace => "compatible_data_replace",
            TransformIntent::Retarget => "retarget",
            TransformIntent::FilterDisplay => "filter_display",
            TransformIntent::FilterPopulation => "filter_population",
            TransformIntent::NewConditionalQuery => "new_conditional_query",
            TransformIntent::ChangeGraph => "change_graph",
            TransformIntent::ChangePrior => "change_prior",
            TransformIntent::ChangePhysicalPolicy => "change_physical_policy",
            TransformIntent::AverageUnweightedClass => "average_unweighted_class",
        }
    }
}

/// Different variants of [`TransformIntent`] have different names.
pub proof fn law_transform_intent_names_are_distinct(a: TransformIntent, b: TransformIntent)
    requires
        a.name() == b.name(),
    ensures
        a == b,
{
    reveal_strlit("display_precision");
    assert("display_precision"@.len() == 17 && "display_precision"@[7] == '_');
    reveal_strlit("compatible_data_replace");
    assert("compatible_data_replace"@.len() == 23 && "compatible_data_replace"@[7] == 'b');
    reveal_strlit("retarget");
    assert("retarget"@.len() == 8 && "retarget"@[7] == 't');
    reveal_strlit("filter_display");
    assert("filter_display"@.len() == 14 && "filter_display"@[7] == 'd');
    reveal_strlit("filter_population");
    assert("filter_population"@.len() == 17 && "filter_population"@[7] == 'p');
    reveal_strlit("new_conditional_query");
    assert("new_conditional_query"@.len() == 21 && "new_conditional_query"@[7] == 'd');
    reveal_strlit("change_graph");
    assert("change_graph"@.len() == 12 && "change_graph"@[7] == 'g');
    reveal_strlit("change_prior");
    assert("change_prior"@.len() == 12 && "change_prior"@[7] == 'p');
    reveal_strlit("change_physical_policy");
    assert("change_physical_policy"@.len() == 22 && "change_physical_policy"@[7] == 'p');
    reveal_strlit("average_unweighted_class");
    assert("average_unweighted_class"@.len() == 24 && "average_unweighted_class"@[7] == '_');
}

/// Inspectable effect of one transformation, including input identities.
#[derive(Clone, Debug, PartialEq, Eq)]
pub struct TransformationReport {
    /// Intent that produced this report.
    pub intent: TransformIntent,
    /// Input identities the preview is bound to.
    pub input_identities: Vec<IdentityRef>,
    /// Per-layer effects.
    pub layer_effects: Vec<LayerEffect>,
    /// Obligations introduced or retained.
    pub obligations: Vec<ObligationRecord>,
    /// Whether any layer refused the transformation.
    pub refused: bool,
}

/// The layer entries as mathematical values.
pub open spec fn layer_views(entries: Seq<LayerEffect>) -> Seq<LayerEffectView> {
    entries.map_values(|e: LayerEffect| e@)
}

/// Entries of one layer, in their order.
pub open spec fn of_layer(
    entries: Seq<LayerEffectView>,
    layer: SemanticLayer,
) -> Seq<LayerEffectView> {
    entries.filter(|e: LayerEffectView| e.layer == layer)
}

/// Sorted by layer.
pub open spec fn layers_ascend(entries: Seq<LayerEffectView>) -> bool {
    forall|i: int, j: int|
        0 <= i < j < entries.len() ==> (#[trigger] entries[i]).layer.rank() <= (
        #[trigger] entries[j]).layer.rank()
}

/// `sorted` holds the entries of `given` by layer; entries of one layer keep
/// their order.
pub open spec fn is_layer_sort_of(
    sorted: Seq<LayerEffectView>,
    given: Seq<LayerEffectView>,
) -> bool {
    &&& sorted.len() == given.len()
    &&& layers_ascend(sorted)
    &&& forall|layer: SemanticLayer| #[trigger] of_layer(sorted, layer) == of_layer(given, layer)
}

/// Some entry refuses the transformation.
pub open spec fn any_refused(entries: Seq<LayerEffectView>) -> bool {
    exists|i: int|
        0 <= i < entries.len() && (#[trigger] entries[i]).effects.contains(
            TransformEffect::Refused,
        )
}

proof fn lemma_insert_filter(
    entries: Seq<LayerEffectView>,
    at: int,
    entry: LayerEffectView,
    layer: SemanticLayer,
)
    requires
        0 <= at <= entries.len(),
        forall|k: int| at <= k < entries.len() ==> (#[trigger] entries[k]).layer != entry.layer,
    ensures
        of_layer(entries.insert(at, entry), layer) == if layer == entry.layer {
            of_layer(entries, layer).push(entry)
        } else {
            of_layer(entries, layer)
        },
{
    let keep = |e: LayerEffectView| e.layer == layer;
    let head = entries.take(at);
    let tail = entries.skip(at);
    assert(entries =~= head + tail);
    assert(entries.insert(at, entry) =~= head.push(entry) + tail);
    Seq::filter_distributes_over_add(head, tail, keep);
    Seq::filter_distributes_over_add(head.push(entry), tail, keep);
    lemma_push_filter(head, entry, layer);
    if layer == entry.layer {
        lemma_filter_none(tail, layer);
        assert(of_layer(entries, layer) =~= of_layer(head, layer));
        assert(of_layer(entries.insert(at, entry), layer) =~= of_layer(head, layer).push(entry));
    }
}

proof fn lemma_push_filter(
    entries: Seq<LayerEffectView>,
    entry: LayerEffectView,
    layer: SemanticLayer,
)
    ensures
        of_layer(entries.push(entry), layer) == if layer == entry.layer {
            of_layer(entries, layer).push(entry)
        } else {
            of_layer(entries, layer)
        },
{
    reveal(Seq::filter);
    assert(entries.push(entry).drop_last() =~= entries);
}

proof fn lemma_filter_none(entries: Seq<LayerEffectView>, layer: SemanticLayer)
    requires
        forall|k: int| 0 <= k < entries.len() ==> (#[trigger] entries[k]).layer != layer,
    ensures
        of_layer(entries, layer).len() == 0,
    decreases entries.len(),
{
    reveal(Seq::filter);
    if entries.len() > 0 {
        assert(entries.last() == entries[entries.len() - 1]);
        assert forall|k: int| 0 <= k < entries.drop_last().len() implies (
        #[trigger] entries.drop_last()[k]).layer != layer by {
            assert(entries.drop_last()[k] == entries[k]);
        }
        lemma_filter_none(entries.drop_last(), layer);
    }
}

/// Sort entries by layer, keeping the order within one layer.
fn sort_by_layer(given: Vec<LayerEffect>) -> (sorted: Vec<LayerEffect>)
    ensures
        is_layer_sort_of(layer_views(sorted@), layer_views(given@)),
{
    let mut sorted: Vec<LayerEffect> = Vec::new();
    let mut i: usize = 0;
    proof {
        assert forall|layer: SemanticLayer| #[trigger]
            of_layer(layer_views(sorted@), layer) == of_layer(
                layer_views(given@.take(0)),
                layer,
            ) by {
            assert(layer_views(sorted@) =~= layer_views(given@.take(0)));
        }
    }
    while i < given.len()
        invariant
            0 <= i <= given.len(),
            is_layer_sort_of(layer_views(sorted@), layer_views(given@.take(i as int))),
        decreases given.len() - i,
    {
        let entry = given[i].clone();
        let ghost before = layer_views(sorted@);
        let mut at: usize = 0;
        while at < sorted.len() && sorted[at].layer.order() <= entry.layer.order()
            invariant
                0 <= at <= sorted.len(),
                before == layer_views(sorted@),
                forall|k: int| 0 <= k < at ==> (#[trigger] before[k]).layer.rank()
                    <= entry.layer.rank(),
            decreases sorted.len() - at,
        {
            assert(before[at as int] == sorted@[at as int]@);
            at = at + 1;
        }
        proof {
            if at < sorted.len() {
                assert(before[at as int] == sorted@[at as int]@);
                assert(before[at as int].layer.rank() > entry.layer.rank());
            }
        }
        let ghost view = entry@;
        sorted.insert(at, entry);
        proof {
            let after = layer_views(sorted@);
            let seen = layer_views(given@.take(i as int));
            let next = layer_views(given@.take(i + 1));
            assert(after =~= before.insert(at as int, view));
            assert(next =~= seen.push(view));
            assert forall|k: int| at <= k < before.len() implies (#[trigger] before[k]).layer
                != view.layer by {
                if k > at {
                    assert(before[at as int].layer.rank() <= before[k].layer.rank());
                }
            }
            assert forall|layer: SemanticLayer| #[trigger]
                of_layer(after, layer) == of_layer(next, layer) by {
                lemma_insert_filter(before, at as int, view, layer);
                lemma_push_filter(seen, view, layer);
                assert(of_layer(before, layer) == of_layer(seen, layer));
            }
            assert forall|a: int, b: int| 0 <= a < b < after.len() implies (
            #[trigger] after[a]).layer.rank() <= (#[trigger] after[b]).layer.rank() by {
                let p = if a < at {
                    a
                } else {
                    a - 1
                };
                let q = if b < at {
                    b
                } else {
                    b - 1
                };
                if a != at && b != at {
                    assert(before[p].layer.rank() <= before[q].layer.rank());
                } else if a == at && b - 1 > at {
                    assert(before[at as int].layer.rank() <= before[b - 1].layer.rank());
                }
            }
        }
        i = i + 1;
    }
    assert(given@.take(i as int) =~= given@);
    sorted
}

/// Position of the first entry of a layer.
pub open spec fn first_of(entries: Seq<LayerEffectView>, layer: SemanticLayer, at: int) -> bool {
    &&& 0 <= at < entries.len()
    &&& entries[at].layer == layer
    &&& forall|k: int| 0 <= k < at ==> (#[trigger] entries[k]).layer != layer
}

/// Whether a layer has an entry.
pub open spec fn has_layer(entries: Seq<LayerEffectView>, layer: SemanticLayer) -> bool {
    exists|k: int| 0 <= k < entries.len() && (#[trigger] entries[k]).layer == layer
}

fn find_layer(entries: &Vec<LayerEffect>, layer: SemanticLayer) -> (at: Option<usize>)
    ensures
        match at {
            Some(p) => first_of(layer_views(entries@), layer, p as int),
            None => !has_layer(layer_views(entries@), layer),
        },
{
    let mut i: usize = 0;
    while i < entries.len()
        invariant
            0 <= i <= entries.len(),
            forall|k: int| 0 <= k < i ==> (#[trigger] layer_views(entries@)[k]).layer != layer,
        decreases entries.len() - i,
    {
        assert(layer_views(entries@)[i as int] == entries@[i as int]@);
        if entries[i].layer == layer {
            return Some(i);
        }
        i = i + 1;
    }
    None
}

/// One incoming entry merged into a list: joined with the first entry of its
/// layer, or appended where the layer has none yet.
pub open spec fn merges_entry(
    before: Seq<LayerEffectView>,
    incoming: LayerEffectView,
    after: Seq<LayerEffectView>,
) -> bool {
    if has_layer(before, incoming.layer) {
        exists|at: int|
            {
                &&& #[trigger] first_of(before, incoming.layer, at)
                &&& after.len() == before.len()
                &&& forall|k: int| 0 <= k < before.len() && k != at ==> after[k] == before[k]
                &&& after[at].layer == incoming.layer
                &&& is_canonical_of(after[at].effects, before[at].effects + incoming.effects)
            }
    } else {
        after == before.push(incoming)
    }
}

/// The lists passed through while incoming entries are merged one after the other.
pub open spec fn merge_run(
    lists: Seq<Seq<LayerEffectView>>,
    incoming: Seq<LayerEffectView>,
) -> bool {
    &&& lists.len() == incoming.len() + 1
    &&& forall|k: int|
        0 <= k < incoming.len() ==> #[trigger] merges_entry(lists[k], incoming[k], lists[k + 1])
}

/// All incoming entries merged, one after the other.
pub open spec fn merges_entries(
    before: Seq<LayerEffectView>,
    incoming: Seq<LayerEffectView>,
    after: Seq<LayerEffectView>,
) -> bool {
    exists|lists: Seq<Seq<LayerEffectView>>| #[trigger]
        merge_run(lists, incoming) && lists[0] == before && lists.last() == after
}

/// Obligations of `before`, then those of `incoming` that it does not cover yet: ids that
/// are not listed, and unresolved records of ids that are listed as resolved only.
pub open spec fn merged_obligations(
    before: Seq<ObligationRecord>,
    incoming: Seq<ObligationRecord>,
) -> Seq<ObligationRecord>
    decreases incoming.len(),
{
    if incoming.len() == 0 {
        before
    } else {
        let merged = merged_obligations(before, incoming.drop_last());
        if covers(merged, incoming.last()) {
            merged
        } else {
            merged.push(incoming.last())
        }
    }
}

/// A list has a record of the obligation's id, and an unresolved one where the obligation
/// is unresolved.
pub open spec fn covers(list: Seq<ObligationRecord>, obligation: ObligationRecord) -> bool {
    if obligation.unresolved() {
        has_unresolved(list, obligation.id@)
    } else {
        has_obligation(list, obligation.id@)
    }
}

/// Whether an unresolved obligation of this id is listed.
pub open spec fn has_unresolved(list: Seq<ObligationRecord>, id: Seq<char>) -> bool {
    exists|k: int|
        0 <= k < list.len() && (#[trigger] list[k]).id@ == id && list[k].unresolved()
}

/// Whether an obligation of this id is listed.
pub open spec fn has_obligation(list: Seq<ObligationRecord>, id: Seq<char>) -> bool {
    exists|k: int| 0 <= k < list.len() && (#[trigger] list[k]).id@ == id
}

impl TransformationReport {
    /// The layer entries as mathematical values.
    pub open spec fn layers(self) -> Seq<LayerEffectView> {
        layer_views(self.layer_effects@)
    }

    /// Canonical layer order, and a refusal flag that agrees with the entries.
    pub open spec fn well_formed(self) -> bool {
        &&& layers_ascend(self.layers())
        &&& self.refused == any_refused(self.layers())
    }

    /// Construct a report with canonical layer order.
    #[must_use]
    pub fn new(
        intent: TransformIntent,
        input_identities: Vec<IdentityRef>,
        layer_effects: Vec<LayerEffect>,
        obligations: Vec<ObligationRecord>,
    ) -> (report: Self)
        ensures
            report.intent == intent,
            report.input_identities == input_identities,
            is_layer_sort_of(report.layers(), layer_views(layer_effects@)),
            report.obligations == obligations,
            report.well_formed(),
    {
        let layer_effects = sort_by_layer(layer_effects);
        let mut refused = false;
        let mut i: usize = 0;
        while i < layer_effects.len()
            invariant
                0 <= i <= layer_effects.len(),
                refused == exists|k: int|
                    0 <= k < i && (#[trigger] layer_views(layer_effects@)[k]).effects.contains(
                        TransformEffect::Refused,
                    ),
            decreases layer_effects.len() - i,
        {
            assert(layer_views(layer_effects@)[i as int] == layer_effects@[i as int]@);
            refused = refused || layer_effects[i].is_refused();
            i = i + 1;
        }
        TransformationReport { intent, input_identities, layer_effects, obligations, refused }
    }

    /// Effects recorded for `layer`, if any.
    #[must_use]
    pub fn layer(&self, layer: SemanticLayer) -> (found: Option<&LayerEffect>)
        ensures
            match found {
                Some(entry) => exists|at: int| #[trigger]
                    first_of(self.layers(), layer, at) && *entry == self.layer_effects@[at],
                None => !has_layer(self.layers(), layer),
            },
    {
        match find_layer(&self.layer_effects, layer) {
            Some(p) => {
                assert(first_of(self.layers(), layer, p as int));
                Some(&self.layer_effects[p])
            },
            None => None,
        }
    }

    /// Whether this preview still matches the supplied program identity.
    #[must_use]
    pub fn binds_program(&self, program: SemanticDigest) -> (yes: bool)
        ensures
            yes == self.input_identities@.contains(
                (IdentityRef { domain: IdentityDomain::Program, digest: program }),
            ),
    {
        let wanted = IdentityRef { domain: IdentityDomain::Program, digest: program };
        let mut i: usize = 0;
        while i < self.input_identities.len()
            invariant
                0 <= i <= self.input_identities.len(),
                wanted == (IdentityRef { domain: IdentityDomain::Program, digest: program }),
                forall|k: int| 0 <= k < i ==> self.input_identities@[k] != wanted,
            decreases self.input_identities.len() - i,
        {
            if self.input_identities[i] == wanted {
                assert(self.input_identities@[i as int] == wanted);
                return true;
            }
            i = i + 1;
        }
        false
    }

    /// Whether all frozen contract inputs still match, including the data snapshot.
    ///
    /// Program equality alone cannot detect a refresh that preserves the target
    /// and identification. This is a freshness check, not an execution license.
    #[must_use]
    pub fn binds_contract(&self, identities: &ContractIdentities) -> (yes: bool)
        ensures
            yes == (self.input_identities@ == identities.layers()),
    {
        let refs = identities.refs();
        if self.input_identities.len() != refs.len() {
            return false;
        }
        let mut i: usize = 0;
        while i < refs.len()
            invariant
                0 <= i <= refs.len(),
                refs.len() == self.input_identities.len(),
                refs@ == identities.layers(),
                forall|k: int| 0 <= k < i ==> self.input_identities@[k] == refs@[k],
            decreases refs.len() - i,
        {
            if self.input_identities[i] != refs[i] {
                return false;
            }
            i = i + 1;
        }
        assert(self.input_identities@ =~= refs@);
        true
    }

    /// What composing `self` with `next` yields.
    pub open spec fn composes(self, next: Self, composed: Self) -> bool {
        &&& composed.intent == next.intent
        &&& composed.input_identities@ == next.input_identities@
        &&& composed.obligations@ == merged_obligations(self.obligations@, next.obligations@)
        &&& composed.well_formed()
        &&& exists|merged: Seq<LayerEffectView>| #[trigger]
            merges_entries(self.layers(), next.layers(), merged) && is_layer_sort_of(
                composed.layers(),
                merged,
            )
    }

    /// Compose `self` then `next`. Unresolved obligations are concatenated;
    /// layer effects are unioned. A later `Preserves` cannot erase an earlier
    /// `Invalidates` or unresolved obligation.
    #[must_use]
    pub fn compose(&self, next: &Self) -> (composed: Self)
        ensures
            self.composes(*next, composed),
    {
        let mut layers: Vec<LayerEffect> = Vec::new();
        let mut i: usize = 0;
        while i < self.layer_effects.len()
            invariant
                0 <= i <= self.layer_effects.len(),
                layer_views(layers@) == self.layers().take(i as int),
            decreases self.layer_effects.len() - i,
        {
            let ghost before = layer_views(layers@);
            layers.push(self.layer_effects[i].clone());
            proof {
                assert(self.layers()[i as int] == self.layer_effects@[i as int]@);
                assert(layer_views(layers@) =~= before.push(self.layers()[i as int]));
                assert(layer_views(layers@) =~= self.layers().take(i + 1));
            }
            i = i + 1;
        }
        assert(layer_views(layers@) =~= self.layers());
        let mut j: usize = 0;
        let ghost mut lists: Seq<Seq<LayerEffectView>> = seq![layer_views(layers@)];
        while j < next.layer_effects.len()
            invariant
                0 <= j <= next.layer_effects.len(),
                merge_run(lists, next.layers().take(j as int)),
                lists[0] == self.layers(),
                lists.last() == layer_views(layers@),
            decreases next.layer_effects.len() - j,
        {
            let incoming = &next.layer_effects[j];
            let ghost before = layer_views(layers@);
            proof {
                assert(next.layers()[j as int] == incoming@);
            }
            match find_layer(&layers, incoming.layer) {
                Some(at) => {
                    assert(before[at as int] == layers@[at as int]@);
                    let joined = layers[at].union(incoming);
                    layers.set(at, joined);
                    proof {
                        let after = layer_views(layers@);
                        assert(after =~= before.update(at as int, joined@));
                        assert(has_layer(before, incoming@.layer)) by {
                            assert(before[at as int].layer == incoming@.layer);
                        }
                        assert(first_of(before, incoming@.layer, at as int));
                        assert(merges_entry(before, incoming@, after));
                    }
                },
                None => {
                    layers.push(incoming.clone());
                    assert(layer_views(layers@) =~= before.push(incoming@));
                },
            }
            proof {
                let seen = next.layers().take(j as int);
                let more = next.layers().take(j + 1);
                let after = layer_views(layers@);
                let longer = lists.push(after);
                assert(merges_entry(before, incoming@, after));
                assert forall|k: int| 0 <= k < more.len() implies #[trigger] merges_entry(
                    longer[k],
                    more[k],
                    longer[k + 1],
                ) by {
                    if k < j {
                        assert(merges_entry(lists[k], seen[k], lists[k + 1]));
                        assert(more[k] == seen[k]);
                    } else {
                        assert(longer[k] == before);
                    }
                }
                lists = longer;
            }
            j = j + 1;
        }
        assert(next.layers().take(j as int) =~= next.layers());
        let ghost merged = layer_views(layers@);
        assert(merges_entries(self.layers(), next.layers(), merged));
        let mut obligations: Vec<ObligationRecord> = Vec::new();
        let mut k: usize = 0;
        while k < self.obligations.len()
            invariant
                0 <= k <= self.obligations.len(),
                obligations@ == self.obligations@.take(k as int),
            decreases self.obligations.len() - k,
        {
            obligations.push(self.obligations[k].clone());
            assert(obligations@ =~= self.obligations@.take(k + 1));
            k = k + 1;
        }
        assert(obligations@ =~= self.obligations@);
        let mut m: usize = 0;
        while m < next.obligations.len()
            invariant
                0 <= m <= next.obligations.len(),
                obligations@ == merged_obligations(
                    self.obligations@,
                    next.obligations@.take(m as int),
                ),
            decreases next.obligations.len() - m,
        {
            let obligation = &next.obligations[m];
            proof {
                assert(next.obligations@.take(m + 1).drop_last() =~= next.obligations@.take(
                    m as int,
                ));
            }
            if !is_covered(&obligations, obligation) {
                obligations.push(obligation.clone());
            }
            m = m + 1;
        }
        assert(next.obligations@.take(m as int) =~= next.obligations@);
        let mut inputs: Vec<IdentityRef> = Vec::new();
        let mut n: usize = 0;
        while n < next.input_identities.len()
            invariant
                0 <= n <= next.input_identities.len(),
                inputs@ == next.input_identities@.take(n as int),
            decreases next.input_identities.len() - n,
        {
            inputs.push(next.input_identities[n]);
            assert(inputs@ =~= next.input_identities@.take(n + 1));
            n = n + 1;
        }
        assert(inputs@ =~= next.input_identities@);
        TransformationReport::new(next.intent, inputs, layers, obligations)
    }
}

fn is_covered(list: &Vec<ObligationRecord>, obligation: &ObligationRecord) -> (yes: bool)
    ensures
        yes == covers(list@, *obligation),
{
    let unresolved = obligation.is_unresolved();
    let mut i: usize = 0;
    while i < list.len()
        invariant
            0 <= i <= list.len(),
            unresolved == obligation.unresolved(),
            forall|k: int|
                0 <= k < i ==> (#[trigger] list@[k]).id@ != obligation.id@ || (unresolved
                    && !list@[k].unresolved()),
        decreases list.len() - i,
    {
        if text::str_eq(list[i].id.as_str(), obligation.id.as_str()) && (!unresolved
            || list[i].is_unresolved()) {
            assert(list@[i as int].id@ == obligation.id@);
            return true;
        }
        i = i + 1;
    }
    false
}

proof fn lemma_merged_obligations_keep(
    before: Seq<ObligationRecord>,
    incoming: Seq<ObligationRecord>,
)
    ensures
        before.len() <= merged_obligations(before, incoming).len(),
        forall|k: int|
            0 <= k < before.len() ==> #[trigger] merged_obligations(before, incoming)[k]
                == before[k],
        forall|k: int|
            0 <= k < incoming.len() ==> covers(
                merged_obligations(before, incoming),
                #[trigger] incoming[k],
            ),
    decreases incoming.len(),
{
    if incoming.len() > 0 {
        let rest = incoming.drop_last();
        lemma_merged_obligations_keep(before, rest);
        let merged = merged_obligations(before, rest);
        let all = merged_obligations(before, incoming);
        assert forall|k: int| 0 <= k < incoming.len() implies covers(
            all,
            #[trigger] incoming[k],
        ) by {
            let one = incoming[k];
            if k < rest.len() {
                assert(covers(merged, rest[k]));
                let m = choose|m: int|
                    0 <= m < merged.len() && (#[trigger] merged[m]).id@ == one.id@ && (
                    one.unresolved() ==> merged[m].unresolved());
                assert(all[m] == merged[m]);
            } else if !covers(merged, one) {
                assert(all[merged.len() as int] == one);
            }
        }
    }
}

/// Composition drops no obligation. Every obligation of the first report is kept as it is,
/// every obligation id of the second report is listed, and an obligation that is unresolved
/// in either report leaves an unresolved record of its id.
pub proof fn law_composition_keeps_obligations(
    first: TransformationReport,
    next: TransformationReport,
    composed: TransformationReport,
)
    requires
        first.composes(next, composed),
    ensures
        forall|k: int|
            0 <= k < first.obligations@.len() ==> #[trigger] composed.obligations@.contains(
                first.obligations@[k],
            ),
        forall|k: int|
            0 <= k < next.obligations@.len() ==> has_obligation(
                composed.obligations@,
                (#[trigger] next.obligations@[k]).id@,
            ),
        forall|k: int|
            0 <= k < first.obligations@.len() && (
            #[trigger] first.obligations@[k]).unresolved() ==> has_unresolved(
                composed.obligations@,
                first.obligations@[k].id@,
            ),
        forall|k: int|
            0 <= k < next.obligations@.len() && (
            #[trigger] next.obligations@[k]).unresolved() ==> has_unresolved(
                composed.obligations@,
                next.obligations@[k].id@,
            ),
{
    lemma_merged_obligations_keep(first.obligations@, next.obligations@);
    let all = composed.obligations@;
    assert forall|k: int| 0 <= k < first.obligations@.len() implies #[trigger] all.contains(
        first.obligations@[k],
    ) by {
        assert(all[k] == first.obligations@[k]);
    }
    assert forall|k: int|
        0 <= k < first.obligations@.len() && (
        #[trigger] first.obligations@[k]).unresolved() implies has_unresolved(
        all,
        first.obligations@[k].id@,
    ) by {
        assert(all[k] == first.obligations@[k]);
    }
    assert forall|k: int| 0 <= k < next.obligations@.len() implies has_obligation(
        all,
        (#[trigger] next.obligations@[k]).id@,
    ) by {
        let one = next.obligations@[k];
        assert(covers(all, one));
        let m = choose|m: int| 0 <= m < all.len() && (#[trigger] all[m]).id@ == one.id@;
        assert(all[m].id@ == one.id@);
    }
}

/// An effect recorded for a layer.
pub open spec fn records(
    entries: Seq<LayerEffectView>,
    layer: SemanticLayer,
    effect: TransformEffect,
) -> bool {
    exists|k: int|
        0 <= k < entries.len() && (#[trigger] entries[k]).layer == layer
            && entries[k].effects.contains(effect)
}

proof fn lemma_merge_entry_keeps(
    before: Seq<LayerEffectView>,
    incoming: LayerEffectView,
    after: Seq<LayerEffectView>,
    layer: SemanticLayer,
    effect: TransformEffect,
)
    requires
        merges_entry(before, incoming, after),
        records(before, layer, effect) || (incoming.layer == layer && incoming.effects.contains(
            effect,
        )),
    ensures
        records(after, layer, effect),
{
    if has_layer(before, incoming.layer) {
        let at = choose|at: int|
            {
                &&& #[trigger] first_of(before, incoming.layer, at)
                &&& after.len() == before.len()
                &&& forall|k: int| 0 <= k < before.len() && k != at ==> after[k] == before[k]
                &&& after[at].layer == incoming.layer
                &&& is_canonical_of(after[at].effects, before[at].effects + incoming.effects)
            };
        let joined = before[at].effects + incoming.effects;
        if records(before, layer, effect) {
            let k = choose|k: int|
                0 <= k < before.len() && (#[trigger] before[k]).layer == layer
                    && before[k].effects.contains(effect);
            if k == at {
                let m = choose|m: int|
                    0 <= m < before[at].effects.len() && before[at].effects[m] == effect;
                assert(joined[m] == effect);
                assert(after[at].effects.contains(effect));
            }
            assert(after[k].layer == layer && after[k].effects.contains(effect));
        } else {
            let m = choose|m: int| 0 <= m < incoming.effects.len() && incoming.effects[m] == effect;
            assert(joined[before[at].effects.len() + m] == effect);
            assert(joined.contains(effect));
            assert(after[at].effects.contains(effect));
        }
    } else {
        if records(before, layer, effect) {
            let k = choose|k: int|
                0 <= k < before.len() && (#[trigger] before[k]).layer == layer
                    && before[k].effects.contains(effect);
            assert(after[k] == before[k]);
        } else {
            assert(after[before.len() as int] == incoming);
        }
    }
}

proof fn lemma_merge_run_keeps(
    lists: Seq<Seq<LayerEffectView>>,
    incoming: Seq<LayerEffectView>,
    n: int,
    layer: SemanticLayer,
    effect: TransformEffect,
)
    requires
        merge_run(lists, incoming),
        0 <= n <= incoming.len(),
        records(lists[0], layer, effect) || records(incoming.take(n), layer, effect),
    ensures
        records(lists[n], layer, effect),
    decreases n,
{
    if n > 0 {
        assert(merges_entry(lists[n - 1], incoming[n - 1], lists[n - 1 + 1]));
        let rest = incoming.take(n - 1);
        let part = incoming.take(n);
        if records(part, layer, effect) && !records(rest, layer, effect) {
            let k = choose|k: int|
                0 <= k < part.len() && (#[trigger] part[k]).layer == layer
                    && part[k].effects.contains(effect);
            if k < n - 1 {
                assert(rest[k] == part[k]);
            }
        }
        if records(lists[0], layer, effect) || records(rest, layer, effect) {
            lemma_merge_run_keeps(lists, incoming, n - 1, layer, effect);
        }
        lemma_merge_entry_keeps(lists[n - 1], incoming[n - 1], lists[n], layer, effect);
    }
}

proof fn lemma_merge_entries_keep(
    before: Seq<LayerEffectView>,
    incoming: Seq<LayerEffectView>,
    after: Seq<LayerEffectView>,
    layer: SemanticLayer,
    effect: TransformEffect,
)
    requires
        merges_entries(before, incoming, after),
        records(before, layer, effect) || records(incoming, layer, effect),
    ensures
        records(after, layer, effect),
{
    let lists = choose|lists: Seq<Seq<LayerEffectView>>| #[trigger]
        merge_run(lists, incoming) && lists[0] == before && lists.last() == after;
    assert(incoming.take(incoming.len() as int) =~= incoming);
    lemma_merge_run_keeps(lists, incoming, incoming.len() as int, layer, effect);
}

proof fn lemma_filtered_is_member(
    entries: Seq<LayerEffectView>,
    layer: SemanticLayer,
    entry: LayerEffectView,
)
    requires
        of_layer(entries, layer).contains(entry),
    ensures
        entries.contains(entry),
    decreases entries.len(),
{
    reveal(Seq::filter);
    if entries.len() > 0 {
        let rest = entries.drop_last();
        let kept = of_layer(entries, layer);
        let m = choose|m: int| 0 <= m < kept.len() && kept[m] == entry;
        if entries.last().layer == layer && m == kept.len() - 1 {
            assert(entries[entries.len() - 1] == entry);
        } else {
            assert(of_layer(rest, layer)[m] == entry);
            lemma_filtered_is_member(rest, layer, entry);
            let n = choose|n: int| 0 <= n < rest.len() && rest[n] == entry;
            assert(entries[n] == entry);
        }
    }
}

proof fn lemma_sort_keeps_records(
    sorted: Seq<LayerEffectView>,
    given: Seq<LayerEffectView>,
    layer: SemanticLayer,
    effect: TransformEffect,
)
    requires
        is_layer_sort_of(sorted, given),
        records(given, layer, effect),
    ensures
        records(sorted, layer, effect),
{
    let keep = |e: LayerEffectView| e.layer == layer;
    let k = choose|k: int|
        0 <= k < given.len() && (#[trigger] given[k]).layer == layer && given[k].effects.contains(
            effect,
        );
    assert(keep(given[k]));
    given.lemma_filter_contains(keep, k);
    assert(of_layer(given, layer).contains(given[k]));
    assert(of_layer(sorted, layer).contains(given[k]));
    lemma_filtered_is_member(sorted, layer, given[k]);
    let n = choose|n: int| 0 <= n < sorted.len() && sorted[n] == given[k];
    assert(sorted[n].layer == layer);
}

/// Composition erases no effect: whatever either report records for a layer, an
/// earlier `Invalidates` or `Refused` included, the composed report records too;
/// a refused part makes the whole refused.
pub proof fn law_composition_keeps_effects(
    first: TransformationReport,
    next: TransformationReport,
    composed: TransformationReport,
    layer: SemanticLayer,
    effect: TransformEffect,
)
    requires
        first.composes(next, composed),
    ensures
        records(first.layers(), layer, effect) || records(next.layers(), layer, effect) ==> records(
            composed.layers(),
            layer,
            effect,
        ),
        any_refused(first.layers()) || any_refused(next.layers()) ==> composed.refused,
{
    let merged = choose|merged: Seq<LayerEffectView>| #[trigger]
        merges_entries(first.layers(), next.layers(), merged) && is_layer_sort_of(
            composed.layers(),
            merged,
        );
    if records(first.layers(), layer, effect) || records(next.layers(), layer, effect) {
        lemma_merge_entries_keep(first.layers(), next.layers(), merged, layer, effect);
        lemma_sort_keeps_records(composed.layers(), merged, layer, effect);
    }
    if any_refused(first.layers()) || any_refused(next.layers()) {
        let source = if any_refused(first.layers()) {
            first.layers()
        } else {
            next.layers()
        };
        let k = choose|k: int|
            0 <= k < source.len() && (#[trigger] source[k]).effects.contains(
                TransformEffect::Refused,
            );
        let at = source[k].layer;
        assert(records(source, at, TransformEffect::Refused));
        lemma_merge_entries_keep(
            first.layers(),
            next.layers(),
            merged,
            at,
            TransformEffect::Refused,
        );
        lemma_sort_keeps_records(composed.layers(), merged, at, TransformEffect::Refused);
    }
}

/// Standard per-intent layer effects, in the order in which they are listed.
pub open spec fn standard_effects(intent: TransformIntent) -> Seq<LayerEffectView> {
    match intent {
            TransformIntent::DisplayPrecision | TransformIntent::FilterDisplay => seq![
                LayerEffectView {
                    layer: SemanticLayer::Target,
                    effects: seq![TransformEffect::Preserves],
                },
                LayerEffectView {
                    layer: SemanticLayer::Identification,
                    effects: seq![TransformEffect::Preserves],
                },
                LayerEffectView {
                    layer: SemanticLayer::Program,
                    effects: seq![TransformEffect::Preserves],
                },
                LayerEffectView {
                    layer: SemanticLayer::Results,
                    effects: seq![TransformEffect::Weakens],
                },
            ],
            TransformIntent::CompatibleDataReplace => seq![
                LayerEffectView {
                    layer: SemanticLayer::Target,
                    effects: seq![TransformEffect::Preserves],
                },
                LayerEffectView {
                    layer: SemanticLayer::Identification,
                    effects: seq![TransformEffect::Preserves],
                },
                LayerEffectView {
                    layer: SemanticLayer::Program,
                    effects: seq![TransformEffect::Preserves],
                },
                LayerEffectView {
                    layer: SemanticLayer::Support,
                    effects: seq![TransformEffect::RequiresReestimation, TransformEffect::Invalidates],
                },
                LayerEffectView {
                    layer: SemanticLayer::Data,
                    effects: seq![TransformEffect::Invalidates],
                },
                LayerEffectView {
                    layer: SemanticLayer::Inference,
                    effects: seq![TransformEffect::RequiresReestimation, TransformEffect::Invalidates],
                },
                LayerEffectView {
                    layer: SemanticLayer::Results,
                    effects: seq![TransformEffect::Invalidates],
                },
            ],
            TransformIntent::Retarget => seq![
                LayerEffectView {
                    layer: SemanticLayer::Target,
                    effects: seq![TransformEffect::Invalidates],
                },
                LayerEffectView {
                    layer: SemanticLayer::Identification,
                    effects: seq![TransformEffect::Preserves],
                },
                LayerEffectView {
                    layer: SemanticLayer::Program,
                    effects: seq![TransformEffect::Invalidates],
                },
                LayerEffectView {
                    layer: SemanticLayer::Support,
                    effects: seq![TransformEffect::RequiresReestimation],
                },
                LayerEffectView {
                    layer: SemanticLayer::Results,
                    effects: seq![TransformEffect::Invalidates],
                },
            ],
            TransformIntent::FilterPopulation | TransformIntent::NewConditionalQuery => seq![
                LayerEffectView {
                    layer: SemanticLayer::Target,
                    effects: seq![TransformEffect::Invalidates],
                },
                LayerEffectView {
                    layer: SemanticLayer::Identification,
                    effects: seq![TransformEffect::RequiresReidentification],
                },
                LayerEffectView {
                    layer: SemanticLayer::Program,
                    effects: seq![TransformEffect::Invalidates],
                },
                LayerEffectView {
                    layer: SemanticLayer::Results,
                    effects: seq![TransformEffect::Invalidates],
                },
            ],
            TransformIntent::ChangeGraph => seq![
                LayerEffectView {
                    layer: SemanticLayer::Target,
                    effects: seq![TransformEffect::Preserves],
                },
                LayerEffectView {
                    layer: SemanticLayer::Identification,
                    effects: seq![TransformEffect::RequiresReidentification, TransformEffect::Invalidates],
                },
                LayerEffectView {
                    layer: SemanticLayer::Program,
                    effects: seq![TransformEffect::Invalidates],
                },
                LayerEffectView {
                    layer: SemanticLayer::Results,
                    effects: seq![TransformEffect::Invalidates],
                },
            ],
            TransformIntent::ChangePrior => seq![
                LayerEffectView {
                    layer: SemanticLayer::Target,
                    effects: seq![TransformEffect::Preserves],
                },
                LayerEffectView {
                    layer: SemanticLayer::Identification,
                    effects: seq![TransformEffect::Preserves],
                },
                LayerEffectView {
                    layer: SemanticLayer::Program,
                    effects: seq![TransformEffect::Preserves],
                },
                LayerEffectView {
                    layer: SemanticLayer::Inference,
                    effects: seq![TransformEffect::RequiresReestimation, TransformEffect::Invalidates],
                },
                LayerEffectView {
                    layer: SemanticLayer::Results,
                    effects: seq![TransformEffect::Invalidates],
                },
            ],
            TransformIntent::ChangePhysicalPolicy => seq![
                LayerEffectView {
                    layer: SemanticLayer::Target,
                    effects: seq![TransformEffect::Preserves],
                },
                LayerEffectView {
                    layer: SemanticLayer::Identification,
                    effects: seq![TransformEffect::Preserves],
                },
                LayerEffectView {
                    layer: SemanticLayer::Program,
                    effects: seq![TransformEffect::Preserves],
                },
                LayerEffectView {
                    layer: SemanticLayer::Execution,
                    effects: seq![TransformEffect::Invalidates],
                },
            ],
            TransformIntent::AverageUnweightedClass => seq![
                LayerEffectView {
                    layer: SemanticLayer::Target,
                    effects: seq![TransformEffect::Preserves],
                },
                LayerEffectView {
                    layer: SemanticLayer::Identification,
                    effects: seq![TransformEffect::Preserves, TransformEffect::Refused],
                },
                LayerEffectView {
                    layer: SemanticLayer::Program,
                    effects: seq![TransformEffect::Refused],
                },
                LayerEffectView {
                    layer: SemanticLayer::Results,
                    effects: seq![TransformEffect::Refused],
                },
            ],
    }
}

/// One row of the standard effects.
fn standard_row(layer: SemanticLayer, effects: Vec<TransformEffect>) -> (entry: LayerEffect)
    requires
        effects_ascending(effects@),
    ensures
        entry@ == (LayerEffectView { layer, effects: effects@ }),
{
    let ghost listed = effects@;
    let entry = LayerEffect::new(layer, effects);
    proof {
        law_canonical_effects_are_unique(entry.effects@, listed, listed);
    }
    entry
}

/// Standard per-intent layer effects used by preview and apply.
#[must_use]
pub fn intent_effects(intent: TransformIntent) -> (entries: Vec<LayerEffect>)
    ensures
        layer_views(entries@) == standard_effects(intent),
{
    let entries: Vec<LayerEffect> = match intent {
            TransformIntent::DisplayPrecision | TransformIntent::FilterDisplay => vec![
                standard_row(
                    SemanticLayer::Target,
                    vec![TransformEffect::Preserves],
                ),
                standard_row(
                    SemanticLayer::Identification,
                    vec![TransformEffect::Preserves],
                ),
                standard_row(
                    SemanticLayer::Program,
                    vec![TransformEffect::Preserves],
                ),
                standard_row(
                    SemanticLayer::Results,
                    vec![TransformEffect::Weakens],
                ),
            ],
            TransformIntent::CompatibleDataReplace => vec![
                standard_row(
                    SemanticLayer::Target,
                    vec![TransformEffect::Preserves],
                ),
                standard_row(
                    SemanticLayer::Identification,
                    vec![TransformEffect::Preserves],
                ),
                standard_row(
                    SemanticLayer::Program,
                    vec![TransformEffect::Preserves],
                ),
                standard_row(
                    SemanticLayer::Support,
                    vec![TransformEffect::RequiresReestimation, TransformEffect::Invalidates],
                ),
                standard_row(
                    SemanticLayer::Data,
                    vec![TransformEffect::Invalidates],
                ),
                standard_row(
                    SemanticLayer::Inference,
                    vec![TransformEffect::RequiresReestimation, TransformEffect::Invalidates],
                ),
                standard_row(
                    SemanticLayer::Results,
                    vec![TransformEffect::Invalidates],
                ),
            ],
            TransformIntent::Retarget => vec![
                standard_row(
                    SemanticLayer::Target,
                    vec![TransformEffect::Invalidates],
                ),
                standard_row(
                    SemanticLayer::Identification,
                    vec![TransformEffect::Preserves],
                ),
                standard_row(
                    SemanticLayer::Program,
                    vec![TransformEffect::Invalidates],
                ),
                standard_row(
                    SemanticLayer::Support,
                    vec![TransformEffect::RequiresReestimation],
                ),
                standard_row(
                    SemanticLayer::Results,
                    vec![TransformEffect::Invalidates],
                ),
            ],
            TransformIntent::FilterPopulation | TransformIntent::NewConditionalQuery => vec![
                standard_row(
                    SemanticLayer::Target,
                    vec![TransformEffect::Invalidates],
                ),
                standard_row(
                    SemanticLayer::Identification,
                    vec![TransformEffect::RequiresReidentification],
                ),
                standard_row(
                    SemanticLayer::Program,
                    vec![TransformEffect::Invalidates],
                ),
                standard_row(
                    SemanticLayer::Results,
                    vec![TransformEffect::Invalidates],
                ),
            ],
            TransformIntent::ChangeGraph => vec![
                standard_row(
                    SemanticLayer::Target,
                    vec![TransformEffect::Preserves],
                ),
                standard_row(
                    SemanticLayer::Identification,
                    vec![TransformEffect::RequiresReidentification, TransformEffect::Invalidates],
                ),
                standard_row(
                    SemanticLayer::Program,
                    vec![TransformEffect::Invalidates],
                ),
                standard_row(
                    SemanticLayer::Results,
                    vec![TransformEffect::Invalidates],
                ),
            ],
            TransformIntent::ChangePrior => vec![
                standard_row(
                    SemanticLayer::Target,
                    vec![TransformEffect::Preserves],
                ),
                standard_row(
                    SemanticLayer::Identification,
                    vec![TransformEffect::Preserves],
                ),
                standard_row(
                    SemanticLayer::Program,
                    vec![TransformEffect::Preserves],
                ),
                standard_row(
                    SemanticLayer::Inference,
                    vec![TransformEffect::RequiresReestimation, TransformEffect::Invalidates],
                ),
                standard_row(
                    SemanticLayer::Results,
                    vec![TransformEffect::Invalidates],
                ),
            ],
            TransformIntent::ChangePhysicalPolicy => vec![
                standard_row(
                    SemanticLayer::Target,
                    vec![TransformEffect::Preserves],
                ),
                standard_row(
                    SemanticLayer::Identification,
                    vec![TransformEffect::Preserves],
                ),
                standard_row(
                    SemanticLayer::Program,
                    vec![TransformEffect::Preserves],
                ),
                standard_row(
                    SemanticLayer::Execution,
                    vec![TransformEffect::Invalidates],
                ),
            ],
            TransformIntent::AverageUnweightedClass => vec![
                standard_row(
                    SemanticLayer::Target,
                    vec![TransformEffect::Preserves],
                ),
                standard_row(
                    SemanticLayer::Identification,
                    vec![TransformEffect::Preserves, TransformEffect::Refused],
                ),
                standard_row(
                    SemanticLayer::Program,
                    vec![TransformEffect::Refused],
                ),
                standard_row(
                    SemanticLayer::Results,
                    vec![TransformEffect::Refused],
                ),
            ],
    };
    proof {
        assert(layer_views(entries@) =~~= standard_effects(intent));
    }
    entries
}

} // verus!

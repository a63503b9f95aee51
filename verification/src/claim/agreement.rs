//! What a licensed composition of claims says of the claims.
//!
//! SPDX-License-Identifier: MIT OR Apache-2.0

use crate::claim;
use crate::claim::{
    AcceptanceReport, CalibrationView, ClaimDomainAxis, ClaimEnvelope, ClaimFreshness,
    ClaimOperation, DomainStatus, HandoffReceipt,
};
use crate::identity;
use crate::identity::SemanticDigest;
use crate::provenance::ProvenanceNode;
use crate::text;
use vstd::prelude::*;

verus! {

/// Two claims observe the same thing in the same units.
pub open spec fn agree(left: ClaimEnvelope, right: ClaimEnvelope) -> bool {
    &&& left.identities.observation == right.identities.observation
    &&& text::text_of(left.outcome_units) == text::text_of(right.outcome_units)
}

/// Every claim of a list agrees with every other.
pub open spec fn all_agree(parents: Seq<&ClaimEnvelope>) -> bool {
    forall|i: int, j: int|
        0 <= i < parents.len() && 0 <= j < parents.len() ==> agree(
            *#[trigger] parents[i],
            *#[trigger] parents[j],
        )
}

/// Every claim of a list rests on one identification product.
pub open spec fn all_rest_on(parents: Seq<&ClaimEnvelope>, product: SemanticDigest) -> bool {
    forall|i: int|
        0 <= i < parents.len() ==> (#[trigger] parents[i]).identities.identification_product
            == Some(product)
}

/// Every claim of a list carries one alignment.
pub open spec fn all_carry(parents: Seq<&ClaimEnvelope>, word: Seq<char>) -> bool {
    forall|i: int|
        0 <= i < parents.len() ==> claim::claim_token(*#[trigger] parents[i]) == Some(word)
}

proof fn lemma_disagreements(parents: Seq<&ClaimEnvelope>, n: int)
    requires
        0 <= n <= parents.len(),
    ensures
        claim::disagreements(parents, n).contains("observation"@) <==> exists|i: int|
            0 <= i < n && (#[trigger] parents[i]).identities.observation
                != parents[0].identities.observation,
        claim::disagreements(parents, n).contains("outcome_units"@) <==> exists|i: int|
            0 <= i < n && text::text_of((#[trigger] parents[i]).outcome_units) != text::text_of(
                parents[0].outcome_units,
            ),
        forall|k: int|
            0 <= k < claim::disagreements(parents, n).len() ==> #[trigger] claim::disagreements(
                parents,
                n,
            )[k] == "observation"@ || claim::disagreements(parents, n)[k] == "outcome_units"@,
    decreases n,
{
    reveal_strlit("observation");
    reveal_strlit("outcome_units");
    assert("observation"@.len() == 11);
    assert("outcome_units"@.len() == 13);
    let list = claim::disagreements(parents, n);
    if n <= 1 {
        assert(list.len() == 0);
    } else {
        lemma_disagreements(parents, n - 1);
        let before = claim::disagreements(parents, n - 1);
        let last = *parents[n - 1];
        let seen = last.identities.observation != parents[0].identities.observation;
        let measured = text::text_of(last.outcome_units) != text::text_of(
            parents[0].outcome_units,
        );
        let middle = if seen {
            before.push("observation"@)
        } else {
            before
        };
        assert(forall|t: Seq<char>| #[trigger]
            before.push("observation"@).contains(t) <==> before.contains(t) || t
                == "observation"@) by {
            broadcast use vstd::seq_lib::group_seq_properties;

        }
        assert(forall|t: Seq<char>| #[trigger]
            middle.push("outcome_units"@).contains(t) <==> middle.contains(t) || t
                == "outcome_units"@) by {
            broadcast use vstd::seq_lib::group_seq_properties;

        }
        assert(list == if measured {
            middle.push("outcome_units"@)
        } else {
            middle
        });
        if seen {
            assert(parents[n - 1].identities.observation != parents[0].identities.observation);
        }
        if measured {
            assert(text::text_of(parents[n - 1].outcome_units) != text::text_of(
                parents[0].outcome_units,
            ));
        }
    }
}

proof fn lemma_no_disagreement(parents: Seq<&ClaimEnvelope>)
    ensures
        claim::disagreements(parents, parents.len() as int).len() == 0 <==> all_agree(parents),
{
    let list = claim::disagreements(parents, parents.len() as int);
    lemma_disagreements(parents, parents.len() as int);
    if list.len() == 0 {
        assert forall|i: int, j: int|
            0 <= i < parents.len() && 0 <= j < parents.len() implies agree(
            *#[trigger] parents[i],
            *#[trigger] parents[j],
        ) by {
            assert(!list.contains("observation"@));
            assert(!list.contains("outcome_units"@));
        }
    } else {
        assert(list.contains(list[0]));
        if list[0] == "observation"@ {
            let i = choose|i: int|
                0 <= i < parents.len() && (#[trigger] parents[i]).identities.observation
                    != parents[0].identities.observation;
            assert(!agree(*parents[i], *parents[0]));
        } else {
            let i = choose|i: int|
                0 <= i < parents.len() && text::text_of((#[trigger] parents[i]).outcome_units)
                    != text::text_of(parents[0].outcome_units);
            assert(!agree(*parents[i], *parents[0]));
        }
    }
}

/// Claims that are compatible for any operation observe the same thing in the same units, each
/// with each.
pub proof fn law_compatible_claims_agree(
    parents: Seq<&ClaimEnvelope>,
    operation: ClaimOperation,
    alignment: Option<Seq<char>>,
)
    requires
        claim::compatibility_of(parents, operation, alignment).compatible,
    ensures
        forall|i: int, j: int|
            0 <= i < parents.len() && 0 <= j < parents.len() ==> {
                &&& (#[trigger] parents[i]).identities.observation == (
                #[trigger] parents[j]).identities.observation
                &&& text::text_of(parents[i].outcome_units) == text::text_of(
                    parents[j].outcome_units,
                )
            },
{
    lemma_no_disagreement(parents);
    assert forall|i: int, j: int|
        0 <= i < parents.len() && 0 <= j < parents.len() implies (
    #[trigger] parents[i]).identities.observation == (#[trigger] parents[j]).identities.observation
        && text::text_of(parents[i].outcome_units) == text::text_of(parents[j].outcome_units) by {
        assert(agree(*parents[i], *parents[j]));
    }
}

/// Where a claim, at any place, differs from the first in what it observes or in its units, the
/// set is incompatible and the report names the difference, and it names a difference only
/// where there is one.
pub proof fn law_disagreements_are_reported(
    parents: Seq<&ClaimEnvelope>,
    operation: ClaimOperation,
    alignment: Option<Seq<char>>,
)
    requires
        parents.len() >= 2 || parents.len() == 1 && operation is Retarget,
        operation !is Pool,
    ensures
        claim::compatibility_of(parents, operation, alignment).unresolved.contains(
            "observation"@,
        ) <==> exists|i: int|
            0 <= i < parents.len() && (#[trigger] parents[i]).identities.observation
                != parents[0].identities.observation,
        claim::compatibility_of(parents, operation, alignment).unresolved.contains(
            "outcome_units"@,
        ) <==> exists|i: int|
            0 <= i < parents.len() && text::text_of((#[trigger] parents[i]).outcome_units)
                != text::text_of(parents[0].outcome_units),
        claim::compatibility_of(parents, operation, alignment).compatible <==>
            claim::compatibility_of(parents, operation, alignment).unresolved.len() == 0,
{
    lemma_disagreements(parents, parents.len() as int);
    let open = claim::disagreements(parents, parents.len() as int);
    reveal_strlit("observation");
    reveal_strlit("outcome_units");
    reveal_strlit("identification_product");
    reveal_strlit("alignment");
    assert("observation"@.len() == 11);
    assert("outcome_units"@.len() == 13);
    assert("identification_product"@.len() == 22);
    assert("alignment"@.len() == 9);
    assert(forall|t: Seq<char>| #[trigger]
        open.push("alignment"@).contains(t) <==> open.contains(t) || t == "alignment"@) by {
        broadcast use vstd::seq_lib::group_seq_properties;

    }
    assert(forall|t: Seq<char>| #[trigger]
        open.push("identification_product"@).contains(t) <==> open.contains(t) || t
            == "identification_product"@) by {
        broadcast use vstd::seq_lib::group_seq_properties;

    }
}

/// A set of claims is compatible exactly where there are two of them, or one to retarget, they
/// agree, and they hold what the operation asks for: a retarget one identification product, a
/// contrast or an aggregate one alignment, which is the one asked for where one is. Pooling is
/// never compatible.
pub proof fn law_compatibility_is_decided_by_the_claims(
    parents: Seq<&ClaimEnvelope>,
    operation: ClaimOperation,
    alignment: Option<Seq<char>>,
)
    ensures
        claim::compatibility_of(parents, operation, alignment).compatible <==> {
            &&& parents.len() >= 2 || parents.len() == 1 && operation is Retarget
            &&& operation !is Pool
            &&& all_agree(parents)
            &&& operation is Retarget ==> exists|product: SemanticDigest| #[trigger]
                all_rest_on(parents, product)
            &&& operation is Contrast || operation is Aggregate ==> exists|word: Seq<char>|
                #[trigger]
                all_carry(parents, word) && (claim::token_of(alignment) is None || claim::token_of(
                    alignment,
                ) == Some(word))
        },
        claim::compatibility_of(parents, operation, alignment).operation == operation,
{
    lemma_no_disagreement(parents);
    if parents.len() > 0 {
        if claim::shares_product(parents) {
            let product = parents[0].identities.identification_product->0;
            assert(all_rest_on(parents, product));
        }
        if exists|product: SemanticDigest| #[trigger] all_rest_on(parents, product) {
            assert(parents[0].identities.identification_product is Some);
            assert(claim::shares_product(parents));
        }
        if claim::alignment_licensed(parents, alignment) {
            let word = claim::claim_token(*parents[0])->0;
            assert(claim::claim_token(*parents[0]) == Some(word));
            assert(all_carry(parents, word));
        }
        if exists|word: Seq<char>| #[trigger]
            all_carry(parents, word) && (claim::token_of(alignment) is None || claim::token_of(
                alignment,
            ) == Some(word)) {
            assert(claim::claim_token(*parents[0]) is Some);
            assert(claim::first_token(parents) == claim::claim_token(*parents[0]));
            assert(claim::alignment_licensed(parents, alignment));
        }
    }
}

/// Words of an alignment.
pub open spec fn aligns(word: Seq<char>) -> bool {
    word == "joint_draws"@ || word == "covariance"@ || word == "replicate_ids"@
}

/// An alignment is declared by its word, alone or behind its prefix, and by nothing else.
pub proof fn law_alignments_are_words(word: Seq<char>, value: Seq<char>)
    ensures
        aligns(word) ==> claim::alignment_token(word) == Some(word),
        aligns(word) ==> claim::alignment_token("alignment:"@ + word) == Some(word),
        claim::alignment_token(value) matches Some(found) ==> aligns(found) && (value == found
            || value == "alignment:"@ + found),
{
    let prefix = "alignment:"@;
    reveal_strlit("alignment:");
    reveal_strlit("joint_draws");
    reveal_strlit("covariance");
    reveal_strlit("replicate_ids");
    assert(prefix[0] == 'a' && prefix.len() == 10);
    assert("joint_draws"@[0] == 'j' && "joint_draws"@.len() == 11);
    assert("covariance"@[0] == 'c' && "covariance"@.len() == 10);
    assert("replicate_ids"@[0] == 'r' && "replicate_ids"@.len() == 13);
    if aligns(word) {
        if prefix.is_prefix_of(word) {
            assert(word.take(10)[0] == prefix[0]);
        }
        assert((prefix + word).take(10) =~= prefix);
        assert(prefix.is_prefix_of(prefix + word));
        assert((prefix + word).skip(10) =~= word);
    }
    if prefix.is_prefix_of(value) {
        assert(value =~= prefix + value.skip(10));
    }
}

proof fn lemma_first_where(list: Seq<Seq<char>>, pred: spec_fn(Seq<char>) -> bool) -> (k: int)
    ensures
        match claim::first_where(list, pred) {
            Some(found) => 0 <= k < list.len() && list[k] == found && pred(found) && forall|j: int|
                0 <= j < k ==> !pred(#[trigger] list[j]),
            None => forall|j: int| 0 <= j < list.len() ==> !pred(#[trigger] list[j]),
        },
    decreases list.len(),
{
    if list.len() == 0 || pred(list[0]) {
        0
    } else {
        let rest = list.skip(1);
        let k = lemma_first_where(rest, pred);
        assert forall|j: int| 0 < j < list.len() implies #[trigger] list[j] == rest[j - 1] by {}
        k + 1
    }
}

/// A claim's alignment stands at the first item of evidence that declares one, and a claim
/// without such an item declares none.
pub proof fn law_the_first_declaration_counts(claim: ClaimEnvelope)
    ensures
        match claim::declared_alignment(claim) {
            Some(found) => exists|k: int|
                0 <= k < claim.evidence@.len() && (#[trigger] claim.evidence@[k])@ == found && (
                "alignment:"@.is_prefix_of(found) || aligns(found)) && forall|j: int|
                    0 <= j < k ==> !("alignment:"@.is_prefix_of((#[trigger] claim.evidence@[j])@)
                        || aligns(claim.evidence@[j]@)),
            None => forall|j: int|
                0 <= j < claim.evidence@.len() ==> !("alignment:"@.is_prefix_of(
                    (#[trigger] claim.evidence@[j])@,
                ) || aligns(claim.evidence@[j]@)),
        },
{
    let list = text::texts(claim.evidence@);
    let pred = |t: Seq<char>| claim::declares_alignment(t);
    let k = lemma_first_where(list, pred);
    assert forall|j: int| 0 <= j < list.len() implies #[trigger] list[j] == claim.evidence@[j]@ by {
    }
    assert forall|t: Seq<char>| #[trigger] claim::declares_alignment(t) == (
    "alignment:"@.is_prefix_of(t) || aligns(t)) by {}
    match claim::declared_alignment(claim) {
        Some(found) => {
            assert(claim.evidence@[k]@ == found);
            assert forall|j: int| 0 <= j < k implies !("alignment:"@.is_prefix_of(
                (#[trigger] claim.evidence@[j])@,
            ) || aligns(claim.evidence@[j]@)) by {
                assert(!pred(list[j]));
            }
        },
        None => {
            assert forall|j: int| 0 <= j < claim.evidence@.len() implies !(
            "alignment:"@.is_prefix_of((#[trigger] claim.evidence@[j])@) || aligns(
                claim.evidence@[j]@,
            )) by {
                assert(!pred(list[j]));
            }
        },
    }
}

/// A claim is derived only where its parents are compatible, distinct and other than itself;
/// a composition without a derived claim, or of claims that are not compatible, is refused.
pub proof fn law_derivations_have_distinct_compatible_parents(
    parents: Seq<&ClaimEnvelope>,
    operation: ClaimOperation,
    derived: Option<ClaimEnvelope>,
    alignment: Option<Seq<char>>,
    raised: Seq<bool>,
)
    ensures
        claim::composition_refusal(parents, operation, derived, alignment, raised) is None <==> {
            &&& claim::compatibility_of(parents, operation, alignment).compatible
            &&& derived matches Some(child)
            &&& claim::departure(parents, child, operation, raised) is None
            &&& forall|i: int, j: int|
                0 <= i < j < parents.len() ==> (#[trigger] parents[i]).claim_id != (
                #[trigger] parents[j]).claim_id
            &&& forall|i: int| 0 <= i < parents.len() ==> (#[trigger] parents[i]).claim_id
                != child.claim_id
        },
{
    if let Some(child) = derived {
        let ids = claim::claim_ids(parents);
        assert forall|i: int| 0 <= i < parents.len() implies #[trigger] ids[i]
            == parents[i].claim_id by {}
        if ids.contains(child.claim_id) {
            let k = choose|k: int| 0 <= k < ids.len() && ids[k] == child.claim_id;
            assert(parents[k].claim_id == child.claim_id);
        }
        if exists|i: int| 0 <= i < parents.len() && (#[trigger] parents[i]).claim_id
            == child.claim_id {
            let i = choose|i: int|
                0 <= i < parents.len() && (#[trigger] parents[i]).claim_id == child.claim_id;
            assert(ids[i] == child.claim_id);
        }
    }
}

/// A derived claim is licensed exactly where it keeps what its parents hold: premises and
/// product under a retarget, an identification slot that a parent reports, no mass beyond a
/// parent's, and no status on any axis that a parent lacks.
pub proof fn law_licensed_derivations_are_those_that_strengthen_nothing(
    parents: Seq<&ClaimEnvelope>,
    derived: ClaimEnvelope,
    operation: ClaimOperation,
    raised: Seq<bool>,
)
    ensures
        claim::departure(parents, derived, operation, raised) is None <==> {
            &&& operation is Retarget ==> forall|i: int|
                0 <= i < parents.len() ==> (#[trigger] parents[i]).identities.identification
                    == derived.identities.identification
                    && parents[i].identities.identification_product
                    == derived.identities.identification_product
            &&& forall|i: int|
                0 <= i < parents.len() ==> ((#[trigger] parents[i]).mass() matches Some(own) ==> (
                derived.mass() matches Some(mass) && (own.lt(mass) ==> !raised[i])))
            &&& derived.domains.identification.positive() ==> forall|i: int|
                0 <= i < parents.len() ==> (#[trigger] parents[i]).domains.identification
                    == derived.domains.identification
            &&& derived.domains.support.positive() ==> forall|i: int|
                0 <= i < parents.len() ==> (#[trigger] parents[i]).domains.support
                    == derived.domains.support
            &&& derived.domains.evaluated.positive() ==> forall|i: int|
                0 <= i < parents.len() ==> (#[trigger] parents[i]).domains.evaluated
                    == derived.domains.evaluated
        },
{
    assert(derived.status(ClaimDomainAxis::Identification) == derived.domains.identification);
    assert(derived.status(ClaimDomainAxis::Support) == derived.domains.support);
    assert(derived.status(ClaimDomainAxis::Evaluated) == derived.domains.evaluated);
    assert forall|i: int| 0 <= i < parents.len() implies (
    #[trigger] parents[i]).status(ClaimDomainAxis::Identification)
        == parents[i].domains.identification && parents[i].status(ClaimDomainAxis::Support)
        == parents[i].domains.support && parents[i].status(ClaimDomainAxis::Evaluated)
        == parents[i].domains.evaluated by {}
    if claim::departure(parents, derived, operation, raised) is None {
        assert forall|i: int| 0 <= i < parents.len() implies ((
        #[trigger] parents[i]).mass() matches Some(own) ==> (derived.mass() matches Some(mass) && (
        own.lt(mass) ==> !raised[i]))) by {
            assert(!claim::raises_mass(*parents[i], derived, raised[i]));
        }
    }
}

/// A status asserts something where something was identified, supported or evaluated, and
/// nothing otherwise.
pub proof fn law_only_findings_are_positive(status: DomainStatus)
    ensures
        status.positive() <==> status == DomainStatus::Identified || status
            == DomainStatus::Supported || status == DomainStatus::Evaluated,
{
}

/// A claim applies now exactly where the current snapshot is the one it was made on, nothing
/// replaced it and nobody withdrew it. Without a current snapshot its applicability is open.
/// What the receiver knows of it is reported as given.
pub proof fn law_freshness_follows_the_snapshot(
    claim: ClaimEnvelope,
    verified: Option<SemanticDigest>,
    current: SemanticDigest,
    superseded_by: Option<SemanticDigest>,
    withdrawn: bool,
    ready: bool,
)
    ensures
        ClaimFreshness::fresh(
            claim,
            verified,
            Some(current),
            superseded_by,
            withdrawn,
            ready,
        ).currently_applicable == Some(true) <==> current == claim.identities.data_snapshot
            && superseded_by is None && !withdrawn,
        ClaimFreshness::fresh(
            claim,
            verified,
            Some(current),
            superseded_by,
            withdrawn,
            ready,
        ).currently_applicable is Some,
        ClaimFreshness::fresh(
            claim,
            verified,
            None,
            superseded_by,
            withdrawn,
            ready,
        ).currently_applicable is None,
        ({
            let fresh = ClaimFreshness::fresh(
                claim,
                verified,
                Some(current),
                superseded_by,
                withdrawn,
                ready,
            );
            &&& fresh.historically_valid
            &&& fresh.locally_ready == ready
            &&& fresh.superseded_by == superseded_by
            &&& fresh.withdrawn == withdrawn
            &&& fresh.as_of_snapshot == verified
        }),
{
}

/// A receipt stands for the claim itself exactly where the same claim comes out and nothing is
/// omitted or left open; a program is verified exactly where it is recognized, its references
/// are verified and nothing is open.
pub proof fn law_nothing_open_is_overlooked(receipt: HandoffReceipt, report: AcceptanceReport)
    ensures
        receipt.equivalent() <==> receipt.omitted@.len() == 0 && receipt.unresolved@.len() == 0
            && receipt.output == Some(receipt.input),
        report.verified_program() <==> report.recognized && report.verified_references
            && report.unresolved@.len() == 0,
{
}

/// A chained handoff goes from the first input to the last output and loses whatever either
/// handoff loses; the rest is as the last handoff has it.
pub proof fn law_chained_handoffs_lose_what_either_loses(
    first: HandoffReceipt,
    next: HandoffReceipt,
    chained: HandoffReceipt,
    t: Seq<char>,
)
    requires
        first.chains(next, chained),
    ensures
        chained.input == first.input,
        chained.output == next.output,
        chained.consumer@ == next.consumer@,
        chained.rule@ == next.rule@,
        chained.retained@ == next.retained@,
        chained.unavailable_operations@ == next.unavailable_operations@,
        text::texts(chained.omitted@).contains(t) <==> text::texts(first.omitted@).contains(t)
            || text::texts(next.omitted@).contains(t),
        text::texts(chained.unresolved@).contains(t) <==> text::texts(first.unresolved@).contains(t)
            || text::texts(next.unresolved@).contains(t),
{
    text::shape::law_merging_adds_what_is_new(
        text::texts(first.omitted@),
        text::texts(next.omitted@),
    );
    text::shape::law_merging_adds_what_is_new(
        text::texts(first.unresolved@),
        text::texts(next.unresolved@),
    );
}

/// The ancestry of a derived claim has a root for every parent and then the claim itself, whose
/// parents are these roots in their order.
pub proof fn law_ancestry_has_the_parents_as_roots(
    nodes: Seq<ProvenanceNode>,
    parents: Seq<&ClaimEnvelope>,
    derived_id: SemanticDigest,
    k: int,
)
    requires
        claim::records_ancestry(nodes, parents, derived_id),
        0 <= k < parents.len(),
    ensures
        nodes.len() == parents.len() + 1,
        nodes[k].id() == identity::hex_text(parents[k].claim_id.bytes@),
        nodes[k].parent_ids().len() == 0,
        nodes.last().id() == identity::hex_text(derived_id.bytes@),
        nodes.last().parent_ids().len() == parents.len(),
        nodes.last().parent_ids()[k] == nodes[k].id(),
{
}

/// What was not executed has nothing measured: no record, no scope, no calibration and no
/// coverage.
pub proof fn law_nothing_is_measured_without_execution(slot: CalibrationView)
    requires
        slot.not_executed(),
    ensures
        slot.status@ == "unavailable"@,
        text::text_of(slot.reason) == Some("not_executed"@),
        slot.record_id is None && slot.scope_n is None && slot.scope_n_max is None
            && slot.scope_dependence is None,
        slot.calibration_sha is None && slot.nominal is None && slot.observed is None
            && slot.basis is None,
        slot.secondary@.len() == 0,
{
}

} // verus!

//! What evidence and catalogs that are accepted look like.
//!
//! SPDX-License-Identifier: MIT OR Apache-2.0

use crate::ids;
use crate::ids::{RegimeId, VariableId};
use crate::level::OrderedFloatBits;
use crate::query::error;
use crate::query::error::QueryFault;
use crate::query::evidence;
use crate::query::evidence::{
    CoordinateView, EnvironmentView, EvidenceKind, EvidenceProjection, FactorNeed, RegimeKind,
    RegimeView, VariableDomain,
};
use crate::query::transport_catalog;
use crate::query::transport_catalog::{CatalogView, UnmetDependency};
use crate::query::transport_delta;
use crate::text;
use crate::value::Value;
use vstd::prelude::*;

verus! {

/// The first of some faults is reported, and none exactly where there is none.
pub proof fn law_the_first_fault_is_reported(faults: Seq<Option<QueryFault>>)
    ensures
        error::first_fault(faults) is None <==> forall|k: int|
            0 <= k < faults.len() ==> (#[trigger] faults[k]) is None,
        error::first_fault(faults) is Some ==> exists|k: int|
            {
                &&& 0 <= k < faults.len()
                &&& #[trigger] faults[k] == error::first_fault(faults)
                &&& forall|j: int| 0 <= j < k ==> (#[trigger] faults[j]) is None
            },
    decreases faults.len(),
{
    if faults.len() > 0 {
        if faults[0] is Some {
            assert(faults[0] == error::first_fault(faults));
        } else {
            let rest = faults.skip(1);
            law_the_first_fault_is_reported(rest);
            assert forall|k: int| 0 < k < faults.len() implies #[trigger] faults[k] == rest[k
                - 1] by {}
            if error::first_fault(rest) is Some {
                let k = choose|k: int|
                    {
                        &&& 0 <= k < rest.len()
                        &&& #[trigger] rest[k] == error::first_fault(rest)
                        &&& forall|j: int| 0 <= j < k ==> (#[trigger] rest[j]) is None
                    };
                assert(faults[k + 1] == error::first_fault(faults));
                assert forall|j: int| 0 <= j < k + 1 implies (#[trigger] faults[j]) is None by {
                    if j > 0 {
                        assert(rest[j - 1] is None);
                    }
                }
            } else {
                assert forall|k: int| 0 <= k < faults.len() implies (
                #[trigger] faults[k]) is None by {
                    if k > 0 {
                        assert(rest[k - 1] is None);
                    }
                }
            }
        }
    }
}

/// An environment is accepted exactly where it has a name, names every variable and every
/// selection target once, and gives every category some value.
pub proof fn law_accepted_environments(environment: EnvironmentView)
    ensures
        environment.refusal() is None <==> {
            &&& text::trimmed(environment.identity).len() > 0
            &&& forall|j: int|
                0 <= j < environment.variables.len() ==> (
                #[trigger] environment.variables[j]).domain != (VariableDomain::Categorical {
                    cardinality: 0,
                })
            &&& forall|k: int, j: int|
                0 <= k < j < environment.variables.len() ==> (
                #[trigger] environment.variables[k]).variable != (
                #[trigger] environment.variables[j]).variable
            &&& environment.selection_targets.no_duplicates()
        },
{
    let variables = environment.variables;
    let faults = evidence::coordinate_shape_faults(variables);
    law_the_first_fault_is_reported(faults);
    assert forall|j: int| 0 <= j < variables.len() implies #[trigger] faults[j]
        == evidence::coordinate_shape_fault(variables, j) by {}
    if error::first_fault(faults) is None {
        assert forall|k: int, j: int| 0 <= k < j < variables.len() implies (
        #[trigger] variables[k]).variable != (#[trigger] variables[j]).variable by {
            assert(faults[j] is None);
        }
        assert forall|j: int| 0 <= j < variables.len() implies (
        #[trigger] variables[j]).domain != (VariableDomain::Categorical { cardinality: 0 }) by {
            assert(faults[j] is None);
        }
    } else {
        let j = choose|j: int|
            0 <= j < faults.len() && #[trigger] faults[j] == error::first_fault(faults);
        assert(evidence::coordinate_shape_fault(variables, j) is Some);
    }
}

/// A regime is accepted exactly where it has a population, lists nothing twice, intervenes if and
/// only if it is an experiment, has marginals only of what it measures, and fixes each
/// intervened variable at most once and at a finite value.
pub proof fn law_accepted_regimes(regime: RegimeView)
    ensures
        regime.refusal() is None <==> {
            &&& text::trimmed(regime.population).len() > 0
            &&& regime.interventions.no_duplicates()
            &&& regime.measured.no_duplicates()
            &&& regime.kind == RegimeKind::Experimental <==> regime.interventions.len() > 0
            &&& regime.marginals matches Some(variables) ==> variables.no_duplicates() && forall|
                v: VariableId,
            | #[trigger] variables.contains(v) ==> regime.measured.contains(v)
            &&& forall|j: int|
                0 <= j < regime.intervention_values.len() ==> {
                    let assignment = #[trigger] regime.intervention_values[j];
                    &&& regime.interventions.contains(assignment.variable)
                    &&& assignment.value matches Value::Float64(v) ==> v.finite()
                }
            &&& forall|k: int, j: int|
                0 <= k < j < regime.intervention_values.len() ==> (
                #[trigger] regime.intervention_values[k]).variable != (
                #[trigger] regime.intervention_values[j]).variable
        },
{
    assert(regime.kind is Experimental || regime.kind is Observational);
    let values = regime.intervention_values;
    if regime.refusal() is None {
        assert forall|j: int| 0 <= j < values.len() implies !regime.bad_assignment(j) by {}
        assert forall|k: int, j: int| 0 <= k < j < values.len() implies (
        #[trigger] values[k]).variable != (#[trigger] values[j]).variable by {
            assert(!regime.bad_assignment(j));
        }
        assert forall|j: int| 0 <= j < values.len() implies {
            let assignment = #[trigger] values[j];
            &&& regime.interventions.contains(assignment.variable)
            &&& assignment.value matches Value::Float64(v) ==> v.finite()
        } by {
            assert(!regime.bad_assignment(j));
        }
        if let Some(variables) = regime.marginals {
            assert forall|v: VariableId| #[trigger] variables.contains(
                v,
            ) implies regime.measured.contains(v) by {
                let i = choose|i: int| 0 <= i < variables.len() && variables[i] == v;
                assert(regime.measured.contains(variables[i]));
            }
        }
    } else {
        if exists|j: int| 0 <= j < values.len() && #[trigger] regime.bad_assignment(j) {
            let j = choose|j: int| 0 <= j < values.len() && #[trigger] regime.bad_assignment(j);
            assert(values[j] == regime.intervention_values[j]);
        }
        if let Some(variables) = regime.marginals {
            if exists|i: int|
                0 <= i < variables.len() && !regime.measured.contains(#[trigger] variables[i]) {
                let i = choose|i: int|
                    0 <= i < variables.len() && !regime.measured.contains(#[trigger] variables[i]);
                assert(variables.contains(variables[i]));
            }
        }
    }
}

/// Results supply a factor exactly where they exist, for the factor's population, under exactly
/// the factor's interventions and none fixed at a value; where every variable that the factor
/// reads was measured or intervened on, jointly unless it reads one alone; and where nothing was
/// conditioned on but what the factor conditions on.
pub proof fn law_what_supplies_a_factor(regime: RegimeView, need: FactorNeed)
    ensures
        regime.supplies(need) <==> {
            &&& regime.evidence_kind == EvidenceKind::Available
            &&& regime.population == need.population@
            &&& regime.interventions.to_multiset() == need.interventions@.to_multiset()
            &&& regime.intervention_values.len() == 0
            &&& forall|v: VariableId|
                #![trigger need.variables@.contains(v)]
                #![trigger need.conditioned_on@.contains(v)]
                need.variables@.contains(v) || need.conditioned_on@.contains(v)
                    ==> regime.measured.contains(v) || regime.interventions.contains(v)
            &&& forall|v: VariableId| #[trigger]
                regime.conditioned_on.contains(v) ==> need.conditioned_on@.contains(v)
                    && !need.variables@.contains(v)
            &&& regime.marginals matches Some(variables) ==> {
                &&& forall|v: VariableId, w: VariableId|
                    #[trigger] need.reads(v) && #[trigger] need.reads(w) ==> v == w
                &&& forall|v: VariableId| #[trigger]
                    need.reads(v) ==> variables.contains(v) || regime.interventions.contains(v)
            }
        },
        forall|v: VariableId| #[trigger]
            need.reads(v) <==> need.variables@.contains(v) || need.conditioned_on@.contains(v),
{
    let on = regime.conditioned_on;
    if regime.supplies(need) {
        assert forall|v: VariableId| #[trigger] on.contains(
            v,
        ) implies need.conditioned_on@.contains(v) && !need.variables@.contains(v) by {
            let i = choose|i: int| 0 <= i < on.len() && on[i] == v;
            assert(need.conditioned_on@.contains(on[i]));
        }
        assert forall|v: VariableId|
            #![trigger need.variables@.contains(v)]
            #![trigger need.conditioned_on@.contains(v)]
            need.variables@.contains(v) || need.conditioned_on@.contains(v)
                implies regime.measured.contains(v) || regime.interventions.contains(v) by {
            assert(need.reads(v));
        }
    }
    assert forall|i: int| 0 <= i < on.len() implies on.contains(#[trigger] on[i]) by {}
}

/// What a domain takes: anything where it is not specified; a finite number on a line; zero or
/// one where it is binary; whole numbers from zero on, up to the number of categories where
/// there is one. Labels are taken only where the domain is not specified.
pub proof fn law_domains_take_their_values(number: i64, index: u32, flag: bool, cardinality: u32)
    ensures
        VariableDomain::Unspecified.holds(Value::Int64(number)),
        VariableDomain::Continuous.holds(Value::Int64(number)),
        VariableDomain::Binary.holds(Value::Int64(number)) <==> number == 0 || number == 1,
        VariableDomain::Count.holds(Value::Int64(number)) <==> number >= 0,
        (VariableDomain::Categorical { cardinality }).holds(Value::Int64(number)) <==> 0 <= number
            < cardinality,
        VariableDomain::Binary.holds(Value::Bool(flag)),
        VariableDomain::Count.holds(Value::Bool(flag)),
        (VariableDomain::Categorical { cardinality }).holds(Value::Bool(flag)) <==> cardinality > 1
            || cardinality == 1 && !flag,
        VariableDomain::Binary.holds(Value::Category(index)) <==> index == 0 || index == 1,
        VariableDomain::Count.holds(Value::Category(index)),
        (VariableDomain::Categorical { cardinality }).holds(Value::Category(index)) <==> index
            < cardinality,
{
}

/// Of floats a line takes the finite ones, a binary domain those equal to zero or one, a count
/// the whole ones from zero on, and categories those of them below their number.
pub proof fn law_domains_take_their_floats(v: OrderedFloatBits, cardinality: u32)
    ensures
        VariableDomain::Unspecified.holds(Value::Float64(v)),
        VariableDomain::Continuous.holds(Value::Float64(v)) <==> v.finite(),
        VariableDomain::Binary.holds(Value::Float64(v)) <==> v.numeric_eq(
            OrderedFloatBits { bits: 0 },
        ) || v.numeric_eq(OrderedFloatBits { bits: 0x3FF0_0000_0000_0000 }),
        VariableDomain::Count.holds(Value::Float64(v)) <==> (OrderedFloatBits { bits: 0 }).le(v)
            && v.integral(),
        (VariableDomain::Categorical { cardinality }).holds(Value::Float64(v)) <==> (
        OrderedFloatBits { bits: 0 }).le(v) && v.integral() && v.whole() < cardinality,
{
}

/// Domains fit together exactly where they are one or either is left open, in both directions.
pub proof fn law_domains_fit_together(left: VariableDomain, right: VariableDomain)
    ensures
        left.compatible(right) <==> left == right || left == VariableDomain::Unspecified || right
            == VariableDomain::Unspecified,
        left.compatible(right) == right.compatible(left),
{
}

/// Declarations of one variable agree where both say something.
pub open spec fn declarations_agree(a: CoordinateView, b: CoordinateView) -> bool {
    a.variable == b.variable ==> {
        &&& a.domain is Unspecified || b.domain is Unspecified || a.domain == b.domain
        &&& a.unit is None || b.unit is None || a.unit == b.unit
    }
}

/// Declarations agree, each with each.
pub open spec fn all_declarations_agree(listed: Seq<CoordinateView>) -> bool {
    forall|i: int, j: int|
        0 <= i < listed.len() && 0 <= j < listed.len() ==> declarations_agree(
            #[trigger] listed[i],
            #[trigger] listed[j],
        )
}

proof fn lemma_settled(listed: Seq<CoordinateView>, v: VariableId)
    requires
        all_declarations_agree(listed),
    ensures
        forall|i: int|
            0 <= i < listed.len() && (#[trigger] listed[i]).variable == v
                && !(listed[i].domain is Unspecified) ==> transport_catalog::settled_domain(
                listed,
                v,
            ) == listed[i].domain,
        forall|i: int|
            0 <= i < listed.len() && (#[trigger] listed[i]).variable == v && listed[i].unit is Some
                ==> transport_catalog::settled_unit(listed, v) == listed[i].unit,
        !(transport_catalog::settled_domain(listed, v) is Unspecified) ==> exists|i: int|
            0 <= i < listed.len() && (#[trigger] listed[i]).variable == v && listed[i].domain
                == transport_catalog::settled_domain(listed, v),
        transport_catalog::settled_unit(listed, v) is Some ==> exists|i: int|
            0 <= i < listed.len() && (#[trigger] listed[i]).variable == v && listed[i].unit
                == transport_catalog::settled_unit(listed, v),
    decreases listed.len(),
{
    if listed.len() > 0 {
        let rest = listed.drop_last();
        let n = listed.len() - 1;
        assert forall|i: int, j: int|
            0 <= i < rest.len() && 0 <= j < rest.len() implies declarations_agree(
            #[trigger] rest[i],
            #[trigger] rest[j],
        ) by {
            assert(declarations_agree(listed[i], listed[j]));
        }
        lemma_settled(rest, v);
        let domain = transport_catalog::settled_domain(rest, v);
        let unit = transport_catalog::settled_unit(rest, v);
        assert(listed.last() == listed[n]);
        assert forall|i: int|
            0 <= i < listed.len() && (#[trigger] listed[i]).variable == v
                && !(listed[i].domain is Unspecified) implies transport_catalog::settled_domain(
            listed,
            v,
        ) == listed[i].domain by {
            if i < n {
                assert(rest[i] == listed[i]);
            } else if !(domain is Unspecified) {
                let k = choose|k: int|
                    0 <= k < rest.len() && (#[trigger] rest[k]).variable == v && rest[k].domain
                        == domain;
                assert(declarations_agree(listed[k], listed[n]));
            }
        }
        assert forall|i: int|
            0 <= i < listed.len() && (#[trigger] listed[i]).variable == v
                && listed[i].unit is Some implies transport_catalog::settled_unit(listed, v)
            == listed[i].unit by {
            if i < n {
                assert(rest[i] == listed[i]);
            } else if unit is Some {
                let k = choose|k: int|
                    0 <= k < rest.len() && (#[trigger] rest[k]).variable == v && rest[k].unit
                        == unit;
                assert(declarations_agree(listed[k], listed[n]));
            }
        }
        if !(transport_catalog::settled_domain(listed, v) is Unspecified) {
            if domain is Unspecified {
                assert(listed[n].domain == transport_catalog::settled_domain(listed, v));
            } else {
                let k = choose|k: int|
                    0 <= k < rest.len() && (#[trigger] rest[k]).variable == v && rest[k].domain
                        == domain;
                assert(listed[k].variable == v);
            }
        }
        if transport_catalog::settled_unit(listed, v) is Some {
            if unit is None {
                assert(listed[n].unit == transport_catalog::settled_unit(listed, v));
            } else {
                let k = choose|k: int|
                    0 <= k < rest.len() && (#[trigger] rest[k]).variable == v && rest[k].unit
                        == unit;
                assert(listed[k].variable == v);
            }
        }
    }
}

proof fn lemma_one_more(earlier: Seq<CoordinateView>, coordinate: CoordinateView)
    requires
        all_declarations_agree(earlier),
        transport_catalog::coordinate_fault(earlier, coordinate) is None,
    ensures
        all_declarations_agree(earlier.push(coordinate)),
{
    let all = earlier.push(coordinate);
    let v = coordinate.variable;
    lemma_settled(earlier, v);
    assert forall|i: int| 0 <= i < earlier.len() implies declarations_agree(
        #[trigger] earlier[i],
        coordinate,
    ) by {}
    assert forall|i: int, j: int|
        0 <= i < all.len() && 0 <= j < all.len() implies declarations_agree(
        #[trigger] all[i],
        #[trigger] all[j],
    ) by {
        let n = earlier.len() as int;
        if i < n && j < n {
            assert(declarations_agree(earlier[i], earlier[j]));
        } else if i < n {
            assert(declarations_agree(earlier[i], coordinate));
        } else if j < n {
            assert(declarations_agree(earlier[j], coordinate));
        }
    }
}

proof fn lemma_more(earlier: Seq<CoordinateView>, variables: Seq<CoordinateView>, k: nat)
    requires
        all_declarations_agree(earlier),
        k <= variables.len(),
        error::first_fault(transport_catalog::coordinate_faults(earlier, variables)) is None,
    ensures
        all_declarations_agree(earlier + variables.take(k as int)),
    decreases k,
{
    if k == 0 {
        assert(earlier + variables.take(0) =~= earlier);
    } else {
        lemma_more(earlier, variables, (k - 1) as nat);
        let faults = transport_catalog::coordinate_faults(earlier, variables);
        law_the_first_fault_is_reported(faults);
        assert(faults[k - 1] is None);
        let before = earlier + variables.take(k - 1);
        lemma_one_more(before, variables[k - 1]);
        assert(before.push(variables[k - 1]) =~= earlier + variables.take(k as int));
    }
}

proof fn lemma_environments(environments: Seq<EnvironmentView>, k: nat)
    requires
        k <= environments.len(),
        error::first_fault(transport_catalog::environment_faults(environments)) is None,
    ensures
        all_declarations_agree(transport_catalog::declared(environments.take(k as int))),
    decreases k,
{
    let first = environments.take(k as int);
    if k == 0 {
        assert(transport_catalog::declared(first).len() == 0);
    } else {
        lemma_environments(environments, (k - 1) as nat);
        let faults = transport_catalog::environment_faults(environments);
        law_the_first_fault_is_reported(faults);
        assert(faults[k - 1] is None);
        let variables = environments[k - 1].variables;
        let earlier = transport_catalog::declared(environments.take(k - 1));
        lemma_more(earlier, variables, variables.len());
        assert(variables.take(variables.len() as int) =~= variables);
        assert(first.drop_last() =~= environments.take(k - 1));
        assert(first.last() == environments[k - 1]);
    }
}

proof fn lemma_declared(environments: Seq<EnvironmentView>, k: int, j: int) -> (place: int)
    requires
        0 <= k < environments.len(),
        0 <= j < environments[k].variables.len(),
    ensures
        0 <= place < transport_catalog::declared(environments).len(),
        transport_catalog::declared(environments)[place] == environments[k].variables[j],
    decreases environments.len(),
{
    let rest = environments.drop_last();
    let before = transport_catalog::declared(rest);
    if k == environments.len() - 1 {
        before.len() + j
    } else {
        lemma_declared(rest, k, j)
    }
}

/// In an accepted catalog environments are accepted and named apart, and where any two of them
/// declare one variable, the domains and the units that they state for it are the same.
pub proof fn law_accepted_catalogs_agree_on_variables(
    catalog: CatalogView,
    k: int,
    j: int,
    l: int,
    m: int,
)
    requires
        catalog.refusal() is None,
        0 <= k < catalog.environments.len(),
        0 <= j < catalog.environments[k].variables.len(),
        0 <= l < catalog.environments.len(),
        0 <= m < catalog.environments[l].variables.len(),
    ensures
        catalog.environments[k].refusal() is None,
        k != l ==> catalog.environments[k].identity != catalog.environments[l].identity,
        ({
            let a = catalog.environments[k].variables[j];
            let b = catalog.environments[l].variables[m];
            a.variable == b.variable ==> {
                &&& a.domain == VariableDomain::Unspecified || b.domain
                    == VariableDomain::Unspecified || a.domain == b.domain
                &&& a.unit is None || b.unit is None || a.unit == b.unit
            }
        }),
{
    let environments = catalog.environments;
    let faults = transport_catalog::environment_faults(environments);
    law_the_first_fault_is_reported(faults);
    assert(faults[k] is None);
    assert(faults[l] is None);
    lemma_environments(environments, environments.len());
    assert(environments.take(environments.len() as int) =~= environments);
    let listed = transport_catalog::declared(environments);
    let p = lemma_declared(environments, k, j);
    let q = lemma_declared(environments, l, m);
    assert(declarations_agree(listed[p], listed[q]));
    if k < l {
        assert(environments[k].identity != environments[l].identity);
    } else if l < k {
        assert(environments[l].identity != environments[k].identity);
    }
}

/// Some environment of a catalog declares a variable.
pub open spec fn is_declared(catalog: CatalogView, v: VariableId) -> bool {
    exists|k: int, j: int|
        0 <= k < catalog.environments.len() && 0 <= j < catalog.environments[k].variables.len()
            && (#[trigger] catalog.environments[k].variables[j]).variable == v
}

proof fn lemma_declares(environments: Seq<EnvironmentView>, v: VariableId)
    ensures
        transport_catalog::declares(transport_catalog::declared(environments), v) <==> exists|
            k: int,
            j: int,
        |
            0 <= k < environments.len() && 0 <= j < environments[k].variables.len() && (
            #[trigger] environments[k].variables[j]).variable == v,
    decreases environments.len(),
{
    let listed = transport_catalog::declared(environments);
    if exists|k: int, j: int|
        0 <= k < environments.len() && 0 <= j < environments[k].variables.len() && (
        #[trigger] environments[k].variables[j]).variable == v {
        let (k, j) = choose|k: int, j: int|
            0 <= k < environments.len() && 0 <= j < environments[k].variables.len() && (
            #[trigger] environments[k].variables[j]).variable == v;
        let p = lemma_declared(environments, k, j);
        assert(listed[p].variable == v);
    }
    if environments.len() > 0 {
        let rest = environments.drop_last();
        lemma_declares(rest, v);
        let before = transport_catalog::declared(rest);
        let last = environments.len() - 1;
        if transport_catalog::declares(listed, v) {
            let p = choose|p: int| 0 <= p < listed.len() && (#[trigger] listed[p]).variable == v;
            if p < before.len() {
                assert(before[p].variable == v);
                let (k, j) = choose|k: int, j: int|
                    0 <= k < rest.len() && 0 <= j < rest[k].variables.len() && (
                    #[trigger] rest[k].variables[j]).variable == v;
                assert(environments[k].variables[j].variable == v);
            } else {
                assert(environments[last].variables[p - before.len()].variable == v);
            }
        }
    }
}

/// In an accepted catalog every regime is accepted, has an id and, where it has one, a label of
/// its own, and conditions only on what it measures, on nothing twice. Where the catalog declares
/// environments, a regime's population is one of them and the variables that it measures or
/// intervenes on are declared.
pub proof fn law_accepted_catalogs_declare_their_regimes(catalog: CatalogView, i: int, k: int)
    requires
        catalog.refusal() is None,
        0 <= i < catalog.regimes.len(),
        0 <= k < catalog.regimes.len(),
    ensures
        catalog.regimes[i].refusal() is None,
        i != k ==> catalog.regimes[i].id != catalog.regimes[k].id,
        i != k && catalog.regimes[i].label is Some ==> catalog.regimes[i].label
            != catalog.regimes[k].label,
        catalog.regimes[i].label matches Some(label) ==> text::trimmed(label).len() > 0,
        catalog.regimes[i].conditioned_on.no_duplicates(),
        forall|v: VariableId| #[trigger]
            catalog.regimes[i].conditioned_on.contains(v) ==> catalog.regimes[i].measured.contains(
                v,
            ),
        catalog.environments.len() > 0 ==> exists|e: int|
            0 <= e < catalog.environments.len() && (#[trigger] catalog.environments[e]).identity
                == catalog.regimes[i].population,
        catalog.environments.len() > 0 ==> forall|v: VariableId|
            #![trigger catalog.regimes[i].measured.contains(v)]
            #![trigger catalog.regimes[i].interventions.contains(v)]
            catalog.regimes[i].measured.contains(v) || catalog.regimes[i].interventions.contains(v)
                ==> is_declared(catalog, v),
{
    let faults = catalog.regime_faults();
    law_the_first_fault_is_reported(faults);
    assert(faults[i] is None);
    assert(faults[k] is None);
    let regime = catalog.regimes[i];
    assert(!catalog.bad_label(i));
    assert(!catalog.bad_label(k));
    if i < k {
        assert(catalog.regimes[i].id != catalog.regimes[k].id);
    } else if k < i {
        assert(catalog.regimes[k].id != catalog.regimes[i].id);
    }
    let on = regime.conditioned_on;
    assert forall|v: VariableId| #[trigger] on.contains(v) implies regime.measured.contains(v) by {
        let j = choose|j: int| 0 <= j < on.len() && on[j] == v;
        assert(regime.measured.contains(on[j]));
    }
    if catalog.environments.len() > 0 {
        assert forall|v: VariableId|
            #![trigger catalog.regimes[i].measured.contains(v)]
            #![trigger catalog.regimes[i].interventions.contains(v)]
            catalog.regimes[i].measured.contains(v) || catalog.regimes[i].interventions.contains(v)
                implies is_declared(catalog, v) by {
            lemma_declares(catalog.environments, v);
            if regime.measured.contains(v) {
                let j = choose|j: int| 0 <= j < regime.measured.len() && regime.measured[j] == v;
                assert(transport_catalog::declares(
                    transport_catalog::declared(catalog.environments),
                    regime.measured[j],
                ));
            } else {
                let j = choose|j: int|
                    0 <= j < regime.interventions.len() && regime.interventions[j] == v;
                assert(transport_catalog::declares(
                    transport_catalog::declared(catalog.environments),
                    regime.interventions[j],
                ));
            }
        }
    }
}

/// In an accepted catalog a value that a regime fixes lies in every domain that an environment
/// declares for its variable.
pub proof fn law_accepted_values_lie_in_their_domains(
    catalog: CatalogView,
    i: int,
    j: int,
    k: int,
    m: int,
)
    requires
        catalog.refusal() is None,
        0 <= i < catalog.regimes.len(),
        0 <= j < catalog.regimes[i].intervention_values.len(),
        0 <= k < catalog.environments.len(),
        0 <= m < catalog.environments[k].variables.len(),
        catalog.environments[k].variables[m].variable
            == catalog.regimes[i].intervention_values[j].variable,
    ensures
        catalog.environments[k].variables[m].domain.holds(
            catalog.regimes[i].intervention_values[j].value,
        ),
{
    let faults = catalog.regime_faults();
    law_the_first_fault_is_reported(faults);
    assert(faults[i] is None);
    let environments = catalog.environments;
    lemma_environments(environments, environments.len());
    assert(environments.take(environments.len() as int) =~= environments);
    let listed = transport_catalog::declared(environments);
    let v = catalog.regimes[i].intervention_values[j].variable;
    let p = lemma_declared(environments, k, m);
    lemma_settled(listed, v);
    assert(!catalog.off_domain(i));
    assert(listed[p].variable == v);
    assert(transport_catalog::settled_domain(
        listed,
        catalog.regimes[i].intervention_values[j].variable,
    ).holds(catalog.regimes[i].intervention_values[j].value));
}

/// In an accepted catalog a binding names a regime whose results exist, no two bindings name one
/// regime, and weights were written for the binding's own snapshot.
pub proof fn law_accepted_catalogs_bind_available_regimes(catalog: CatalogView, i: int, k: int)
    requires
        catalog.refusal() is None,
        0 <= i < catalog.bindings.len(),
        0 <= k < catalog.bindings.len(),
    ensures
        i != k ==> catalog.bindings[i].regime != catalog.bindings[k].regime,
        text::trimmed(catalog.bindings[i].snapshot_identity).len() > 0,
        catalog.bindings[i].dataset_identity matches Some(id) ==> text::trimmed(id).len() > 0,
        catalog.bindings[i].schema_names.no_duplicates(),
        catalog.bindings[i].weights matches Some(snapshot) ==> snapshot
            == catalog.bindings[i].snapshot_identity,
        exists|r: int|
            0 <= r < catalog.regimes.len() && (#[trigger] catalog.regimes[r]).id
                == catalog.bindings[i].regime && catalog.regimes[r].evidence_kind
                == EvidenceKind::Available,
{
    let faults = catalog.binding_faults();
    law_the_first_fault_is_reported(faults);
    assert(faults[i] is None);
    assert(faults[k] is None);
    assert(!catalog.malformed_binding(i));
    assert(!catalog.malformed_binding(k));
    if i < k {
        assert(catalog.bindings[i].regime != catalog.bindings[k].regime);
    } else if k < i {
        assert(catalog.bindings[k].regime != catalog.bindings[i].regime);
    }
    lemma_found(catalog.regimes, catalog.bindings[i].regime);
}

proof fn lemma_found(regimes: Seq<RegimeView>, id: RegimeId)
    ensures
        match transport_catalog::find_regime(regimes, id) {
            Some(found) => exists|r: int|
                0 <= r < regimes.len() && #[trigger] regimes[r] == found && found.id == id
                    && forall|q: int| 0 <= q < r ==> (#[trigger] regimes[q]).id != id,
            None => forall|r: int| 0 <= r < regimes.len() ==> (#[trigger] regimes[r]).id != id,
        },
    decreases regimes.len(),
{
    if regimes.len() > 0 {
        let rest = regimes.skip(1);
        lemma_found(rest, id);
        if regimes[0].id == id {
            assert(regimes[0] == transport_catalog::find_regime(regimes, id)->0);
        } else if transport_catalog::find_regime(rest, id) is Some {
            let found = transport_catalog::find_regime(rest, id)->0;
            let r = choose|r: int|
                0 <= r < rest.len() && #[trigger] rest[r] == found && found.id == id && forall|
                    q: int,
                | 0 <= q < r ==> (#[trigger] rest[q]).id != id;
            assert(regimes[r + 1] == found);
            assert forall|q: int| 0 <= q < r + 1 implies (#[trigger] regimes[q]).id != id by {
                if q > 0 {
                    assert(rest[q - 1].id != id);
                }
            }
        } else {
            assert forall|r: int| 0 <= r < regimes.len() implies (
            #[trigger] regimes[r]).id != id by {
                if r > 0 {
                    assert(rest[r - 1].id != id);
                }
            }
        }
    }
}

/// A variable counts as experimented on in a population exactly where results of an experiment
/// in that population exist that intervened on it.
pub proof fn law_experiments_are_those_with_results(
    catalog: CatalogView,
    population: Seq<char>,
    v: VariableId,
)
    ensures
        catalog.experimented(population, v) <==> exists|k: int|
            {
                &&& 0 <= k < catalog.regimes.len()
                &&& (#[trigger] catalog.regimes[k]).interventions.contains(v)
                &&& catalog.regimes[k].population == population
                &&& catalog.regimes[k].kind == RegimeKind::Experimental
                &&& catalog.regimes[k].evidence_kind == EvidenceKind::Available
            },
{
}

proof fn lemma_without(list: Seq<VariableId>, dropped: Seq<VariableId>, v: VariableId)
    ensures
        ids::without(list, dropped).contains(v) <==> list.contains(v) && !dropped.contains(v),
    decreases list.len(),
{
    if list.len() > 0 {
        let rest = list.drop_last();
        lemma_without(rest, dropped, v);
        let before = ids::without(rest, dropped);
        let last = list.last();
        assert(list[list.len() - 1] == last);
        if rest.contains(v) {
            let i = choose|i: int| 0 <= i < rest.len() && rest[i] == v;
            assert(list[i] == v);
        }
        if list.contains(v) && v != last {
            let i = choose|i: int| 0 <= i < list.len() && list[i] == v;
            assert(rest[i] == v);
        }
        if !dropped.contains(last) {
            let after = before.push(last);
            if before.contains(v) {
                let i = choose|i: int| 0 <= i < before.len() && before[i] == v;
                assert(after[i] == v);
            }
            assert(after[before.len() as int] == last);
            if after.contains(v) && v != last {
                let i = choose|i: int| 0 <= i < after.len() && after[i] == v;
                assert(before[i] == v);
            }
        }
    }
}

/// Marginalizing drops exactly the listed variables from what was measured and from the
/// marginals, and nothing else changes; a variable that was not measured, or that was
/// conditioned on, cannot be dropped.
pub proof fn law_marginalizing_drops_what_is_listed(
    regime: RegimeView,
    drop: Vec<VariableId>,
    out: RegimeView,
    v: VariableId,
)
    requires
        evidence::projects_to(regime, EvidenceProjection::Marginalize { drop }, out),
    ensures
        out.measured.contains(v) <==> regime.measured.contains(v) && !drop@.contains(v),
        out.marginals is Some <==> regime.marginals is Some,
        out.marginals matches Some(kept) ==> (kept.contains(v) <==> regime.marginals->0.contains(v)
            && !drop@.contains(v)),
        out == (RegimeView { measured: out.measured, marginals: out.marginals, ..regime }),
        evidence::projection_refusal(regime, EvidenceProjection::Marginalize { drop }) is None <==> (
        forall|w: VariableId| #[trigger]
            drop@.contains(w) ==> regime.measured.contains(w) && !regime.conditioned_on.contains(
                w,
            )),
{
    lemma_without(regime.measured, drop@, v);
    if let Some(variables) = regime.marginals {
        lemma_without(variables, drop@, v);
    }
    let list = drop@;
    assert forall|i: int| 0 <= i < list.len() implies list.contains(#[trigger] list[i]) by {}
    if evidence::projection_refusal(regime, EvidenceProjection::Marginalize { drop }) is None {
        assert forall|w: VariableId| #[trigger] list.contains(w) implies regime.measured.contains(w)
            && !regime.conditioned_on.contains(w) by {
            let i = choose|i: int| 0 <= i < list.len() && list[i] == w;
            assert(regime.measured.contains(list[i]));
            assert(!regime.conditioned_on.contains(list[i]));
        }
    }
}

/// Conditioning adds the listed variables to what was conditioned on and changes nothing else;
/// it needs a joint law and measured variables. Taking an intervention back is never allowed.
pub proof fn law_conditioning_adds_what_is_listed(
    regime: RegimeView,
    on: Vec<VariableId>,
    out: RegimeView,
    v: VariableId,
)
    requires
        evidence::projects_to(regime, EvidenceProjection::Condition { on }, out),
    ensures
        out.conditioned_on.contains(v) <==> regime.conditioned_on.contains(v) || on@.contains(v),
        out == (RegimeView { conditioned_on: out.conditioned_on, ..regime }),
        forall|i: int, j: int|
            0 <= i < j < out.conditioned_on.len() ==> (#[trigger] out.conditioned_on[i]).raw < (
            #[trigger] out.conditioned_on[j]).raw,
        evidence::projection_refusal(regime, EvidenceProjection::Condition { on }) is None <==> (
        on@.len() == 0 || regime.marginals is None) && forall|w: VariableId| #[trigger]
            on@.contains(w) ==> regime.measured.contains(w),
{
    let list = on@;
    assert forall|i: int| 0 <= i < list.len() implies list.contains(#[trigger] list[i]) by {}
    if evidence::projection_refusal(regime, EvidenceProjection::Condition { on }) is None {
        assert forall|w: VariableId| #[trigger] list.contains(w) implies regime.measured.contains(
            w,
        ) by {
            let i = choose|i: int| 0 <= i < list.len() && list[i] == w;
            assert(regime.measured.contains(list[i]));
        }
    }
}

/// A delta is accepted exactly where every regime it adds is a proposal with an id that neither
/// the catalog nor another proposal has, and the catalog with the proposals is accepted.
pub proof fn law_deltas_add_new_proposals(base: CatalogView, proposed: Seq<RegimeView>)
    ensures
        transport_delta::delta_refusal(base, proposed) is None <==> {
            &&& forall|i: int|
                0 <= i < proposed.len() ==> (#[trigger] proposed[i]).evidence_kind
                    == EvidenceKind::Proposed
            &&& forall|i: int, k: int|
                0 <= i < proposed.len() && 0 <= k < base.regimes.len() ==> (
                #[trigger] proposed[i]).id != (#[trigger] base.regimes[k]).id
            &&& forall|i: int, k: int|
                0 <= k < i < proposed.len() ==> (#[trigger] proposed[k]).id != (
                #[trigger] proposed[i]).id
            &&& (CatalogView { regimes: base.regimes + proposed, ..base }).refusal() is None
        },
{
    if exists|i: int|
        0 <= i < proposed.len() && #[trigger] transport_delta::improper_proposal(
            base,
            proposed,
            i,
        ) {
        let i = choose|i: int|
            0 <= i < proposed.len() && #[trigger] transport_delta::improper_proposal(
                base,
                proposed,
                i,
            );
        assert(proposed[i] == proposed[i]);
    } else {
        assert forall|i: int| 0 <= i < proposed.len() implies (
        #[trigger] proposed[i]).evidence_kind == EvidenceKind::Proposed by {
            assert(!transport_delta::improper_proposal(base, proposed, i));
        }
        assert forall|i: int, k: int|
            0 <= i < proposed.len() && 0 <= k < base.regimes.len() implies (
        #[trigger] proposed[i]).id != (#[trigger] base.regimes[k]).id by {
            assert(!transport_delta::improper_proposal(base, proposed, i));
        }
        assert forall|i: int, k: int| 0 <= k < i < proposed.len() implies (
        #[trigger] proposed[k]).id != (#[trigger] proposed[i]).id by {
            assert(!transport_delta::improper_proposal(base, proposed, i));
        }
    }
}

/// Every need that a catalog does not meet is reported, by its id and with the variables it
/// reads, once and in the order of ids; nothing else is reported.
pub proof fn law_unmet_needs_are_reported(
    catalog: CatalogView,
    needed: Seq<(String, FactorNeed)>,
    report: Seq<UnmetDependency>,
    from: Seq<int>,
    i: int,
    j: int,
    k: int,
)
    requires
        catalog.reports(needed, report, from),
    ensures
        0 <= i < needed.len() && !catalog.meets(needed[i].1) ==> exists|at: int|
            0 <= at < report.len() && from[at] == i && (#[trigger] report[at]).factor_id@
                == needed[i].0@,
        0 <= j < report.len() ==> 0 <= from[j] < needed.len() && !catalog.meets(needed[from[j]].1)
            && report[j].factor_id@ == needed[from[j]].0@ && forall|v: VariableId| #[trigger]
            report[j].variables@.contains(v) <==> needed[from[j]].1.reads(v),
        0 <= j < report.len() ==> report[j].reason@ == "transport.missing_evidence"@,
        0 <= j < k < report.len() ==> from[j] != from[k] && !text::text_lt(
            report[k].factor_id@,
            report[j].factor_id@,
        ),
{
    if 0 <= i < needed.len() && !catalog.meets(needed[i].1) {
        assert(from.contains(i));
        let at = choose|at: int| 0 <= at < from.len() && from[at] == i;
        assert(report[at].factor_id@ == needed[i].0@);
    }
    if 0 <= j < report.len() {
        assert(from.contains(from[j]));
        assert(report[j].factor_id@ == needed[from[j]].0@);
    }
    if 0 <= j < k < report.len() {
        let a = needed[from[j]].0@;
        let b = needed[from[k]].0@;
        assert(report[j].factor_id@ == a);
        assert(report[k].factor_id@ == b);
        assert(text::text_lt(a, b) || (a == b && from[j] < from[k]));
        text::law_text_order_is_strict_and_total(a, b, a);
    }
}

/// A factor reads what it is about and what it is conditioned on.
pub proof fn law_factors_read_both_sides(need: FactorNeed, v: VariableId)
    ensures
        need.variables@.contains(v) ==> need.reads(v),
        need.conditioned_on@.contains(v) ==> need.reads(v),
        need.reads(v) ==> need.variables@.contains(v) || need.conditioned_on@.contains(v),
{
}

/// A regime experiments on some variables exactly where it has results, is experimental, is of
/// the population, and intervenes on these variables, in any order.
pub proof fn law_experiments_have_results(
    regime: RegimeView,
    population: Seq<char>,
    variables: Seq<VariableId>,
)
    ensures
        regime.experiments_on(population, variables) <==> regime.evidence_kind
            == EvidenceKind::Available && regime.kind == RegimeKind::Experimental
            && regime.population == population && regime.interventions.to_multiset()
            == variables.to_multiset(),
{
}

/// A text has something other than spaces in it.
pub open spec fn is_filled(text: Seq<char>) -> bool {
    text::trimmed(text).len() > 0
}

/// A binding is well formed exactly where no earlier one is of its regime, its snapshot, its
/// dataset and its columns have names, no column is named twice, and its weights, if any, are of
/// its snapshot.
pub proof fn law_well_formed_bindings(catalog: CatalogView, i: int)
    ensures
        !catalog.malformed_binding(i) <==> {
            &&& forall|k: int|
                0 <= k < i ==> (#[trigger] catalog.bindings[k]).regime
                    != catalog.bindings[i].regime
            &&& is_filled(catalog.bindings[i].snapshot_identity)
            &&& catalog.bindings[i].dataset_identity matches Some(id) ==> is_filled(id)
            &&& forall|s: int|
                0 <= s < catalog.bindings[i].schema_names.len() ==> is_filled(
                    #[trigger] catalog.bindings[i].schema_names[s],
                )
            &&& catalog.bindings[i].schema_names.no_duplicates()
            &&& catalog.bindings[i].weights matches Some(snapshot) ==> snapshot
                == catalog.bindings[i].snapshot_identity
        },
{
}

/// A variable that is only known to have been experimented on stands for an available
/// experimental regime on it alone, numbered by its place.
pub proof fn law_compatible_regimes_intervene_on_one_variable(
    population: Seq<char>,
    index: int,
    variable: VariableId,
)
    requires
        0 <= index,
    ensures
        ({
            let regime = transport_catalog::compatibility_regime(population, index, variable);
            &&& regime.experiments_on(population, seq![variable])
            &&& regime.intervention_values.len() == 0
            &&& regime.measured.len() == 0
            &&& regime.conditioned_on.len() == 0
            &&& index <= u32::MAX ==> regime.id.raw == index
            &&& index > u32::MAX ==> regime.id.raw == u32::MAX
        }),
{
}

/// A catalog is accepted exactly where no environment, no regime and no binding is at fault.
pub proof fn law_catalogs_without_faults_are_accepted(catalog: CatalogView)
    ensures
        catalog.refusal() is None <==> {
            &&& forall|i: int|
                0 <= i < catalog.environments.len() ==> (
                #[trigger] transport_catalog::environment_fault(catalog.environments, i)) is None
            &&& forall|i: int|
                0 <= i < catalog.regimes.len() ==> (#[trigger] catalog.regime_fault(i)) is None
            &&& forall|i: int|
                0 <= i < catalog.bindings.len() ==> (#[trigger] catalog.binding_fault(i)) is None
        },
{
    let environments = transport_catalog::environment_faults(catalog.environments);
    let regimes = catalog.regime_faults();
    let bindings = catalog.binding_faults();
    law_the_first_fault_is_reported(environments);
    law_the_first_fault_is_reported(regimes);
    law_the_first_fault_is_reported(bindings);
    if forall|i: int| 0 <= i < environments.len() ==> (#[trigger] environments[i]) is None {
        assert forall|i: int| 0 <= i < catalog.environments.len() implies (
        #[trigger] transport_catalog::environment_fault(catalog.environments, i)) is None by {
            assert(environments[i] is None);
        }
    }
    if forall|i: int| 0 <= i < regimes.len() ==> (#[trigger] regimes[i]) is None {
        assert forall|i: int| 0 <= i < catalog.regimes.len() implies (
        #[trigger] catalog.regime_fault(i)) is None by {
            assert(regimes[i] is None);
        }
    }
    if forall|i: int| 0 <= i < bindings.len() ==> (#[trigger] bindings[i]) is None {
        assert forall|i: int| 0 <= i < catalog.bindings.len() implies (
        #[trigger] catalog.binding_fault(i)) is None by {
            assert(bindings[i] is None);
        }
    }
}

/// A regime has no fault exactly where it is of a declared environment and of declared variables,
/// if any are declared, its label is its own, it is accepted, it conditions on measured
/// coordinates, each once, its values are in their domains, and no earlier regime has its id.
pub proof fn law_regimes_without_faults(catalog: CatalogView, i: int)
    ensures
        catalog.regime_fault(i) is None <==> {
            &&& catalog.environments.len() > 0 ==> catalog.names_population(
                catalog.regimes[i].population,
            ) && !catalog.undeclared_in(catalog.regimes[i].interventions)
                && !catalog.undeclared_in(catalog.regimes[i].measured)
            &&& !catalog.bad_label(i)
            &&& catalog.regimes[i].refusal() is None
            &&& catalog.regimes[i].conditioned_on.no_duplicates()
            &&& forall|j: int|
                0 <= j < catalog.regimes[i].conditioned_on.len()
                    ==> catalog.regimes[i].measured.contains(
                    #[trigger] catalog.regimes[i].conditioned_on[j],
                )
            &&& !catalog.off_domain(i)
            &&& forall|k: int|
                0 <= k < i ==> (#[trigger] catalog.regimes[k]).id != catalog.regimes[i].id
        },
{
}

/// A binding has no fault exactly where it is well formed and its regime is in the catalog and
/// has results.
pub proof fn law_bindings_without_faults(catalog: CatalogView, i: int)
    ensures
        catalog.binding_fault(i) is None <==> !catalog.malformed_binding(i) && (
        transport_catalog::find_regime(
            catalog.regimes,
            catalog.bindings[i].regime,
        ) matches Some(regime) && regime.evidence_kind == EvidenceKind::Available),
{
}

/// A declaration agrees with earlier ones of its variable exactly where their domains fit
/// together, and their units are the same where both are given.
pub proof fn law_declarations_that_agree(earlier: Seq<CoordinateView>, coordinate: CoordinateView)
    ensures
        transport_catalog::coordinate_fault(earlier, coordinate) is None <==> {
            &&& transport_catalog::settled_domain(earlier, coordinate.variable).compatible(
                coordinate.domain,
            )
            &&& transport_catalog::settled_unit(earlier, coordinate.variable) matches Some(unit)
                ==> (coordinate.unit matches Some(own) ==> own == unit)
        },
{
}

/// An environment has no fault exactly where it is accepted, no earlier one has its identity, and
/// every declaration in it agrees with those before.
pub proof fn law_environments_without_faults(environments: Seq<EnvironmentView>, i: int)
    requires
        0 <= i < environments.len(),
    ensures
        transport_catalog::environment_fault(environments, i) is None <==> {
            &&& environments[i].refusal() is None
            &&& forall|k: int|
                0 <= k < i ==> (#[trigger] environments[k]).identity != environments[i].identity
            &&& forall|j: int|
                0 <= j < environments[i].variables.len() ==> (
                #[trigger] transport_catalog::coordinate_fault(
                    transport_catalog::declared(environments.take(i))
                        + environments[i].variables.take(j),
                    environments[i].variables[j],
                )) is None
        },
{
    let earlier = transport_catalog::declared(environments.take(i));
    let variables = environments[i].variables;
    let faults = transport_catalog::coordinate_faults(earlier, variables);
    law_the_first_fault_is_reported(faults);
    if forall|j: int| 0 <= j < faults.len() ==> (#[trigger] faults[j]) is None {
        assert forall|j: int| 0 <= j < variables.len() implies (
        #[trigger] transport_catalog::coordinate_fault(
            earlier + variables.take(j),
            variables[j],
        )) is None by {
            assert(faults[j] is None);
        }
    }
}

} // verus!

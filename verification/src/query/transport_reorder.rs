//! Evidence catalogs that differ only in the order of their lists.
//!
//! SPDX-License-Identifier: MIT OR Apache-2.0

use crate::ids::{RegimeId, VariableId};
use crate::query::error;
use crate::query::evidence;
use crate::query::evidence::{CoordinateView, EnvironmentView, InterventionAssignment, RegimeView};
use crate::query::transport_canonical;
use crate::query::transport_catalog;
use crate::query::transport_catalog::{BindingView, CatalogView};
use crate::text;
use vstd::prelude::*;

verus! {

/// Two lists as long as each other, with the same members.
pub open spec fn reordered<T>(a: Seq<T>, b: Seq<T>) -> bool {
    a.len() == b.len() && transport_canonical::same_members(a, b)
}

/// Environments that differ only in the order of their lists.
pub open spec fn reordered_environment(a: EnvironmentView, b: EnvironmentView) -> bool {
    &&& a.identity == b.identity
    &&& reordered(a.variables, b.variables)
    &&& reordered(a.selection_targets, b.selection_targets)
}

/// Regimes that differ only in the order of their lists.
pub open spec fn reordered_regime(a: RegimeView, b: RegimeView) -> bool {
    &&& a.id == b.id
    &&& a.label == b.label
    &&& a.kind == b.kind
    &&& a.evidence_kind == b.evidence_kind
    &&& a.population == b.population
    &&& reordered(a.interventions, b.interventions)
    &&& reordered(a.intervention_values, b.intervention_values)
    &&& reordered(a.measured, b.measured)
    &&& reordered(a.conditioned_on, b.conditioned_on)
    &&& a.marginals is Some <==> b.marginals is Some
    &&& a.marginals is Some ==> reordered(a.marginals->0, b.marginals->0)
}

/// The environment, up to order, is among the listed ones.
#[verifier::opaque]
pub open spec fn environment_among(a: EnvironmentView, list: Seq<EnvironmentView>) -> bool {
    exists|j: int| 0 <= j < list.len() && reordered_environment(a, #[trigger] list[j])
}

/// The regime, up to order, is among the listed ones.
#[verifier::opaque]
pub open spec fn regime_among(a: RegimeView, list: Seq<RegimeView>) -> bool {
    exists|j: int| 0 <= j < list.len() && reordered_regime(a, #[trigger] list[j])
}

/// Catalogs that differ only in the order of their lists.
pub open spec fn reordered_catalog(a: CatalogView, b: CatalogView) -> bool {
    &&& a.target_sampling == b.target_sampling
    &&& a.environments.len() == b.environments.len()
    &&& forall|i: int|
        0 <= i < a.environments.len() ==> environment_among(
            #[trigger] a.environments[i],
            b.environments,
        )
    &&& forall|i: int|
        0 <= i < b.environments.len() ==> environment_among(
            #[trigger] b.environments[i],
            a.environments,
        )
    &&& a.regimes.len() == b.regimes.len()
    &&& forall|i: int| 0 <= i < a.regimes.len() ==> regime_among(#[trigger] a.regimes[i], b.regimes)
    &&& forall|i: int| 0 <= i < b.regimes.len() ==> regime_among(#[trigger] b.regimes[i], a.regimes)
    &&& reordered(a.bindings, b.bindings)
}

/// Where a member stands.
proof fn lemma_place<T>(list: Seq<T>, x: T) -> (at: int)
    requires
        list.contains(x),
    ensures
        0 <= at < list.len(),
        list[at] == x,
{
    choose|i: int| 0 <= i < list.len() && list[i] == x
}

/// Lists in one strict order that have the same members are equal.
proof fn lemma_one_order<T>(a: Seq<T>, b: Seq<T>, less: spec_fn(T, T) -> bool)
    requires
        transport_canonical::same_members(a, b),
        forall|i: int, j: int|
            0 <= i < j < a.len() ==> less(#[trigger] a[i], #[trigger] a[j]) && !less(a[j], a[i]),
        forall|i: int, j: int|
            0 <= i < j < b.len() ==> less(#[trigger] b[i], #[trigger] b[j]) && !less(b[j], b[i]),
    ensures
        a == b,
    decreases a.len(),
{
    if a.len() == 0 {
        if b.len() > 0 {
            assert(b.contains(b[0]));
            assert(a.contains(b[0]));
        }
    } else {
        let x = a.last();
        assert(a.contains(a[a.len() - 1]));
        assert(b.contains(x));
        let k = lemma_place(b, x);
        let y = b.last();
        assert(b.contains(b[b.len() - 1]));
        assert(a.contains(y));
        let m = lemma_place(a, y);
        if k < b.len() - 1 {
            assert(less(b[k], b[b.len() - 1]) && !less(b[b.len() - 1], b[k]));
            if m < a.len() - 1 {
                assert(less(a[m], a[a.len() - 1]));
            } else {
                assert(x == y);
            }
        }
        assert(x == y);
        let s = a.drop_last();
        let t = b.drop_last();
        assert(s.len() == a.len() - 1 && t.len() == b.len() - 1);
        assert forall|z: T| #[trigger] s.contains(z) <==> t.contains(z) by {
            if s.contains(z) {
                let i = lemma_place(s, z);
                assert(less(a[i], a[a.len() - 1]) && !less(a[a.len() - 1], a[i]));
                assert(a.contains(a[i]));
                let j = lemma_place(b, z);
                assert(j < t.len() && t[j] == z);
            }
            if t.contains(z) {
                let i = lemma_place(t, z);
                assert(less(b[i], b[b.len() - 1]) && !less(b[b.len() - 1], b[i]));
                assert(b.contains(b[i]));
                assert(a.contains(z));
                let j = lemma_place(a, z);
                assert(j < s.len() && s[j] == z);
            }
        }
        assert forall|i: int, j: int| 0 <= i < j < s.len() implies less(
            #[trigger] s[i],
            #[trigger] s[j],
        ) && !less(s[j], s[i]) by {
            assert(less(a[i], a[j]));
        }
        assert forall|i: int, j: int| 0 <= i < j < t.len() implies less(
            #[trigger] t[i],
            #[trigger] t[j],
        ) && !less(t[j], t[i]) by {
            assert(less(b[i], b[j]));
        }
        lemma_one_order(s, t, less);
        assert(a =~= s.push(x));
        assert(b =~= t.push(y));
    }
}

proof fn lemma_one_id_order(
    x: Seq<VariableId>,
    a: Seq<VariableId>,
    b: Seq<VariableId>,
    y: Seq<VariableId>,
)
    requires
        transport_canonical::arranged_ids(x, a),
        reordered(a, b),
        transport_canonical::arranged_ids(y, b),
    ensures
        x == y,
{
    let less = |p: VariableId, q: VariableId| p.raw < q.raw;
    lemma_same_through(x, a, b, y);
    assert forall|i: int, j: int| 0 <= i < j < x.len() implies #[trigger] less(x[i], x[j]) && !less(
        x[j],
        x[i],
    ) by {}
    assert forall|i: int, j: int| 0 <= i < j < y.len() implies #[trigger] less(y[i], y[j]) && !less(
        y[j],
        y[i],
    ) by {}
    lemma_one_order(x, y, less);
}

proof fn lemma_same_through<T>(x: Seq<T>, a: Seq<T>, b: Seq<T>, y: Seq<T>)
    requires
        transport_canonical::same_members(x, a),
        transport_canonical::same_members(a, b),
        transport_canonical::same_members(y, b),
    ensures
        transport_canonical::same_members(x, y),
{
    assert forall|z: T| #[trigger] x.contains(z) <==> y.contains(z) by {
        assert(x.contains(z) == a.contains(z));
        assert(a.contains(z) == b.contains(z));
        assert(y.contains(z) == b.contains(z));
    }
}

proof fn lemma_one_environment(
    x: EnvironmentView,
    a: EnvironmentView,
    b: EnvironmentView,
    y: EnvironmentView,
)
    requires
        transport_canonical::canonical_environment(x, a),
        reordered_environment(a, b),
        transport_canonical::canonical_environment(y, b),
    ensures
        x == y,
{
    lemma_one_id_order(
        x.selection_targets,
        a.selection_targets,
        b.selection_targets,
        y.selection_targets,
    );
    let less = |p: CoordinateView, q: CoordinateView| p.variable.raw < q.variable.raw;
    lemma_same_through(x.variables, a.variables, b.variables, y.variables);
    lemma_one_order(x.variables, y.variables, less);
    assert(x =~= y);
}

proof fn lemma_one_regime(x: RegimeView, a: RegimeView, b: RegimeView, y: RegimeView)
    requires
        transport_canonical::canonical_regime(x, a),
        reordered_regime(a, b),
        transport_canonical::canonical_regime(y, b),
    ensures
        x == y,
{
    lemma_one_id_order(x.interventions, a.interventions, b.interventions, y.interventions);
    lemma_one_id_order(x.measured, a.measured, b.measured, y.measured);
    lemma_one_id_order(x.conditioned_on, a.conditioned_on, b.conditioned_on, y.conditioned_on);
    if x.marginals is Some {
        lemma_one_id_order(x.marginals->0, a.marginals->0, b.marginals->0, y.marginals->0);
    }
    assert(x.marginals == y.marginals);
    let less = |p: InterventionAssignment, q: InterventionAssignment|
        p.variable.raw < q.variable.raw;
    lemma_same_through(
        x.intervention_values,
        a.intervention_values,
        b.intervention_values,
        y.intervention_values,
    );
    lemma_one_order(x.intervention_values, y.intervention_values, less);
    assert(x =~= y);
}

proof fn lemma_symmetric_environment(a: EnvironmentView, b: EnvironmentView)
    requires
        reordered_environment(a, b),
    ensures
        reordered_environment(b, a),
{
}

proof fn lemma_symmetric_regime(a: RegimeView, b: RegimeView)
    requires
        reordered_regime(a, b),
    ensures
        reordered_regime(b, a),
{
}

proof fn lemma_environment_source(e: EnvironmentView, given: Seq<EnvironmentView>) -> (at: int)
    requires
        transport_canonical::environment_stems_from(e, given),
    ensures
        0 <= at < given.len(),
        transport_canonical::canonical_environment(e, given[at]),
{
    reveal(transport_canonical::environment_stems_from);
    choose|i: int|
        0 <= i < given.len() && transport_canonical::canonical_environment(e, #[trigger] given[i])
}

proof fn lemma_environment_image(e: EnvironmentView, out: Seq<EnvironmentView>) -> (at: int)
    requires
        transport_canonical::environment_carried_into(e, out),
    ensures
        0 <= at < out.len(),
        transport_canonical::canonical_environment(out[at], e),
{
    reveal(transport_canonical::environment_carried_into);
    choose|j: int|
        0 <= j < out.len() && transport_canonical::canonical_environment(#[trigger] out[j], e)
}

proof fn lemma_environment_match(e: EnvironmentView, list: Seq<EnvironmentView>) -> (at: int)
    requires
        environment_among(e, list),
    ensures
        0 <= at < list.len(),
        reordered_environment(e, list[at]),
{
    reveal(environment_among);
    choose|j: int| 0 <= j < list.len() && reordered_environment(e, #[trigger] list[j])
}

proof fn lemma_regime_source(e: RegimeView, given: Seq<RegimeView>) -> (at: int)
    requires
        transport_canonical::regime_stems_from(e, given),
    ensures
        0 <= at < given.len(),
        transport_canonical::canonical_regime(e, given[at]),
{
    reveal(transport_canonical::regime_stems_from);
    choose|i: int|
        0 <= i < given.len() && transport_canonical::canonical_regime(e, #[trigger] given[i])
}

proof fn lemma_regime_image(e: RegimeView, out: Seq<RegimeView>) -> (at: int)
    requires
        transport_canonical::regime_carried_into(e, out),
    ensures
        0 <= at < out.len(),
        transport_canonical::canonical_regime(out[at], e),
{
    reveal(transport_canonical::regime_carried_into);
    choose|j: int|
        0 <= j < out.len() && transport_canonical::canonical_regime(#[trigger] out[j], e)
}

proof fn lemma_regime_match(e: RegimeView, list: Seq<RegimeView>) -> (at: int)
    requires
        regime_among(e, list),
    ensures
        0 <= at < list.len(),
        reordered_regime(e, list[at]),
{
    reveal(regime_among);
    choose|j: int| 0 <= j < list.len() && reordered_regime(e, #[trigger] list[j])
}

/// Every environment of one canonical form is an environment of the other.
proof fn lemma_environment_found(
    x: Seq<EnvironmentView>,
    a: Seq<EnvironmentView>,
    b: Seq<EnvironmentView>,
    y: Seq<EnvironmentView>,
    e: EnvironmentView,
)
    requires
        transport_canonical::canonical_environments(x, a),
        transport_canonical::canonical_environments(y, b),
        forall|i: int| 0 <= i < a.len() ==> environment_among(#[trigger] a[i], b),
        x.contains(e),
    ensures
        y.contains(e),
{
    let i = lemma_place(x, e);
    assert(transport_canonical::environment_stems_from(x[i], a));
    let p = lemma_environment_source(e, a);
    assert(environment_among(a[p], b));
    let q = lemma_environment_match(a[p], b);
    assert(transport_canonical::environment_carried_into(b[q], y));
    let j = lemma_environment_image(b[q], y);
    lemma_one_environment(e, a[p], b[q], y[j]);
}

/// Every regime of one canonical form is a regime of the other.
proof fn lemma_regime_found(
    x: Seq<RegimeView>,
    a: Seq<RegimeView>,
    b: Seq<RegimeView>,
    y: Seq<RegimeView>,
    r: RegimeView,
)
    requires
        transport_canonical::canonical_regimes(x, a),
        transport_canonical::canonical_regimes(y, b),
        forall|i: int| 0 <= i < a.len() ==> regime_among(#[trigger] a[i], b),
        x.contains(r),
    ensures
        y.contains(r),
{
    let i = lemma_place(x, r);
    assert(transport_canonical::regime_stems_from(x[i], a));
    let p = lemma_regime_source(r, a);
    assert(regime_among(a[p], b));
    let q = lemma_regime_match(a[p], b);
    assert(transport_canonical::regime_carried_into(b[q], y));
    let j = lemma_regime_image(b[q], y);
    lemma_one_regime(r, a[p], b[q], y[j]);
}

/// Catalogs that differ only in the order of their lists have one canonical form.
pub proof fn law_reordered_catalogs_have_one_canonical_form(
    x: CatalogView,
    a: CatalogView,
    b: CatalogView,
    y: CatalogView,
)
    requires
        transport_canonical::canonical_catalog(x, a),
        reordered_catalog(a, b),
        transport_canonical::canonical_catalog(y, b),
    ensures
        x == y,
{
    assert forall|e: EnvironmentView| #[trigger] x.environments.contains(e)
        <==> y.environments.contains(e) by {
        if x.environments.contains(e) {
            lemma_environment_found(
                x.environments,
                a.environments,
                b.environments,
                y.environments,
                e,
            );
        }
        if y.environments.contains(e) {
            lemma_environment_found(
                y.environments,
                b.environments,
                a.environments,
                x.environments,
                e,
            );
        }
    }
    let earlier = |p: EnvironmentView, q: EnvironmentView| text::text_lt(p.identity, q.identity);
    assert forall|i: int, j: int| 0 <= i < j < x.environments.len() implies #[trigger] earlier(
        x.environments[i],
        x.environments[j],
    ) && !earlier(x.environments[j], x.environments[i]) by {
        text::law_text_order_is_strict_and_total(
            x.environments[i].identity,
            x.environments[j].identity,
            x.environments[i].identity,
        );
    }
    assert forall|i: int, j: int| 0 <= i < j < y.environments.len() implies #[trigger] earlier(
        y.environments[i],
        y.environments[j],
    ) && !earlier(y.environments[j], y.environments[i]) by {
        text::law_text_order_is_strict_and_total(
            y.environments[i].identity,
            y.environments[j].identity,
            y.environments[i].identity,
        );
    }
    lemma_one_order(x.environments, y.environments, earlier);
    assert forall|r: RegimeView| #[trigger] x.regimes.contains(r) <==> y.regimes.contains(r) by {
        if x.regimes.contains(r) {
            lemma_regime_found(x.regimes, a.regimes, b.regimes, y.regimes, r);
        }
        if y.regimes.contains(r) {
            lemma_regime_found(y.regimes, b.regimes, a.regimes, x.regimes, r);
        }
    }
    let lower = |p: RegimeView, q: RegimeView| p.id.raw < q.id.raw;
    lemma_one_order(x.regimes, y.regimes, lower);
    let bound = |p: BindingView, q: BindingView| p.regime.raw < q.regime.raw;
    lemma_same_through(x.bindings, a.bindings, b.bindings, y.bindings);
    lemma_one_order(x.bindings, y.bindings, bound);
    assert(x =~= y);
}

/// A list as long as one without repetition, with the same members, repeats nothing.
proof fn lemma_still_distinct<T>(a: Seq<T>, b: Seq<T>)
    requires
        reordered(a, b),
        a.no_duplicates(),
    ensures
        b.no_duplicates(),
{
    a.unique_seq_to_set();
    assert(a.to_set() =~= b.to_set()) by {
        assert forall|x: T| a.to_set().contains(x) == b.to_set().contains(x) by {
            assert(a.contains(x) == b.contains(x));
        }
    }
    b.lemma_no_dup_set_cardinality();
}

proof fn lemma_keys_reordered<T, K>(a: Seq<T>, b: Seq<T>, key: spec_fn(T) -> K)
    requires
        reordered(a, b),
    ensures
        reordered(a.map_values(key), b.map_values(key)),
{
    let left = a.map_values(key);
    let right = b.map_values(key);
    assert forall|x: K| #[trigger] left.contains(x) <==> right.contains(x) by {
        if left.contains(x) {
            let i = lemma_place(left, x);
            assert(a.contains(a[i]));
            let j = lemma_place(b, a[i]);
            assert(right[j] == x);
        }
        if right.contains(x) {
            let i = lemma_place(right, x);
            assert(b.contains(b[i]));
            assert(a.contains(b[i]));
            let j = lemma_place(a, b[i]);
            assert(left[j] == x);
        }
    }
}

/// Two coordinates that one catalog may declare.
pub open spec fn agree(p: CoordinateView, q: CoordinateView) -> bool {
    p.variable == q.variable ==> {
        &&& p.domain.compatible(q.domain)
        &&& p.unit is Some && q.unit is Some ==> p.unit == q.unit
    }
}

/// Any two of the coordinates agree.
pub open spec fn harmonious(listed: Seq<CoordinateView>) -> bool {
    forall|p: CoordinateView, q: CoordinateView| #[trigger]
        listed.contains(p) && #[trigger] listed.contains(q) ==> agree(p, q)
}

/// Each coordinate passes in the light of those before it.
#[verifier::opaque]
spec fn consistent(listed: Seq<CoordinateView>) -> bool {
    forall|k: int|
        0 <= k < listed.len() ==> transport_catalog::coordinate_fault(
            listed.take(k),
            #[trigger] listed[k],
        ) is None
}

proof fn lemma_domain_source(listed: Seq<CoordinateView>, variable: VariableId) -> (at: int)
    ensures
        !(transport_catalog::settled_domain(listed, variable) is Unspecified) ==> 0 <= at
            < listed.len() && listed[at].variable == variable && listed[at].domain
            == transport_catalog::settled_domain(listed, variable),
    decreases listed.len(),
{
    if listed.len() == 0 {
        0
    } else {
        let before = transport_catalog::settled_domain(listed.drop_last(), variable);
        if before is Unspecified {
            listed.len() - 1
        } else {
            lemma_domain_source(listed.drop_last(), variable)
        }
    }
}

proof fn lemma_unit_source(listed: Seq<CoordinateView>, variable: VariableId) -> (at: int)
    ensures
        transport_catalog::settled_unit(listed, variable) is Some ==> 0 <= at < listed.len()
            && listed[at].variable == variable && listed[at].unit
            == transport_catalog::settled_unit(listed, variable),
    decreases listed.len(),
{
    if listed.len() == 0 {
        0
    } else {
        let before = transport_catalog::settled_unit(listed.drop_last(), variable);
        if before is None {
            listed.len() - 1
        } else {
            lemma_unit_source(listed.drop_last(), variable)
        }
    }
}

proof fn lemma_consistent_start(listed: Seq<CoordinateView>)
    requires
        consistent(listed),
        listed.len() > 0,
    ensures
        consistent(listed.drop_last()),
        transport_catalog::coordinate_fault(listed.drop_last(), listed.last()) is None,
{
    reveal(consistent);
    let rest = listed.drop_last();
    assert forall|k: int| 0 <= k < rest.len() implies transport_catalog::coordinate_fault(
        rest.take(k),
        #[trigger] rest[k],
    ) is None by {
        assert(rest.take(k) =~= listed.take(k));
        assert(rest[k] == listed[k]);
    }
    assert(listed.take(listed.len() - 1) =~= rest);
    assert(transport_catalog::coordinate_fault(
        listed.take(listed.len() - 1),
        listed[listed.len() - 1],
    ) is None);
}

/// In a consistent list every stated domain and unit is the settled one.
proof fn lemma_settled(listed: Seq<CoordinateView>, at: int)
    requires
        consistent(listed),
        0 <= at < listed.len(),
    ensures
        !(listed[at].domain is Unspecified) ==> transport_catalog::settled_domain(
            listed,
            listed[at].variable,
        ) == listed[at].domain,
        listed[at].unit is Some ==> transport_catalog::settled_unit(listed, listed[at].variable)
            == listed[at].unit,
    decreases listed.len(),
{
    lemma_consistent_start(listed);
    if at < listed.len() - 1 {
        lemma_settled(listed.drop_last(), at);
    }
}

proof fn lemma_harmonious(listed: Seq<CoordinateView>)
    ensures
        consistent(listed) == harmonious(listed),
{
    if consistent(listed) {
        assert forall|p: CoordinateView, q: CoordinateView| #[trigger]
            listed.contains(p) && #[trigger] listed.contains(q) implies agree(p, q) by {
            let i = lemma_place(listed, p);
            let j = lemma_place(listed, q);
            lemma_settled(listed, i);
            lemma_settled(listed, j);
        }
    }
    if harmonious(listed) {
        reveal(consistent);
        assert forall|k: int| 0 <= k < listed.len() implies transport_catalog::coordinate_fault(
            listed.take(k),
            #[trigger] listed[k],
        ) is None by {
            let earlier = listed.take(k);
            let d = lemma_domain_source(earlier, listed[k].variable);
            let u = lemma_unit_source(earlier, listed[k].variable);
            assert(listed.contains(listed[k]));
            if 0 <= d < k {
                assert(earlier[d] == listed[d]);
                assert(listed.contains(listed[d]));
                assert(agree(listed[d], listed[k]));
            }
            if 0 <= u < k {
                assert(earlier[u] == listed[u]);
                assert(listed.contains(listed[u]));
                assert(agree(listed[u], listed[k]));
            }
        }
    }
}

/// The settled domain does not depend on the order of consistent lists.
proof fn lemma_one_domain(
    a: Seq<CoordinateView>,
    b: Seq<CoordinateView>,
    variable: VariableId,
)
    requires
        consistent(a),
        consistent(b),
        transport_canonical::same_members(a, b),
    ensures
        transport_catalog::settled_domain(a, variable) == transport_catalog::settled_domain(
            b,
            variable,
        ),
{
    let p = lemma_domain_source(a, variable);
    let q = lemma_domain_source(b, variable);
    if !(transport_catalog::settled_domain(a, variable) is Unspecified) {
        assert(a.contains(a[p]));
        let at = lemma_place(b, a[p]);
        lemma_settled(b, at);
    } else if !(transport_catalog::settled_domain(b, variable) is Unspecified) {
        assert(b.contains(b[q]));
        assert(a.contains(b[q]));
        let at = lemma_place(a, b[q]);
        lemma_settled(a, at);
    }
}

/// The coordinates of environment `i` pass in the light of those before it.
#[verifier::opaque]
spec fn passes_at(environments: Seq<EnvironmentView>, i: int) -> bool {
    error::first_fault(
        transport_catalog::coordinate_faults(
            transport_catalog::declared(environments.take(i)),
            environments[i].variables,
        ),
    ) is None
}

/// The environments' coordinates pass one environment at a time.
spec fn all_coordinates_pass(environments: Seq<EnvironmentView>) -> bool {
    forall|i: int| 0 <= i < environments.len() ==> #[trigger] passes_at(environments, i)
}

proof fn lemma_passes_in_start(environments: Seq<EnvironmentView>, i: int)
    requires
        0 <= i < environments.len() - 1,
    ensures
        passes_at(environments, i) == passes_at(environments.drop_last(), i),
{
    reveal(passes_at);
    assert(environments.take(i) =~= environments.drop_last().take(i));
}

proof fn lemma_last_environment(environments: Seq<EnvironmentView>)
    requires
        environments.len() > 0,
    ensures
        all_coordinates_pass(environments) == (all_coordinates_pass(environments.drop_last())
            && error::first_fault(
            transport_catalog::coordinate_faults(
                transport_catalog::declared(environments.drop_last()),
                environments.last().variables,
            ),
        ) is None),
{
    let rest = environments.drop_last();
    let n = environments.len() - 1;
    assert(passes_at(environments, n) == (error::first_fault(
        transport_catalog::coordinate_faults(
            transport_catalog::declared(rest),
            environments.last().variables,
        ),
    ) is None)) by {
        reveal(passes_at);
        assert(environments.take(n) =~= rest);
    }
    if all_coordinates_pass(environments) {
        assert forall|i: int| 0 <= i < rest.len() implies #[trigger] passes_at(rest, i) by {
            lemma_passes_in_start(environments, i);
        }
    }
    if all_coordinates_pass(rest) && passes_at(environments, n) {
        assert forall|i: int| 0 <= i < environments.len() implies #[trigger] passes_at(
            environments,
            i,
        ) by {
            if i < n {
                lemma_passes_in_start(environments, i);
            }
        }
    }
}

proof fn lemma_joined(before: Seq<CoordinateView>, own: Seq<CoordinateView>)
    ensures
        consistent(before + own) == (consistent(before) && error::first_fault(
            transport_catalog::coordinate_faults(before, own),
        ) is None),
{
    reveal(consistent);
    let all = before + own;
    let faults = transport_catalog::coordinate_faults(before, own);
    error::lemma_no_fault(faults);
    assert forall|k: int| 0 <= k < before.len() implies all.take(k) == #[trigger] before.take(k)
        && all[k] == before[k] by {
        assert(all.take(k) =~= before.take(k));
    }
    assert forall|j: int| 0 <= j < own.len() implies all.take(before.len() + j) == before
        + #[trigger] own.take(j) && all[before.len() + j] == own[j] by {
        assert(all.take(before.len() + j) =~= before + own.take(j));
    }
    if consistent(all) {
        assert forall|k: int| 0 <= k < before.len() implies transport_catalog::coordinate_fault(
            before.take(k),
            #[trigger] before[k],
        ) is None by {
            assert(all.take(k) == before.take(k) && all[k] == before[k]);
        }
        assert forall|j: int| 0 <= j < faults.len() implies (#[trigger] faults[j]) is None by {
            assert(all.take(before.len() + j) == before + own.take(j));
            assert(all[before.len() + j] == own[j]);
        }
    }
    if consistent(before) && error::first_fault(faults) is None {
        assert forall|k: int| 0 <= k < all.len() implies transport_catalog::coordinate_fault(
            all.take(k),
            #[trigger] all[k],
        ) is None by {
            if k < before.len() {
                assert(all.take(k) == before.take(k) && all[k] == before[k]);
            } else {
                let j = k - before.len();
                assert(all.take(before.len() + j) == before + own.take(j));
                assert(faults[j] is None);
            }
        }
    }
}

proof fn lemma_one_list(environments: Seq<EnvironmentView>)
    ensures
        all_coordinates_pass(environments) == consistent(
            transport_catalog::declared(environments),
        ),
    decreases environments.len(),
{
    if environments.len() == 0 {
        reveal(consistent);
    } else {
        lemma_one_list(environments.drop_last());
        lemma_last_environment(environments);
        lemma_joined(
            transport_catalog::declared(environments.drop_last()),
            environments.last().variables,
        );
    }
}

proof fn lemma_declared_source(environments: Seq<EnvironmentView>, c: CoordinateView) -> (at: int)
    requires
        transport_catalog::declared(environments).contains(c),
    ensures
        0 <= at < environments.len(),
        environments[at].variables.contains(c),
    decreases environments.len(),
{
    let k = lemma_place(transport_catalog::declared(environments), c);
    if environments.len() == 0 {
        0
    } else {
        let before = transport_catalog::declared(environments.drop_last());
        if k < before.len() {
            assert(before[k] == c);
            lemma_declared_source(environments.drop_last(), c)
        } else {
            assert(environments.last().variables[k - before.len()] == c);
            environments.len() - 1
        }
    }
}

proof fn lemma_is_declared(environments: Seq<EnvironmentView>, at: int, c: CoordinateView)
    requires
        0 <= at < environments.len(),
        environments[at].variables.contains(c),
    ensures
        transport_catalog::declared(environments).contains(c),
    decreases environments.len(),
{
    let before = transport_catalog::declared(environments.drop_last());
    let all = transport_catalog::declared(environments);
    if at < environments.len() - 1 {
        lemma_is_declared(environments.drop_last(), at, c);
        let k = lemma_place(before, c);
        assert(all[k] == c);
    } else {
        let j = lemma_place(environments[at].variables, c);
        assert(all[before.len() + j] == c);
    }
}

proof fn lemma_same_declared(a: Seq<EnvironmentView>, b: Seq<EnvironmentView>)
    requires
        forall|i: int| 0 <= i < a.len() ==> environment_among(#[trigger] a[i], b),
        forall|i: int| 0 <= i < b.len() ==> environment_among(#[trigger] b[i], a),
    ensures
        transport_canonical::same_members(
            transport_catalog::declared(a),
            transport_catalog::declared(b),
        ),
{
    let left = transport_catalog::declared(a);
    let right = transport_catalog::declared(b);
    assert forall|c: CoordinateView| #[trigger] left.contains(c) <==> right.contains(c) by {
        if left.contains(c) {
            let i = lemma_declared_source(a, c);
            assert(environment_among(a[i], b));
            let j = lemma_environment_match(a[i], b);
            assert(b[j].variables.contains(c));
            lemma_is_declared(b, j, c);
        }
        if right.contains(c) {
            let i = lemma_declared_source(b, c);
            assert(environment_among(b[i], a));
            let j = lemma_environment_match(b[i], a);
            assert(a[j].variables.contains(c));
            lemma_is_declared(a, j, c);
        }
    }
}

/// An environment that is accepted is accepted in any order.
proof fn lemma_environment_accepted(a: EnvironmentView, b: EnvironmentView)
    requires
        reordered_environment(a, b),
        a.refusal() is None,
    ensures
        b.refusal() is None,
{
    let given = evidence::coordinate_shape_faults(a.variables);
    let faults = evidence::coordinate_shape_faults(b.variables);
    let key = |c: CoordinateView| c.variable;
    let before = a.variables.map_values(key);
    let after = b.variables.map_values(key);
    error::lemma_no_fault(given);
    assert(before.no_duplicates()) by {
        assert forall|i: int, j: int| 0 <= i < j < before.len() implies before[i] != before[j] by {
            assert(given[j] is None);
            assert(a.variables[i].variable != a.variables[j].variable);
        }
    }
    lemma_keys_reordered(a.variables, b.variables, key);
    lemma_still_distinct(before, after);
    lemma_still_distinct(a.selection_targets, b.selection_targets);
    assert forall|j: int| 0 <= j < faults.len() implies (#[trigger] faults[j]) is None by {
        assert(b.variables.contains(b.variables[j]));
        assert(a.variables.contains(b.variables[j]));
        let p = lemma_place(a.variables, b.variables[j]);
        assert(given[p] is None);
        assert forall|k: int| 0 <= k < j implies (#[trigger] b.variables[k]).variable
            != b.variables[j].variable by {
            assert(after[k] != after[j]);
        }
    }
    error::lemma_no_fault(faults);
}

/// A regime that is accepted by itself is accepted in any order.
proof fn lemma_regime_accepted(a: RegimeView, b: RegimeView)
    requires
        reordered_regime(a, b),
        a.refusal() is None,
    ensures
        b.refusal() is None,
{
    let key = |c: InterventionAssignment| c.variable;
    let before = a.intervention_values.map_values(key);
    let after = b.intervention_values.map_values(key);
    lemma_still_distinct(a.interventions, b.interventions);
    lemma_still_distinct(a.measured, b.measured);
    if b.marginals is Some {
        let listed = b.marginals->0;
        lemma_still_distinct(a.marginals->0, listed);
        assert forall|i: int| 0 <= i < listed.len() implies b.measured.contains(
            #[trigger] listed[i],
        ) by {
            assert(listed.contains(listed[i]));
            assert((a.marginals->0).contains(listed[i]));
            let p = lemma_place(a.marginals->0, listed[i]);
            assert(a.measured.contains((a.marginals->0)[p]));
        }
    }
    assert(before.no_duplicates()) by {
        assert forall|i: int, j: int| 0 <= i < j < before.len() implies before[i] != before[j] by {
            assert(!a.bad_assignment(j));
            assert(a.intervention_values[i].variable != a.intervention_values[j].variable);
        }
    }
    lemma_keys_reordered(a.intervention_values, b.intervention_values, key);
    lemma_still_distinct(before, after);
    assert forall|j: int| 0 <= j < b.intervention_values.len() implies !#[trigger] b.bad_assignment(
        j,
    ) by {
        let own = b.intervention_values[j];
        assert(b.intervention_values.contains(own));
        assert(a.intervention_values.contains(own));
        let p = lemma_place(a.intervention_values, own);
        assert(!a.bad_assignment(p));
        assert(a.interventions.contains(own.variable));
        assert forall|k: int| 0 <= k < j implies (#[trigger] b.intervention_values[k]).variable
            != own.variable by {
            assert(after[k] != after[j]);
        }
    }
}

/// Environments that are accepted are accepted in any order.
proof fn lemma_environments_accepted(a: Seq<EnvironmentView>, b: Seq<EnvironmentView>)
    requires
        a.len() == b.len(),
        forall|i: int| 0 <= i < a.len() ==> environment_among(#[trigger] a[i], b),
        forall|i: int| 0 <= i < b.len() ==> environment_among(#[trigger] b[i], a),
        error::first_fault(transport_catalog::environment_faults(a)) is None,
    ensures
        error::first_fault(transport_catalog::environment_faults(b)) is None,
        consistent(transport_catalog::declared(a)),
        consistent(transport_catalog::declared(b)),
{
    let given = transport_catalog::environment_faults(a);
    let faults = transport_catalog::environment_faults(b);
    let key = |e: EnvironmentView| e.identity;
    let before = a.map_values(key);
    let after = b.map_values(key);
    error::lemma_no_fault(given);
    assert forall|i: int| 0 <= i < a.len() implies (
    #[trigger] transport_catalog::environment_fault(a, i)) is None by {
        assert(given[i] is None);
    }
    assert(before.no_duplicates()) by {
        assert forall|i: int, j: int| 0 <= i < j < before.len() implies before[i] != before[j] by {
            assert(transport_catalog::environment_fault(a, j) is None);
            assert(a[i].identity != a[j].identity);
        }
    }
    assert(reordered(before, after)) by {
        assert forall|x: Seq<char>| #[trigger] before.contains(x) <==> after.contains(x) by {
            if before.contains(x) {
                let i = lemma_place(before, x);
                assert(environment_among(a[i], b));
                let j = lemma_environment_match(a[i], b);
                assert(after[j] == x);
            }
            if after.contains(x) {
                let i = lemma_place(after, x);
                assert(environment_among(b[i], a));
                let j = lemma_environment_match(b[i], a);
                assert(before[j] == x);
            }
        }
    }
    lemma_still_distinct(before, after);
    lemma_one_list(a);
    lemma_one_list(b);
    lemma_harmonious(transport_catalog::declared(a));
    lemma_harmonious(transport_catalog::declared(b));
    lemma_same_declared(a, b);
    assert(all_coordinates_pass(a)) by {
        assert forall|i: int| 0 <= i < a.len() implies #[trigger] passes_at(a, i) by {
            reveal(passes_at);
            assert(transport_catalog::environment_fault(a, i) is None);
        }
    }
    assert(harmonious(transport_catalog::declared(b))) by {
        let left = transport_catalog::declared(a);
        let right = transport_catalog::declared(b);
        assert forall|p: CoordinateView, q: CoordinateView| #[trigger]
            right.contains(p) && #[trigger] right.contains(q) implies agree(p, q) by {
            assert(left.contains(p) && left.contains(q));
        }
    }
    assert(all_coordinates_pass(b));
    assert forall|j: int| 0 <= j < faults.len() implies (#[trigger] faults[j]) is None by {
        assert(environment_among(b[j], a));
        let p = lemma_environment_match(b[j], a);
        assert(transport_catalog::environment_fault(a, p) is None);
        lemma_symmetric_environment(b[j], a[p]);
        lemma_environment_accepted(a[p], b[j]);
        assert forall|k: int| 0 <= k < j implies (#[trigger] b[k]).identity != b[j].identity by {
            assert(after[k] != after[j]);
        }
        assert(passes_at(b, j));
        reveal(passes_at);
    }
    error::lemma_no_fault(faults);
}

/// What the environments say of a variable or a population does not depend on their order.
proof fn lemma_same_declarations(a: CatalogView, b: CatalogView)
    requires
        reordered_catalog(a, b),
    ensures
        forall|v: VariableId| #[trigger]
            transport_catalog::declares(transport_catalog::declared(a.environments), v)
                ==> transport_catalog::declares(transport_catalog::declared(b.environments), v),
        forall|population: Seq<char>| #[trigger]
            a.names_population(population) ==> b.names_population(population),
{
    let left = transport_catalog::declared(a.environments);
    let right = transport_catalog::declared(b.environments);
    lemma_same_declared(a.environments, b.environments);
    assert forall|v: VariableId| #[trigger]
        transport_catalog::declares(left, v) implies transport_catalog::declares(right, v) by {
        let k = choose|k: int| 0 <= k < left.len() && (#[trigger] left[k]).variable == v;
        assert(left.contains(left[k]));
        let j = lemma_place(right, left[k]);
        assert(right[j].variable == v);
    }
    assert forall|population: Seq<char>| #[trigger]
        a.names_population(population) implies b.names_population(population) by {
        let k = choose|k: int|
            0 <= k < a.environments.len() && (#[trigger] a.environments[k]).identity == population;
        assert(environment_among(a.environments[k], b.environments));
        let j = lemma_environment_match(a.environments[k], b.environments);
        assert(b.environments[j].identity == population);
    }
}

/// The ids of accepted regimes are distinct in any order.
proof fn lemma_regime_ids(a: CatalogView, b: CatalogView)
    requires
        reordered_catalog(a, b),
        error::first_fault(a.regime_faults()) is None,
    ensures
        forall|i: int, j: int|
            0 <= i < j < a.regimes.len() ==> (#[trigger] a.regimes[i]).id != (
            #[trigger] a.regimes[j]).id,
        forall|i: int, j: int|
            0 <= i < j < b.regimes.len() ==> (#[trigger] b.regimes[i]).id != (
            #[trigger] b.regimes[j]).id,
{
    let given = a.regime_faults();
    let key = |r: RegimeView| r.id;
    let before = a.regimes.map_values(key);
    let after = b.regimes.map_values(key);
    error::lemma_no_fault(given);
    assert forall|i: int, j: int| 0 <= i < j < a.regimes.len() implies (
    #[trigger] a.regimes[i]).id != (#[trigger] a.regimes[j]).id by {
        assert(given[j] is None);
    }
    assert(before.no_duplicates());
    assert(reordered(before, after)) by {
        assert forall|x: RegimeId| #[trigger] before.contains(x) <==> after.contains(
            x,
        ) by {
            if before.contains(x) {
                let i = lemma_place(before, x);
                assert(regime_among(a.regimes[i], b.regimes));
                let j = lemma_regime_match(a.regimes[i], b.regimes);
                assert(after[j] == x);
            }
            if after.contains(x) {
                let i = lemma_place(after, x);
                assert(regime_among(b.regimes[i], a.regimes));
                let j = lemma_regime_match(b.regimes[i], a.regimes);
                assert(before[j] == x);
            }
        }
    }
    lemma_still_distinct(before, after);
    assert forall|i: int, j: int| 0 <= i < j < b.regimes.len() implies (
    #[trigger] b.regimes[i]).id != (#[trigger] b.regimes[j]).id by {
        assert(after[i] != after[j]);
    }
}

/// A list whose ids are all declared stays so.
proof fn lemma_declared_list(
    a: CatalogView,
    b: CatalogView,
    before: Seq<VariableId>,
    after: Seq<VariableId>,
)
    requires
        reordered_catalog(a, b),
        reordered(before, after),
        !a.undeclared_in(before),
    ensures
        !b.undeclared_in(after),
{
    lemma_same_declarations(a, b);
    let left = transport_catalog::declared(a.environments);
    let right = transport_catalog::declared(b.environments);
    assert forall|i: int| 0 <= i < after.len() implies transport_catalog::declares(
        right,
        #[trigger] after[i],
    ) by {
        assert(after.contains(after[i]));
        assert(before.contains(after[i]));
        let p = lemma_place(before, after[i]);
        assert(transport_catalog::declares(left, before[p]));
    }
}

/// A regime that is accepted in one catalog is accepted in the other.
proof fn lemma_regime_in_catalog(a: CatalogView, b: CatalogView, p: int, j: int)
    requires
        reordered_catalog(a, b),
        consistent(transport_catalog::declared(a.environments)),
        consistent(transport_catalog::declared(b.environments)),
        error::first_fault(a.regime_faults()) is None,
        0 <= p < a.regimes.len(),
        0 <= j < b.regimes.len(),
        reordered_regime(a.regimes[p], b.regimes[j]),
    ensures
        b.regime_fault(j) is None,
{
    let given = a.regime_faults();
    let left = a.regimes[p];
    let right = b.regimes[j];
    error::lemma_no_fault(given);
    assert(given[p] is None);
    assert(a.regime_fault(p) is None);
    lemma_regime_ids(a, b);
    lemma_same_declarations(a, b);
    if b.environments.len() > 0 {
        lemma_declared_list(a, b, left.interventions, right.interventions);
        lemma_declared_list(a, b, left.measured, right.measured);
        assert(a.names_population(left.population));
    }
    lemma_regime_accepted(left, right);
    lemma_still_distinct(left.conditioned_on, right.conditioned_on);
    assert forall|i: int| 0 <= i < right.conditioned_on.len() implies right.measured.contains(
        #[trigger] right.conditioned_on[i],
    ) by {
        assert(right.conditioned_on.contains(right.conditioned_on[i]));
        assert(left.conditioned_on.contains(right.conditioned_on[i]));
        let k = lemma_place(left.conditioned_on, right.conditioned_on[i]);
        assert(left.measured.contains(left.conditioned_on[k]));
    }
    assert(!evidence::reaches_outside(right.conditioned_on, right.measured));
    lemma_same_declared(a.environments, b.environments);
    assert(!b.off_domain(j)) by {
        let listed = right.intervention_values;
        assert forall|k: int| 0 <= k < listed.len() implies transport_catalog::settled_domain(
            transport_catalog::declared(b.environments),
            (#[trigger] listed[k]).variable,
        ).holds(listed[k].value) by {
            assert(listed.contains(listed[k]));
            assert(left.intervention_values.contains(listed[k]));
            let m = lemma_place(left.intervention_values, listed[k]);
            lemma_one_domain(
                transport_catalog::declared(a.environments),
                transport_catalog::declared(b.environments),
                listed[k].variable,
            );
            assert(!a.off_domain(p));
            assert(a.regimes[p].intervention_values[m] == listed[k]);
        }
    }
    assert(!b.bad_label(j)) by {
        if right.label is Some {
            let label = right.label->0;
            assert(!a.bad_label(p));
            assert forall|k: int| 0 <= k < j implies (#[trigger] b.regimes[k]).label != Some(
                label,
            ) by {
                assert(regime_among(b.regimes[k], a.regimes));
                let q = lemma_regime_match(b.regimes[k], a.regimes);
                assert(b.regimes[k].id != b.regimes[j].id);
                assert(q != p);
                if a.regimes[q].label == Some(label) {
                    assert(given[q] is None);
                    assert(!a.bad_label(q));
                    if q < p {
                        assert(a.regimes[q].label == Some(label));
                    } else {
                        assert(a.regimes[p].label == Some(label));
                    }
                }
            }
        }
    }
}

/// The regime found by an id that no other regime has.
proof fn lemma_find(regimes: Seq<RegimeView>, at: int)
    requires
        0 <= at < regimes.len(),
        forall|i: int, j: int|
            0 <= i < j < regimes.len() ==> (#[trigger] regimes[i]).id != (#[trigger] regimes[j]).id,
    ensures
        transport_catalog::find_regime(regimes, regimes[at].id) == Some(regimes[at]),
{
    transport_catalog::lemma_find_regime(regimes, regimes[at].id, at);
}

proof fn lemma_found(regimes: Seq<RegimeView>, id: RegimeId) -> (at: int)
    requires
        transport_catalog::find_regime(regimes, id) is Some,
    ensures
        0 <= at < regimes.len(),
        regimes[at].id == id,
        transport_catalog::find_regime(regimes, id) == Some(regimes[at]),
    decreases regimes.len(),
{
    if regimes.len() == 0 || regimes[0].id == id {
        0
    } else {
        let at = lemma_found(regimes.skip(1), id);
        assert(regimes.skip(1)[at] == regimes[at + 1]);
        at + 1
    }
}

/// Bindings that are accepted are accepted in any order.
proof fn lemma_bindings_accepted(a: CatalogView, b: CatalogView)
    requires
        reordered_catalog(a, b),
        error::first_fault(a.regime_faults()) is None,
        error::first_fault(a.binding_faults()) is None,
    ensures
        error::first_fault(b.binding_faults()) is None,
{
    let given = a.binding_faults();
    let faults = b.binding_faults();
    let key = |r: BindingView| r.regime;
    let before = a.bindings.map_values(key);
    let after = b.bindings.map_values(key);
    error::lemma_no_fault(given);
    lemma_regime_ids(a, b);
    assert(before.no_duplicates()) by {
        assert forall|i: int, j: int| 0 <= i < j < before.len() implies before[i] != before[j] by {
            assert(given[j] is None);
            assert(!a.malformed_binding(j));
            assert(a.bindings[i].regime != a.bindings[j].regime);
        }
    }
    lemma_keys_reordered(a.bindings, b.bindings, key);
    lemma_still_distinct(before, after);
    assert forall|j: int| 0 <= j < faults.len() implies (#[trigger] faults[j]) is None by {
        let own = b.bindings[j];
        assert(b.bindings.contains(own));
        assert(a.bindings.contains(own));
        let p = lemma_place(a.bindings, own);
        assert(given[p] is None);
        assert(!a.malformed_binding(p));
        assert forall|k: int| 0 <= k < j implies (#[trigger] b.bindings[k]).regime != own.regime by {
            assert(after[k] != after[j]);
        }
        assert(!b.malformed_binding(j));
        let m = lemma_found(a.regimes, own.regime);
        assert(regime_among(a.regimes[m], b.regimes));
        let n = lemma_regime_match(a.regimes[m], b.regimes);
        lemma_find(b.regimes, n);
    }
    error::lemma_no_fault(faults);
}

/// A catalog is accepted or refused whatever the order of its lists.
pub proof fn law_reordered_catalogs_are_accepted_together(a: CatalogView, b: CatalogView)
    requires
        reordered_catalog(a, b),
    ensures
        a.refusal() is None <==> b.refusal() is None,
{
    if a.refusal() is None {
        lemma_catalog_accepted(a, b);
    }
    if b.refusal() is None {
        lemma_catalog_accepted(b, a);
    }
}

proof fn lemma_catalog_accepted(a: CatalogView, b: CatalogView)
    requires
        reordered_catalog(a, b),
        a.refusal() is None,
    ensures
        b.refusal() is None,
{
    let faults = b.regime_faults();
    lemma_environments_accepted(a.environments, b.environments);
    assert forall|j: int| 0 <= j < faults.len() implies (#[trigger] faults[j]) is None by {
        assert(regime_among(b.regimes[j], a.regimes));
        let p = lemma_regime_match(b.regimes[j], a.regimes);
        lemma_symmetric_regime(b.regimes[j], a.regimes[p]);
        lemma_regime_in_catalog(a, b, p, j);
    }
    error::lemma_no_fault(faults);
    lemma_bindings_accepted(a, b);
}

/// The canonical form of a catalog differs from it only in the order of its lists.
pub proof fn law_canonical_form_is_a_reordering(out: CatalogView, given: CatalogView)
    requires
        transport_canonical::canonical_catalog(out, given),
    ensures
        reordered_catalog(out, given),
{
    assert forall|i: int| 0 <= i < out.environments.len() implies environment_among(
        #[trigger] out.environments[i],
        given.environments,
    ) by {
        assert(transport_canonical::environment_stems_from(
            out.environments[i],
            given.environments,
        ));
        let p = lemma_environment_source(out.environments[i], given.environments);
        reveal(environment_among);
        assert(reordered_environment(out.environments[i], given.environments[p]));
    }
    assert forall|i: int| 0 <= i < given.environments.len() implies environment_among(
        #[trigger] given.environments[i],
        out.environments,
    ) by {
        assert(transport_canonical::environment_carried_into(
            given.environments[i],
            out.environments,
        ));
        let p = lemma_environment_image(given.environments[i], out.environments);
        lemma_symmetric_environment(out.environments[p], given.environments[i]);
        reveal(environment_among);
        assert(reordered_environment(given.environments[i], out.environments[p]));
    }
    assert forall|i: int| 0 <= i < out.regimes.len() implies regime_among(
        #[trigger] out.regimes[i],
        given.regimes,
    ) by {
        assert(transport_canonical::regime_stems_from(out.regimes[i], given.regimes));
        let p = lemma_regime_source(out.regimes[i], given.regimes);
        reveal(regime_among);
        assert(reordered_regime(out.regimes[i], given.regimes[p]));
    }
    assert forall|i: int| 0 <= i < given.regimes.len() implies regime_among(
        #[trigger] given.regimes[i],
        out.regimes,
    ) by {
        assert(transport_canonical::regime_carried_into(given.regimes[i], out.regimes));
        let p = lemma_regime_image(given.regimes[i], out.regimes);
        lemma_symmetric_regime(out.regimes[p], given.regimes[i]);
        reveal(regime_among);
        assert(reordered_regime(given.regimes[i], out.regimes[p]));
    }
}

/// Canonicalizing twice changes nothing: a canonical form is accepted, and is its own and
/// only canonical form.
pub proof fn law_canonicalizing_twice_changes_nothing(
    again: CatalogView,
    out: CatalogView,
    given: CatalogView,
)
    requires
        given.refusal() is None,
        transport_canonical::canonical_catalog(out, given),
    ensures
        out.refusal() is None,
        transport_canonical::canonical_catalog(again, out) <==> again == out,
{
    law_canonical_form_is_a_reordering(out, given);
    law_reordered_catalogs_are_accepted_together(out, given);
    if transport_canonical::canonical_catalog(again, out) {
        law_reordered_catalogs_have_one_canonical_form(again, out, given, out);
    }
    lemma_canonical_of_itself(out, given);
}

/// A canonical form is a canonical form of itself.
proof fn lemma_canonical_of_itself(out: CatalogView, given: CatalogView)
    requires
        transport_canonical::canonical_catalog(out, given),
    ensures
        transport_canonical::canonical_catalog(out, out),
{
    assert forall|i: int| 0 <= i < out.environments.len() implies
        transport_canonical::environment_stems_from(#[trigger] out.environments[i], out.environments)
        && transport_canonical::environment_carried_into(
        out.environments[i],
        out.environments,
    ) by {
        assert(transport_canonical::environment_stems_from(
            out.environments[i],
            given.environments,
        ));
        let p = lemma_environment_source(out.environments[i], given.environments);
        assert(transport_canonical::canonical_environment(
            out.environments[i],
            out.environments[i],
        ));
        reveal(transport_canonical::environment_stems_from);
        reveal(transport_canonical::environment_carried_into);
    }
    assert forall|i: int| 0 <= i < out.regimes.len() implies
        transport_canonical::regime_stems_from(#[trigger] out.regimes[i], out.regimes)
        && transport_canonical::regime_carried_into(out.regimes[i], out.regimes) by {
        assert(transport_canonical::regime_stems_from(out.regimes[i], given.regimes));
        let p = lemma_regime_source(out.regimes[i], given.regimes);
        assert(transport_canonical::canonical_regime(out.regimes[i], out.regimes[i]));
        reveal(transport_canonical::regime_stems_from);
        reveal(transport_canonical::regime_carried_into);
    }
}

} // verus!

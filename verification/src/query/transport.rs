//! Structural transportability queries.
//!
//! SPDX-License-Identifier: MIT OR Apache-2.0

use crate::ids;
use crate::ids::VariableId;
use crate::query::error;
use crate::query::error::{QueryError, QueryFault};
use crate::query::evidence::FactorNeed;
use crate::query::response::ResponseQuery;
use crate::query::transport_catalog;
use crate::query::transport_catalog::{CatalogView, EvidenceCatalog, UnmetDependency};
use crate::text;
use vstd::prelude::*;

verus! {

/// Transport a response from one explicitly named population to another.
///
/// `source_experiments` is the compatibility view. When [`Self::catalog`] is absent,
/// those variables become source experimental regimes. When a catalog is present,
/// `source_experiments` is derived from available experimental regimes and must not
/// disagree with an explicit list.
#[derive(Clone, Debug, PartialEq)]
pub struct TransportQuery {
    /// Response functional requested in the target population.
    pub response: ResponseQuery,
    /// Source population key.
    pub source_population: String,
    /// Target population key.
    pub target_population: String,
    /// Compatibility view of source experimental variables.
    pub source_experiments: Vec<VariableId>,
    /// Optional supplied evidence catalog. Absent means the compatibility view is the
    /// entire experimental setting.
    pub catalog: Option<EvidenceCatalog>,
}

/// A list names each experimental variable of the population once, and no other.
pub open spec fn agrees(
    catalog: CatalogView,
    population: Seq<char>,
    experiments: Seq<VariableId>,
) -> bool {
    experiments.no_duplicates() && forall|v: VariableId| #[trigger]
        experiments.contains(v) <==> catalog.experimented(population, v)
}

/// An ascending list holds the same ids as another exactly if the other repeats none
/// and has the same members.
proof fn lemma_same_as_ascending(list: Seq<VariableId>, derived: Seq<VariableId>)
    requires
        ids::ascending(derived),
    ensures
        ids::same_ids(list, derived) <==> list.no_duplicates() && forall|v: VariableId| #[trigger]
            list.contains(v) <==> derived.contains(v),
{
    assert(derived.no_duplicates());
    derived.lemma_multiset_has_no_duplicates();
    if ids::same_ids(list, derived) {
        list.lemma_multiset_has_no_duplicates_conv();
        assert forall|v: VariableId| #[trigger] list.contains(v) <==> derived.contains(v) by {
            vstd::seq_lib::to_multiset_contains(list, v);
            vstd::seq_lib::to_multiset_contains(derived, v);
        }
    }
    if list.no_duplicates() && forall|v: VariableId| #[trigger]
        list.contains(v) <==> derived.contains(v) {
        list.lemma_multiset_has_no_duplicates();
        assert(list.to_multiset() =~= derived.to_multiset()) by {
            assert forall|v: VariableId| list.to_multiset().count(v) == derived.to_multiset().count(
                v,
            ) by {
                vstd::seq_lib::to_multiset_contains(list, v);
                vstd::seq_lib::to_multiset_contains(derived, v);
                assert(list.contains(v) == derived.contains(v));
                if list.contains(v) {
                    assert(list.to_multiset().contains(v) && derived.to_multiset().contains(v));
                }
            }
        }
    }
}

fn list_agrees(catalog: &EvidenceCatalog, population: &str, experiments: &Vec<VariableId>) -> (yes:
    bool)
    ensures
        yes == agrees(catalog@, population@, experiments@),
{
    let derived = catalog.source_experiment_variables(population);
    proof {
        lemma_same_as_ascending(experiments@, derived@);
    }
    ids::same_variable_set(experiments.as_slice(), derived.as_slice())
}

impl TransportQuery {
    /// Construct a single-source transport query without a catalog.
    #[must_use]
    pub fn new(
        response: ResponseQuery,
        source_population: &str,
        target_population: &str,
        source_experiments: Vec<VariableId>,
    ) -> (query: Self)
        ensures
            query.response == response,
            query.source_population@ == source_population@,
            query.target_population@ == target_population@,
            query.source_experiments == source_experiments,
            query.catalog is None,
    {
        TransportQuery {
            response,
            source_population: source_population.to_owned(),
            target_population: target_population.to_owned(),
            source_experiments,
            catalog: None,
        }
    }

    /// Why a catalog cannot be attached: it is invalid, or an explicit experiment list
    /// disagrees with it.
    pub open spec fn attachment_refusal(self, catalog: CatalogView) -> Option<QueryFault> {
        if catalog.refusal() is Some {
            catalog.refusal()
        } else if self.source_experiments@.len() > 0 && !agrees(
            catalog,
            self.source_population@,
            self.source_experiments@,
        ) {
            Some(QueryFault::Transport("source_experiments disagree with the evidence catalog"@))
        } else {
            None
        }
    }

    /// Attach a validated catalog. An empty experiment list is filled from it, in
    /// ascending order; an explicit one is kept and must not disagree.
    pub fn with_catalog(self, catalog: EvidenceCatalog) -> (r: Result<Self, QueryError>)
        ensures
            error::answers(r, self.attachment_refusal(catalog@)),
            r matches Ok(query) ==> {
                &&& query.response == self.response
                &&& query.source_population == self.source_population
                &&& query.target_population == self.target_population
                &&& query.catalog == Some(catalog)
                &&& agrees(catalog@, self.source_population@, query.source_experiments@)
                &&& if self.source_experiments@.len() > 0 {
                    query.source_experiments == self.source_experiments
                } else {
                    ids::ascending(query.source_experiments@)
                }
            },
    {
        match catalog.validate() {
            Ok(_) => {},
            Err(error) => {
                return Err(error);
            },
        }
        let listed = self.source_experiments.len() > 0;
        if listed && !list_agrees(
            &catalog,
            self.source_population.as_str(),
            &self.source_experiments,
        ) {
            return Err(
                QueryError::InvalidTransport(
                    "source_experiments disagree with the evidence catalog".to_owned(),
                ),
            );
        }
        let derived = catalog.source_experiment_variables(self.source_population.as_str());
        let source_experiments = if listed {
            self.source_experiments
        } else {
            derived
        };
        Ok(
            TransportQuery {
                response: self.response,
                source_population: self.source_population,
                target_population: self.target_population,
                source_experiments,
                catalog: Some(catalog),
            },
        )
    }

    /// The evidence a query speaks of.
    pub open spec fn evidence(self) -> CatalogView {
        match self.catalog {
            Some(catalog) => catalog@,
            None => transport_catalog::compatibility(
                self.source_population@,
                self.source_experiments@,
            ),
        }
    }

    /// Compatibility catalog: the supplied catalog, or one synthesized regime per
    /// listed source experiment.
    #[must_use]
    pub fn compatibility_catalog(&self) -> (catalog: EvidenceCatalog)
        ensures
            catalog@ == self.evidence(),
    {
        match &self.catalog {
            Some(catalog) => catalog.duplicate(),
            None => EvidenceCatalog::from_source_experiments(
                self.source_population.as_str(),
                self.source_experiments.as_slice(),
            ),
        }
    }

    /// Unmet executable-factor dependencies in stable order.
    #[must_use]
    pub fn unmet_factor_dependencies(&self, needed: &[(String, FactorNeed)]) -> (report: Vec<
        UnmetDependency,
    >)
        ensures
            exists|from: Seq<int>| self.evidence().reports(needed@, report@, from),
    {
        self.compatibility_catalog().unmet_factor_dependencies(needed)
    }

    /// Why a query is refused: its response, its population keys, a repeated
    /// experiment, its catalog, or a list that disagrees with the catalog.
    pub open spec fn refusal(self) -> Option<QueryFault> {
        if self.response.refusal() is Some {
            self.response.refusal()
        } else if text::trimmed(self.source_population@).len() == 0 || text::trimmed(
            self.target_population@,
        ).len() == 0 || self.source_population@ == self.target_population@ {
            Some(
                QueryFault::Transport(
                    "source and target population keys must be non-empty and distinct"@,
                ),
            )
        } else if !self.source_experiments@.no_duplicates() {
            Some(QueryFault::Transport("source experiment variables must be unique"@))
        } else {
            match self.catalog {
                None => None,
                Some(catalog) => if catalog@.refusal() is Some {
                    catalog@.refusal()
                } else if !agrees(
                    catalog@,
                    self.source_population@,
                    self.source_experiments@,
                ) {
                    Some(
                        QueryFault::Transport(
                            "source_experiments disagree with the evidence catalog"@,
                        ),
                    )
                } else {
                    None
                },
            }
        }
    }

    /// Validate population keys, response semantics, experiment uniqueness, and
    /// catalog.
    pub fn validate(&self) -> (r: Result<(), QueryError>)
        ensures
            error::answers(r, self.refusal()),
    {
        match self.response.validate() {
            Ok(_) => {},
            Err(error) => {
                return Err(error);
            },
        }
        if text::blank(self.source_population.as_str()) || text::blank(
            self.target_population.as_str(),
        ) || text::str_eq(self.source_population.as_str(), self.target_population.as_str()) {
            return Err(
                QueryError::InvalidTransport(
                    "source and target population keys must be non-empty and distinct".to_owned(),
                ),
            );
        }
        if !ids::distinct_ids(&self.source_experiments) {
            return Err(
                QueryError::InvalidTransport(
                    "source experiment variables must be unique".to_owned(),
                ),
            );
        }
        match &self.catalog {
            None => Ok(()),
            Some(catalog) => {
                match catalog.validate() {
                    Ok(_) => {},
                    Err(error) => {
                        return Err(error);
                    },
                }
                if !list_agrees(
                    catalog,
                    self.source_population.as_str(),
                    &self.source_experiments,
                ) {
                    return Err(
                        QueryError::InvalidTransport(
                            "source_experiments disagree with the evidence catalog".to_owned(),
                        ),
                    );
                }
                Ok(())
            },
        }
    }
}

/// Attaching an accepted catalog to an accepted query gives an accepted query.
pub proof fn law_attached_catalog_keeps_the_query_valid(
    query: TransportQuery,
    attached: TransportQuery,
    catalog: EvidenceCatalog,
)
    requires
        query.refusal() is None,
        query.attachment_refusal(catalog@) is None,
        attached.response == query.response,
        attached.source_population == query.source_population,
        attached.target_population == query.target_population,
        attached.catalog == Some(catalog),
        agrees(catalog@, query.source_population@, attached.source_experiments@),
    ensures
        attached.refusal() is None,
{
}

} // verus!

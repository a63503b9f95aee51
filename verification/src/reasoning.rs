//! Four typed reasoning slots: identification, support, uncertainty, assumptions.
//!
//! Structured state is authoritative. Unknown fields are
//! [`SlotAvailability::Unavailable`], never empty objects that imply success.
//! Priors, validation, and successful estimation never upgrade identification.
//!
//! SPDX-License-Identifier: MIT OR Apache-2.0

use crate::identification::IdentificationStatus;
use crate::level::OrderedFloatBits;
use crate::obligation::ObligationRecord;
use vstd::prelude::*;

verus! {

/// Whether a semantic field is present.
#[derive(Clone, Debug, PartialEq, Eq)]
pub enum SlotAvailability<T> {
    /// Inspectable value.
    Available(T),
    /// Explicitly unavailable; `reason` is a stable id, not prose.
    Unavailable {
        /// Stable reason id (`not_prepared`, `execution_specific`, and so on).
        reason: String,
    },
}

impl<T> SlotAvailability<T> {
    /// Construct an unavailable slot.
    #[must_use]
    pub fn unavailable(reason: &str) -> (slot: Self)
        ensures
            slot matches SlotAvailability::Unavailable { reason: own } && own@ == reason@,
    {
        SlotAvailability::Unavailable { reason: reason.to_owned() }
    }

    /// Whether a value is present.
    #[must_use]
    pub fn is_available(&self) -> (yes: bool)
        ensures
            yes == (self is Available),
    {
        match self {
            SlotAvailability::Available(_) => true,
            SlotAvailability::Unavailable { .. } => false,
        }
    }

    /// Borrow the value when present.
    #[must_use]
    pub fn as_ref(&self) -> (value: Option<&T>)
        ensures
            match self {
                SlotAvailability::Available(own) => value == Some(own),
                SlotAvailability::Unavailable { .. } => value is None,
            },
    {
        match self {
            SlotAvailability::Available(value) => Some(value),
            SlotAvailability::Unavailable { .. } => None,
        }
    }

    /// Map a present value, or render `unavailable:<reason>`.
    #[must_use]
    pub fn label<F: FnOnce(&T) -> String>(&self, available: F) -> (out: String)
        requires
            self matches SlotAvailability::Available(value) ==> available.requires((value,)),
        ensures
            match self {
                SlotAvailability::Available(value) => available.ensures((value,), out),
                SlotAvailability::Unavailable { reason } => out@ == "unavailable:"@ + reason@,
            },
    {
        match self {
            SlotAvailability::Available(value) => available(value),
            SlotAvailability::Unavailable { reason } => "unavailable:".to_owned().concat(
                reason.as_str(),
            ),
        }
    }
}

/// Identification slot: status, masses, and search scope.
#[derive(Clone, Debug, PartialEq)]
pub struct IdentificationSlot {
    /// Overall identification status.
    pub status: IdentificationStatus,
    /// Fraction of structural mass that is identified and evaluable.
    pub identified_mass: OrderedFloatBits,
    /// Fraction structurally unidentified.
    pub unidentified_mass: OrderedFloatBits,
    /// Fraction identified but not evaluable by the selected estimator.
    pub unevaluable_mass: OrderedFloatBits,
    /// Fraction left out of a capped search or an interactive subsample.
    pub incomplete_search_mass: OrderedFloatBits,
    /// Whether reported mass covers the full class.
    pub full_mass_scope: bool,
    /// Interpretation of atom weights, when this is a mixture.
    pub weight_basis: Option<String>,
    /// Whether identification search was capped before a determination.
    pub search_capped: bool,
}

impl IdentificationSlot {
    /// Fully specified identification slot.
    #[must_use]
    pub fn new(
        status: IdentificationStatus,
        identified_mass: OrderedFloatBits,
        unidentified_mass: OrderedFloatBits,
        unevaluable_mass: OrderedFloatBits,
        incomplete_search_mass: OrderedFloatBits,
        full_mass_scope: bool,
        weight_basis: Option<String>,
        search_capped: bool,
    ) -> (slot: Self)
        ensures
            slot == (IdentificationSlot {
                status,
                identified_mass,
                unidentified_mass,
                unevaluable_mass,
                incomplete_search_mass,
                full_mass_scope,
                weight_basis,
                search_capped,
            }),
    {
        IdentificationSlot {
            status,
            identified_mass,
            unidentified_mass,
            unevaluable_mass,
            incomplete_search_mass,
            full_mass_scope,
            weight_basis,
            search_capped,
        }
    }

    /// Single-atom result (point identification): all of the mass is identified,
    /// or none of it where the status says so.
    #[must_use]
    pub fn identified_singleton(status: IdentificationStatus) -> (slot: Self)
        ensures
            slot.status == status,
            slot.identified_mass.bits == if status is NotIdentified {
                0
            } else {
                crate::level::ONE_BITS
            },
            slot.unidentified_mass.bits == if status is NotIdentified {
                crate::level::ONE_BITS
            } else {
                0
            },
            slot.unevaluable_mass.bits == 0,
            slot.incomplete_search_mass.bits == 0,
            slot.full_mass_scope,
            slot.weight_basis is None,
            !slot.search_capped,
    {
        let identified = status != IdentificationStatus::NotIdentified;
        IdentificationSlot {
            status,
            identified_mass: if identified {
                OrderedFloatBits::one()
            } else {
                OrderedFloatBits::zero()
            },
            unidentified_mass: if identified {
                OrderedFloatBits::zero()
            } else {
                OrderedFloatBits::one()
            },
            unevaluable_mass: OrderedFloatBits::zero(),
            incomplete_search_mass: OrderedFloatBits::zero(),
            full_mass_scope: true,
            weight_basis: None,
            search_capped: false,
        }
    }
}

/// Matrix licensing versus empirical support. They stay distinct.
#[derive(Clone, Debug, PartialEq, Eq)]
pub struct SupportSlot {
    /// Support-matrix evidence status (`licensed`, `not_applicable`, `refused`).
    pub matrix_status: String,
    /// Actual matrix coordinate, when classified.
    pub matrix_coordinate: Option<String>,
    /// Empirical support status, when evaluated.
    pub empirical: SlotAvailability<String>,
}

impl SupportSlot {
    /// Construct a support slot.
    #[must_use]
    pub fn new(
        matrix_status: String,
        matrix_coordinate: Option<String>,
        empirical: SlotAvailability<String>,
    ) -> (slot: Self)
        ensures
            slot == (SupportSlot { matrix_status, matrix_coordinate, empirical }),
    {
        SupportSlot { matrix_status, matrix_coordinate, empirical }
    }
}

/// Source of a reported uncertainty number.
#[derive(Clone, Copy, Debug, PartialEq, Eq, Hash, Structural)]
pub enum UncertaintySource {
    /// Sampling or replicate uncertainty.
    Sampling,
    /// Parameter uncertainty.
    Parameter,
    /// Structural or orientation uncertainty.
    Structure,
    /// Partial-identification bounds.
    Identification,
    /// Mechanism uncertainty.
    Mechanism,
    /// Regime uncertainty.
    Regime,
    /// Measurement uncertainty.
    Measurement,
}

impl UncertaintySource {
    /// The name as text.
    pub open spec fn name(self) -> Seq<char> {
        match self {
            UncertaintySource::Sampling => "sampling"@,
            UncertaintySource::Parameter => "parameter"@,
            UncertaintySource::Structure => "structural"@,
            UncertaintySource::Identification => "identification"@,
            UncertaintySource::Mechanism => "mechanism"@,
            UncertaintySource::Regime => "regime"@,
            UncertaintySource::Measurement => "measurement"@,
        }
    }

    /// Stable `snake_case` name.
    #[must_use]
    pub fn as_str(self) -> (out: &'static str)
        ensures
            out@ == self.name(),
    {
        match self {
            UncertaintySource::Sampling => "sampling",
            UncertaintySource::Parameter => "parameter",
            UncertaintySource::Structure => "structural",
            UncertaintySource::Identification => "identification",
            UncertaintySource::Mechanism => "mechanism",
            UncertaintySource::Regime => "regime",
            UncertaintySource::Measurement => "measurement",
        }
    }
}

/// Different variants of [`UncertaintySource`] have different names.
pub proof fn law_uncertainty_source_names_are_distinct(a: UncertaintySource, b: UncertaintySource)
    requires
        a.name() == b.name(),
    ensures
        a == b,
{
    reveal_strlit("sampling");
    assert("sampling"@.len() == 8 && "sampling"@[0] == 's');
    reveal_strlit("parameter");
    assert("parameter"@.len() == 9 && "parameter"@[0] == 'p');
    reveal_strlit("structural");
    assert("structural"@.len() == 10 && "structural"@[0] == 's');
    reveal_strlit("identification");
    assert("identification"@.len() == 14 && "identification"@[0] == 'i');
    reveal_strlit("mechanism");
    assert("mechanism"@.len() == 9 && "mechanism"@[0] == 'm');
    reveal_strlit("regime");
    assert("regime"@.len() == 6 && "regime"@[0] == 'r');
    reveal_strlit("measurement");
    assert("measurement"@.len() == 11 && "measurement"@[0] == 'm');
}

/// One reported uncertainty component. Not a generic interval reducer.
#[derive(Clone, Debug, PartialEq)]
pub struct UncertaintyComponent {
    /// Source of this component.
    pub source: UncertaintySource,
    /// Reported target (`se`, `credible_interval`, `identified_set`, and so on).
    pub target: String,
    /// Whether this component is omitted or unresolved.
    pub omitted: bool,
}

impl UncertaintyComponent {
    /// Construct one uncertainty component.
    #[must_use]
    pub fn new(source: UncertaintySource, target: String, omitted: bool) -> (component: Self)
        ensures
            component == (UncertaintyComponent { source, target, omitted }),
    {
        UncertaintyComponent { source, target, omitted }
    }
}

/// Uncertainty slot: sources and reported targets.
#[derive(Clone, Debug, PartialEq)]
pub struct UncertaintySlot {
    /// Declared components. Empty only when the slot is unavailable.
    pub components: Vec<UncertaintyComponent>,
}

impl UncertaintySlot {
    /// Construct from components.
    #[must_use]
    pub fn new(components: Vec<UncertaintyComponent>) -> (slot: Self)
        ensures
            slot.components == components,
    {
        UncertaintySlot { components }
    }
}

/// Assumption and obligation slot.
#[derive(Clone, Debug, PartialEq, Eq)]
pub struct AssumptionSlot {
    /// Scoped obligations, including uncheckable and not-run checks.
    pub obligations: Vec<ObligationRecord>,
}

impl AssumptionSlot {
    /// Construct from obligations.
    #[must_use]
    pub fn new(obligations: Vec<ObligationRecord>) -> (slot: Self)
        ensures
            slot.obligations == obligations,
    {
        AssumptionSlot { obligations }
    }
}

/// Compact four-slot view. Structured state is authoritative.
#[derive(Clone, Debug, PartialEq)]
pub struct ReasoningView {
    /// Identification.
    pub identification: SlotAvailability<IdentificationSlot>,
    /// Support (matrix and empirical).
    pub support: SlotAvailability<SupportSlot>,
    /// Uncertainty.
    pub uncertainty: SlotAvailability<UncertaintySlot>,
    /// Assumptions and obligations.
    pub assumptions: SlotAvailability<AssumptionSlot>,
}

impl ReasoningView {
    /// Fully specified four-slot view.
    #[must_use]
    pub fn new(
        identification: SlotAvailability<IdentificationSlot>,
        support: SlotAvailability<SupportSlot>,
        uncertainty: SlotAvailability<UncertaintySlot>,
        assumptions: SlotAvailability<AssumptionSlot>,
    ) -> (view: Self)
        ensures
            view == (ReasoningView { identification, support, uncertainty, assumptions }),
    {
        ReasoningView { identification, support, uncertainty, assumptions }
    }

    /// Inspection before identification: identification and uncertainty are
    /// unavailable, not empty.
    #[must_use]
    pub fn structural(support: SupportSlot, assumptions: AssumptionSlot) -> (view: Self)
        ensures
            view.identification matches SlotAvailability::Unavailable { reason } && reason@
                == "not_prepared"@,
            view.support == SlotAvailability::Available(support),
            view.uncertainty matches SlotAvailability::Unavailable { reason } && reason@
                == "execution_specific"@,
            view.assumptions == SlotAvailability::Available(assumptions),
    {
        ReasoningView {
            identification: SlotAvailability::unavailable("not_prepared"),
            support: SlotAvailability::Available(support),
            uncertainty: SlotAvailability::unavailable("execution_specific"),
            assumptions: SlotAvailability::Available(assumptions),
        }
    }
}

} // verus!

//! Closed reason-code vocabulary.
//!
//! A refusal carries a registered code; a code outside the vocabulary is not a
//! reason. Codes for runtime refusals are some of the registered ones.
//!
//! SPDX-License-Identifier: MIT OR Apache-2.0

use crate::text;
use vstd::prelude::*;

pub mod prefix;

verus! {

/// The prefix a reason-coded refusal message carries: `<PREFIX><code>: <message>`.
pub const PREFIX: &'static str = "reason=";

/// Every registered reason code.
pub open spec fn registered_codes() -> Seq<Seq<char>> {
    seq![
        "attested_not_reverifiable"@,
        "boundary_record"@,
        "calibration_basis_missing"@,
        "cancelled_no_claim"@,
        "construction_not_licensed"@,
        "data_modality_not_licensed"@,
        "estimator_grid_not_measured"@,
        "identification_not_measured"@,
        "interval_level_not_measured"@,
        "mechanism_fit_not_converged"@,
        "no_interval_reported"@,
        "not_executed"@,
        "option_not_applicable"@,
        "population_not_estimable"@,
        "posterior_draws_below_measured"@,
        "prior_transfer_not_hydrated"@,
        "resampling_replicates_below_measured"@,
        "row_weights_bound_to_snapshot"@,
        "sample_size_outside_measured_range"@,
        "stage_stream_unavailable"@,
        "treatment_support_too_discrete"@,
        "unidentified_mass_above_measured"@,
        "validators_not_applicable"@,
    ]
}

/// Every registered reason code.
#[must_use]
pub fn reason_codes() -> (list: Vec<&'static str>)
    ensures
        list@.len() == registered_codes().len(),
        forall|i: int| 0 <= i < list@.len() ==> (#[trigger] list@[i])@ == registered_codes()[i],
{
    let list: Vec<&'static str> = vec![
        "attested_not_reverifiable",
        "boundary_record",
        "calibration_basis_missing",
        "cancelled_no_claim",
        "construction_not_licensed",
        "data_modality_not_licensed",
        "estimator_grid_not_measured",
        "identification_not_measured",
        "interval_level_not_measured",
        "mechanism_fit_not_converged",
        "no_interval_reported",
        "not_executed",
        "option_not_applicable",
        "population_not_estimable",
        "posterior_draws_below_measured",
        "prior_transfer_not_hydrated",
        "resampling_replicates_below_measured",
        "row_weights_bound_to_snapshot",
        "sample_size_outside_measured_range",
        "stage_stream_unavailable",
        "treatment_support_too_discrete",
        "unidentified_mass_above_measured",
        "validators_not_applicable",
    ];
    list
}

/// Codes that a runtime refusal may carry.
pub open spec fn refusal_codes() -> Seq<Seq<char>> {
    seq![
        "attested_not_reverifiable"@,
        "cancelled_no_claim"@,
        "construction_not_licensed"@,
        "data_modality_not_licensed"@,
        "mechanism_fit_not_converged"@,
        "not_executed"@,
        "option_not_applicable"@,
        "population_not_estimable"@,
        "prior_transfer_not_hydrated"@,
        "row_weights_bound_to_snapshot"@,
        "stage_stream_unavailable"@,
        "treatment_support_too_discrete"@,
        "validators_not_applicable"@,
    ]
}

/// Codes that a runtime refusal may carry.
#[must_use]
pub fn runtime_refusal_codes() -> (list: Vec<&'static str>)
    ensures
        list@.len() == refusal_codes().len(),
        forall|i: int| 0 <= i < list@.len() ==> (#[trigger] list@[i])@ == refusal_codes()[i],
{
    let list: Vec<&'static str> = vec![
        "attested_not_reverifiable",
        "cancelled_no_claim",
        "construction_not_licensed",
        "data_modality_not_licensed",
        "mechanism_fit_not_converged",
        "not_executed",
        "option_not_applicable",
        "population_not_estimable",
        "prior_transfer_not_hydrated",
        "row_weights_bound_to_snapshot",
        "stage_stream_unavailable",
        "treatment_support_too_discrete",
        "validators_not_applicable",
    ];
    list
}

/// Whether `code` is one of `list`.
fn listed(code: &str, list: &Vec<&'static str>) -> (found: bool)
    ensures
        found == exists|i: int| 0 <= i < list@.len() && (#[trigger] list@[i])@ == code@,
{
    let mut i: usize = 0;
    while i < list.len()
        invariant
            0 <= i <= list.len(),
            forall|k: int| 0 <= k < i ==> (#[trigger] list@[k])@ != code@,
        decreases list.len() - i,
    {
        if text::str_eq(code, list[i]) {
            return true;
        }
        i = i + 1;
    }
    false
}

/// Whether `code` is a registered reason code.
#[must_use]
pub fn is_registered(code: &str) -> (yes: bool)
    ensures
        yes == registered_codes().contains(code@),
{
    let list = reason_codes();
    let yes = listed(code, &list);
    proof {
        if registered_codes().contains(code@) {
            let i = choose|i: int|
                0 <= i < registered_codes().len() && registered_codes()[i] == code@;
            assert(list@[i]@ == code@);
        }
    }
    yes
}

/// Whether `code` is registered for runtime refusals.
#[must_use]
pub fn is_runtime_refusal(code: &str) -> (yes: bool)
    ensures
        yes == refusal_codes().contains(code@),
{
    let list = runtime_refusal_codes();
    let yes = listed(code, &list);
    proof {
        if refusal_codes().contains(code@) {
            let i = choose|i: int| 0 <= i < refusal_codes().len() && refusal_codes()[i] == code@;
            assert(list@[i]@ == code@);
        }
    }
    yes
}

/// Every runtime refusal code is a registered code.
pub proof fn law_refusal_codes_are_registered(code: Seq<char>)
    requires
        refusal_codes().contains(code),
    ensures
        registered_codes().contains(code),
{
    let i = choose|i: int| 0 <= i < refusal_codes().len() && refusal_codes()[i] == code;
    let all = registered_codes();
    assert(all[0] == "attested_not_reverifiable"@);
    assert(all[3] == "cancelled_no_claim"@);
    assert(all[4] == "construction_not_licensed"@);
    assert(all[5] == "data_modality_not_licensed"@);
    assert(all[9] == "mechanism_fit_not_converged"@);
    assert(all[11] == "not_executed"@);
    assert(all[12] == "option_not_applicable"@);
    assert(all[13] == "population_not_estimable"@);
    assert(all[15] == "prior_transfer_not_hydrated"@);
    assert(all[17] == "row_weights_bound_to_snapshot"@);
    assert(all[19] == "stage_stream_unavailable"@);
    assert(all[20] == "treatment_support_too_discrete"@);
    assert(all[22] == "validators_not_applicable"@);
}

/// Parts of a refusal message: the code and the message after it.
pub open spec fn parts(message: Seq<char>) -> Option<(Seq<char>, Seq<char>)> {
    if !PREFIX@.is_prefix_of(message) {
        None
    } else {
        let rest = message.skip(PREFIX@.len() as int);
        if rest.contains(':') {
            let at = rest.index_of_first(':')->0;
            Some((text::trimmed(rest.take(at)), text::left_trimmed(rest.skip(at + 1))))
        } else {
            None
        }
    }
}

/// Split a refusal message into its reason code and the message after it.
#[must_use]
pub fn split_prefix(message: &str) -> (split: Option<(&str, &str)>)
    ensures
        match split {
            Some((code, tail)) => parts(message@) == Some((code@, tail@)),
            None => parts(message@) is None,
        },
{
    let n: usize = message.unicode_len();
    let head: usize = PREFIX.unicode_len();
    if n < head {
        return None;
    }
    let start = message.substring_char(0, head);
    if !text::str_eq(start, PREFIX) {
        proof {
            if PREFIX@.is_prefix_of(message@) {
                assert(start@ =~= PREFIX@);
            }
        }
        return None;
    }
    proof {
        assert(PREFIX@.is_prefix_of(message@));
    }
    let rest = message.substring_char(head, n);
    proof {
        assert(rest@ =~= message@.skip(head as int));
    }
    match text::find_char(rest, ':') {
        None => None,
        Some(at) => {
            proof {
                assert(rest@.contains(':')) by {
                    assert(rest@[at as int] == ':');
                }
                rest@.index_of_first_ensures(':');
                let first = rest@.index_of_first(':')->0;
                assert(first == at) by {
                    if first < at {
                        assert(rest@[first] == ':');
                    }
                }
            }
            let code = rest.substring_char(0, at);
            let tail = rest.substring_char(at + 1, n - head);
            proof {
                assert(code@ =~= rest@.take(at as int));
                assert(tail@ =~= rest@.skip(at + 1));
            }
            Some((text::trim(code), text::trim_start(tail)))
        },
    }
}

} // verus!

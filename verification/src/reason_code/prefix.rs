//! How reasons are read off messages.
//!
//! SPDX-License-Identifier: MIT OR Apache-2.0

use crate::reason_code;
use crate::text;
use vstd::prelude::*;

verus! {

proof fn lemma_trimmed_already(s: Seq<char>)
    requires
        s.len() > 0,
        !text::is_space(s[0]),
        !text::is_space(s.last()),
    ensures
        text::trimmed(s) == s,
        text::left_trimmed(s) == s,
{
}

/// A message that was put together from a code and a text reads back as both: the code without
/// spaces around it and the text without spaces before it.
pub proof fn law_reasons_read_back(code: Seq<char>, tail: Seq<char>)
    requires
        !code.contains(':'),
        code.len() > 0,
        !text::is_space(code[0]),
        !text::is_space(code.last()),
        tail.len() > 0 ==> !text::is_space(tail[0]),
    ensures
        reason_code::parts("reason="@ + code + seq![':', ' '] + tail) == Some((code, tail)),
        reason_code::parts("reason="@ + code + seq![':'] + tail) == Some((code, tail)),
{
    let prefix = "reason="@;
    let spaced = prefix + code + seq![':', ' '] + tail;
    let plain = prefix + code + seq![':'] + tail;
    lemma_trimmed_already(code);
    lemma_parts(code, seq![' '] + tail);
    assert(spaced =~= prefix + code + seq![':'] + (seq![' '] + tail));
    lemma_parts(code, tail);
    let after = seq![' '] + tail;
    assert(text::is_space(after[0]));
    assert(after.skip(1) =~= tail);
    assert(text::left_trimmed(after) == text::left_trimmed(tail));
    assert(text::left_trimmed(tail) == tail);
    assert(plain == prefix + code + seq![':'] + tail);
}

proof fn lemma_parts(code: Seq<char>, tail: Seq<char>)
    requires
        !code.contains(':'),
    ensures
        reason_code::parts("reason="@ + code + seq![':'] + tail) == Some(
            (text::trimmed(code), text::left_trimmed(tail)),
        ),
{
    let prefix = "reason="@;
    let message = prefix + code + seq![':'] + tail;
    let n = prefix.len() as int;
    assert(message.take(n) =~= prefix);
    assert(prefix.is_prefix_of(message));
    let rest = message.skip(n);
    assert(rest =~= code + seq![':'] + tail);
    let at = code.len() as int;
    assert(rest[at] == ':');
    assert(rest.contains(':'));
    assert forall|i: int| 0 <= i < at implies #[trigger] rest[i] != ':' by {
        assert(rest[i] == code[i]);
        assert(code.contains(code[i]));
    }
    rest.index_of_first_ensures(':');
    let found = rest.index_of_first(':')->0;
    assert(found == at);
    assert(rest.take(at) =~= code);
    assert(rest.skip(at + 1) =~= tail);
}

/// A message without the prefix, or without a colon after it, carries no reason.
pub proof fn law_other_messages_carry_no_reason(message: Seq<char>)
    requires
        !"reason="@.is_prefix_of(message) || !message.skip("reason="@.len() as int).contains(':'),
    ensures
        reason_code::parts(message) is None,
{
}

/// Every code of a refusal is a registered code.
pub proof fn law_refusal_codes_are_registered(code: Seq<char>)
    requires
        reason_code::refusal_codes().contains(code),
    ensures
        reason_code::registered_codes().contains(code),
{
    let all = reason_code::registered_codes();
    let some = reason_code::refusal_codes();
    let i = choose|i: int| 0 <= i < some.len() && some[i] == code;
    assert(all[0] == "attested_not_reverifiable"@);
    assert(all[3] == "cancelled_no_claim"@);
    assert(all[4] == "construction_not_licensed"@);
    assert(all[5] == "data_modality_not_licensed"@);
    assert(all[9] == "mechanism_fit_not_converged"@);
    assert(all[11] == "not_executed"@);
    assert(all[12] == "option_not_applicable"@);
    assert(all[13] == "population_not_estimable"@);
    assert(all[15] == "prior_transfer_not_hydrated"@);
    assert(all[17] == "row_weights_bound_to_snapshot"@);
    assert(all[19] == "stage_stream_unavailable"@);
    assert(all[20] == "treatment_support_too_discrete"@);
    assert(all[22] == "validators_not_applicable"@);
}

} // verus!

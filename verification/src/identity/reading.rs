//! What can be read back of identities.
//!
//! SPDX-License-Identifier: MIT OR Apache-2.0

use crate::identity;
use crate::identity::{ContractIdentities, IdentityDomain, IdentityRef, SemanticDigest};
use vstd::prelude::*;

verus! {

/// Value of a lower-case hexadecimal digit.
pub open spec fn digit_value(c: char) -> Option<int> {
    if '0' <= c <= '9' {
        Some(c as int - '0' as int)
    } else if 'a' <= c <= 'f' {
        Some(c as int - 'a' as int + 10)
    } else {
        None
    }
}

/// Bytes are read back from their hexadecimal text, two digits a byte, the higher one first.
pub proof fn law_bytes_are_read_back(bytes: Seq<u8>, i: int)
    requires
        0 <= i < bytes.len(),
    ensures
        identity::hex_text(bytes).len() == 2 * bytes.len(),
        digit_value(identity::hex_text(bytes)[2 * i]) matches Some(high) && (digit_value(
            identity::hex_text(bytes)[2 * i + 1],
        ) matches Some(low) && 16 * high + low == bytes[i]),
{
    let byte = bytes[i] as int;
    assert((2 * i) / 2 == i && (2 * i) % 2 == 0 && (2 * i + 1) / 2 == i && (2 * i + 1) % 2 == 1);
    assert(0 <= byte / 16 < 16 && 0 <= byte % 16 < 16 && byte == 16 * (byte / 16) + byte % 16);
}

/// The key of a domain is its name between a fixed prefix and the version.
pub proof fn law_keys_hold_the_names(domain: IdentityDomain)
    ensures
        domain.key() == "antecedent.identity."@ + domain.name() + ".v1"@,
{
    reveal_strlit("antecedent.identity.");
    reveal_strlit(".v1");
    match domain {
        IdentityDomain::Target => {
            reveal_strlit("target");
            reveal_strlit("antecedent.identity.target.v1");
        },
        IdentityDomain::Identification => {
            reveal_strlit("identification");
            reveal_strlit("antecedent.identity.identification.v1");
        },
        IdentityDomain::IdentificationProduct => {
            reveal_strlit("identification_product");
            reveal_strlit("antecedent.identity.identification_product.v1");
        },
        IdentityDomain::Program => {
            reveal_strlit("program");
            reveal_strlit("antecedent.identity.program.v1");
        },
        IdentityDomain::InferenceBinding => {
            reveal_strlit("inference_binding");
            reveal_strlit("antecedent.identity.inference_binding.v1");
        },
        IdentityDomain::Observation => {
            reveal_strlit("observation");
            reveal_strlit("antecedent.identity.observation.v1");
        },
        IdentityDomain::DataSnapshot => {
            reveal_strlit("data_snapshot");
            reveal_strlit("antecedent.identity.data_snapshot.v1");
        },
        IdentityDomain::Execution => {
            reveal_strlit("execution");
            reveal_strlit("antecedent.identity.execution.v1");
        },
        IdentityDomain::Claim => {
            reveal_strlit("claim");
            reveal_strlit("antecedent.identity.claim.v1");
        },
        IdentityDomain::ScoreReuse => {
            reveal_strlit("score_reuse");
            reveal_strlit("antecedent.identity.score_reuse.v1");
        },
        IdentityDomain::TargetWeights => {
            reveal_strlit("target_weights");
            reveal_strlit("antecedent.identity.target_weights.v1");
        },
    }
    assert(domain.key() =~= "antecedent.identity."@ + domain.name() + ".v1"@);
}

/// The references of a contract hold every digest it has, each in its own domain, and nothing
/// else.
pub proof fn law_layers_hold_the_digests(
    identities: ContractIdentities,
    domain: IdentityDomain,
    digest: SemanticDigest,
)
    ensures
        identities.layers().contains(IdentityRef { domain, digest }) <==> match domain {
            IdentityDomain::Target => digest == identities.target,
            IdentityDomain::Identification => digest == identities.identification,
            IdentityDomain::IdentificationProduct => identities.identification_product == Some(
                digest,
            ),
            IdentityDomain::Program => digest == identities.program,
            IdentityDomain::InferenceBinding => digest == identities.inference_binding,
            IdentityDomain::Observation => digest == identities.observation,
            IdentityDomain::DataSnapshot => digest == identities.data_snapshot,
            _ => false,
        },
{
    let layers = identities.layers();
    let shift: int = if identities.identification_product is Some { 1 } else { 0 };
    assert(layers.len() == 6 + shift);
    assert(layers[0] == (IdentityRef { domain: IdentityDomain::Target, digest: identities.target }));
    assert(layers[1].domain == IdentityDomain::Identification);
    assert(layers[2 + shift].domain == IdentityDomain::Program);
    assert(layers[3 + shift].domain == IdentityDomain::InferenceBinding);
    assert(layers[4 + shift].domain == IdentityDomain::Observation);
    assert(layers[5 + shift].domain == IdentityDomain::DataSnapshot);
    if identities.identification_product is Some {
        assert(layers[2].domain == IdentityDomain::IdentificationProduct);
    }
}

/// Two contracts with the same references are the same contract.
pub proof fn law_layers_tell_contracts_apart(a: ContractIdentities, b: ContractIdentities)
    requires
        a.layers() == b.layers(),
    ensures
        a == b,
{
    law_layers_hold_the_digests(a, IdentityDomain::Target, a.target);
    law_layers_hold_the_digests(b, IdentityDomain::Target, a.target);
    law_layers_hold_the_digests(a, IdentityDomain::Identification, a.identification);
    law_layers_hold_the_digests(b, IdentityDomain::Identification, a.identification);
    law_layers_hold_the_digests(a, IdentityDomain::Program, a.program);
    law_layers_hold_the_digests(b, IdentityDomain::Program, a.program);
    law_layers_hold_the_digests(a, IdentityDomain::InferenceBinding, a.inference_binding);
    law_layers_hold_the_digests(b, IdentityDomain::InferenceBinding, a.inference_binding);
    law_layers_hold_the_digests(a, IdentityDomain::Observation, a.observation);
    law_layers_hold_the_digests(b, IdentityDomain::Observation, a.observation);
    law_layers_hold_the_digests(a, IdentityDomain::DataSnapshot, a.data_snapshot);
    law_layers_hold_the_digests(b, IdentityDomain::DataSnapshot, a.data_snapshot);
    match a.identification_product {
        Some(product) => {
            law_layers_hold_the_digests(a, IdentityDomain::IdentificationProduct, product);
            law_layers_hold_the_digests(b, IdentityDomain::IdentificationProduct, product);
        },
        None => {
            assert(a.layers().len() == 6);
            assert(b.identification_product is Some ==> b.layers().len() == 7);
        },
    }
}

} // verus!

//! Domain-separated semantic identities for compiled causal contracts.
//!
//! Digests are computed elsewhere from canonical wire encodings. This module
//! owns the scientific record: which layer a digest belongs to, and that layers
//! are not interchangeable.
//!
//! SPDX-License-Identifier: MIT OR Apache-2.0

use vstd::prelude::*;

pub mod reading;

verus! {

/// Identity encoding format. Raised only when the canonical payload changes.
pub const IDENTITY_FORMAT: u16 = 1;

/// Format tag recorded beside every digest.
pub const IDENTITY_FORMAT_TAG: &'static str = "antecedent.identity.v1";

/// Scientific layer a digest identifies.
///
/// One overloaded hash would make reuse and audit misleading. Each variant
/// has its own key-derivation domain.
#[derive(Clone, Copy, Debug, PartialEq, Eq, Hash, Structural)]
pub enum IdentityDomain {
    /// Query, population, interventions, outcome functional, temporal
    /// policy and horizons, and variable-name bindings.
    Target,
    /// Target plus accepted structural semantics and observation contract.
    /// Identifier configuration is not this layer.
    Identification,
    /// Concrete identification products (status, estimands, derivation).
    IdentificationProduct,
    /// Target, premises, identification products, and licensed inferential
    /// commitments. A different graph is a different program.
    Program,
    /// Resolved prior, numeric configuration, validation, and dependence.
    InferenceBinding,
    /// Schema and observation contract, not row contents.
    Observation,
    /// Observation plus typed contents, masks, weights, and ordered partitions.
    DataSnapshot,
    /// Seeds, backend, budgets, and implementation versions.
    Execution,
    /// Portable claim envelope over a program and one result.
    Claim,
    /// Score-table, fold, nuisance, and shared-draw reuse. Stricter than
    /// identification: matching names and shapes are not this layer.
    ScoreReuse,
    /// Row-weight retarget payload bound to one data snapshot.
    TargetWeights,
}

impl IdentityDomain {
    /// The name as text.
    pub open spec fn name(self) -> Seq<char> {
        match self {
            IdentityDomain::Target => "target"@,
            IdentityDomain::Identification => "identification"@,
            IdentityDomain::IdentificationProduct => "identification_product"@,
            IdentityDomain::Program => "program"@,
            IdentityDomain::InferenceBinding => "inference_binding"@,
            IdentityDomain::Observation => "observation"@,
            IdentityDomain::DataSnapshot => "data_snapshot"@,
            IdentityDomain::Execution => "execution"@,
            IdentityDomain::Claim => "claim"@,
            IdentityDomain::ScoreReuse => "score_reuse"@,
            IdentityDomain::TargetWeights => "target_weights"@,
        }
    }

    /// Every variant, in declaration order.
    pub fn all() -> (list: [IdentityDomain; 11])
        ensures
            list@ == seq![
                IdentityDomain::Target,
                IdentityDomain::Identification,
                IdentityDomain::IdentificationProduct,
                IdentityDomain::Program,
                IdentityDomain::InferenceBinding,
                IdentityDomain::Observation,
                IdentityDomain::DataSnapshot,
                IdentityDomain::Execution,
                IdentityDomain::Claim,
                IdentityDomain::ScoreReuse,
                IdentityDomain::TargetWeights,
            ],
            forall|x: IdentityDomain| #[trigger] list@.contains(x),
    {
        let list: [IdentityDomain; 11] = [
            IdentityDomain::Target,
            IdentityDomain::Identification,
            IdentityDomain::IdentificationProduct,
            IdentityDomain::Program,
            IdentityDomain::InferenceBinding,
            IdentityDomain::Observation,
            IdentityDomain::DataSnapshot,
            IdentityDomain::Execution,
            IdentityDomain::Claim,
            IdentityDomain::ScoreReuse,
            IdentityDomain::TargetWeights,
        ];
        proof {
            assert(list@ =~= seq![
                IdentityDomain::Target,
                IdentityDomain::Identification,
                IdentityDomain::IdentificationProduct,
                IdentityDomain::Program,
                IdentityDomain::InferenceBinding,
                IdentityDomain::Observation,
                IdentityDomain::DataSnapshot,
                IdentityDomain::Execution,
                IdentityDomain::Claim,
                IdentityDomain::ScoreReuse,
                IdentityDomain::TargetWeights,
            ]);
            assert forall|x: IdentityDomain| #[trigger] list@.contains(x) by {
                match x {
                    IdentityDomain::Target => assert(list@[0] == x),
                    IdentityDomain::Identification => assert(list@[1] == x),
                    IdentityDomain::IdentificationProduct => assert(list@[2] == x),
                    IdentityDomain::Program => assert(list@[3] == x),
                    IdentityDomain::InferenceBinding => assert(list@[4] == x),
                    IdentityDomain::Observation => assert(list@[5] == x),
                    IdentityDomain::DataSnapshot => assert(list@[6] == x),
                    IdentityDomain::Execution => assert(list@[7] == x),
                    IdentityDomain::Claim => assert(list@[8] == x),
                    IdentityDomain::ScoreReuse => assert(list@[9] == x),
                    IdentityDomain::TargetWeights => assert(list@[10] == x),
                }
            }
        }
        list
    }

    /// Stable `snake_case` name.
    #[must_use]
    pub fn as_str(self) -> (out: &'static str)
        ensures
            out@ == self.name(),
    {
        match self {
            IdentityDomain::Target => "target",
            IdentityDomain::Identification => "identification",
            IdentityDomain::IdentificationProduct => "identification_product",
            IdentityDomain::Program => "program",
            IdentityDomain::InferenceBinding => "inference_binding",
            IdentityDomain::Observation => "observation",
            IdentityDomain::DataSnapshot => "data_snapshot",
            IdentityDomain::Execution => "execution",
            IdentityDomain::Claim => "claim",
            IdentityDomain::ScoreReuse => "score_reuse",
            IdentityDomain::TargetWeights => "target_weights",
        }
    }
}

/// Different variants of [`IdentityDomain`] have different names.
pub proof fn law_identity_domain_names_are_distinct(a: IdentityDomain, b: IdentityDomain)
    requires
        a.name() == b.name(),
    ensures
        a == b,
{
    reveal_strlit("target");
    assert("target"@.len() == 6 && "target"@[0] == 't');
    reveal_strlit("identification");
    assert("identification"@.len() == 14 && "identification"@[0] == 'i');
    reveal_strlit("identification_product");
    assert("identification_product"@.len() == 22 && "identification_product"@[0] == 'i');
    reveal_strlit("program");
    assert("program"@.len() == 7 && "program"@[0] == 'p');
    reveal_strlit("inference_binding");
    assert("inference_binding"@.len() == 17 && "inference_binding"@[0] == 'i');
    reveal_strlit("observation");
    assert("observation"@.len() == 11 && "observation"@[0] == 'o');
    reveal_strlit("data_snapshot");
    assert("data_snapshot"@.len() == 13 && "data_snapshot"@[0] == 'd');
    reveal_strlit("execution");
    assert("execution"@.len() == 9 && "execution"@[0] == 'e');
    reveal_strlit("claim");
    assert("claim"@.len() == 5 && "claim"@[0] == 'c');
    reveal_strlit("score_reuse");
    assert("score_reuse"@.len() == 11 && "score_reuse"@[0] == 's');
    reveal_strlit("target_weights");
    assert("target_weights"@.len() == 14 && "target_weights"@[0] == 't');
}

impl IdentityDomain {
    /// The key-derivation context as text.
    pub open spec fn key(self) -> Seq<char> {
        match self {
            IdentityDomain::Target => "antecedent.identity.target.v1"@,
            IdentityDomain::Identification => "antecedent.identity.identification.v1"@,
            IdentityDomain::IdentificationProduct => "antecedent.identity.identification_product.v1"@,
            IdentityDomain::Program => "antecedent.identity.program.v1"@,
            IdentityDomain::InferenceBinding => "antecedent.identity.inference_binding.v1"@,
            IdentityDomain::Observation => "antecedent.identity.observation.v1"@,
            IdentityDomain::DataSnapshot => "antecedent.identity.data_snapshot.v1"@,
            IdentityDomain::Execution => "antecedent.identity.execution.v1"@,
            IdentityDomain::Claim => "antecedent.identity.claim.v1"@,
            IdentityDomain::ScoreReuse => "antecedent.identity.score_reuse.v1"@,
            IdentityDomain::TargetWeights => "antecedent.identity.target_weights.v1"@,
        }
    }

    /// Key-derivation context of this domain.
    #[must_use]
    pub fn derive_key(self) -> (out: &'static str)
        ensures
            out@ == self.key(),
    {
        match self {
            IdentityDomain::Target => "antecedent.identity.target.v1",
            IdentityDomain::Identification => "antecedent.identity.identification.v1",
            IdentityDomain::IdentificationProduct => "antecedent.identity.identification_product.v1",
            IdentityDomain::Program => "antecedent.identity.program.v1",
            IdentityDomain::InferenceBinding => "antecedent.identity.inference_binding.v1",
            IdentityDomain::Observation => "antecedent.identity.observation.v1",
            IdentityDomain::DataSnapshot => "antecedent.identity.data_snapshot.v1",
            IdentityDomain::Execution => "antecedent.identity.execution.v1",
            IdentityDomain::Claim => "antecedent.identity.claim.v1",
            IdentityDomain::ScoreReuse => "antecedent.identity.score_reuse.v1",
            IdentityDomain::TargetWeights => "antecedent.identity.target_weights.v1",
        }
    }
}

/// Different identity domains have different key-derivation contexts.
pub proof fn law_identity_domain_keys_are_distinct(a: IdentityDomain, b: IdentityDomain)
    requires
        a.key() == b.key(),
    ensures
        a == b,
{
    reveal_strlit("antecedent.identity.target.v1");
    assert("antecedent.identity.target.v1"@.len() == 29 && "antecedent.identity.target.v1"@[20] == 't');
    reveal_strlit("antecedent.identity.identification.v1");
    assert("antecedent.identity.identification.v1"@.len() == 37 && "antecedent.identity.identification.v1"@[20] == 'i');
    reveal_strlit("antecedent.identity.identification_product.v1");
    assert("antecedent.identity.identification_product.v1"@.len() == 45 && "antecedent.identity.identification_product.v1"@[20] == 'i');
    reveal_strlit("antecedent.identity.program.v1");
    assert("antecedent.identity.program.v1"@.len() == 30 && "antecedent.identity.program.v1"@[20] == 'p');
    reveal_strlit("antecedent.identity.inference_binding.v1");
    assert("antecedent.identity.inference_binding.v1"@.len() == 40 && "antecedent.identity.inference_binding.v1"@[20] == 'i');
    reveal_strlit("antecedent.identity.observation.v1");
    assert("antecedent.identity.observation.v1"@.len() == 34 && "antecedent.identity.observation.v1"@[20] == 'o');
    reveal_strlit("antecedent.identity.data_snapshot.v1");
    assert("antecedent.identity.data_snapshot.v1"@.len() == 36 && "antecedent.identity.data_snapshot.v1"@[20] == 'd');
    reveal_strlit("antecedent.identity.execution.v1");
    assert("antecedent.identity.execution.v1"@.len() == 32 && "antecedent.identity.execution.v1"@[20] == 'e');
    reveal_strlit("antecedent.identity.claim.v1");
    assert("antecedent.identity.claim.v1"@.len() == 28 && "antecedent.identity.claim.v1"@[20] == 'c');
    reveal_strlit("antecedent.identity.score_reuse.v1");
    assert("antecedent.identity.score_reuse.v1"@.len() == 34 && "antecedent.identity.score_reuse.v1"@[20] == 's');
    reveal_strlit("antecedent.identity.target_weights.v1");
    assert("antecedent.identity.target_weights.v1"@.len() == 37 && "antecedent.identity.target_weights.v1"@[20] == 't');
}

/// 32-byte domain-separated digest.
#[derive(Clone, Copy, Debug, Eq, Hash)]
pub struct SemanticDigest {
    /// Finalized hash output.
    pub bytes: [u8; 32],
}

/// Lowercase hexadecimal digit of a value below 16.
pub open spec fn hex_char(n: int) -> char {
    if n < 10 {
        (n + 48) as char
    } else {
        (n + 87) as char
    }
}

/// Hexadecimal text of a byte sequence, two digits for each byte.
pub open spec fn hex_text(bytes: Seq<u8>) -> Seq<char> {
    Seq::new(
        2 * bytes.len(),
        |k: int|
            if k % 2 == 0 {
                hex_char(bytes[k / 2] as int / 16)
            } else {
                hex_char(bytes[k / 2] as int % 16)
            },
    )
}

/// One hexadecimal digit as text.
fn hex_digit(n: u8) -> (out: &'static str)
    requires
        n < 16,
    ensures
        out@ == seq![hex_char(n as int)],
{
    proof {
        reveal_strlit("0");
        reveal_strlit("1");
        reveal_strlit("2");
        reveal_strlit("3");
        reveal_strlit("4");
        reveal_strlit("5");
        reveal_strlit("6");
        reveal_strlit("7");
        reveal_strlit("8");
        reveal_strlit("9");
        reveal_strlit("a");
        reveal_strlit("b");
        reveal_strlit("c");
        reveal_strlit("d");
        reveal_strlit("e");
        reveal_strlit("f");
    }
    match n {
        0 => "0",
        1 => "1",
        2 => "2",
        3 => "3",
        4 => "4",
        5 => "5",
        6 => "6",
        7 => "7",
        8 => "8",
        9 => "9",
        10 => "a",
        11 => "b",
        12 => "c",
        13 => "d",
        14 => "e",
        _ => "f",
    }
}

impl SemanticDigest {
    /// Construct from a finalized hash output.
    #[must_use]
    pub fn from_bytes(bytes: [u8; 32]) -> (digest: Self)
        ensures
            digest.bytes == bytes,
    {
        SemanticDigest { bytes }
    }

    /// Raw bytes.
    #[must_use]
    pub fn as_bytes(&self) -> (bytes: &[u8; 32])
        ensures
            *bytes == self.bytes,
    {
        &self.bytes
    }

    /// Lowercase hex encoding (64 characters).
    #[must_use]
    pub fn to_hex(&self) -> (out: String)
        ensures
            out@ == hex_text(self.bytes@),
            out@.len() == 64,
    {
        let mut out: String = String::new();
        let mut i: usize = 0;
        while i < 32
            invariant
                0 <= i <= 32,
                out@ == hex_text(self.bytes@.take(i as int)),
            decreases 32 - i,
        {
            let b: u8 = self.bytes[i];
            let ghost before = out@;
            out.append(hex_digit(b / 16));
            out.append(hex_digit(b % 16));
            proof {
                let done = self.bytes@.take(i as int);
                let next = self.bytes@.take(i + 1);
                assert(out@ =~= before.push(hex_char(b as int / 16)).push(hex_char(b as int % 16)));
                assert(next =~= done.push(b));
                assert(out@ =~= hex_text(next)) by {
                    assert forall|k: int| 0 <= k < 2 * (i + 1) implies out@[k] == hex_text(
                        next,
                    )[k] by {
                        if k < 2 * i {
                            assert(k / 2 < i);
                            assert(before[k] == hex_text(done)[k]);
                        } else {
                            assert(k / 2 == i);
                        }
                    }
                }
            }
            i = i + 1;
        }
        proof {
            assert(self.bytes@.take(32) =~= self.bytes@);
        }
        out
    }
}

impl PartialEq for SemanticDigest {
    fn eq(&self, other: &Self) -> (equal: bool) {
        let mut i: usize = 0;
        while i < 32
            invariant
                0 <= i <= 32,
                forall|k: int| 0 <= k < i ==> self.bytes@[k] == other.bytes@[k],
            decreases 32 - i,
        {
            if self.bytes[i] != other.bytes[i] {
                return false;
            }
            i = i + 1;
        }
        proof {
            assert(self.bytes =~= other.bytes);
        }
        true
    }
}

impl vstd::std_specs::cmp::PartialEqSpecImpl for SemanticDigest {
    open spec fn obeys_eq_spec() -> bool {
        true
    }

    open spec fn eq_spec(&self, other: &Self) -> bool {
        *self == *other
    }
}

proof fn lemma_hex_char_injective(x: int, y: int)
    requires
        0 <= x < 16,
        0 <= y < 16,
        hex_char(x) == hex_char(y),
    ensures
        x == y,
{
    assert(hex_char(x) as int == hex_char(y) as int);
}

/// The hex text determines the digest: equal texts come from equal bytes.
pub proof fn law_digest_hex_is_injective(a: SemanticDigest, b: SemanticDigest)
    requires
        hex_text(a.bytes@) == hex_text(b.bytes@),
    ensures
        a == b,
{
    assert forall|i: int| 0 <= i < 32 implies a.bytes@[i] == b.bytes@[i] by {
        assert(hex_text(a.bytes@)[2 * i] == hex_text(b.bytes@)[2 * i]);
        assert(hex_text(a.bytes@)[2 * i + 1] == hex_text(b.bytes@)[2 * i + 1]);
        assert((2 * i) / 2 == i && (2 * i + 1) / 2 == i);
        assert((2 * i) % 2 == 0 && (2 * i + 1) % 2 == 1);
        assert(a.bytes@.len() == 32 && b.bytes@.len() == 32);
        assert(hex_text(a.bytes@)[2 * i] == hex_char(a.bytes@[i] as int / 16));
        assert(hex_text(b.bytes@)[2 * i] == hex_char(b.bytes@[i] as int / 16));
        assert(hex_text(a.bytes@)[2 * i + 1] == hex_char(a.bytes@[i] as int % 16));
        assert(hex_text(b.bytes@)[2 * i + 1] == hex_char(b.bytes@[i] as int % 16));
        lemma_hex_char_injective(a.bytes@[i] as int / 16, b.bytes@[i] as int / 16);
        lemma_hex_char_injective(a.bytes@[i] as int % 16, b.bytes@[i] as int % 16);
    }
    assert(a.bytes =~= b.bytes);
}

/// The hex text uses decimal digits and lowercase `a` to `f` only.
pub proof fn law_digest_hex_is_lowercase(digest: SemanticDigest, k: int)
    requires
        0 <= k < 64,
    ensures
        '0' <= hex_text(digest.bytes@)[k] <= '9' || 'a' <= hex_text(digest.bytes@)[k] <= 'f',
{
}

/// Digest plus the domain it was computed under.
#[derive(Clone, Copy, Debug, Eq, Hash)]
pub struct IdentityRef {
    /// Layer this digest identifies.
    pub domain: IdentityDomain,
    /// Domain-separated digest.
    pub digest: SemanticDigest,
}

impl IdentityRef {
    /// Bind a digest to its domain.
    #[must_use]
    pub fn new(domain: IdentityDomain, digest: SemanticDigest) -> (bound: Self)
        ensures
            bound == (IdentityRef { domain, digest }),
    {
        IdentityRef { domain, digest }
    }
}

impl PartialEq for IdentityRef {
    fn eq(&self, other: &Self) -> (equal: bool) {
        self.domain == other.domain && self.digest == other.digest
    }
}

impl vstd::std_specs::cmp::PartialEqSpecImpl for IdentityRef {
    open spec fn obeys_eq_spec() -> bool {
        true
    }

    open spec fn eq_spec(&self, other: &Self) -> bool {
        *self == *other
    }
}

/// Domain-separated identities for one compiled contract.
#[derive(Clone, Copy, Debug, Eq, Hash)]
pub struct ContractIdentities {
    /// Causal target.
    pub target: SemanticDigest,
    /// Identification premises (target, structure and observation).
    pub identification: SemanticDigest,
    /// Cached identification products, when preparation produced them.
    pub identification_product: Option<SemanticDigest>,
    /// Program: premises, products and licensed inferential commitments.
    pub program: SemanticDigest,
    /// Inference binding (priors, numeric knobs, validation, dependence).
    pub inference_binding: SemanticDigest,
    /// Schema and observation contract.
    pub observation: SemanticDigest,
    /// Data snapshot identity, including content digests and ordered partitions.
    pub data_snapshot: SemanticDigest,
}

impl PartialEq for ContractIdentities {
    fn eq(&self, other: &Self) -> (equal: bool) {
        self.target == other.target && self.identification == other.identification
            && self.identification_product == other.identification_product && self.program
            == other.program && self.inference_binding == other.inference_binding
            && self.observation == other.observation && self.data_snapshot == other.data_snapshot
    }
}

impl vstd::std_specs::cmp::PartialEqSpecImpl for ContractIdentities {
    open spec fn obeys_eq_spec() -> bool {
        true
    }

    open spec fn eq_spec(&self, other: &Self) -> bool {
        *self == *other
    }
}

impl ContractIdentities {
    /// Bind every identity layer.
    #[must_use]
    pub fn new(
        target: SemanticDigest,
        identification: SemanticDigest,
        identification_product: Option<SemanticDigest>,
        program: SemanticDigest,
        inference_binding: SemanticDigest,
        observation: SemanticDigest,
        data_snapshot: SemanticDigest,
    ) -> (identities: Self)
        ensures
            identities == (ContractIdentities {
                target,
                identification,
                identification_product,
                program,
                inference_binding,
                observation,
                data_snapshot,
            }),
    {
        ContractIdentities {
            target,
            identification,
            identification_product,
            program,
            inference_binding,
            observation,
            data_snapshot,
        }
    }

    /// The present identities in layer order, each under its domain.
    pub open spec fn layers(self) -> Seq<IdentityRef> {
        let premises = seq![
            IdentityRef { domain: IdentityDomain::Target, digest: self.target },
            IdentityRef { domain: IdentityDomain::Identification, digest: self.identification },
        ];
        let products = match self.identification_product {
            Some(product) => seq![
                IdentityRef { domain: IdentityDomain::IdentificationProduct, digest: product },
            ],
            None => Seq::empty(),
        };
        premises + products + seq![
            IdentityRef { domain: IdentityDomain::Program, digest: self.program },
            IdentityRef { domain: IdentityDomain::InferenceBinding, digest: self.inference_binding },
            IdentityRef { domain: IdentityDomain::Observation, digest: self.observation },
            IdentityRef { domain: IdentityDomain::DataSnapshot, digest: self.data_snapshot },
        ]
    }

    /// All present identities as domain-tagged refs, in layer order.
    #[must_use]
    pub fn refs(&self) -> (out: Vec<IdentityRef>)
        ensures
            out@ == self.layers(),
    {
        let mut out: Vec<IdentityRef> = Vec::new();
        out.push(IdentityRef::new(IdentityDomain::Target, self.target));
        out.push(IdentityRef::new(IdentityDomain::Identification, self.identification));
        match self.identification_product {
            Some(product) => {
                out.push(IdentityRef::new(IdentityDomain::IdentificationProduct, product));
            },
            None => {},
        }
        out.push(IdentityRef::new(IdentityDomain::Program, self.program));
        out.push(IdentityRef::new(IdentityDomain::InferenceBinding, self.inference_binding));
        out.push(IdentityRef::new(IdentityDomain::Observation, self.observation));
        out.push(IdentityRef::new(IdentityDomain::DataSnapshot, self.data_snapshot));
        proof {
            assert(out@ =~= self.layers());
        }
        out
    }
}

} // verus!

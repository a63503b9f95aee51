//! Scalar and structured values used in queries and interventions.
//!
//! SPDX-License-Identifier: MIT OR Apache-2.0

use crate::level::{OrderedFloatBits, ONE_BITS};
use crate::text;
use vstd::prelude::*;

verus! {

/// Private-use marker for a symbolic intervention coordinate (`do(V)` with
/// unspecified level). Stored as [`Value::Label`] so that it takes part in
/// equality and hashing, which a NaN would break.
pub const SYMBOLIC_INTERVENTION_LABEL: &'static str = "\u{E000}antecedent.symbolic_intervention";

/// A concrete value assigned by an intervention or query contrast.
#[derive(Debug, Eq, Hash)]
pub enum Value {
    /// Floating-point scalar.
    Float64(OrderedFloatBits),
    /// Integer scalar.
    Int64(i64),
    /// Boolean.
    Bool(bool),
    /// Category code (the domain lives in the schema).
    Category(u32),
    /// Opaque label for diagnostics only.
    Label(String),
}

/// Errors from validating a concrete intervention level.
#[derive(Clone, Copy, Debug, PartialEq, Eq, Hash, Structural)]
pub enum InterventionValueError {
    /// Float level is NaN or infinite.
    NonFinite,
    /// Value is not a concrete numeric, category or boolean level.
    NotConcrete,
}

impl InterventionValueError {
    /// The message as text.
    pub open spec fn message(self) -> Seq<char> {
        match self {
            InterventionValueError::NonFinite => "intervention level must be finite"@,
            InterventionValueError::NotConcrete => "intervention level is not concrete"@,
        }
    }

    /// Human-readable message.
    #[must_use]
    pub fn to_message(self) -> (out: &'static str)
        ensures
            out@ == self.message(),
    {
        match self {
            InterventionValueError::NonFinite => "intervention level must be finite",
            InterventionValueError::NotConcrete => "intervention level is not concrete",
        }
    }
}

/// Mathematical form of [`Value`]: floats by their bits, labels by their text.
pub enum ValueView {
    /// Bit pattern of a float.
    Float64(u64),
    /// Integer.
    Int64(int),
    /// Boolean.
    Bool(bool),
    /// Category code.
    Category(nat),
    /// Label text.
    Label(Seq<char>),
}

impl View for Value {
    type V = ValueView;

    open spec fn view(&self) -> ValueView {
        match self {
            Value::Float64(v) => ValueView::Float64(v.bits),
            Value::Int64(v) => ValueView::Int64(*v as int),
            Value::Bool(v) => ValueView::Bool(*v),
            Value::Category(v) => ValueView::Category(*v as nat),
            Value::Label(s) => ValueView::Label(s@),
        }
    }
}

impl PartialEq for Value {
    fn eq(&self, other: &Self) -> (equal: bool) {
        match (self, other) {
            (Value::Float64(a), Value::Float64(b)) => a.bits == b.bits,
            (Value::Int64(a), Value::Int64(b)) => *a == *b,
            (Value::Bool(a), Value::Bool(b)) => *a == *b,
            (Value::Category(a), Value::Category(b)) => *a == *b,
            (Value::Label(a), Value::Label(b)) => text::str_eq(a.as_str(), b.as_str()),
            _ => false,
        }
    }
}

impl vstd::std_specs::cmp::PartialEqSpecImpl for Value {
    open spec fn obeys_eq_spec() -> bool {
        true
    }

    open spec fn eq_spec(&self, other: &Self) -> bool {
        self@ == other@
    }
}

impl Clone for Value {
    fn clone(&self) -> (copy: Self)
        ensures
            copy == *self,
    {
        match self {
            Value::Float64(v) => Value::Float64(*v),
            Value::Int64(v) => Value::Int64(*v),
            Value::Bool(v) => Value::Bool(*v),
            Value::Category(v) => Value::Category(*v),
            Value::Label(s) => Value::Label(s.clone()),
        }
    }
}

impl Value {
    /// Convenience for a float level.
    #[must_use]
    pub fn float64(v: OrderedFloatBits) -> (value: Self)
        ensures
            value == Value::Float64(v),
    {
        Value::Float64(v)
    }

    /// Interpret as a numeric level when possible: a float as it is, an integer as
    /// the nearest level, a boolean as zero or one, a category as its code. A label
    /// has none.
    #[must_use]
    pub fn as_f64(&self) -> (level: Option<OrderedFloatBits>)
        ensures
            match *self {
                Value::Float64(v) => level == Some(v),
                Value::Int64(v) => level matches Some(l) && l.nearest_to(v as int) && l.finite(),
                Value::Bool(v) => level matches Some(l) && l.bits == (if v {
                    ONE_BITS
                } else {
                    0
                }),
                Value::Category(v) => level matches Some(l) && l.represents(v as nat, 0)
                    && l.finite(),
                Value::Label(_) => level is None,
            },
            self.concrete() <==> (level matches Some(l) && l.finite()),
    {
        match self {
            Value::Float64(v) => Some(*v),
            Value::Int64(v) => Some(OrderedFloatBits::from_int64(*v)),
            Value::Bool(v) => if *v {
                Some(OrderedFloatBits::one())
            } else {
                Some(OrderedFloatBits::zero())
            },
            Value::Category(v) => Some(OrderedFloatBits::from_integer(*v as u64)),
            Value::Label(_) => None,
        }
    }

    /// Whether this is the symbolic-intervention marker.
    pub open spec fn symbolic(self) -> bool {
        self matches Value::Label(s) && s@ == SYMBOLIC_INTERVENTION_LABEL@
    }

    /// Symbolic intervention placeholder (`do(V)` with no concrete level).
    ///
    /// It must not be confused with a genuine non-finite float level.
    #[must_use]
    pub fn symbolic_intervention() -> (value: Self)
        ensures
            value.symbolic(),
            value@ == ValueView::Label(SYMBOLIC_INTERVENTION_LABEL@),
    {
        Value::Label(SYMBOLIC_INTERVENTION_LABEL.to_owned())
    }

    /// Whether this value is the symbolic-intervention marker.
    #[must_use]
    pub fn is_symbolic_intervention(&self) -> (yes: bool)
        ensures
            yes == self.symbolic(),
    {
        match self {
            Value::Label(s) => text::str_eq(s.as_str(), SYMBOLIC_INTERVENTION_LABEL),
            _ => false,
        }
    }

    /// Reject non-finite (and non-concrete) levels for hard interventions.
    ///
    /// A non-finite float is a validation error, not a symbolic wildcard.
    pub fn validate_concrete_intervention_level(&self) -> (r: Result<(), InterventionValueError>)
        ensures
            match r {
                Ok(()) => self.concrete(),
                Err(InterventionValueError::NonFinite) => self matches Value::Float64(v)
                    && !v.finite(),
                Err(InterventionValueError::NotConcrete) => self is Label,
            },
            r is Ok <==> self.concrete(),
    {
        match self {
            Value::Float64(v) => {
                if v.is_finite() {
                    Ok(())
                } else {
                    Err(InterventionValueError::NonFinite)
                }
            },
            Value::Label(_) => Err(InterventionValueError::NotConcrete),
            _ => Ok(()),
        }
    }

    /// A level that a hard intervention can assign.
    pub open spec fn concrete(self) -> bool {
        match self {
            Value::Float64(v) => v.finite(),
            Value::Label(_) => false,
            _ => true,
        }
    }

    /// The rendering of a value, given how its float (if it is one) is rendered.
    pub open spec fn rendered(self, float_text: Seq<char>) -> Seq<char> {
        match self {
            Value::Float64(_) => float_text,
            Value::Int64(v) => text::signed_decimal(v as int),
            Value::Bool(v) => if v {
                "true"@
            } else {
                "false"@
            },
            Value::Category(v) => "cat("@ + text::decimal(v as nat) + ")"@,
            Value::Label(s) => if self.symbolic() {
                "\u{B7}"@
            } else {
                s@
            },
        }
    }

    /// Render: integers in decimal, booleans as `true` or `false`, categories as
    /// `cat(<code>)`, the symbolic marker as a middle dot, other labels as they
    /// are. `float_text` is the caller's rendering of a float level.
    #[must_use]
    pub fn to_text(&self, float_text: &str) -> (out: String)
        ensures
            out@ == self.rendered(float_text@),
    {
        match self {
            Value::Float64(_) => float_text.to_owned(),
            Value::Int64(v) => text::signed_decimal_text(*v),
            Value::Bool(v) => {
                if *v {
                    "true".to_owned()
                } else {
                    "false".to_owned()
                }
            },
            Value::Category(v) => "cat(".to_owned().concat(
                text::decimal_text(*v as u64).as_str(),
            ).concat(")"),
            Value::Label(s) => {
                if self.is_symbolic_intervention() {
                    "\u{B7}".to_owned()
                } else {
                    s.clone()
                }
            },
        }
    }
}

/// The symbolic marker is never a float: no NaN payload is mistaken for it.
pub proof fn law_no_float_is_the_symbolic_marker(v: OrderedFloatBits)
    ensures
        !Value::Float64(v).symbolic(),
        forall|s: Value| s.symbolic() ==> (#[trigger] s@) != Value::Float64(v)@,
{
}

/// Exactly the values that a hard intervention can assign stand for a finite number.
pub proof fn law_concrete_values_are_numbers(value: Value)
    ensures
        value.symbolic() ==> !value.concrete(),
        value.concrete() <==> !(value is Label) && (value matches Value::Float64(v) ==> !v.nan()
            && v.magnitude() != crate::level::INFINITE_MAGNITUDE),
{
}

/// Integers, categories and labels are told apart by their text within their kind, and labels are
/// shown as they are but for the symbolic marker.
pub proof fn law_rendered_values_read_back(
    i: i64,
    j: i64,
    a: u32,
    b: u32,
    label: Value,
    float_text: Seq<char>,
)
    ensures
        Value::Int64(i).rendered(float_text) == Value::Int64(j).rendered(float_text) ==> i == j,
        Value::Category(a).rendered(float_text) == Value::Category(b).rendered(float_text) ==> a
            == b,
        Value::Bool(true).rendered(float_text) != Value::Bool(false).rendered(float_text),
        label matches Value::Label(s) ==> (!label.symbolic() ==> label.rendered(float_text) == s@),
        i >= 0 ==> Value::Int64(i).rendered(float_text) == text::decimal(i as nat),
        i < 0 ==> Value::Int64(i).rendered(float_text) == seq!['-'] + text::decimal((-i) as nat),
        Value::Category(a).rendered(float_text) == "cat("@ + text::decimal(a as nat) + ")"@,
{
    reveal_strlit("true");
    reveal_strlit("false");
    reveal_strlit("-");
    assert(Value::Bool(true).rendered(float_text).len() == 4);
    assert("-"@ =~= seq!['-']);
    let own = text::signed_decimal(i as int);
    let other = text::signed_decimal(j as int);
    text::shape::law_decimals_read_back(if i < 0 { (-i) as nat } else { i as nat });
    text::shape::law_decimals_read_back(if j < 0 { (-j) as nat } else { j as nat });
    if own == other {
        assert((i < 0) == (own[0] == '-'));
        assert((j < 0) == (other[0] == '-'));
        if i < 0 {
            assert(own.skip(1) =~= text::decimal((-i) as nat));
            assert(other.skip(1) =~= text::decimal((-j) as nat));
        }
    }
    if Value::Category(a).rendered(float_text) == Value::Category(b).rendered(float_text) {
        reveal_strlit("cat(");
        reveal_strlit(")");
        let left = Value::Category(a).rendered(float_text);
        let right = Value::Category(b).rendered(float_text);
        assert(left.subrange(4, left.len() - 1) =~= text::decimal(a as nat));
        assert(right.subrange(4, right.len() - 1) =~= text::decimal(b as nat));
        text::shape::law_decimals_read_back(a as nat);
        text::shape::law_decimals_read_back(b as nat);
    }
}

} // verus!

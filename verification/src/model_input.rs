//! The value a model is evaluated on: an unsigned integer key or a binary64
//! key, the latter carried as its bit pattern.
use vstd::prelude::*;
use vstd::std_specs::cmp::PartialEqSpecImpl;
use vstd::std_specs::convert::FromSpecImpl;
use crate::float_add::{float_add, float_bits_add};
use crate::float_bits::{
    float_bits_eq, float_bits_to_u64, float_eq, is_nan, is_zero, float_to_u64, u64_to_float, u64_to_float_bits,
    MAX_FINITE_BITS,
};

verus! {

#[derive(Clone, Copy, Debug)]
pub enum ModelInput {
    Int(u64),
    /// A binary64 key, as its IEEE-754 bit pattern.
    Float(u64),
}

/// Keys of different kinds are never equal; integer keys compare as
/// integers and binary64 keys as binary64 numbers (a NaN key equals nothing,
/// and the two zeros are equal).
pub open spec fn model_input_eq(a: ModelInput, b: ModelInput) -> bool {
    match (a, b) {
        (ModelInput::Int(x), ModelInput::Int(y)) => x == y,
        (ModelInput::Float(x), ModelInput::Float(y)) => float_eq(x, y),
        _ => false,
    }
}

/// The key read as an unsigned integer: a binary64 key is cast to `u64`.
pub open spec fn input_as_int(m: ModelInput) -> u64 {
    match m {
        ModelInput::Int(x) => x,
        ModelInput::Float(b) => float_to_u64(b),
    }
}

/// The key read as a binary64 number (bit pattern): an integer key is cast
/// to binary64.
pub open spec fn input_as_float(m: ModelInput) -> u64 {
    match m {
        ModelInput::Int(x) => u64_to_float(x),
        ModelInput::Float(b) => b,
    }
}

/// One less, or `f64::EPSILON` less (binary64 subtraction).
pub open spec fn input_minus_epsilon(m: ModelInput) -> ModelInput {
    match m {
        ModelInput::Int(x) => ModelInput::Int((x - 1) as u64),
        ModelInput::Float(b) => ModelInput::Float(float_add(b, NEG_EPSILON_BITS)),
    }
}

/// One more, or `f64::EPSILON` more (binary64 addition).
pub open spec fn input_plus_epsilon(m: ModelInput) -> ModelInput {
    match m {
        ModelInput::Int(x) => ModelInput::Int((x + 1) as u64),
        ModelInput::Float(b) => ModelInput::Float(float_add(b, EPSILON_BITS)),
    }
}

impl PartialEq for ModelInput {
    fn eq(&self, other: &Self) -> (r: bool) {
        match (self, other) {
            (ModelInput::Int(x), ModelInput::Int(y)) => *x == *y,
            (ModelInput::Float(x), ModelInput::Float(y)) => float_bits_eq(*x, *y),
            _ => false,
        }
    }
}

impl PartialEqSpecImpl for ModelInput {
    open spec fn obeys_eq_spec() -> bool {
        true
    }

    open spec fn eq_spec(&self, other: &Self) -> bool {
        model_input_eq(*self, *other)
    }
}

impl Eq for ModelInput {}

impl ModelInput {
    /// The key as a binary64 bit pattern.
    pub fn as_float(&self) -> (r: u64)
        ensures
            r == input_as_float(*self),
    {
        match self {
            ModelInput::Int(x) => u64_to_float_bits(*x),
            ModelInput::Float(b) => *b,
        }
    }

    /// The key as an unsigned integer.
    pub fn as_int(&self) -> (r: u64)
        ensures
            r == input_as_int(*self),
    {
        match self {
            ModelInput::Int(x) => *x,
            ModelInput::Float(b) => float_bits_to_u64(*b),
        }
    }

    /// The key just below: one less, or `f64::EPSILON` less.
    pub fn minus_epsilon(&self) -> (r: ModelInput)
        requires
            *self matches ModelInput::Int(x) ==> x > 0,
        ensures
            r == input_minus_epsilon(*self),
    {
        match self {
            ModelInput::Int(x) => ModelInput::Int(*x - 1),
            ModelInput::Float(b) => ModelInput::Float(float_bits_add(*b, NEG_EPSILON_BITS)),
        }
    }

    /// The key just above: one more, or `f64::EPSILON` more.
    pub fn plus_epsilon(&self) -> (r: ModelInput)
        requires
            *self matches ModelInput::Int(x) ==> x < u64::MAX,
        ensures
            r == input_plus_epsilon(*self),
    {
        match self {
            ModelInput::Int(x) => ModelInput::Int(*x + 1),
            ModelInput::Float(b) => ModelInput::Float(float_bits_add(*b, EPSILON_BITS)),
        }
    }

    /// The largest key of the same kind: `u64::MAX`, or the largest finite
    /// binary64 number.
    pub fn max_value(&self) -> (r: ModelInput)
        ensures
            *self is Int ==> r == ModelInput::Int(u64::MAX),
            *self is Float ==> r == ModelInput::Float(MAX_FINITE_BITS),
    {
        match self {
            ModelInput::Int(_) => ModelInput::Int(u64::MAX),
            ModelInput::Float(_) => ModelInput::Float(MAX_FINITE_BITS),
        }
    }
}

/// Bit pattern of `f64::EPSILON`, `2^-52`.
pub const EPSILON_BITS: u64 = 0x3cb0_0000_0000_0000;

/// Bit pattern of `-f64::EPSILON`.
pub const NEG_EPSILON_BITS: u64 = 0xbcb0_0000_0000_0000;

impl From<u64> for ModelInput {
    fn from(i: u64) -> (r: Self) {
        ModelInput::Int(i)
    }
}

impl FromSpecImpl<u64> for ModelInput {
    open spec fn obeys_from_spec() -> bool {
        true
    }

    open spec fn from_spec(i: u64) -> Self {
        ModelInput::Int(i)
    }
}

/// Key equality is symmetric.
pub proof fn lemma_model_input_eq_symmetric(a: ModelInput, b: ModelInput)
    ensures
        model_input_eq(a, b) == model_input_eq(b, a),
{
}

/// Key equality is transitive.
pub proof fn lemma_model_input_eq_transitive(a: ModelInput, b: ModelInput, c: ModelInput)
    requires
        model_input_eq(a, b),
        model_input_eq(b, c),
    ensures
        model_input_eq(a, c),
{
}

/// Every key equals itself, except a NaN binary64 key.
pub proof fn lemma_model_input_eq_reflexive(a: ModelInput)
    requires
        !(a matches ModelInput::Float(b) && is_nan(b)),
    ensures
        model_input_eq(a, a),
{
}

/// Two integer keys are equal exactly when they are the same integer.
pub proof fn lemma_int_keys_eq_iff_same(x: u64, y: u64)
    ensures
        model_input_eq(ModelInput::Int(x), ModelInput::Int(y)) <==> x == y,
{
}

/// Two binary64 keys are equal exactly when neither is NaN and they have the
/// same bit pattern or are both zeros (of either sign).
pub proof fn lemma_float_keys_eq_iff(x: u64, y: u64)
    ensures
        model_input_eq(ModelInput::Float(x), ModelInput::Float(y)) <==> (!is_nan(x) && !is_nan(y)
            && (x == y || (is_zero(x) && is_zero(y)))),
{
}

/// An integer key never equals a binary64 key, whatever their values.
pub proof fn lemma_keys_of_different_kinds_differ(x: u64, b: u64)
    ensures
        !model_input_eq(ModelInput::Int(x), ModelInput::Float(b)),
        !model_input_eq(ModelInput::Float(b), ModelInput::Int(x)),
{
}

/// For integer keys, one step up and one step down lead back to the key.
pub proof fn lemma_int_epsilon_steps_undo(x: u64)
    requires
        x < u64::MAX,
    ensures
        input_minus_epsilon(input_plus_epsilon(ModelInput::Int(x))) == ModelInput::Int(x),
        input_plus_epsilon(input_minus_epsilon(ModelInput::Int((x + 1) as u64))) == ModelInput::Int(
            (x + 1) as u64,
        ),
{
}

} // verus!

//! Verified core of the model layer of a learned-index (RMI) builder:
//! model parameters and their C and byte encodings, model inputs, and the
//! training data that models are fitted on.
//!
//! Floating-point values never appear as such in this crate: a binary64
//! number is carried as its IEEE-754 bit pattern in a `u64`. The operations
//! on such patterns that the library needs (casts to and from `u64`,
//! equality, multiplication, addition) are stated over the exact values
//! they round and proved in `float_bits` and `float_add`; `float_order`
//! proves that they keep nonnegative numbers in order.

pub mod decimal;
pub mod float_add;
pub mod float_bits;
pub mod float_order;
pub mod le_bytes;
pub mod lower_bound;
pub mod model_input;
pub mod model_param;
pub mod training_data;

# rmi_models

The model layer of a learned-index (RMI) builder, written in Verus:

- `model_param`: model parameters (integers, binary64 numbers and arrays of
  them), their C types and literals, and their little-endian bytes in the
  parameter file (through `byteorder`).
- `model_input`: the keys models are evaluated on, with binary64 equality and
  the steps one below and above a key.
- `training_data`: key/offset pairs, read through a binary64 scale, with
  integer, binary64 and model-input views, and `lower_bound_by`
  (in `lower_bound`), a binary search over them.
- `float_bits`, `float_add`, `float_order`: binary64 casts, equality,
  multiplication and addition on bit patterns, stated as rounding of exact
  values, and their order properties.
- `decimal`, `le_bytes`: decimal text and little-endian bytes of integers.

`app/` holds what needs `f64` itself or I/O: conversions from and to `f64`,
the `{:.}` text of binary64 numbers for C literals, writing parameters to an
`io::Write`, the `Model` trait and a trait for callers' own providers of
training pairs.

//! Training data for a model: pairs of a key and the position (offset) of
//! that key in the sorted data, read through a binary64 scale that maps positions
//! onto the range of the model being trained.
use vstd::prelude::*;
use std::sync::Arc;
use crate::float_bits::{
    float_bits_mul, float_bits_to_u64, float_mul, float_to_u64, lemma_mul_by_one,
    lemma_small_integers_round_trip, u64_to_float, u64_to_float_bits, ONE_BITS,
};
use crate::float_order::lemma_scaled_integers_monotone;
use crate::model_input::{input_as_float, input_as_int, ModelInput};

verus! {

/// Whether the keys of some training data are integers or binary64 numbers.
#[derive(Clone, Copy, Debug, PartialEq, Eq, Structural)]
pub enum KeyType {
    U64,
    F64,
}

/// The key/offset pairs that training data is read from, in one of the three
/// forms a caller can hand them over in.
pub enum RMITrainingDataIteratorProvider {
    /// Integer keys.
    U64Pairs(Vec<(u64, usize)>),
    /// Binary64 keys, as bit patterns.
    F64Pairs(Vec<(u64, usize)>),
    /// Keys of either kind; the first key decides the key type of all.
    ModelInputPairs(Vec<(ModelInput, usize)>),
}

/// Number of pairs a provider holds.
pub open spec fn provider_len(p: RMITrainingDataIteratorProvider) -> nat {
    match p {
        RMITrainingDataIteratorProvider::U64Pairs(v) => v@.len(),
        RMITrainingDataIteratorProvider::F64Pairs(v) => v@.len(),
        RMITrainingDataIteratorProvider::ModelInputPairs(v) => v@.len(),
    }
}

/// A provider has a key type unless it is an empty list of model inputs.
pub open spec fn provider_has_key_type(p: RMITrainingDataIteratorProvider) -> bool {
    match p {
        RMITrainingDataIteratorProvider::ModelInputPairs(v) => v@.len() > 0,
        _ => true,
    }
}

pub open spec fn provider_key_type(p: RMITrainingDataIteratorProvider) -> KeyType {
    match p {
        RMITrainingDataIteratorProvider::U64Pairs(_) => KeyType::U64,
        RMITrainingDataIteratorProvider::F64Pairs(_) => KeyType::F64,
        RMITrainingDataIteratorProvider::ModelInputPairs(v) => match v@[0].0 {
            ModelInput::Int(_) => KeyType::U64,
            ModelInput::Float(_) => KeyType::F64,
        },
    }
}

/// The offset of pair `i`.
pub open spec fn provider_offset(p: RMITrainingDataIteratorProvider, i: int) -> usize {
    match p {
        RMITrainingDataIteratorProvider::U64Pairs(v) => v@[i].1,
        RMITrainingDataIteratorProvider::F64Pairs(v) => v@[i].1,
        RMITrainingDataIteratorProvider::ModelInputPairs(v) => v@[i].1,
    }
}

/// The key of pair `i` as the provider hands it out for its key type: an
/// integer for `U64`, a binary64 number for `F64` (model inputs of the other
/// kind are cast).
pub open spec fn provider_key(p: RMITrainingDataIteratorProvider, i: int) -> ModelInput {
    match p {
        RMITrainingDataIteratorProvider::U64Pairs(v) => ModelInput::Int(v@[i].0),
        RMITrainingDataIteratorProvider::F64Pairs(v) => ModelInput::Float(v@[i].0),
        RMITrainingDataIteratorProvider::ModelInputPairs(v) => if provider_key_type(p)
            == KeyType::U64 {
            ModelInput::Int(input_as_int(v@[i].0))
        } else {
            ModelInput::Float(input_as_float(v@[i].0))
        },
    }
}

/// The integer-keyed pairs of a provider of key type `U64`.
pub open spec fn provider_u64_pairs(p: RMITrainingDataIteratorProvider) -> Seq<(u64, usize)> {
    Seq::new(provider_len(p), |i: int| (input_as_int(provider_key(p, i)), provider_offset(p, i)))
}

/// The binary64-keyed pairs of a provider of key type `F64`.
pub open spec fn provider_f64_pairs(p: RMITrainingDataIteratorProvider) -> Seq<(u64, usize)> {
    Seq::new(provider_len(p), |i: int| (input_as_float(provider_key(p, i)), provider_offset(p, i)))
}

impl RMITrainingDataIteratorProvider {
    pub fn len(&self) -> (r: usize)
        ensures
            r == provider_len(*self),
    {
        match self {
            RMITrainingDataIteratorProvider::U64Pairs(v) => v.len(),
            RMITrainingDataIteratorProvider::F64Pairs(v) => v.len(),
            RMITrainingDataIteratorProvider::ModelInputPairs(v) => v.len(),
        }
    }

    /// The key type; a list of model inputs takes that of its first key.
    pub fn key_type(&self) -> (r: KeyType)
        requires
            provider_has_key_type(*self),
        ensures
            r == provider_key_type(*self),
    {
        match self {
            RMITrainingDataIteratorProvider::U64Pairs(_) => KeyType::U64,
            RMITrainingDataIteratorProvider::F64Pairs(_) => KeyType::F64,
            RMITrainingDataIteratorProvider::ModelInputPairs(v) => match v[0].0 {
                ModelInput::Int(_) => KeyType::U64,
                ModelInput::Float(_) => KeyType::F64,
            },
        }
    }

    /// The pairs with integer keys; only a provider of key type `U64` has them.
    pub fn cdf_iter(&self) -> (r: Vec<(u64, usize)>)
        requires
            provider_has_key_type(*self),
            provider_key_type(*self) == KeyType::U64,
        ensures
            r@ == provider_u64_pairs(*self),
    {
        let n = self.len();
        let mut out: Vec<(u64, usize)> = Vec::new();
        for i in 0..n
            invariant
                n == provider_len(*self),
                provider_has_key_type(*self),
                provider_key_type(*self) == KeyType::U64,
                out@ == provider_u64_pairs(*self).take(i as int),
        {
            let pair = match self {
                RMITrainingDataIteratorProvider::U64Pairs(v) => v[i],
                RMITrainingDataIteratorProvider::F64Pairs(v) => v[i],
                RMITrainingDataIteratorProvider::ModelInputPairs(v) => (v[i].0.as_int(), v[i].1),
            };
            out.push(pair);
            proof {
                assert(provider_u64_pairs(*self).take(i + 1) =~= provider_u64_pairs(*self).take(
                    i as int,
                ).push(pair));
            }
        }
        proof {
            assert(provider_u64_pairs(*self).take(n as int) =~= provider_u64_pairs(*self));
        }
        out
    }

    /// The pairs with binary64 keys (bit patterns); only a provider of key
    /// type `F64` has them.
    pub fn cdf_iter_float_keys(&self) -> (r: Vec<(u64, usize)>)
        requires
            provider_has_key_type(*self),
            provider_key_type(*self) == KeyType::F64,
        ensures
            r@ == provider_f64_pairs(*self),
    {
        let n = self.len();
        let mut out: Vec<(u64, usize)> = Vec::new();
        for i in 0..n
            invariant
                n == provider_len(*self),
                provider_has_key_type(*self),
                provider_key_type(*self) == KeyType::F64,
                out@ == provider_f64_pairs(*self).take(i as int),
        {
            let pair = match self {
                RMITrainingDataIteratorProvider::U64Pairs(v) => v[i],
                RMITrainingDataIteratorProvider::F64Pairs(v) => v[i],
                RMITrainingDataIteratorProvider::ModelInputPairs(v) => (v[i].0.as_float(), v[i].1),
            };
            out.push(pair);
            proof {
                assert(provider_f64_pairs(*self).take(i + 1) =~= provider_f64_pairs(*self).take(
                    i as int,
                ).push(pair));
            }
        }
        proof {
            assert(provider_f64_pairs(*self).take(n as int) =~= provider_f64_pairs(*self));
        }
        out
    }
}

/// An offset multiplied by a binary64 scale as `offset as f64 * scale`
/// does, and the product cast back to an integer capped at `max` (as `as
/// usize` or `as u64` does).
pub open spec fn scaled_offset(offset: usize, scale: u64, max: nat) -> nat {
    let t = float_to_u64(float_mul(u64_to_float(offset as u64), scale));
    if t > max {
        max
    } else {
        t as nat
    }
}

/// Scales an offset by a binary64 scale and caps the result at `max`.
fn scale_offset(offset: usize, scale: u64, max: u64) -> (r: u64)
    ensures
        r == scaled_offset(offset, scale, max as nat),
{
    let t = float_bits_to_u64(float_bits_mul(u64_to_float_bits(offset as u64), scale));
    if t > max {
        max
    } else {
        t
    }
}

/// Training data: a shared provider of key/offset pairs, read through a
/// binary64 scale (a bit pattern) that every offset is multiplied by.
pub struct RMITrainingData {
    iterable: Arc<RMITrainingDataIteratorProvider>,
    scale: u64,
}

impl RMITrainingData {
    /// The pairs the data is read from.
    pub closed spec fn provider(self) -> RMITrainingDataIteratorProvider {
        *self.iterable
    }

    /// The scale, as a binary64 bit pattern.
    pub closed spec fn spec_scale(self) -> u64 {
        self.scale
    }

    pub open spec fn spec_len(self) -> nat {
        provider_len(self.provider())
    }

    pub open spec fn spec_has_key_type(self) -> bool {
        provider_has_key_type(self.provider())
    }

    pub open spec fn spec_key_type(self) -> KeyType {
        provider_key_type(self.provider())
    }

    /// Offset `i`, scaled, as a `usize`.
    pub open spec fn scaled_usize(self, i: int) -> usize {
        scaled_offset(provider_offset(self.provider(), i), self.spec_scale(), usize::MAX as nat) as usize
    }

    /// Offset `i`, scaled, as a `u64`.
    pub open spec fn scaled_u64(self, i: int) -> u64 {
        scaled_offset(provider_offset(self.provider(), i), self.spec_scale(), u64::MAX as nat) as u64
    }

    /// Entry `i` with its key as a model input and its offset scaled.
    pub open spec fn model_input_entry(self, i: int) -> (ModelInput, usize) {
        (provider_key(self.provider(), i), self.scaled_usize(i))
    }

    /// Entry `i` with its key as an integer and its offset scaled.
    pub open spec fn uint_usize_entry(self, i: int) -> (u64, usize) {
        (input_as_int(provider_key(self.provider(), i)), self.scaled_usize(i))
    }

    /// Entry `i` with its key as an integer and its offset scaled to a `u64`.
    pub open spec fn uint_uint_entry(self, i: int) -> (u64, u64) {
        (input_as_int(provider_key(self.provider(), i)), self.scaled_u64(i))
    }

    /// Entry `i` with its key and its scaled offset as binary64 numbers (bit
    /// patterns); the offset is not rounded to an integer.
    pub open spec fn float_float_entry(self, i: int) -> (u64, u64) {
        (
            input_as_float(provider_key(self.provider(), i)),
            float_mul(u64_to_float(provider_offset(self.provider(), i) as u64), self.spec_scale()),
        )
    }

    /// Training data over the given pairs, with scale 1.0.
    pub fn new(iterable: RMITrainingDataIteratorProvider) -> (r: RMITrainingData)
        ensures
            r.provider() == iterable,
            r.spec_scale() == ONE_BITS,
    {
        RMITrainingData { iterable: Arc::new(iterable), scale: ONE_BITS }
    }

    /// Training data over integer-keyed pairs, with scale 1.0.
    pub fn from_vec(data: Vec<(u64, usize)>) -> (r: RMITrainingData)
        ensures
            r.provider() == RMITrainingDataIteratorProvider::U64Pairs(data),
            r.spec_scale() == ONE_BITS,
    {
        RMITrainingData::new(RMITrainingDataIteratorProvider::U64Pairs(data))
    }

    /// Training data with no pairs (and integer keys).
    pub fn empty() -> (r: RMITrainingData)
        ensures
            r.provider() matches RMITrainingDataIteratorProvider::U64Pairs(v) && v@.len() == 0,
            r.spec_len() == 0,
            r.spec_key_type() == KeyType::U64,
            r.spec_scale() == ONE_BITS,
    {
        RMITrainingData::from_vec(Vec::new())
    }

    pub fn len(&self) -> (r: usize)
        ensures
            r == self.spec_len(),
    {
        self.iterable.len()
    }

    /// Sets the scale that offsets are multiplied by (a binary64 bit
    /// pattern).
    pub fn set_scale(&mut self, scale: u64)
        ensures
            final(self).provider() == old(self).provider(),
            final(self).spec_scale() == scale,
    {
        self.scale = scale;
    }

    /// Whether the data has a key type (all do but an empty list of model
    /// inputs).
    pub fn has_key_type(&self) -> (r: bool)
        ensures
            r == self.spec_has_key_type(),
    {
        match &*self.iterable {
            RMITrainingDataIteratorProvider::ModelInputPairs(v) => v.len() > 0,
            _ => true,
        }
    }

    /// The scale, as a binary64 bit pattern.
    pub fn scale(&self) -> (r: u64)
        ensures
            r == self.spec_scale(),
    {
        self.scale
    }

    pub fn key_type(&self) -> (r: KeyType)
        requires
            self.spec_has_key_type(),
        ensures
            r == self.spec_key_type(),
    {
        self.iterable.key_type()
    }

    /// Copy that shares the pairs with `self` and has the same scale.
    pub fn soft_copy(&self) -> (r: RMITrainingData)
        ensures
            r.provider() == self.provider(),
            r.spec_scale() == self.spec_scale(),
    {
        RMITrainingData { iterable: share_provider(&self.iterable), scale: self.scale }
    }

    fn scale_to_usize(&self, offset: usize) -> (r: usize)
        ensures
            r == scaled_offset(offset, self.spec_scale(), usize::MAX as nat),
    {
        scale_offset(offset, self.scale, usize::MAX as u64) as usize
    }

    fn scale_to_u64(&self, offset: usize) -> (r: u64)
        ensures
            r == scaled_offset(offset, self.spec_scale(), u64::MAX as nat),
    {
        scale_offset(offset, self.scale, u64::MAX)
    }

    /// Key `idx` as the provider hands it out, and offset `idx` unscaled.
    pub fn get_unscaled(&self, idx: usize) -> (r: (ModelInput, usize))
        requires
            idx < self.spec_len(),
        ensures
            r == (provider_key(self.provider(), idx as int), provider_offset(self.provider(), idx as int)),
    {
        let kt = self.iterable.key_type();
        match &*self.iterable {
            RMITrainingDataIteratorProvider::U64Pairs(v) => (ModelInput::Int(v[idx].0), v[idx].1),
            RMITrainingDataIteratorProvider::F64Pairs(v) => (ModelInput::Float(v[idx].0), v[idx].1),
            RMITrainingDataIteratorProvider::ModelInputPairs(v) => {
                let key = if kt == KeyType::U64 {
                    ModelInput::Int(v[idx].0.as_int())
                } else {
                    ModelInput::Float(v[idx].0.as_float())
                };
                (key, v[idx].1)
            },
        }
    }

    /// Entry `idx` with its key and its scaled offset as binary64 numbers
    /// (bit patterns).
    pub fn get(&self, idx: usize) -> (r: (u64, u64))
        requires
            idx < self.spec_len(),
        ensures
            r == self.float_float_entry(idx as int),
    {
        let (key, offset) = self.get_unscaled(idx);
        (key.as_float(), float_bits_mul(u64_to_float_bits(offset as u64), self.scale))
    }

    /// All entries, keys and scaled offsets as binary64 numbers (bit
    /// patterns).
    pub fn iter_float_float(&self) -> (r: Vec<(u64, u64)>)
        requires
            self.spec_has_key_type(),
        ensures
            r@ == Seq::new(self.spec_len(), |i: int| self.float_float_entry(i)),
    {
        let n = self.len();
        let mut out: Vec<(u64, u64)> = Vec::new();
        for i in 0..n
            invariant
                n == self.spec_len(),
                out@ == Seq::new(i as nat, |j: int| self.float_float_entry(j)),
        {
            let e = self.get(i);
            out.push(e);
            proof {
                assert(out@ =~= Seq::new((i + 1) as nat, |j: int| self.float_float_entry(j)));
            }
        }
        out
    }

    /// Entry `idx` with its key as a model input.
    pub fn get_key(&self, idx: usize) -> (r: ModelInput)
        requires
            idx < self.spec_len(),
        ensures
            r == self.model_input_entry(idx as int).0,
    {
        self.get_unscaled(idx).0
    }

    /// Entry `idx` with its key as an integer and its offset scaled to a `u64`.
    pub fn get_uint(&self, idx: usize) -> (r: (u64, u64))
        requires
            idx < self.spec_len(),
        ensures
            r == self.uint_uint_entry(idx as int),
    {
        let (key, offset) = self.get_unscaled(idx);
        (key.as_int(), self.scale_to_u64(offset))
    }

    /// Entry `idx` with its key as an integer and its offset scaled.
    pub fn get_uint_usize(&self, idx: usize) -> (r: (u64, usize))
        requires
            idx < self.spec_len(),
        ensures
            r == self.uint_usize_entry(idx as int),
    {
        let (key, offset) = self.get_unscaled(idx);
        (key.as_int(), self.scale_to_usize(offset))
    }

    /// All entries, keys as model inputs, offsets scaled.
    pub fn iter_model_input(&self) -> (r: Vec<(ModelInput, usize)>)
        requires
            self.spec_has_key_type(),
        ensures
            r@ == Seq::new(self.spec_len(), |i: int| self.model_input_entry(i)),
    {
        let n = self.len();
        let mut out: Vec<(ModelInput, usize)> = Vec::new();
        for i in 0..n
            invariant
                n == self.spec_len(),
                out@ == Seq::new(i as nat, |j: int| self.model_input_entry(j)),
        {
            let (key, offset) = self.get_unscaled(i);
            out.push((key, self.scale_to_usize(offset)));
            proof {
                assert(out@ =~= Seq::new((i + 1) as nat, |j: int| self.model_input_entry(j)));
            }
        }
        out
    }

    /// All entries, keys as integers, offsets scaled.
    pub fn iter_uint_usize(&self) -> (r: Vec<(u64, usize)>)
        requires
            self.spec_has_key_type(),
        ensures
            r@ == Seq::new(self.spec_len(), |i: int| self.uint_usize_entry(i)),
    {
        let n = self.len();
        let mut out: Vec<(u64, usize)> = Vec::new();
        for i in 0..n
            invariant
                n == self.spec_len(),
                out@ == Seq::new(i as nat, |j: int| self.uint_usize_entry(j)),
        {
            let e = self.get_uint_usize(i);
            out.push(e);
            proof {
                assert(out@ =~= Seq::new((i + 1) as nat, |j: int| self.uint_usize_entry(j)));
            }
        }
        out
    }

    /// All entries, keys as integers, offsets scaled to `u64`.
    pub fn iter_uint_uint(&self) -> (r: Vec<(u64, u64)>)
        requires
            self.spec_has_key_type(),
        ensures
            r@ == Seq::new(self.spec_len(), |i: int| self.uint_uint_entry(i)),
    {
        let n = self.len();
        let mut out: Vec<(u64, u64)> = Vec::new();
        for i in 0..n
            invariant
                n == self.spec_len(),
                out@ == Seq::new(i as nat, |j: int| self.uint_uint_entry(j)),
        {
            let e = self.get_uint(i);
            out.push(e);
            proof {
                assert(out@ =~= Seq::new((i + 1) as nat, |j: int| self.uint_uint_entry(j)));
            }
        }
        out
    }
}

/// Scaling keeps offsets in order, whatever the scale.
pub proof fn lemma_scaled_offset_monotone(a: usize, b: usize, scale: u64, max: nat)
    requires
        a <= b,
    ensures
        scaled_offset(a, scale, max) <= scaled_offset(b, scale, max),
{
    lemma_scaled_integers_monotone(a as u64, b as u64, scale);
}

/// When the offsets of the pairs are in order, so are the scaled offsets
/// that every reading of the data gives.
pub proof fn lemma_sorted_offsets_stay_sorted(t: RMITrainingData, i: int, j: int)
    requires
        forall|a: int, b: int|
            0 <= a <= b < t.spec_len() ==> provider_offset(t.provider(), a) <= provider_offset(
                t.provider(),
                b,
            ),
        0 <= i <= j < t.spec_len(),
    ensures
        t.scaled_usize(i) <= t.scaled_usize(j),
        t.scaled_u64(i) <= t.scaled_u64(j),
{
    let oi = provider_offset(t.provider(), i);
    let oj = provider_offset(t.provider(), j);
    lemma_scaled_offset_monotone(oi, oj, t.spec_scale(), usize::MAX as nat);
    lemma_scaled_offset_monotone(oi, oj, t.spec_scale(), u64::MAX as nat);
}

/// Under scale 1.0, integer-keyed pairs read back exactly as they were
/// given, as long as every offset is exact in binary64 (at most `2^53`).
pub proof fn lemma_unit_scale_gives_back_pairs(t: RMITrainingData, pairs: Vec<(u64, usize)>)
    requires
        t.provider() == RMITrainingDataIteratorProvider::U64Pairs(pairs),
        t.spec_scale() == ONE_BITS,
        forall|i: int| 0 <= i < pairs@.len() ==> #[trigger] pairs@[i].1 <= 0x20_0000_0000_0000,
    ensures
        Seq::new(t.spec_len(), |i: int| t.uint_usize_entry(i)) == pairs@,
        Seq::new(t.spec_len(), |i: int| t.uint_uint_entry(i)) == pairs@.map_values(
            |p: (u64, usize)| (p.0, p.1 as u64),
        ),
{
    assert forall|i: int| 0 <= i < t.spec_len() implies t.uint_usize_entry(i) == pairs@[i]
        && t.uint_uint_entry(i) == (pairs@[i].0, pairs@[i].1 as u64) by {
        let off = pairs@[i].1;
        lemma_small_integers_round_trip(off as u64);
        lemma_mul_by_one(u64_to_float(off as u64));
    }
    assert(Seq::new(t.spec_len(), |i: int| t.uint_usize_entry(i)) =~= pairs@);
    assert(Seq::new(t.spec_len(), |i: int| t.uint_uint_entry(i)) =~= pairs@.map_values(
        |p: (u64, usize)| (p.0, p.1 as u64),
    ));
}

/// The binary64 view of entry `i` carries the offset times the scale, as
/// `offset as f64 * scale` computes it, whichever form the pairs were handed
/// over in; cast back to an integer it is the scaled offset of the integer
/// view.
pub proof fn lemma_float_view_offset_is_scaled(t: RMITrainingData, i: int)
    requires
        0 <= i < t.spec_len(),
    ensures
        t.float_float_entry(i).1 == float_mul(
            u64_to_float(provider_offset(t.provider(), i) as u64),
            t.spec_scale(),
        ),
        float_to_u64(t.float_float_entry(i).1) == t.scaled_u64(i),
{
}

/// Two sets of training data with the same scale give the same binary64
/// offset for entries with the same offset, whatever form their pairs came in.
pub proof fn lemma_float_view_offset_depends_on_offset_and_scale(
    t1: RMITrainingData,
    i: int,
    t2: RMITrainingData,
    j: int,
)
    requires
        0 <= i < t1.spec_len(),
        0 <= j < t2.spec_len(),
        t1.spec_scale() == t2.spec_scale(),
        provider_offset(t1.provider(), i) == provider_offset(t2.provider(), j),
    ensures
        t1.float_float_entry(i).1 == t2.float_float_entry(j).1,
        t1.scaled_u64(i) == t2.scaled_u64(j),
        t1.scaled_usize(i) == t2.scaled_usize(j),
{
}

/// A nonempty list of model inputs takes its key type from the kind of its
/// first key, whatever that key's value: `F64` for a binary64 key, `U64` for
/// an integer key.
pub proof fn lemma_model_inputs_key_type(v: Vec<(ModelInput, usize)>)
    requires
        v@.len() > 0,
    ensures
        v@[0].0 is Float ==> provider_key_type(RMITrainingDataIteratorProvider::ModelInputPairs(v))
            == KeyType::F64,
        v@[0].0 is Int ==> provider_key_type(RMITrainingDataIteratorProvider::ModelInputPairs(v))
            == KeyType::U64,
{
}

/// Model inputs that are all binary64 keys read like the same pairs handed
/// over as binary64 keys: each key comes back unchanged in every view, and
/// the offsets are scaled alike.
pub proof fn lemma_float_model_inputs_read_back(
    t: RMITrainingData,
    v: Vec<(ModelInput, usize)>,
    u: RMITrainingData,
    p: Vec<(u64, usize)>,
    i: int,
)
    requires
        t.provider() == RMITrainingDataIteratorProvider::ModelInputPairs(v),
        u.provider() == RMITrainingDataIteratorProvider::F64Pairs(p),
        t.spec_scale() == u.spec_scale(),
        v@.len() == p@.len(),
        forall|k: int| 0 <= k < v@.len() ==> #[trigger] v@[k] == (ModelInput::Float(p@[k].0), p@[k].1),
        0 <= i < v@.len(),
    ensures
        t.spec_key_type() == KeyType::F64,
        t.model_input_entry(i).0 == v@[i].0,
        t.model_input_entry(i) == u.model_input_entry(i),
        t.float_float_entry(i) == u.float_float_entry(i),
        t.uint_uint_entry(i) == u.uint_uint_entry(i),
        t.uint_usize_entry(i) == u.uint_usize_entry(i),
{
    assert(v@[0] == (ModelInput::Float(p@[0].0), p@[0].1));
    assert(v@[i] == (ModelInput::Float(p@[i].0), p@[i].1));
}

/// Model inputs that are all integer keys read like the same pairs handed
/// over as integer keys: each key comes back unchanged in every view, and
/// the offsets are scaled alike.
pub proof fn lemma_int_model_inputs_read_back(
    t: RMITrainingData,
    v: Vec<(ModelInput, usize)>,
    u: RMITrainingData,
    p: Vec<(u64, usize)>,
    i: int,
)
    requires
        t.provider() == RMITrainingDataIteratorProvider::ModelInputPairs(v),
        u.provider() == RMITrainingDataIteratorProvider::U64Pairs(p),
        t.spec_scale() == u.spec_scale(),
        v@.len() == p@.len(),
        forall|k: int| 0 <= k < v@.len() ==> #[trigger] v@[k] == (ModelInput::Int(p@[k].0), p@[k].1),
        0 <= i < v@.len(),
    ensures
        t.spec_key_type() == KeyType::U64,
        t.model_input_entry(i).0 == v@[i].0,
        t.model_input_entry(i) == u.model_input_entry(i),
        t.float_float_entry(i) == u.float_float_entry(i),
        t.uint_uint_entry(i) == u.uint_uint_entry(i),
        t.uint_usize_entry(i) == u.uint_usize_entry(i),
{
    assert(v@[0] == (ModelInput::Int(p@[0].0), p@[0].1));
    assert(v@[i] == (ModelInput::Int(p@[i].0), p@[i].1));
}

/// The views of an entry agree: the model-input key is of the data's key
/// type, the integer and binary64 views read that same key as an integer
/// and as a binary64 number, and the scaled offsets are the same in the
/// views that round them to an integer.
pub proof fn lemma_views_agree(t: RMITrainingData, i: int)
    requires
        t.spec_has_key_type(),
        0 <= i < t.spec_len(),
    ensures
        t.model_input_entry(i).0 is Int <==> t.spec_key_type() == KeyType::U64,
        t.uint_usize_entry(i).0 == input_as_int(t.model_input_entry(i).0),
        t.uint_uint_entry(i).0 == input_as_int(t.model_input_entry(i).0),
        t.float_float_entry(i).0 == input_as_float(t.model_input_entry(i).0),
        t.uint_usize_entry(i).1 == t.model_input_entry(i).1,
        t.uint_usize_entry(i).1 as nat == t.uint_uint_entry(i).1 as nat || t.uint_usize_entry(i).1
            == usize::MAX,
{
}

/// Keys come back unchanged when they already are of the data's key type:
/// every key of integer or binary64 pairs, and each model input of the same
/// kind as the first.
pub proof fn lemma_keys_of_the_key_type_come_back(t: RMITrainingData, i: int)
    requires
        t.spec_has_key_type(),
        0 <= i < t.spec_len(),
    ensures
        t.provider() matches RMITrainingDataIteratorProvider::U64Pairs(p) ==> t.model_input_entry(
            i,
        ).0 == ModelInput::Int(p@[i].0),
        t.provider() matches RMITrainingDataIteratorProvider::F64Pairs(p) ==> t.model_input_entry(
            i,
        ).0 == ModelInput::Float(p@[i].0),
        t.provider() matches RMITrainingDataIteratorProvider::ModelInputPairs(v) ==> ((v@[i].0 is Int
            == v@[0].0 is Int) ==> t.model_input_entry(i).0 == v@[i].0),
{
}

/// `Arc::clone`: a second pointer to the same allocation, so the same value.
#[verifier::external_body]
fn share_provider(a: &Arc<RMITrainingDataIteratorProvider>) -> (r: Arc<RMITrainingDataIteratorProvider>)
    ensures
        *r == **a,
{
    Arc::clone(a)
}

} // verus!

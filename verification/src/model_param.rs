//! Model parameters and the C types of model inputs and outputs.
use vstd::prelude::*;
use vstd::std_specs::convert::FromSpecImpl;
use crate::decimal::{decimal, digit_char, push_decimal};
use crate::float_bits::{u64_to_float, u64_to_float_bits};
use crate::le_bytes::{
    lemma_u16_le_read_back, lemma_u32_le_read_back, lemma_u64_le_read_back, le_value, u16_le, u32_le,
    u64_le, write_u16_le, write_u32_le, write_u64_le,
};

verus! {

/// The C type of a model's input or output.
#[derive(Clone, Copy, Debug, PartialEq, Eq, Structural)]
pub enum ModelDataType {
    Int,
    Float,
}

impl ModelDataType {
    /// The C spelling of this type.
    pub fn c_type(&self) -> (r: &'static str)
        ensures
            *self == ModelDataType::Int ==> r@ == "uint64_t"@,
            *self == ModelDataType::Float ==> r@ == "double"@,
    {
        match self {
            ModelDataType::Int => "uint64_t",
            ModelDataType::Float => "double",
        }
    }
}

/// Where in the RMI a model may be placed.
#[derive(Clone, Copy, Debug, PartialEq, Eq, Structural)]
pub enum ModelRestriction {
    NoRestriction,
    MustBeTop,
    MustBeBottom,
}

/// A parameter of a model, as it is emitted into the generated C code and
/// into the binary parameter file.
#[derive(Debug, Clone)]
pub enum ModelParam {
    Int(u64),
    /// A binary64 number, as its IEEE-754 bit pattern.
    Float(u64),
    ShortArray(Vec<u16>),
    IntArray(Vec<u64>),
    Int32Array(Vec<u32>),
    /// Binary64 numbers, as their IEEE-754 bit patterns.
    FloatArray(Vec<u64>),
}

/// Number of bytes the parameter occupies in the binary parameter file.
pub open spec fn param_size(p: ModelParam) -> nat {
    match p {
        ModelParam::Int(_) => 8,
        ModelParam::Float(_) => 8,
        ModelParam::ShortArray(a) => 2 * a@.len(),
        ModelParam::IntArray(a) => 8 * a@.len(),
        ModelParam::Int32Array(a) => 4 * a@.len(),
        ModelParam::FloatArray(a) => 8 * a@.len(),
    }
}

/// Number of values the parameter holds.
pub open spec fn param_len(p: ModelParam) -> nat {
    match p {
        ModelParam::Int(_) => 1,
        ModelParam::Float(_) => 1,
        ModelParam::ShortArray(a) => a@.len(),
        ModelParam::IntArray(a) => a@.len(),
        ModelParam::Int32Array(a) => a@.len(),
        ModelParam::FloatArray(a) => a@.len(),
    }
}

/// Both parameters are of the same variant.
pub open spec fn same_variant(a: ModelParam, b: ModelParam) -> bool {
    ||| (a is Int && b is Int)
    ||| (a is Float && b is Float)
    ||| (a is ShortArray && b is ShortArray)
    ||| (a is IntArray && b is IntArray)
    ||| (a is Int32Array && b is Int32Array)
    ||| (a is FloatArray && b is FloatArray)
}

/// Bytes per value of the parameter.
pub open spec fn value_width(p: ModelParam) -> nat {
    match p {
        ModelParam::ShortArray(_) => 2,
        ModelParam::Int32Array(_) => 4,
        _ => 8,
    }
}

pub open spec fn param_is_array(p: ModelParam) -> bool {
    !(p is Int || p is Float)
}

/// Number of binary64 values the parameter holds.
pub open spec fn float_count(p: ModelParam) -> nat {
    match p {
        ModelParam::Float(_) => 1,
        ModelParam::FloatArray(a) => a@.len(),
        _ => 0,
    }
}

/// The bytes of the parameter in the binary parameter file: each value in
/// little-endian order, binary64 values by their bit patterns.
pub open spec fn param_bytes(p: ModelParam) -> Seq<u8> {
    match p {
        ModelParam::Int(v) => u64_le(v),
        ModelParam::Float(b) => u64_le(b),
        ModelParam::ShortArray(a) => a@.map_values(|x: u16| u16_le(x)).flatten(),
        ModelParam::IntArray(a) => a@.map_values(|x: u64| u64_le(x)).flatten(),
        ModelParam::Int32Array(a) => a@.map_values(|x: u32| u32_le(x)).flatten(),
        ModelParam::FloatArray(a) => a@.map_values(|x: u64| u64_le(x)).flatten(),
    }
}

/// The items joined by `sep`.
pub open spec fn join(items: Seq<Seq<char>>, sep: Seq<char>) -> Seq<char>
    decreases items.len(),
{
    if items.len() == 0 {
        seq![]
    } else if items.len() == 1 {
        items[0]
    } else {
        join(items.drop_last(), sep) + sep + items.last()
    }
}

/// A C initializer list: `{ a, b, c }`.
pub open spec fn braced_list(items: Seq<Seq<char>>) -> Seq<char> {
    seq!['{', ' '] + join(items, seq![',', ' ']) + seq![' ', '}']
}

/// The text of a binary64 number as a C `double` literal: the text as given,
/// with `.0` added when it has no decimal point.
pub open spec fn with_decimal_point(t: Seq<char>) -> Seq<char> {
    if t.contains('.') {
        t
    } else {
        t + seq!['.', '0']
    }
}

/// An unsigned C literal: the decimal digits and `UL`.
pub open spec fn ul_literal(v: nat) -> Seq<char> {
    decimal(v) + seq!['U', 'L']
}

/// The C literal of the parameter, given the text of each binary64 value it
/// holds (as `{:.}` prints it) in `float_texts`.
pub open spec fn param_c_val(p: ModelParam, float_texts: Seq<Seq<char>>) -> Seq<char> {
    match p {
        ModelParam::Int(v) => ul_literal(v as nat),
        ModelParam::Float(_) => with_decimal_point(float_texts[0]),
        ModelParam::ShortArray(a) => braced_list(a@.map_values(|x: u16| decimal(x as nat))),
        ModelParam::IntArray(a) => braced_list(a@.map_values(|x: u64| ul_literal(x as nat))),
        ModelParam::Int32Array(a) => braced_list(a@.map_values(|x: u32| ul_literal(x as nat))),
        ModelParam::FloatArray(_) => braced_list(float_texts.map_values(|t: Seq<char>| with_decimal_point(t))),
    }
}

pub open spec fn string_views(v: Seq<String>) -> Seq<Seq<char>> {
    v.map_values(|s: String| s@)
}

proof fn lemma_flatten_chunks<A, B>(a: Seq<A>, f: spec_fn(A) -> Seq<B>, w: nat)
    requires
        forall|x: A| #[trigger] f(x).len() == w,
    ensures
        a.map_values(f).flatten().len() == w * a.len(),
    decreases a.len(),
{
    if a.len() == 0 {
        assert(a.map_values(f).flatten() =~= Seq::<B>::empty());
        assert(w * a.len() == 0) by (nonlinear_arith)
            requires
                a.len() == 0,
        ;
    } else {
        let init = a.drop_last();
        lemma_flatten_chunks(init, f, w);
        assert(a.map_values(f) =~= init.map_values(f).push(f(a.last())));
        init.map_values(f).lemma_flatten_push(f(a.last()));
        assert(a.map_values(f).flatten() =~= init.map_values(f).flatten() + f(a.last()));
        assert(f(a.last()).len() == w);
        assert(w * a.len() == w * init.len() + w) by (nonlinear_arith)
            requires
                a.len() == init.len() + 1,
        ;
    }
}

/// Chunk `i` of the concatenated pieces, each `w` long, is piece `i`.
proof fn lemma_flatten_chunk_at<A, B>(a: Seq<A>, f: spec_fn(A) -> Seq<B>, w: nat, i: int)
    requires
        forall|x: A| #[trigger] f(x).len() == w,
        0 <= i < a.len(),
    ensures
        w * i + w <= a.map_values(f).flatten().len(),
        a.map_values(f).flatten().subrange(w * i, w * i + w) == f(a[i]),
    decreases a.len(),
{
    let init = a.drop_last();
    lemma_flatten_chunks(a, f, w);
    lemma_flatten_chunks(init, f, w);
    assert(a.map_values(f) =~= init.map_values(f).push(f(a.last())));
    init.map_values(f).lemma_flatten_push(f(a.last()));
    let whole = a.map_values(f).flatten();
    let front = init.map_values(f).flatten();
    assert(whole =~= front + f(a.last()));
    assert(w * a.len() == w * init.len() + w) by (nonlinear_arith)
        requires
            a.len() == init.len() + 1,
    ;
    if i < init.len() {
        lemma_flatten_chunk_at(init, f, w, i);
        assert(w * i + w <= w * init.len()) by (nonlinear_arith)
            requires
                i + 1 <= init.len(),
        ;
        assert(whole.subrange(w * i, w * i + w) =~= front.subrange(w * i, w * i + w));
        assert(init[i] == a[i]);
    } else {
        assert(w * i == w * init.len());
        assert(whole.subrange(w * i, w * i + w) =~= f(a.last()));
    }
}

/// Number of times `c` occurs in `s`.
pub open spec fn count_char(s: Seq<char>, c: char) -> nat
    decreases s.len(),
{
    if s.len() == 0 {
        0
    } else {
        count_char(s.drop_last(), c) + if s.last() == c {
            1nat
        } else {
            0nat
        }
    }
}

proof fn lemma_count_single(d: char, c: char)
    ensures
        count_char(seq![d], c) == if d == c {
            1nat
        } else {
            0nat
        },
{
    let e = seq![d].drop_last();
    assert(e =~= Seq::<char>::empty());
    assert(count_char(e, c) == 0);
    assert(seq![d].last() == d);
}

proof fn lemma_count_pair(d1: char, d2: char, c: char)
    ensures
        count_char(seq![d1, d2], c) == count_char(seq![d1], c) + count_char(seq![d2], c),
{
    assert(seq![d1, d2] =~= seq![d1] + seq![d2]);
    lemma_count_concat(seq![d1], seq![d2], c);
}

proof fn lemma_count_concat(s: Seq<char>, t: Seq<char>, c: char)
    ensures
        count_char(s + t, c) == count_char(s, c) + count_char(t, c),
    decreases t.len(),
{
    if t.len() == 0 {
        assert(s + t =~= s);
    } else {
        assert((s + t).drop_last() =~= s + t.drop_last());
        assert((s + t).last() == t.last());
        lemma_count_concat(s, t.drop_last(), c);
    }
}

proof fn lemma_decimal_has_no_comma(v: nat)
    ensures
        count_char(decimal(v), ',') == 0,
    decreases v,
{
    if v >= 10 {
        lemma_decimal_has_no_comma(v / 10);
        assert(decimal(v).drop_last() =~= decimal(v / 10));
        assert(decimal(v).last() == digit_char(v % 10));
    } else {
        lemma_count_single(digit_char(v), ',');
    }
}

proof fn lemma_ul_literal_has_no_comma(v: nat)
    ensures
        count_char(ul_literal(v), ',') == 0,
{
    lemma_decimal_has_no_comma(v);
    lemma_count_concat(decimal(v), seq!['U', 'L'], ',');
    lemma_count_pair('U', 'L', ',');
    lemma_count_single('U', ',');
    lemma_count_single('L', ',');
}

proof fn lemma_with_decimal_point_adds_no_comma(t: Seq<char>)
    ensures
        count_char(with_decimal_point(t), ',') == count_char(t, ','),
{
    if !t.contains('.') {
        lemma_count_concat(t, seq!['.', '0'], ',');
        lemma_count_pair('.', '0', ',');
        lemma_count_single('.', ',');
        lemma_count_single('0', ',');
    }
}

/// Items without commas, joined by `, `, hold one comma fewer than there are
/// items; the text starts with the first item and ends with the last.
proof fn lemma_join_commas(items: Seq<Seq<char>>)
    requires
        items.len() >= 1,
        forall|k: int| 0 <= k < items.len() ==> count_char(#[trigger] items[k], ',') == 0,
    ensures
        count_char(join(items, seq![',', ' ']), ',') == items.len() - 1,
        join(items, seq![',', ' ']).len() >= items[0].len(),
        join(items, seq![',', ' ']).take(items[0].len() as int) == items[0],
        join(items, seq![',', ' ']).len() >= items.last().len(),
        join(items, seq![',', ' ']).subrange(
            join(items, seq![',', ' ']).len() - items.last().len(),
            join(items, seq![',', ' ']).len() as int,
        ) == items.last(),
    decreases items.len(),
{
    let sep = seq![',', ' '];
    let j = join(items, sep);
    if items.len() == 1 {
        assert(j == items[0]);
        assert(j.take(items[0].len() as int) =~= items[0]);
        assert(j.subrange(0, j.len() as int) =~= j);
    } else {
        let init = items.drop_last();
        assert forall|k: int| 0 <= k < init.len() implies count_char(#[trigger] init[k], ',') == 0 by {
            assert(init[k] == items[k]);
        }
        lemma_join_commas(init);
        let ji = join(init, sep);
        assert(j == ji + sep + items.last());
        lemma_count_concat(ji, sep, ',');
        lemma_count_concat(ji + sep, items.last(), ',');
        lemma_count_pair(',', ' ', ',');
        lemma_count_single(',', ',');
        lemma_count_single(' ', ',');
        assert(count_char(items.last(), ',') == 0);
        assert(init[0] == items[0]);
        assert(j.take(items[0].len() as int) =~= ji.take(items[0].len() as int));
        assert(j.subrange(j.len() - items.last().len(), j.len() as int) =~= items.last());
    }
}

/// `{ a, b, c }` of items without commas holds one comma fewer than there
/// are items, starts with `{ ` and the first item, and ends with the last item
/// and ` }`.
proof fn lemma_braced_list_commas(items: Seq<Seq<char>>)
    requires
        items.len() >= 1,
        forall|k: int| 0 <= k < items.len() ==> count_char(#[trigger] items[k], ',') == 0,
    ensures
        count_char(braced_list(items), ',') == items.len() - 1,
        braced_list(items).take(items[0].len() + 2int) == seq!['{', ' '] + items[0],
        braced_list(items).len() >= items.last().len() + 2,
        braced_list(items).subrange(
            braced_list(items).len() - items.last().len() - 2,
            braced_list(items).len() as int,
        ) == items.last() + seq![' ', '}'],
{
    let j = join(items, seq![',', ' ']);
    let open = seq!['{', ' '];
    let close = seq![' ', '}'];
    lemma_join_commas(items);
    lemma_count_concat(open, j, ',');
    lemma_count_concat(open + j, close, ',');
    lemma_count_pair('{', ' ', ',');
    lemma_count_pair(' ', '}', ',');
    lemma_count_single('{', ',');
    lemma_count_single(' ', ',');
    lemma_count_single('}', ',');
    let b = braced_list(items);
    assert(b == open + j + close);
    assert(b.take(items[0].len() + 2int) =~= open + j.take(items[0].len() as int));
    assert(b.subrange(b.len() - items.last().len() - 2, b.len() as int) =~= j.subrange(
        j.len() - items.last().len(),
        j.len() as int,
    ) + close);
}

/// Widens 16-bit values to 64 bits.
fn widen_u16(a: &Vec<u16>) -> (r: Vec<u64>)
    ensures
        r@ == a@.map_values(|x: u16| x as u64),
{
    let mut r: Vec<u64> = Vec::new();
    for i in 0..a.len()
        invariant
            r@ == a@.take(i as int).map_values(|x: u16| x as u64),
    {
        r.push(a[i] as u64);
        proof {
            assert(a@.take(i + 1).map_values(|x: u16| x as u64) =~= a@.take(i as int).map_values(
                |x: u16| x as u64,
            ).push(a@[i as int] as u64));
        }
    }
    proof {
        assert(a@.take(a@.len() as int) =~= a@);
    }
    r
}

/// Widens 32-bit values to 64 bits.
fn widen_u32(a: &Vec<u32>) -> (r: Vec<u64>)
    ensures
        r@ == a@.map_values(|x: u32| x as u64),
{
    let mut r: Vec<u64> = Vec::new();
    for i in 0..a.len()
        invariant
            r@ == a@.take(i as int).map_values(|x: u32| x as u64),
    {
        r.push(a[i] as u64);
        proof {
            assert(a@.take(i + 1).map_values(|x: u32| x as u64) =~= a@.take(i as int).map_values(
                |x: u32| x as u64,
            ).push(a@[i as int] as u64));
        }
    }
    proof {
        assert(a@.take(a@.len() as int) =~= a@);
    }
    r
}

/// Appends `, ` before every item but the first.
proof fn lemma_join_step(items: Seq<Seq<char>>, sep: Seq<char>, i: int)
    requires
        0 <= i < items.len(),
    ensures
        join(items.take(i + 1), sep) == join(items.take(i), sep) + (if i == 0 {
            seq![]
        } else {
            sep
        }) + items[i],
{
    let t = items.take(i + 1);
    assert(t.drop_last() =~= items.take(i));
    if i == 0 {
        assert(join(items.take(0), sep) =~= seq![]);
        assert(join(t, sep) == t[0]);
        assert(seq![] + seq![] + items[0] =~= items[0]);
    }
}

/// The decimal text of the value, with `UL` after it when `ul` holds.
fn decimal_text(v: u64, ul: bool) -> (r: String)
    ensures
        r@ == if ul {
            ul_literal(v as nat)
        } else {
            decimal(v as nat)
        },
{
    let mut s = String::new();
    push_decimal(&mut s, v);
    if ul {
        proof {
            reveal_strlit("UL");
        }
        s.append("UL");
    }
    s
}

/// `t` with `.0` added when it has no decimal point.
fn with_decimal_point_text(t: &String) -> (r: String)
    ensures
        r@ == with_decimal_point(t@),
{
    let s = t.as_str();
    let n = s.unicode_len();
    let mut found = false;
    for i in 0..n
        invariant
            n == t@.len(),
            s@ == t@,
            found <==> exists|j: int| 0 <= j < i && t@[j] == '.',
    {
        if s.get_char(i) == '.' {
            found = true;
        }
    }
    let mut r = t.clone();
    if !found {
        proof {
            reveal_strlit(".0");
            assert(!t@.contains('.'));
        }
        r.append(".0");
    } else {
        proof {
            let j = choose|j: int| 0 <= j < n && t@[j] == '.';
            assert(t@.contains('.'));
        }
    }
    r
}

/// `{ a, b, c }` of the given item texts.
fn braced_text(items: &Vec<String>) -> (r: String)
    ensures
        r@ == braced_list(string_views(items@)),
{
    let ghost views = string_views(items@);
    let sep = ", ";
    let mut out = String::new();
    proof {
        reveal_strlit("{ ");
        reveal_strlit(", ");
        reveal_strlit(" }");
        assert(join(views.take(0), seq![',', ' ']) =~= seq![]);
    }
    out.append("{ ");
    for i in 0..items.len()
        invariant
            views == string_views(items@),
            sep@ == seq![',', ' '],
            out@ == seq!['{', ' '] + join(views.take(i as int), seq![',', ' ']),
    {
        proof {
            lemma_join_step(views, seq![',', ' '], i as int);
        }
        if i > 0 {
            out.append(sep);
        }
        out.append(items[i].as_str());
        proof {
            assert(items@[i as int]@ == views[i as int]);
        }
    }
    proof {
        assert(views.take(items@.len() as int) =~= views);
    }
    out.append(" }");
    out
}

/// The decimal texts of the values, each with `UL` when `ul` holds.
fn decimal_texts(vals: &Vec<u64>, ul: bool) -> (r: Vec<String>)
    ensures
        string_views(r@) == vals@.map_values(
            |x: u64|
                if ul {
                    ul_literal(x as nat)
                } else {
                    decimal(x as nat)
                },
        ),
{
    let ghost f = |x: u64|
        if ul {
            ul_literal(x as nat)
        } else {
            decimal(x as nat)
        };
    let mut r: Vec<String> = Vec::new();
    for i in 0..vals.len()
        invariant
            forall|x: u64|
                #[trigger] f(x) == if ul {
                    ul_literal(x as nat)
                } else {
                    decimal(x as nat)
                },
            string_views(r@) == vals@.take(i as int).map_values(f),
    {
        let ghost prev = r@;
        let t = decimal_text(vals[i], ul);
        r.push(t);
        proof {
            assert(string_views(r@) =~= string_views(prev).push(t@));
            assert(vals@.take(i + 1) =~= vals@.take(i as int).push(vals@[i as int]));
            assert(t@ == f(vals@[i as int]));
            assert(string_views(r@) =~= vals@.take(i + 1).map_values(f));
        }
    }
    proof {
        assert(vals@.take(vals@.len() as int) =~= vals@);
    }
    r
}

impl ModelParam {
    /// Size in bytes.
    pub fn size(&self) -> (r: usize)
        requires
            param_size(*self) <= usize::MAX,
        ensures
            r == param_size(*self),
    {
        match self {
            ModelParam::Int(_) => 8,
            ModelParam::Float(_) => 8,
            ModelParam::ShortArray(a) => 2 * a.len(),
            ModelParam::IntArray(a) => 8 * a.len(),
            ModelParam::Int32Array(a) => 4 * a.len(),
            ModelParam::FloatArray(a) => 8 * a.len(),
        }
    }

    /// The C type of the parameter's values.
    pub fn c_type(&self) -> (r: &'static str)
        ensures
            (*self is Int || *self is IntArray) ==> r@ == "uint64_t"@,
            (*self is Float || *self is FloatArray) ==> r@ == "double"@,
            *self is ShortArray ==> r@ == "short"@,
            *self is Int32Array ==> r@ == "uint32_t"@,
    {
        match self {
            ModelParam::Int(_) => "uint64_t",
            ModelParam::Float(_) => "double",
            ModelParam::ShortArray(_) => "short",
            ModelParam::IntArray(_) => "uint64_t",
            ModelParam::Int32Array(_) => "uint32_t",
            ModelParam::FloatArray(_) => "double",
        }
    }

    pub fn is_array(&self) -> (r: bool)
        ensures
            r == param_is_array(*self),
    {
        match self {
            ModelParam::Int(_) => false,
            ModelParam::Float(_) => false,
            ModelParam::ShortArray(_) => true,
            ModelParam::IntArray(_) => true,
            ModelParam::Int32Array(_) => true,
            ModelParam::FloatArray(_) => true,
        }
    }

    /// The declarator suffix in C: `[]` for arrays, nothing for scalars.
    pub fn c_type_mod(&self) -> (r: &'static str)
        ensures
            param_is_array(*self) ==> r@ == "[]"@,
            !param_is_array(*self) ==> r@ == ""@,
    {
        match self {
            ModelParam::Int(_) => "",
            ModelParam::Float(_) => "",
            ModelParam::ShortArray(_) => "[]",
            ModelParam::IntArray(_) => "[]",
            ModelParam::Int32Array(_) => "[]",
            ModelParam::FloatArray(_) => "[]",
        }
    }

    /// The C literal of the parameter. The text of each binary64 value it
    /// holds, as `{:.}` prints it, is passed in `float_texts`, in order.
    pub fn c_val(&self, float_texts: &Vec<String>) -> (r: String)
        requires
            float_texts@.len() == float_count(*self),
        ensures
            r@ == param_c_val(*self, string_views(float_texts@)),
    {
        match self {
            ModelParam::Int(v) => decimal_text(*v, true),
            ModelParam::Float(_) => with_decimal_point_text(&float_texts[0]),
            ModelParam::ShortArray(a) => {
                let wide = widen_u16(a);
                let items = decimal_texts(&wide, false);
                proof {
                    assert(string_views(items@) =~= a@.map_values(|x: u16| decimal(x as nat)));
                }
                braced_text(&items)
            },
            ModelParam::IntArray(a) => {
                let items = decimal_texts(a, true);
                proof {
                    assert(string_views(items@) =~= a@.map_values(|x: u64| ul_literal(x as nat)));
                }
                braced_text(&items)
            },
            ModelParam::Int32Array(a) => {
                let wide = widen_u32(a);
                let items = decimal_texts(&wide, true);
                proof {
                    assert(string_views(items@) =~= a@.map_values(|x: u32| ul_literal(x as nat)));
                }
                braced_text(&items)
            },
            ModelParam::FloatArray(_) => {
                let mut items: Vec<String> = Vec::new();
                let ghost f = |t: Seq<char>| with_decimal_point(t);
                let ghost texts = string_views(float_texts@);
                for i in 0..float_texts.len()
                    invariant
                        forall|t: Seq<char>| #[trigger] f(t) == with_decimal_point(t),
                        texts == string_views(float_texts@),
                        string_views(items@) == texts.take(i as int).map_values(f),
                {
                    let ghost prev = items@;
                    let t = with_decimal_point_text(&float_texts[i]);
                    items.push(t);
                    proof {
                        assert(string_views(items@) =~= string_views(prev).push(t@));
                        assert(texts.take(i + 1) =~= texts.take(i as int).push(texts[i as int]));
                        assert(t@ == f(texts[i as int]));
                        assert(string_views(items@) =~= texts.take(i + 1).map_values(f));
                    }
                }
                proof {
                    assert(texts.take(texts.len() as int) =~= texts);
                }
                braced_text(&items)
            },
        }
    }

    /// Whether both parameters are of the same variant.
    pub fn is_same_type(&self, other: &ModelParam) -> (r: bool)
        ensures
            r == same_variant(*self, *other),
    {
        match (self, other) {
            (ModelParam::Int(_), ModelParam::Int(_)) => true,
            (ModelParam::Float(_), ModelParam::Float(_)) => true,
            (ModelParam::ShortArray(_), ModelParam::ShortArray(_)) => true,
            (ModelParam::IntArray(_), ModelParam::IntArray(_)) => true,
            (ModelParam::Int32Array(_), ModelParam::Int32Array(_)) => true,
            (ModelParam::FloatArray(_), ModelParam::FloatArray(_)) => true,
            _ => false,
        }
    }

    /// Appends the parameter's bytes, `size()` of them, to `target`.
    pub fn write_to(&self, target: &mut Vec<u8>)
        ensures
            final(target)@ == old(target)@ + param_bytes(*self),
            final(target)@.len() == old(target)@.len() + param_size(*self),
    {
        match self {
            ModelParam::Int(v) => write_u64_le(target, *v),
            ModelParam::Float(b) => write_u64_le(target, *b),
            ModelParam::ShortArray(a) => {
                let ghost f = |x: u16| u16_le(x);
                for i in 0..a.len()
                    invariant
                        forall|x: u16| #[trigger] f(x) == u16_le(x),
                        target@ == old(target)@ + a@.take(i as int).map_values(f).flatten(),
                {
                    proof {
                        assert(a@.take(i + 1).map_values(f) =~= a@.take(i as int).map_values(
                            f,
                        ).push(f(a@[i as int])));
                        a@.take(i as int).map_values(f).lemma_flatten_push(f(a@[i as int]));
                    }
                    write_u16_le(target, a[i]);
                    proof {
                        assert(target@ =~= old(target)@ + a@.take(i + 1).map_values(f).flatten());
                    }
                }
                proof {
                    assert(a@.take(a@.len() as int) =~= a@);
                    lemma_flatten_chunks(a@, f, 2);
                }
            },
            ModelParam::IntArray(a) => {
                let ghost f = |x: u64| u64_le(x);
                for i in 0..a.len()
                    invariant
                        forall|x: u64| #[trigger] f(x) == u64_le(x),
                        target@ == old(target)@ + a@.take(i as int).map_values(f).flatten(),
                {
                    proof {
                        assert(a@.take(i + 1).map_values(f) =~= a@.take(i as int).map_values(
                            f,
                        ).push(f(a@[i as int])));
                        a@.take(i as int).map_values(f).lemma_flatten_push(f(a@[i as int]));
                    }
                    write_u64_le(target, a[i]);
                    proof {
                        assert(target@ =~= old(target)@ + a@.take(i + 1).map_values(f).flatten());
                    }
                }
                proof {
                    assert(a@.take(a@.len() as int) =~= a@);
                    lemma_flatten_chunks(a@, f, 8);
                }
            },
            ModelParam::Int32Array(a) => {
                let ghost f = |x: u32| u32_le(x);
                for i in 0..a.len()
                    invariant
                        forall|x: u32| #[trigger] f(x) == u32_le(x),
                        target@ == old(target)@ + a@.take(i as int).map_values(f).flatten(),
                {
                    proof {
                        assert(a@.take(i + 1).map_values(f) =~= a@.take(i as int).map_values(
                            f,
                        ).push(f(a@[i as int])));
                        a@.take(i as int).map_values(f).lemma_flatten_push(f(a@[i as int]));
                    }
                    write_u32_le(target, a[i]);
                    proof {
                        assert(target@ =~= old(target)@ + a@.take(i + 1).map_values(f).flatten());
                    }
                }
                proof {
                    assert(a@.take(a@.len() as int) =~= a@);
                    lemma_flatten_chunks(a@, f, 4);
                }
            },
            ModelParam::FloatArray(a) => {
                let ghost f = |x: u64| u64_le(x);
                for i in 0..a.len()
                    invariant
                        forall|x: u64| #[trigger] f(x) == u64_le(x),
                        target@ == old(target)@ + a@.take(i as int).map_values(f).flatten(),
                {
                    proof {
                        assert(a@.take(i + 1).map_values(f) =~= a@.take(i as int).map_values(
                            f,
                        ).push(f(a@[i as int])));
                        a@.take(i as int).map_values(f).lemma_flatten_push(f(a@[i as int]));
                    }
                    write_u64_le(target, a[i]);
                    proof {
                        assert(target@ =~= old(target)@ + a@.take(i + 1).map_values(f).flatten());
                    }
                }
                proof {
                    assert(a@.take(a@.len() as int) =~= a@);
                    lemma_flatten_chunks(a@, f, 8);
                }
            },
        }
    }

    /// The scalar parameter as a binary64 number (bit pattern): an integer
    /// is cast to binary64.
    pub fn as_float(&self) -> (r: u64)
        requires
            !param_is_array(*self),
        ensures
            *self matches ModelParam::Int(v) ==> r == u64_to_float(v),
            *self matches ModelParam::Float(b) ==> r == b,
    {
        match self {
            ModelParam::Int(v) => u64_to_float_bits(*v),
            ModelParam::Float(b) => *b,
            _ => {
                assert(false);
                0
            },
        }
    }

    /// Number of values the parameter holds.
    pub fn len(&self) -> (r: usize)
        ensures
            r == param_len(*self),
    {
        match self {
            ModelParam::Int(_) => 1,
            ModelParam::Float(_) => 1,
            ModelParam::ShortArray(p) => p.len(),
            ModelParam::IntArray(p) => p.len(),
            ModelParam::Int32Array(p) => p.len(),
            ModelParam::FloatArray(p) => p.len(),
        }
    }
}

/// Value `i` of the parameter (a binary64 value by its bit pattern).
pub open spec fn param_value(p: ModelParam, i: int) -> nat {
    match p {
        ModelParam::Int(v) => v as nat,
        ModelParam::Float(b) => b as nat,
        ModelParam::ShortArray(a) => a@[i] as nat,
        ModelParam::IntArray(a) => a@[i] as nat,
        ModelParam::Int32Array(a) => a@[i] as nat,
        ModelParam::FloatArray(a) => a@[i] as nat,
    }
}

/// The bytes written for a parameter read back: cut into pieces of the
/// value width and each read as a little-endian integer, they give the
/// parameter's values in order, each in full (binary64 values by their bit
/// patterns).
pub proof fn lemma_param_bytes_read_back(p: ModelParam, i: int)
    requires
        0 <= i < param_len(p),
    ensures
        param_bytes(p).len() == param_size(p),
        value_width(p) * i + value_width(p) <= param_bytes(p).len(),
        le_value(
            param_bytes(p).subrange(value_width(p) * i, value_width(p) * i + value_width(p)),
        ) == param_value(p, i),
{
    match p {
        ModelParam::Int(v) => {
            lemma_u64_le_read_back(v);
            assert(u64_le(v).subrange(0, 8) =~= u64_le(v));
        },
        ModelParam::Float(b) => {
            lemma_u64_le_read_back(b);
            assert(u64_le(b).subrange(0, 8) =~= u64_le(b));
        },
        ModelParam::ShortArray(a) => {
            let f = |x: u16| u16_le(x);
            assert forall|x: u16| #[trigger] f(x).len() == 2 by {
                lemma_u16_le_read_back(x);
            }
            lemma_flatten_chunks(a@, f, 2);
            lemma_flatten_chunk_at(a@, f, 2, i);
            lemma_u16_le_read_back(a@[i]);
        },
        ModelParam::IntArray(a) => {
            let f = |x: u64| u64_le(x);
            assert forall|x: u64| #[trigger] f(x).len() == 8 by {
                lemma_u64_le_read_back(x);
            }
            lemma_flatten_chunks(a@, f, 8);
            lemma_flatten_chunk_at(a@, f, 8, i);
            lemma_u64_le_read_back(a@[i]);
        },
        ModelParam::Int32Array(a) => {
            let f = |x: u32| u32_le(x);
            assert forall|x: u32| #[trigger] f(x).len() == 4 by {
                lemma_u32_le_read_back(x);
            }
            lemma_flatten_chunks(a@, f, 4);
            lemma_flatten_chunk_at(a@, f, 4, i);
            lemma_u32_le_read_back(a@[i]);
        },
        ModelParam::FloatArray(a) => {
            let f = |x: u64| u64_le(x);
            assert forall|x: u64| #[trigger] f(x).len() == 8 by {
                lemma_u64_le_read_back(x);
            }
            lemma_flatten_chunks(a@, f, 8);
            lemma_flatten_chunk_at(a@, f, 8, i);
            lemma_u64_le_read_back(a@[i]);
        },
    }
}

/// The C text of value `i` of the parameter, given the texts of its binary64
/// values.
pub open spec fn param_item_text(p: ModelParam, float_texts: Seq<Seq<char>>, i: int) -> Seq<
    char,
> {
    match p {
        ModelParam::Int(v) => ul_literal(v as nat),
        ModelParam::Float(_) => with_decimal_point(float_texts[0]),
        ModelParam::ShortArray(a) => decimal(a@[i] as nat),
        ModelParam::IntArray(a) => ul_literal(a@[i] as nat),
        ModelParam::Int32Array(a) => ul_literal(a@[i] as nat),
        ModelParam::FloatArray(_) => with_decimal_point(float_texts[i]),
    }
}

/// The texts of the parameter's values, in order.
spec fn param_item_texts(p: ModelParam, float_texts: Seq<Seq<char>>) -> Seq<Seq<char>> {
    Seq::new(param_len(p), |i: int| param_item_text(p, float_texts, i))
}

/// The C literal of an array parameter lists every value, in order: an
/// empty array gives `{  }`; otherwise, when the texts of its binary64
/// values hold no comma, the literal holds exactly one comma fewer than the
/// parameter has values, begins with `{ ` and the first value's text, and
/// ends with the last value's text and ` }`.
pub proof fn lemma_c_val_lists_every_value(p: ModelParam, float_texts: Seq<Seq<char>>)
    requires
        param_is_array(p),
        float_texts.len() == float_count(p),
        forall|k: int| 0 <= k < float_texts.len() ==> count_char(#[trigger] float_texts[k], ',') == 0,
    ensures
        param_len(p) == 0 ==> param_c_val(p, float_texts) == seq!['{', ' ', ' ', '}'],
        param_len(p) >= 1 ==> count_char(param_c_val(p, float_texts), ',') == param_len(p) - 1,
        param_len(p) >= 1 ==> param_c_val(p, float_texts).take(
            param_item_text(p, float_texts, 0).len() + 2int,
        ) == seq!['{', ' '] + param_item_text(p, float_texts, 0),
        param_len(p) >= 1 ==> param_c_val(p, float_texts).len() >= param_item_text(
            p,
            float_texts,
            param_len(p) - 1,
        ).len() + 2 && param_c_val(p, float_texts).subrange(
            param_c_val(p, float_texts).len() - param_item_text(p, float_texts, param_len(p) - 1).len()
                - 2,
            param_c_val(p, float_texts).len() as int,
        ) == param_item_text(p, float_texts, param_len(p) - 1) + seq![' ', '}'],
{
    let items = param_item_texts(p, float_texts);
    match p {
        ModelParam::ShortArray(a) => {
            assert(a@.map_values(|x: u16| decimal(x as nat)) =~= items);
        },
        ModelParam::IntArray(a) => {
            assert(a@.map_values(|x: u64| ul_literal(x as nat)) =~= items);
        },
        ModelParam::Int32Array(a) => {
            assert(a@.map_values(|x: u32| ul_literal(x as nat)) =~= items);
        },
        ModelParam::FloatArray(_) => {
            assert(float_texts.map_values(|t: Seq<char>| with_decimal_point(t)) =~= items);
        },
        _ => {},
    }
    assert(param_c_val(p, float_texts) == braced_list(items));
    if param_len(p) == 0 {
        assert(join(items, seq![',', ' ']) =~= Seq::<char>::empty());
        assert(braced_list(items) =~= seq!['{', ' ', ' ', '}']);
    } else {
        assert forall|k: int| 0 <= k < items.len() implies count_char(#[trigger] items[k], ',')
            == 0 by {
            match p {
                ModelParam::ShortArray(a) => lemma_decimal_has_no_comma(a@[k] as nat),
                ModelParam::IntArray(a) => lemma_ul_literal_has_no_comma(a@[k] as nat),
                ModelParam::Int32Array(a) => lemma_ul_literal_has_no_comma(a@[k] as nat),
                ModelParam::FloatArray(_) => lemma_with_decimal_point_adds_no_comma(float_texts[k]),
                _ => {},
            }
        }
        lemma_braced_list_commas(items);
    }
}

/// `size()` counts bytes: the width of one value times the number of values.
pub proof fn lemma_size_is_width_times_len(p: ModelParam)
    ensures
        param_size(p) == value_width(p) * param_len(p),
{
}

/// `is_same_type` is an equivalence: reflexive, symmetric and transitive.
pub proof fn lemma_same_type_is_equivalence(a: ModelParam, b: ModelParam, c: ModelParam)
    ensures
        same_variant(a, a),
        same_variant(a, b) == same_variant(b, a),
        same_variant(a, b) && same_variant(b, c) ==> same_variant(a, c),
{
}

impl From<usize> for ModelParam {
    fn from(i: usize) -> (r: Self) {
        ModelParam::Int(i as u64)
    }
}

impl FromSpecImpl<usize> for ModelParam {
    open spec fn obeys_from_spec() -> bool {
        true
    }

    open spec fn from_spec(i: usize) -> Self {
        ModelParam::Int(i as u64)
    }
}

impl From<u64> for ModelParam {
    fn from(i: u64) -> (r: Self) {
        ModelParam::Int(i)
    }
}

impl FromSpecImpl<u64> for ModelParam {
    open spec fn obeys_from_spec() -> bool {
        true
    }

    open spec fn from_spec(i: u64) -> Self {
        ModelParam::Int(i)
    }
}

impl From<u8> for ModelParam {
    fn from(i: u8) -> (r: Self) {
        ModelParam::Int(i as u64)
    }
}

impl FromSpecImpl<u8> for ModelParam {
    open spec fn obeys_from_spec() -> bool {
        true
    }

    open spec fn from_spec(i: u8) -> Self {
        ModelParam::Int(i as u64)
    }
}

impl From<Vec<u16>> for ModelParam {
    fn from(f: Vec<u16>) -> (r: Self) {
        ModelParam::ShortArray(f)
    }
}

impl FromSpecImpl<Vec<u16>> for ModelParam {
    open spec fn obeys_from_spec() -> bool {
        true
    }

    open spec fn from_spec(f: Vec<u16>) -> Self {
        ModelParam::ShortArray(f)
    }
}

impl From<Vec<u64>> for ModelParam {
    fn from(f: Vec<u64>) -> (r: Self) {
        ModelParam::IntArray(f)
    }
}

impl FromSpecImpl<Vec<u64>> for ModelParam {
    open spec fn obeys_from_spec() -> bool {
        true
    }

    open spec fn from_spec(f: Vec<u64>) -> Self {
        ModelParam::IntArray(f)
    }
}

impl From<Vec<u32>> for ModelParam {
    fn from(f: Vec<u32>) -> (r: Self) {
        ModelParam::Int32Array(f)
    }
}

impl FromSpecImpl<Vec<u32>> for ModelParam {
    open spec fn obeys_from_spec() -> bool {
        true
    }

    open spec fn from_spec(f: Vec<u32>) -> Self {
        ModelParam::Int32Array(f)
    }
}

} // verus!

//! the primitive types of JSON Schema, and whether a document's value has the
//! type a schema asks for
use vstd::prelude::*;
use vstd::arithmetic::div_mod::{lemma_fundamental_div_mod, lemma_fundamental_div_mod_converse};
use vstd::arithmetic::power::{lemma_pow_positive, pow};
use vstd::string::StringSliceAdditionalSpecFns;

use crate::ast::{Document, SpecValue, Value, span_of};
use crate::text::push_str;
use crate::tokens::Span;
use crate::tokens::number::is_digit;
use crate::traverse::{span_ok, spans_ok};

verus! {

/// the types a JSON Schema can ask for
#[derive(Debug, PartialEq, Eq, Clone, Copy, Structural)]
pub enum PrimitiveType {
    Null,
    Boolean,
    String,
    Number,
    Integer,
    Array,
    Object,
}

/// every value of type `a` is one of type `b`: each type of itself, and an
/// integer is a number
pub open spec fn subset_of(a: PrimitiveType, b: PrimitiveType) -> bool {
    (a is Integer && b is Number) || a == b
}

pub open spec fn primitive_name(p: PrimitiveType) -> Seq<char> {
    match p {
        PrimitiveType::Null => "null"@,
        PrimitiveType::Boolean => "boolean"@,
        PrimitiveType::String => "string"@,
        PrimitiveType::Number => "number"@,
        PrimitiveType::Integer => "integer"@,
        PrimitiveType::Array => "array"@,
        PrimitiveType::Object => "object"@,
    }
}

impl PrimitiveType {
    /// whether every value of this type is one of `superset`
    pub fn is_subset(self, superset: PrimitiveType) -> (res: bool)
        ensures
            res == subset_of(self, superset),
    {
        match (self, superset) {
            (PrimitiveType::Integer, PrimitiveType::Number) => true,
            (lhs, rhs) => lhs == rhs,
        }
    }

    /// the name JSON Schema gives the type
    pub fn name(self) -> (res: &'static str)
        ensures
            res@ == primitive_name(self),
    {
        match self {
            PrimitiveType::Null => "null",
            PrimitiveType::Boolean => "boolean",
            PrimitiveType::String => "string",
            PrimitiveType::Number => "number",
            PrimitiveType::Integer => "integer",
            PrimitiveType::Array => "array",
            PrimitiveType::Object => "object",
        }
    }
}

/// a schema that asks for one primitive type
#[derive(Debug, PartialEq, Eq, Clone, Copy, Structural)]
pub enum Schema {
    Bool,
    String,
    Null,
    Object,
    Array,
    Number,
    Integer,
}

pub open spec fn schema_type(s: Schema) -> PrimitiveType {
    match s {
        Schema::Bool => PrimitiveType::Boolean,
        Schema::String => PrimitiveType::String,
        Schema::Null => PrimitiveType::Null,
        Schema::Object => PrimitiveType::Object,
        Schema::Array => PrimitiveType::Array,
        Schema::Number => PrimitiveType::Number,
        Schema::Integer => PrimitiveType::Integer,
    }
}

/// the type `val` asks for
pub fn schema_as_primitive(val: &Schema) -> (res: PrimitiveType)
    ensures
        res == schema_type(*val),
{
    match val {
        Schema::Bool => PrimitiveType::Boolean,
        Schema::String => PrimitiveType::String,
        Schema::Null => PrimitiveType::Null,
        Schema::Object => PrimitiveType::Object,
        Schema::Array => PrimitiveType::Array,
        Schema::Number => PrimitiveType::Number,
        Schema::Integer => PrimitiveType::Integer,
    }
}

/// the zeros that end the digits of the bytes `m` of a mantissa
pub open spec fn trailing_zeros(m: Seq<u8>) -> nat
    decreases m.len(),
{
    if m.len() == 0 {
        0
    } else if m.last() == 0x30 {
        trailing_zeros(m.drop_last()) + 1
    } else if is_digit(m.last()) {
        0
    } else {
        trailing_zeros(m.drop_last())
    }
}

/// the bytes `m` hold a decimal point
pub open spec fn has_point(m: Seq<u8>) -> bool
    decreases m.len(),
{
    m.len() > 0 && (m.last() == 0x2E || has_point(m.drop_last()))
}

/// the digits of the bytes `m` of a mantissa that come after its point
pub open spec fn fraction_len(m: Seq<u8>) -> nat
    decreases m.len(),
{
    if m.len() == 0 {
        0
    } else if has_point(m.drop_last()) && is_digit(m.last()) {
        fraction_len(m.drop_last()) + 1
    } else {
        fraction_len(m.drop_last())
    }
}

/// every digit of the bytes `m` is `0`
pub open spec fn all_zero_digits(m: Seq<u8>) -> bool {
    forall|i: int| 0 <= i < m.len() && is_digit(#[trigger] m[i]) ==> m[i] == 0x30
}

/// the number that the decimal digits `ds` write
pub open spec fn dec_value(ds: Seq<u8>) -> nat
    decreases ds.len(),
{
    if ds.len() == 0 {
        0
    } else {
        dec_value(ds.drop_last()) * 10 + if is_digit(ds.last()) {
            (ds.last() - 0x30) as nat
        } else {
            0
        }
    }
}

/// the value of the bytes of an exponent after its `e`, a `-` and digits or
/// digits alone; none is 0
pub open spec fn exponent_value(x: Option<Seq<u8>>) -> int {
    match x {
        None => 0,
        Some(b) => if b.len() > 0 && b[0] == 0x2D {
            -(dec_value(b.drop_first()) as int)
        } else {
            dec_value(b) as int
        },
    }
}

/// a number with mantissa bytes `m` and exponent bytes `x` has no fractional
/// part: it is zero, or its digits, scaled by the exponent, leave no digit
/// but zeros after the point
pub open spec fn integral_number(m: Seq<u8>, x: Option<Seq<u8>>) -> bool {
    all_zero_digits(m) || exponent_value(x) >= fraction_len(m) - trailing_zeros(m)
}

/// the bytes of the exponent `e` of a number of the text with bytes `t`
pub open spec fn exponent_bytes(t: Seq<u8>, e: Option<Span>) -> Option<Seq<u8>> {
    match e {
        Some(x) => Some(t.subrange(x.start as int, x.end as int)),
        None => None,
    }
}

/// the type of `v`, a value of the text with bytes `t`; a number is an
/// integer when its fractional part is zero
pub open spec fn value_type(v: SpecValue, t: Seq<u8>) -> PrimitiveType {
    match v {
        SpecValue::Null(_) => PrimitiveType::Null,
        SpecValue::Bool(_, _) => PrimitiveType::Boolean,
        SpecValue::Str(_) => PrimitiveType::String,
        SpecValue::Number(m, e) => if integral_number(
            t.subrange(m.start as int, m.end as int),
            exponent_bytes(t, e),
        ) {
            PrimitiveType::Integer
        } else {
            PrimitiveType::Number
        },
        SpecValue::Array(_, _) => PrimitiveType::Array,
        SpecValue::Object(_, _) => PrimitiveType::Object,
    }
}

/// what the digits of the mantissa `t[m]` are made of: whether all are zero,
/// how many come after the point, and how many zeros end them
fn mantissa_shape(t: &[u8], m: Span) -> (res: (bool, usize, usize))
    requires
        m.start <= m.end <= t@.len(),
    ensures
        res.0 == all_zero_digits(t@.subrange(m.start as int, m.end as int)),
        res.1 == fraction_len(t@.subrange(m.start as int, m.end as int)),
        res.2 == trailing_zeros(t@.subrange(m.start as int, m.end as int)),
{
    let mut zero = true;
    let mut point = false;
    let mut frac: usize = 0;
    let mut tz: usize = 0;
    let mut i: usize = m.start;
    proof {
        assert(t@.subrange(m.start as int, m.start as int) =~= Seq::<u8>::empty());
    }
    while i < m.end
        invariant
            m.start <= i <= m.end <= t@.len(),
            zero == all_zero_digits(t@.subrange(m.start as int, i as int)),
            point == has_point(t@.subrange(m.start as int, i as int)),
            frac == fraction_len(t@.subrange(m.start as int, i as int)),
            tz == trailing_zeros(t@.subrange(m.start as int, i as int)),
            frac <= i - m.start,
            tz <= i - m.start,
        decreases m.end - i,
    {
        let ghost p = t@.subrange(m.start as int, i as int);
        let ghost q = t@.subrange(m.start as int, i + 1);
        proof {
            assert(q.drop_last() =~= p);
            assert(q.last() == t@[i as int]);
        }
        let b = t[i];
        if 0x30 <= b && b <= 0x39 {
            if point {
                frac = frac + 1;
            }
            if b == 0x30 {
                tz = tz + 1;
            } else {
                tz = 0;
                zero = false;
                proof {
                    assert(is_digit(q[q.len() - 1]));
                }
            }
        }
        if b == 0x2E {
            point = true;
        }
        proof {
            assert(zero == all_zero_digits(q)) by {
                if zero {
                    assert forall|k: int| 0 <= k < q.len() && is_digit(#[trigger] q[k]) implies q[k]
                        == 0x30 by {
                        if k < p.len() {
                            assert(q[k] == p[k]);
                        }
                    }
                } else if all_zero_digits(p) {
                    assert(is_digit(q[q.len() - 1]));
                } else {
                    let k = choose|k: int| 0 <= k < p.len() && is_digit(#[trigger] p[k]) && p[k] != 0x30;
                    assert(q[k] == p[k]);
                }
            }
        }
        i = i + 1;
    }
    (zero, frac, tz)
}

/// the value of the exponent bytes `t[x]`, or `usize::MAX + 1` when it is
/// more, with whether it is negative
fn exponent_magnitude(t: &[u8], x: Span) -> (res: (bool, u128))
    requires
        x.start <= x.end <= t@.len(),
    ensures
        ({
            let b = t@.subrange(x.start as int, x.end as int);
            let neg = b.len() > 0 && b[0] == 0x2D;
            let ds = if neg {
                b.drop_first()
            } else {
                b
            };
            &&& res.0 == neg
            &&& res.1 == if dec_value(ds) <= usize::MAX as nat + 1 {
                dec_value(ds)
            } else {
                usize::MAX as nat + 1
            }
        }),
{
    let ghost b = t@.subrange(x.start as int, x.end as int);
    let neg = x.start < x.end && t[x.start] == 0x2D;
    let start = if neg {
        x.start + 1
    } else {
        x.start
    };
    let ghost ds = if neg {
        b.drop_first()
    } else {
        b
    };
    proof {
        assert(ds =~= t@.subrange(start as int, x.end as int));
        assert(t@.subrange(start as int, start as int) =~= Seq::<u8>::empty());
    }
    let lim: u128 = 0x1_0000_0000_0000_0000u128;
    proof {
        assert(lim >= usize::MAX as nat + 1);
    }
    let cap: u128 = (usize::MAX as u128) + 1;
    let mut v: u128 = 0;
    let mut i: usize = start;
    while i < x.end
        invariant
            start <= i <= x.end <= t@.len(),
            ds == t@.subrange(start as int, x.end as int),
            cap == usize::MAX as nat + 1,
            cap <= 0x1_0000_0000_0000_0000,
            v == if dec_value(t@.subrange(start as int, i as int)) <= cap {
                dec_value(t@.subrange(start as int, i as int))
            } else {
                cap as nat
            },
        decreases x.end - i,
    {
        let ghost p = t@.subrange(start as int, i as int);
        let ghost q = t@.subrange(start as int, i + 1);
        proof {
            assert(q.drop_last() =~= p);
            assert(q.last() == t@[i as int]);
        }
        let d: u128 = t[i] as u128;
        let w: u128 = if 0x30 <= d && d <= 0x39 {
            d - 0x30
        } else {
            0
        };
        let ghost dv = dec_value(p);
        let ghost dq = dec_value(q);
        proof {
            if dv <= cap {
                assert(v == dv);
            } else {
                assert(dv * 10 >= dv) by (nonlinear_arith)
                    requires
                        dv >= 0,
                ;
            }
        }
        let nv = v * 10 + w;
        v = if nv > cap {
            cap
        } else {
            nv
        };
        proof {
            if dv <= cap {
                assert(nv == dq);
            } else {
                assert(dq >= dv);
            }
        }
        i = i + 1;
    }
    proof {
        assert(t@.subrange(start as int, x.end as int) == ds);
    }
    (neg, v)
}

/// whether the number with mantissa `t[m]` and exponent `t[e]` has no
/// fractional part
fn number_is_integral(t: &[u8], m: Span, e: Option<Span>) -> (res: bool)
    requires
        m.start <= m.end <= t@.len(),
        e matches Some(x) ==> x.start <= x.end <= t@.len(),
    ensures
        res == integral_number(t@.subrange(m.start as int, m.end as int), exponent_bytes(t@, e)),
{
    let (zero, frac, tz) = mantissa_shape(t, m);
    if zero {
        return true;
    }
    match e {
        None => frac <= tz,
        Some(x) => {
            let (neg, v) = exponent_magnitude(t, x);
            if neg {
                tz >= frac && v <= (tz - frac) as u128
            } else {
                frac <= tz || v >= (frac - tz) as u128
            }
        },
    }
}

/// the type of `value`, a value of `doc`
pub fn value_as_primitive(value: &Value, doc: &Document) -> (res: PrimitiveType)
    requires
        spans_ok(value@, doc.spec_source().spec_bytes()),
    ensures
        res == value_type(value@, doc.spec_source().spec_bytes()),
{
    match value {
        Value::Null(_) => PrimitiveType::Null,
        Value::Boolean(_, _) => PrimitiveType::Boolean,
        Value::String(_) => PrimitiveType::String,
        Value::Number { mantissa, exponent } => {
            if number_is_integral(doc.source().as_bytes(), *mantissa, *exponent) {
                PrimitiveType::Integer
            } else {
                PrimitiveType::Number
            }
        },
        Value::Array(_, _) => PrimitiveType::Array,
        Value::Object(_, _) => PrimitiveType::Object,
    }
}

/// a value whose type is not the one asked for
#[derive(Debug, PartialEq, Eq, Clone, Copy)]
pub enum Error {
    MismatchedTypes { range: Span, expected: PrimitiveType, actual: PrimitiveType },
}

pub open spec fn schema_message(e: Error) -> Seq<char> {
    match e {
        Error::MismatchedTypes { expected, actual, .. } => "mismatched types. expected "@
            + primitive_name(expected) + " but found "@ + primitive_name(actual),
    }
}

impl Error {
    /// the bytes of the value that did not match
    pub fn range(&self) -> (res: &Span)
        ensures
            match self {
                Error::MismatchedTypes { range, .. } => *res == *range,
            },
    {
        match self {
            Error::MismatchedTypes { range, .. } => range,
        }
    }

    /// what went wrong, in words
    pub fn message(&self) -> (res: String)
        ensures
            res@ == schema_message(*self),
    {
        match self {
            Error::MismatchedTypes { expected, actual, .. } => {
                let mut s = String::new();
                push_str(&mut s, "mismatched types. expected ");
                push_str(&mut s, expected.name());
                push_str(&mut s, " but found ");
                push_str(&mut s, actual.name());
                s
            },
        }
    }
}

/// whether the value of `doc` has the type `schema` asks for
pub fn validate(doc: &Document, schema: &Schema) -> (res: Result<(), Error>)
    requires
        doc.wf(),
    ensures
        ({
            let actual = value_type(doc.spec_root(), doc.spec_source().spec_bytes());
            let expected = schema_type(*schema);
            if subset_of(actual, expected) {
                res is Ok
            } else {
                res == Err::<(), Error>(
                    Error::MismatchedTypes { range: span_of(doc.spec_root()), expected, actual },
                )
            }
        }),
{
    proof {
        doc.lemma_wf();
    }
    let actual = value_as_primitive(doc.root(), doc);
    let expected = schema_as_primitive(schema);
    if !actual.is_subset(expected) {
        let range = doc.root().range();
        Err(Error::MismatchedTypes { range, expected, actual })
    } else {
        Ok(())
    }
}

/// Every type is a subset of itself and an integer is a number; no other type
/// is a subset of another, so a number with a fraction is no integer.
pub proof fn lemma_subset_order(a: PrimitiveType, b: PrimitiveType)
    ensures
        subset_of(a, a),
        subset_of(PrimitiveType::Integer, PrimitiveType::Number),
        !subset_of(PrimitiveType::Number, PrimitiveType::Integer),
        subset_of(a, b) && a != b ==> a == PrimitiveType::Integer && b == PrimitiveType::Number,
{
}


/// every digit of the bytes `m` of a mantissa that comes after its decimal
/// point is `0`
pub open spec fn fraction_digits_zero(m: Seq<u8>) -> bool {
    forall|i: int|
        0 <= i < m.len() && has_point(m.subrange(0, i)) && is_digit(#[trigger] m[i]) ==> m[i] == 0x30
}

proof fn lemma_has_point_prefix(m: Seq<u8>, i: int)
    requires
        0 <= i <= m.len(),
        has_point(m.subrange(0, i)),
    ensures
        has_point(m),
    decreases m.len(),
{
    if i == m.len() {
        assert(m.subrange(0, i) =~= m);
    } else {
        assert(m.subrange(0, i) =~= m.drop_last().subrange(0, i));
        lemma_has_point_prefix(m.drop_last(), i);
    }
}

proof fn lemma_no_point_no_fraction(m: Seq<u8>)
    requires
        !has_point(m),
    ensures
        fraction_len(m) == 0,
        fraction_digits_zero(m),
    decreases m.len(),
{
    if m.len() > 0 {
        lemma_no_point_no_fraction(m.drop_last());
    }
    assert forall|i: int|
        0 <= i < m.len() && has_point(m.subrange(0, i)) && is_digit(#[trigger] m[i]) implies m[i]
        == 0x30 by {
        lemma_has_point_prefix(m, i);
    }
}

proof fn lemma_fraction_zeros(m: Seq<u8>)
    ensures
        (trailing_zeros(m) >= fraction_len(m)) <==> fraction_digits_zero(m),
    decreases m.len(),
{
    if m.len() > 0 {
        let p = m.drop_last();
        let c = m.last();
        let n = m.len() as int;
        lemma_fraction_zeros(p);
        assert(m.subrange(0, n - 1) =~= p);
        assert(fraction_digits_zero(m) <==> (fraction_digits_zero(p) && (has_point(p) && is_digit(c)
            ==> c == 0x30))) by {
            if fraction_digits_zero(m) {
                assert forall|i: int|
                    0 <= i < p.len() && has_point(p.subrange(0, i)) && is_digit(#[trigger] p[i]) implies p[i]
                    == 0x30 by {
                    assert(m.subrange(0, i) =~= p.subrange(0, i));
                    assert(m[i] == p[i]);
                }
                if has_point(p) && is_digit(c) {
                    assert(m[n - 1] == c);
                }
            }
            if fraction_digits_zero(p) && (has_point(p) && is_digit(c) ==> c == 0x30) {
                assert forall|i: int|
                    0 <= i < m.len() && has_point(m.subrange(0, i)) && is_digit(#[trigger] m[i]) implies m[i]
                    == 0x30 by {
                    if i < n - 1 {
                        assert(m.subrange(0, i) =~= p.subrange(0, i));
                        assert(m[i] == p[i]);
                    }
                }
            }
        }
        if !has_point(p) {
            lemma_no_point_no_fraction(p);
        }
    }
}

/// Without an exponent, a number is an integer exactly when every digit after
/// its decimal point is `0`: `2.50` is a number, `100.00` an integer.
pub proof fn lemma_integer_without_exponent(m: Seq<u8>)
    ensures
        integral_number(m, None) <==> fraction_digits_zero(m),
{
    lemma_fraction_zeros(m);
    if all_zero_digits(m) {
        assert forall|i: int|
            0 <= i < m.len() && has_point(m.subrange(0, i)) && is_digit(#[trigger] m[i]) implies m[i]
            == 0x30 by {
        }
    }
}

/// A number value of a text that has no exponent has the type `integer`
/// exactly when every digit after its decimal point is `0`, and `number`
/// otherwise.
pub proof fn lemma_number_type_without_exponent(m: Span, t: Seq<u8>)
    ensures
        value_type(SpecValue::Number(m, None), t) == if fraction_digits_zero(
            t.subrange(m.start as int, m.end as int),
        ) {
            PrimitiveType::Integer
        } else {
            PrimitiveType::Number
        },
{
    lemma_integer_without_exponent(t.subrange(m.start as int, m.end as int));
}


/// the number that the digits of the bytes `m` write, its point left out
pub open spec fn digits_value(m: Seq<u8>) -> nat
    decreases m.len(),
{
    if m.len() == 0 {
        0
    } else if is_digit(m.last()) {
        digits_value(m.drop_last()) * 10 + (m.last() - 0x30) as nat
    } else {
        digits_value(m.drop_last())
    }
}

/// the number with mantissa bytes `m` and exponent bytes `x` is whole: it is
/// the integer its digits write, times ten to the exponent less the number of
/// digits after its point, and that leaves no fraction
pub open spec fn whole_value(m: Seq<u8>, x: Option<Seq<u8>>) -> bool {
    let k = fraction_len(m) - exponent_value(x);
    k <= 0 || (digits_value(m) as int) % pow(10, k as nat) == 0
}

proof fn lemma_mod_scaled(a: int, b: int)
    requires
        a >= 0,
        b > 0,
    ensures
        (10 * a) % (10 * b) == 10 * (a % b),
{
    lemma_fundamental_div_mod(a, b);
    let q = a / b;
    let r = a % b;
    assert(0 <= r < b);
    assert(10 * a == q * (10 * b) + 10 * r) by (nonlinear_arith)
        requires
            a == b * q + r,
    ;
    lemma_fundamental_div_mod_converse(10 * a, 10 * b, q, 10 * r);
}

proof fn lemma_mod_digit(a: int, b: int, d: int)
    requires
        a >= 0,
        b > 0,
        1 <= d <= 9,
    ensures
        (10 * a + d) % (10 * b) != 0,
{
    let n = 10 * a + d;
    lemma_fundamental_div_mod(n, 10 * b);
    let q = n / (10 * b);
    if n % (10 * b) == 0 {
        let y = b * q;
        assert((10 * b) * q == 10 * y) by (nonlinear_arith)
            requires
                y == b * q,
        ;
        assert(false);
    }
}

proof fn lemma_digits_value_zero(m: Seq<u8>)
    ensures
        digits_value(m) == 0 <==> all_zero_digits(m),
    decreases m.len(),
{
    if m.len() > 0 {
        let p = m.drop_last();
        lemma_digits_value_zero(p);
        assert(all_zero_digits(m) <==> (all_zero_digits(p) && (is_digit(m.last()) ==> m.last()
            == 0x30))) by {
            if all_zero_digits(m) {
                assert forall|i: int| 0 <= i < p.len() && is_digit(#[trigger] p[i]) implies p[i]
                    == 0x30 by {
                    assert(m[i] == p[i]);
                }
                assert(m[m.len() - 1] == m.last());
            }
            if all_zero_digits(p) && (is_digit(m.last()) ==> m.last() == 0x30) {
                assert forall|i: int| 0 <= i < m.len() && is_digit(#[trigger] m[i]) implies m[i]
                    == 0x30 by {
                    if i < p.len() {
                        assert(m[i] == p[i]);
                    }
                }
            }
        }
    }
}

/// ten to the `k` divides the digits' value exactly when it is zero or its
/// digits end in at least `k` zeros
proof fn lemma_digits_divisible(m: Seq<u8>, k: nat)
    ensures
        (digits_value(m) as int) % pow(10, k) == 0 <==> (digits_value(m) == 0 || trailing_zeros(m) >= k),
    decreases m.len(),
{
    lemma_pow_positive(10, k);
    reveal(pow);
    if k == 0 {
        assert(pow(10, 0) == 1);
        assert((digits_value(m) as int) % 1 == 0);
    } else if m.len() == 0 {
        assert((0int) % pow(10, k) == 0);
    } else {
        let p = m.drop_last();
        let c = m.last();
        let a = digits_value(p) as int;
        let b = pow(10, (k - 1) as nat);
        lemma_pow_positive(10, (k - 1) as nat);
        assert(pow(10, k) == 10 * b);
        if c == 0x30 {
            lemma_digits_divisible(p, (k - 1) as nat);
            lemma_mod_scaled(a, b);
            assert(digits_value(m) == 10 * a);
        } else if is_digit(c) {
            lemma_mod_digit(a, b, (c - 0x30) as int);
            assert(digits_value(m) == 10 * a + (c - 0x30));
        } else {
            lemma_digits_divisible(p, k);
        }
    }
}

/// A number is an integer exactly when its value is whole: when the integer
/// its digits write, scaled by ten to its exponent less the number of digits
/// after its point, has no fraction. `1e-5` and `2.50` are numbers, `1.000e3`
/// and `120e-1` integers.
pub proof fn lemma_integer_iff_whole(m: Seq<u8>, x: Option<Seq<u8>>)
    ensures
        integral_number(m, x) <==> whole_value(m, x),
{
    lemma_digits_value_zero(m);
    let k = fraction_len(m) - exponent_value(x);
    if k > 0 {
        lemma_digits_divisible(m, k as nat);
    }
}


/// A number value of a text has the type `integer` exactly when its value is
/// whole, and `number` otherwise.
pub proof fn lemma_number_type_is_whole(m: Span, e: Option<Span>, t: Seq<u8>)
    ensures
        value_type(SpecValue::Number(m, e), t) == if whole_value(
            t.subrange(m.start as int, m.end as int),
            exponent_bytes(t, e),
        ) {
            PrimitiveType::Integer
        } else {
            PrimitiveType::Number
        },
{
    lemma_integer_iff_whole(t.subrange(m.start as int, m.end as int), exponent_bytes(t, e));
}

} // verus!

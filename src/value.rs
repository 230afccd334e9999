//! Scalar values: exact decimal numbers, byte strings, booleans, `none` and
//! property paths, with their equality and order.

use vstd::prelude::*;

verus! {

/// ASCII decimal digit.
pub open spec fn is_digit(b: u8) -> bool {
    48 <= b && b <= 57
}

/// Lexicographic strict order on byte sequences (a proper prefix is smaller).
pub open spec fn lex_lt(a: Seq<u8>, b: Seq<u8>) -> bool
    decreases a.len(),
{
    if b.len() == 0 {
        false
    } else if a.len() == 0 {
        true
    } else if a[0] != b[0] {
        a[0] < b[0]
    } else {
        lex_lt(a.drop_first(), b.drop_first())
    }
}

/// Mathematical model of a decimal number in normalized scientific form:
/// the value is `±0.d1 d2 ... dn × 10^exponent`, digits stored as ASCII.
pub ghost struct NumberModel {
    pub negative: bool,
    pub digits: Seq<u8>,
    pub exponent: int,
}

impl NumberModel {
    /// Normal form: digits only, no leading or trailing zero digit, and zero
    /// is the empty digit string with no sign and exponent 0.
    pub open spec fn wf(self) -> bool {
        &&& forall|i: int| 0 <= i < self.digits.len() ==> is_digit(#[trigger] self.digits[i])
        &&& self.digits.len() == 0 ==> !self.negative && self.exponent == 0
        &&& self.digits.len() > 0 ==> self.digits[0] != 48u8 && self.digits.last() != 48u8
    }

    pub open spec fn is_zero(self) -> bool {
        self.digits.len() == 0
    }
}

/// Order on magnitudes of normalized numbers.
pub open spec fn magnitude_lt(a: NumberModel, b: NumberModel) -> bool {
    if b.is_zero() {
        false
    } else if a.is_zero() {
        true
    } else if a.exponent != b.exponent {
        a.exponent < b.exponent
    } else {
        lex_lt(a.digits, b.digits)
    }
}

/// Strict numeric order on normalized numbers.
pub open spec fn number_lt(a: NumberModel, b: NumberModel) -> bool {
    if a.negative && !b.negative {
        true
    } else if !a.negative && b.negative {
        false
    } else if a.negative {
        magnitude_lt(b, a)
    } else {
        magnitude_lt(a, b)
    }
}

/// A decimal number, kept exactly in normalized scientific form
/// (`±0.d1 d2 ... dn × 10^exponent`). Numbers are built only by reading a
/// literal (`parse_number`, `parse`), which puts them in normal form
/// (`law_parsed_numbers_are_normal`); so two numbers are equal exactly when
/// their fields are equal, and the fields are read through methods.
#[derive(Debug)]
pub struct Number {
    pub(crate) negative: bool,
    pub(crate) digits: Vec<u8>,
    pub(crate) exponent: i128,
}

impl View for Number {
    type V = NumberModel;

    open(crate) spec fn view(&self) -> NumberModel {
        NumberModel { negative: self.negative, digits: self.digits@, exponent: self.exponent as int }
    }
}

impl Number {
    /// The number is below zero.
    pub fn is_negative(&self) -> (r: bool)
        ensures
            r == self@.negative,
    {
        self.negative
    }

    /// The significant digits, as ASCII, without leading or trailing zeros.
    pub fn digits(&self) -> (r: &Vec<u8>)
        ensures
            r@ == self@.digits,
    {
        &self.digits
    }

    /// The power of ten that `0.digits` is scaled by.
    pub fn exponent(&self) -> (r: i128)
        ensures
            r == self@.exponent,
    {
        self.exponent
    }
}

impl Clone for Number {
    fn clone(&self) -> (r: Number)
        ensures
            r@ == self@,
    {
        Number { negative: self.negative, digits: self.digits.clone(), exponent: self.exponent }
    }
}

/// Model of a scalar value.
pub ghost enum Scalar {
    Number(NumberModel),
    Str(Seq<u8>),
    Bool(bool),
    Absent,
    Path(Seq<Seq<u8>>),
}

/// A scalar value of the language. A property path (`foo.bar` is
/// `[b"foo", b"bar"]`) refers to a context entry; strings are UTF-8 bytes.
#[derive(Debug)]
pub enum SimpleValue {
    Number(Number),
    Str(Vec<u8>),
    Bool(bool),
    Absent,
    PropertyPath(Vec<Vec<u8>>),
}

pub open spec fn path_view(p: Seq<Vec<u8>>) -> Seq<Seq<u8>> {
    p.map_values(|s: Vec<u8>| s@)
}

impl View for SimpleValue {
    type V = Scalar;

    open spec fn view(&self) -> Scalar {
        match self {
            SimpleValue::Number(n) => Scalar::Number(n@),
            SimpleValue::Str(s) => Scalar::Str(s@),
            SimpleValue::Bool(b) => Scalar::Bool(*b),
            SimpleValue::Absent => Scalar::Absent,
            SimpleValue::PropertyPath(p) => Scalar::Path(path_view(p@)),
        }
    }
}

/// Equality of scalars: same variant and same value. Values of different
/// variants are unequal, and a property path equals nothing.
pub open spec fn scalar_eq(a: Scalar, b: Scalar) -> bool {
    match (a, b) {
        (Scalar::Number(x), Scalar::Number(y)) => x == y,
        (Scalar::Str(x), Scalar::Str(y)) => x == y,
        (Scalar::Bool(x), Scalar::Bool(y)) => x == y,
        (Scalar::Absent, Scalar::Absent) => true,
        _ => false,
    }
}

/// Strict order of scalars, defined only within one variant: numbers by
/// value, strings by bytes, `false < true`. Across variants nothing is less.
pub open spec fn scalar_lt(a: Scalar, b: Scalar) -> bool {
    match (a, b) {
        (Scalar::Number(x), Scalar::Number(y)) => number_lt(x, y),
        (Scalar::Str(x), Scalar::Str(y)) => lex_lt(x, y),
        (Scalar::Bool(x), Scalar::Bool(y)) => !x && y,
        _ => false,
    }
}

impl Clone for SimpleValue {
    fn clone(&self) -> (r: SimpleValue)
        ensures
            r@ == self@,
    {
        match self {
            SimpleValue::Number(n) => SimpleValue::Number(n.clone()),
            SimpleValue::Str(s) => SimpleValue::Str(s.clone()),
            SimpleValue::Bool(b) => SimpleValue::Bool(*b),
            SimpleValue::Absent => SimpleValue::Absent,
            SimpleValue::PropertyPath(p) => SimpleValue::PropertyPath(clone_path(p)),
        }
    }
}

/// A copy of a path.
pub fn clone_path(p: &Vec<Vec<u8>>) -> (r: Vec<Vec<u8>>)
    ensures
        path_view(r@) == path_view(p@),
{
    let mut q: Vec<Vec<u8>> = Vec::new();
    let mut i: usize = 0;
    while i < p.len()
        invariant
            i <= p.len(),
            path_view(q@) =~= path_view(p@.subrange(0, i as int)),
        decreases p.len() - i,
    {
        q.push(p[i].clone());
        assert(path_view(p@.subrange(0, i + 1)) =~= path_view(p@.subrange(0, i as int)).push(
            p@[i as int]@,
        ));
        i = i + 1;
    }
    assert(p@.subrange(0, p.len() as int) =~= p@);
    q
}

/// Byte-wise equality.
pub fn bytes_equal(a: &Vec<u8>, b: &Vec<u8>) -> (r: bool)
    ensures
        r == (a@ == b@),
{
    if a.len() != b.len() {
        return false;
    }
    let mut i: usize = 0;
    while i < a.len()
        invariant
            i <= a.len(),
            a.len() == b.len(),
            a@.subrange(0, i as int) =~= b@.subrange(0, i as int),
        decreases a.len() - i,
    {
        if a[i] != b[i] {
            assert(a@[i as int] != b@[i as int]);
            return false;
        }
        assert(a@.subrange(0, i + 1) =~= a@.subrange(0, i as int).push(a@[i as int]));
        assert(b@.subrange(0, i + 1) =~= b@.subrange(0, i as int).push(b@[i as int]));
        i = i + 1;
    }
    assert(a@ =~= a@.subrange(0, i as int));
    assert(b@ =~= b@.subrange(0, i as int));
    true
}

/// Byte-wise lexicographic order.
pub fn bytes_less(a: &Vec<u8>, b: &Vec<u8>) -> (r: bool)
    ensures
        r == lex_lt(a@, b@),
{
    let mut i: usize = 0;
    assert(a@.skip(0) =~= a@);
    assert(b@.skip(0) =~= b@);
    while i < a.len() && i < b.len()
        invariant
            i <= a.len(),
            i <= b.len(),
            lex_lt(a@, b@) == lex_lt(a@.skip(i as int), b@.skip(i as int)),
        decreases a.len() - i,
    {
        if a[i] != b[i] {
            return a[i] < b[i];
        }
        assert(a@.skip(i as int).drop_first() =~= a@.skip(i + 1));
        assert(b@.skip(i as int).drop_first() =~= b@.skip(i + 1));
        i = i + 1;
    }
    i < b.len()
}

/// Equality of two path segment lists.
pub fn paths_equal(a: &Vec<Vec<u8>>, b: &Vec<Vec<u8>>) -> (r: bool)
    ensures
        r == (path_view(a@) == path_view(b@)),
{
    if a.len() != b.len() {
        assert(path_view(a@).len() != path_view(b@).len());
        return false;
    }
    let mut i: usize = 0;
    while i < a.len()
        invariant
            i <= a.len(),
            a.len() == b.len(),
            forall|j: int| 0 <= j < i ==> a@[j]@ == b@[j]@,
        decreases a.len() - i,
    {
        if !bytes_equal(&a[i], &b[i]) {
            assert(path_view(a@)[i as int] != path_view(b@)[i as int]);
            return false;
        }
        i = i + 1;
    }
    assert(path_view(a@) =~= path_view(b@));
    true
}

fn numbers_equal(a: &Number, b: &Number) -> (r: bool)
    ensures
        r == (a@ == b@),
{
    a.negative == b.negative && a.exponent == b.exponent && bytes_equal(&a.digits, &b.digits)
}

fn magnitude_less(a: &Number, b: &Number) -> (r: bool)
    ensures
        r == magnitude_lt(a@, b@),
{
    if b.digits.len() == 0 {
        false
    } else if a.digits.len() == 0 {
        true
    } else if a.exponent != b.exponent {
        a.exponent < b.exponent
    } else {
        bytes_less(&a.digits, &b.digits)
    }
}

/// Strict numeric order.
pub fn number_less(a: &Number, b: &Number) -> (r: bool)
    ensures
        r == number_lt(a@, b@),
{
    if a.negative && !b.negative {
        true
    } else if !a.negative && b.negative {
        false
    } else if a.negative {
        magnitude_less(b, a)
    } else {
        magnitude_less(a, b)
    }
}

/// Scalar equality (see `scalar_eq`); never fails.
pub fn values_equal(a: &SimpleValue, b: &SimpleValue) -> (r: bool)
    ensures
        r == scalar_eq(a@, b@),
{
    match (a, b) {
        (SimpleValue::Number(x), SimpleValue::Number(y)) => numbers_equal(x, y),
        (SimpleValue::Str(x), SimpleValue::Str(y)) => bytes_equal(x, y),
        (SimpleValue::Bool(x), SimpleValue::Bool(y)) => *x == *y,
        (SimpleValue::Absent, SimpleValue::Absent) => true,
        _ => false,
    }
}

/// Scalar strict order (see `scalar_lt`); incomparable values give `false`.
pub fn value_less(a: &SimpleValue, b: &SimpleValue) -> (r: bool)
    ensures
        r == scalar_lt(a@, b@),
{
    match (a, b) {
        (SimpleValue::Number(x), SimpleValue::Number(y)) => number_less(x, y),
        (SimpleValue::Str(x), SimpleValue::Str(y)) => bytes_less(x, y),
        (SimpleValue::Bool(x), SimpleValue::Bool(y)) => !*x && *y,
        _ => false,
    }
}

} // verus!

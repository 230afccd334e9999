//! The grammar, stated over bytes, and the recursive-descent parser proved
//! to follow it.

use vstd::prelude::*;
use vstd::string::StringSliceAdditionalSpecFns;

use crate::tree::{
    group_view, AndOr, BinOp, BooleanCondition, BooleanExpression, Condition, Expression, Operand,
    PropertyVal,
};
use crate::value::{is_digit, path_view, Number, NumberModel, Scalar, SimpleValue};

verus! {

/// Bound on the size of exponents: an exponent literal above it is read as
/// it, and a number's exponent is clamped to `-EXPONENT_CAP ..= EXPONENT_CAP`.
/// Numbers that large or small are far outside any practical range.
pub const EXPONENT_CAP: u64 = 1_000_000_000_000_000;

pub open spec fn is_space(c: u8) -> bool {
    c == 32 || c == 9 || c == 13 || c == 10
}

/// A byte of a path segment: `A-Z`, `a-z` or `_`.
pub open spec fn is_letter(c: u8) -> bool {
    (65 <= c && c <= 90) || (97 <= c && c <= 122) || c == 95
}

/// End of the run of whitespace that starts at `p`.
pub open spec fn skip_spaces(s: Seq<u8>, p: int) -> int
    decreases s.len() - p,
{
    if 0 <= p < s.len() && is_space(s[p]) {
        skip_spaces(s, p + 1)
    } else {
        p
    }
}

/// End of the run of letters that starts at `p`.
pub open spec fn skip_letters(s: Seq<u8>, p: int) -> int
    decreases s.len() - p,
{
    if 0 <= p < s.len() && is_letter(s[p]) {
        skip_letters(s, p + 1)
    } else {
        p
    }
}

/// End of the run of digits that starts at `p`.
pub open spec fn skip_digits(s: Seq<u8>, p: int) -> int
    decreases s.len() - p,
{
    if 0 <= p < s.len() && is_digit(s[p]) {
        skip_digits(s, p + 1)
    } else {
        p
    }
}

/// End of the run of bytes other than `"` that starts at `p`.
pub open spec fn skip_to_quote(s: Seq<u8>, p: int) -> int
    decreases s.len() - p,
{
    if 0 <= p < s.len() && s[p] != 34 {
        skip_to_quote(s, p + 1)
    } else {
        p
    }
}

/// `lit` stands in `s` at `p`.
pub open spec fn lit_at(s: Seq<u8>, p: int, lit: Seq<u8>) -> bool {
    0 <= p && p + lit.len() <= s.len() && s.subrange(p, p + lit.len()) == lit
}

/// Upper-case form of an ASCII lower-case letter.
pub open spec fn upper(c: u8) -> u8 {
    if 97 <= c && c <= 122 {
        (c - 32) as u8
    } else {
        c
    }
}

/// The lower-case word `lit` stands at `p`, each letter in either case.
pub open spec fn word_at(s: Seq<u8>, p: int, lit: Seq<u8>) -> bool {
    &&& 0 <= p && p + lit.len() <= s.len()
    &&& forall|i: int| 0 <= i < lit.len() ==> (#[trigger] s[p + i] == lit[i] || s[p + i] == upper(lit[i]))
}

/// A path would go on at `q`: a letter, or `.` and a letter, stands there.
pub open spec fn path_goes_on(s: Seq<u8>, q: int) -> bool {
    0 <= q < s.len() && (is_letter(s[q]) || (s[q] == 46 && q + 1 < s.len() && is_letter(
        s[q + 1],
    )))
}

/// The word `lit` stands at `p` as a whole, where no path goes on after it:
/// `trueish` and `none.x` are read as paths.
pub open spec fn keyword_at(s: Seq<u8>, p: int, lit: Seq<u8>) -> bool {
    word_at(s, p, lit) && !path_goes_on(s, p + lit.len())
}

/// The operator spelled at `p`, tried in a fixed order (`==` before `=`,
/// `>=` before `>`, `isnot` before `is`), and the position after it.
pub open spec fn binary_op(s: Seq<u8>, p: int) -> Option<(BinOp, int)> {
    if lit_at(s, p, seq![61u8, 61]) {
        Some((BinOp::Equal, p + 2))
    } else if lit_at(s, p, seq![61u8]) {
        Some((BinOp::Equal, p + 1))
    } else if lit_at(s, p, seq![101u8, 113]) {
        Some((BinOp::Equal, p + 2))
    } else if lit_at(s, p, seq![33u8, 61]) || lit_at(s, p, seq![110u8, 101]) {
        Some((BinOp::NotEqual, p + 2))
    } else if lit_at(s, p, seq![0xe2u8, 0x89, 0xa0]) {
        Some((BinOp::NotEqual, p + 3))
    } else if lit_at(s, p, seq![62u8, 61]) || lit_at(s, p, seq![103u8, 101]) {
        Some((BinOp::GreaterThanOrEqual, p + 2))
    } else if lit_at(s, p, seq![0xe2u8, 0x89, 0xa5]) {
        Some((BinOp::GreaterThanOrEqual, p + 3))
    } else if lit_at(s, p, seq![62u8]) {
        Some((BinOp::GreaterThan, p + 1))
    } else if lit_at(s, p, seq![103u8, 116]) {
        Some((BinOp::GreaterThan, p + 2))
    } else if lit_at(s, p, seq![60u8, 61]) || lit_at(s, p, seq![108u8, 101]) {
        Some((BinOp::LessThanOrEqual, p + 2))
    } else if lit_at(s, p, seq![0xe2u8, 0x89, 0xa4]) {
        Some((BinOp::LessThanOrEqual, p + 3))
    } else if lit_at(s, p, seq![60u8]) {
        Some((BinOp::LessThan, p + 1))
    } else if lit_at(s, p, seq![108u8, 116]) {
        Some((BinOp::LessThan, p + 2))
    } else if lit_at(s, p, seq![105u8, 110]) {
        Some((BinOp::In, p + 2))
    } else if lit_at(s, p, seq![0xe2u8, 0x88, 0x88]) {
        Some((BinOp::In, p + 3))
    } else if lit_at(s, p, seq![110u8, 111, 116, 105, 110]) {
        Some((BinOp::NotIn, p + 5))
    } else if lit_at(s, p, seq![0xe2u8, 0x88, 0x89]) {
        Some((BinOp::NotIn, p + 3))
    } else if lit_at(s, p, seq![105u8, 115, 110, 111, 116]) {
        Some((BinOp::IsNot, p + 5))
    } else if lit_at(s, p, seq![105u8, 115]) {
        Some((BinOp::Is, p + 2))
    } else if lit_at(s, p, seq![0xe2u8, 0x8a, 0x86]) {
        Some((BinOp::SubSetOf, p + 3))
    } else if lit_at(s, p, seq![0xe2u8, 0x8a, 0x87]) {
        Some((BinOp::SuperSetOf, p + 3))
    } else if lit_at(s, p, seq![0xe2u8, 0x88, 0xa9]) {
        Some((BinOp::IntersectionOf, p + 3))
    } else if lit_at(s, p, seq![110u8, 111, 116, 0xe2, 0x88, 0xa9]) {
        Some((BinOp::NotIntersectionOf, p + 6))
    } else {
        None
    }
}

/// Spellings of one operator read as that operator: `==`, `=` and `eq` all
/// give `Equal`; `!=`, `ne` and `≠` all give `NotEqual`.
pub proof fn law_operator_aliases_collapse(s: Seq<u8>, p: int)
    ensures
        lit_at(s, p, seq![61u8, 61]) ==> binary_op(s, p) == Some((BinOp::Equal, p + 2)),
        lit_at(s, p, seq![61u8]) ==> binary_op(s, p) matches Some((BinOp::Equal, _)),
        lit_at(s, p, seq![101u8, 113]) ==> binary_op(s, p) == Some((BinOp::Equal, p + 2)),
        lit_at(s, p, seq![33u8, 61]) ==> binary_op(s, p) == Some((BinOp::NotEqual, p + 2)),
        lit_at(s, p, seq![110u8, 101]) ==> binary_op(s, p) == Some((BinOp::NotEqual, p + 2)),
        lit_at(s, p, seq![0xe2u8, 0x89, 0xa0]) ==> binary_op(s, p) == Some(
            (BinOp::NotEqual, p + 3),
        ),
{
    if 0 <= p < s.len() {
        assert(lit_at(s, p, seq![61u8]) ==> s.subrange(p, p + 1)[0] == s[p]);
        assert(lit_at(s, p, seq![61u8, 61]) ==> s.subrange(p, p + 2)[0] == s[p]);
        assert(lit_at(s, p, seq![101u8, 113]) ==> s.subrange(p, p + 2)[0] == s[p]);
        assert(lit_at(s, p, seq![33u8, 61]) ==> s.subrange(p, p + 2)[0] == s[p]);
        assert(lit_at(s, p, seq![110u8, 101]) ==> s.subrange(p, p + 2)[0] == s[p]);
        assert(lit_at(s, p, seq![0xe2u8, 0x89, 0xa0]) ==> s.subrange(p, p + 3)[0] == s[p]);
        if lit_at(s, p, seq![61u8, 61]) || lit_at(s, p, seq![101u8, 113]) || lit_at(
            s,
            p,
            seq![33u8, 61],
        ) || lit_at(s, p, seq![110u8, 101]) || lit_at(s, p, seq![0xe2u8, 0x89, 0xa0]) {
            assert(s.subrange(p, p + 1)[0] == s[p]);
        }
    }
}

fn scan_spaces(b: &[u8], p: usize) -> (r: usize)
    requires
        p <= b@.len(),
    ensures
        r as int == skip_spaces(b@, p as int),
        p <= r <= b@.len(),
{
    let mut i = p;
    while i < b.len() && (b[i] == 32 || b[i] == 9 || b[i] == 13 || b[i] == 10)
        invariant
            p <= i <= b@.len(),
            skip_spaces(b@, p as int) == skip_spaces(b@, i as int),
        decreases b@.len() - i,
    {
        i = i + 1;
    }
    i
}

fn scan_letters(b: &[u8], p: usize) -> (r: usize)
    requires
        p <= b@.len(),
    ensures
        r as int == skip_letters(b@, p as int),
        p <= r <= b@.len(),
{
    let mut i = p;
    while i < b.len() && ((65 <= b[i] && b[i] <= 90) || (97 <= b[i] && b[i] <= 122) || b[i] == 95)
        invariant
            p <= i <= b@.len(),
            skip_letters(b@, p as int) == skip_letters(b@, i as int),
        decreases b@.len() - i,
    {
        i = i + 1;
    }
    i
}

fn scan_digits(b: &[u8], p: usize) -> (r: usize)
    requires
        p <= b@.len(),
    ensures
        r as int == skip_digits(b@, p as int),
        p <= r <= b@.len(),
        forall|i: int| p <= i < r ==> is_digit(#[trigger] b@[i]),
{
    let mut i = p;
    while i < b.len() && 48 <= b[i] && b[i] <= 57
        invariant
            p <= i <= b@.len(),
            forall|j: int| p <= j < i ==> is_digit(#[trigger] b@[j]),
            skip_digits(b@, p as int) == skip_digits(b@, i as int),
        decreases b@.len() - i,
    {
        i = i + 1;
    }
    i
}

fn scan_to_quote(b: &[u8], p: usize) -> (r: usize)
    requires
        p <= b@.len(),
    ensures
        r as int == skip_to_quote(b@, p as int),
        p <= r <= b@.len(),
{
    let mut i = p;
    while i < b.len() && b[i] != 34
        invariant
            p <= i <= b@.len(),
            skip_to_quote(b@, p as int) == skip_to_quote(b@, i as int),
        decreases b@.len() - i,
    {
        i = i + 1;
    }
    i
}

fn match_word(b: &[u8], p: usize, lit: &[u8]) -> (r: bool)
    ensures
        r == word_at(b@, p as int, lit@),
{
    if lit.len() > b.len() || p > b.len() - lit.len() {
        return false;
    }
    let n = b.len();
    let mut i: usize = 0;
    while i < lit.len()
        invariant
            i <= lit@.len(),
            n == b@.len(),
            p + lit@.len() <= b@.len(),
            forall|j: int| 0 <= j < i ==> (#[trigger] b@[p + j] == lit@[j] || b@[p + j] == upper(lit@[j])),
        decreases lit@.len() - i,
    {
        let c = lit[i];
        let u: u8 = if 97 <= c && c <= 122 {
            c - 32
        } else {
            c
        };
        if b[p + i] != c && b[p + i] != u {
            return false;
        }
        i = i + 1;
    }
    true
}

fn lit1(b: &[u8], p: usize, c0: u8) -> (r: bool)
    ensures
        r == lit_at(b@, p as int, seq![c0]),
{
    let n = b.len();
    if p >= n {
        return false;
    }
    let r = b[p] == c0;
    let ghost w = b@.subrange(p as int, p + 1);
    assert(w[0] == b@[p as int]);
    if r {
        assert(w =~= seq![c0]);
    }
    r
}

fn lit2(b: &[u8], p: usize, c0: u8, c1: u8) -> (r: bool)
    ensures
        r == lit_at(b@, p as int, seq![c0, c1]),
{
    let n = b.len();
    if p >= n || n - p < 2 {
        return false;
    }
    let r = b[p] == c0 && b[p + 1] == c1;
    let ghost w = b@.subrange(p as int, p + 2);
    assert(w[0] == b@[p as int] && w[1] == b@[p + 1]);
    if r {
        assert(w =~= seq![c0, c1]);
    }
    r
}

fn lit3(b: &[u8], p: usize, c0: u8, c1: u8, c2: u8) -> (r: bool)
    ensures
        r == lit_at(b@, p as int, seq![c0, c1, c2]),
{
    let n = b.len();
    if p >= n || n - p < 3 {
        return false;
    }
    let r = b[p] == c0 && b[p + 1] == c1 && b[p + 2] == c2;
    let ghost w = b@.subrange(p as int, p + 3);
    assert(w[0] == b@[p as int] && w[1] == b@[p + 1] && w[2] == b@[p + 2]);
    if r {
        assert(w =~= seq![c0, c1, c2]);
    }
    r
}

fn lit5(b: &[u8], p: usize, c0: u8, c1: u8, c2: u8, c3: u8, c4: u8) -> (r: bool)
    ensures
        r == lit_at(b@, p as int, seq![c0, c1, c2, c3, c4]),
{
    let n = b.len();
    if p >= n || n - p < 5 {
        return false;
    }
    let r = b[p] == c0 && b[p + 1] == c1 && b[p + 2] == c2 && b[p + 3] == c3 && b[p + 4] == c4;
    let ghost w = b@.subrange(p as int, p + 5);
    assert(w[0] == b@[p as int] && w[1] == b@[p + 1] && w[2] == b@[p + 2] && w[3] == b@[p + 3]
        && w[4] == b@[p + 4]);
    if r {
        assert(w =~= seq![c0, c1, c2, c3, c4]);
    }
    r
}

fn lit6(b: &[u8], p: usize, c0: u8, c1: u8, c2: u8, c3: u8, c4: u8, c5: u8) -> (r: bool)
    ensures
        r == lit_at(b@, p as int, seq![c0, c1, c2, c3, c4, c5]),
{
    let n = b.len();
    if p >= n || n - p < 6 {
        return false;
    }
    let r = b[p] == c0 && b[p + 1] == c1 && b[p + 2] == c2 && b[p + 3] == c3 && b[p + 4] == c4
        && b[p + 5] == c5;
    let ghost w = b@.subrange(p as int, p + 6);
    assert(w[0] == b@[p as int] && w[1] == b@[p + 1] && w[2] == b@[p + 2] && w[3] == b@[p + 3]
        && w[4] == b@[p + 4] && w[5] == b@[p + 5]);
    if r {
        assert(w =~= seq![c0, c1, c2, c3, c4, c5]);
    }
    r
}

fn match_keyword(b: &[u8], p: usize, lit: &[u8]) -> (r: bool)
    ensures
        r == keyword_at(b@, p as int, lit@),
{
    let _n = b.len();
    if !match_word(b, p, lit) {
        return false;
    }
    let q = p + lit.len();
    !(q < b.len() && (is_letter_byte(b[q]) || (b[q] == 46 && b.len() - q > 1 && is_letter_byte(
        b[q + 1],
    ))))
}

fn scan_binary_op(b: &[u8], p: usize) -> (r: Option<(BinOp, usize)>)
    ensures
        match r {
            Some((op, q)) => binary_op(b@, p as int) == Some((op, q as int)),
            None => binary_op(b@, p as int) is None,
        },
{
    let _n = b.len();
    if lit2(b, p, 61u8, 61) {
        Some((BinOp::Equal, p + 2))
    } else if lit1(b, p, 61u8) {
        Some((BinOp::Equal, p + 1))
    } else if lit2(b, p, 101u8, 113) {
        Some((BinOp::Equal, p + 2))
    } else if lit2(b, p, 33u8, 61) || lit2(b, p, 110u8, 101) {
        Some((BinOp::NotEqual, p + 2))
    } else if lit3(b, p, 0xe2u8, 0x89, 0xa0) {
        Some((BinOp::NotEqual, p + 3))
    } else if lit2(b, p, 62u8, 61) || lit2(b, p, 103u8, 101) {
        Some((BinOp::GreaterThanOrEqual, p + 2))
    } else if lit3(b, p, 0xe2u8, 0x89, 0xa5) {
        Some((BinOp::GreaterThanOrEqual, p + 3))
    } else if lit1(b, p, 62u8) {
        Some((BinOp::GreaterThan, p + 1))
    } else if lit2(b, p, 103u8, 116) {
        Some((BinOp::GreaterThan, p + 2))
    } else if lit2(b, p, 60u8, 61) || lit2(b, p, 108u8, 101) {
        Some((BinOp::LessThanOrEqual, p + 2))
    } else if lit3(b, p, 0xe2u8, 0x89, 0xa4) {
        Some((BinOp::LessThanOrEqual, p + 3))
    } else if lit1(b, p, 60u8) {
        Some((BinOp::LessThan, p + 1))
    } else if lit2(b, p, 108u8, 116) {
        Some((BinOp::LessThan, p + 2))
    } else if lit2(b, p, 105u8, 110) {
        Some((BinOp::In, p + 2))
    } else if lit3(b, p, 0xe2u8, 0x88, 0x88) {
        Some((BinOp::In, p + 3))
    } else if lit5(b, p, 110u8, 111, 116, 105, 110) {
        Some((BinOp::NotIn, p + 5))
    } else if lit3(b, p, 0xe2u8, 0x88, 0x89) {
        Some((BinOp::NotIn, p + 3))
    } else if lit5(b, p, 105u8, 115, 110, 111, 116) {
        Some((BinOp::IsNot, p + 5))
    } else if lit2(b, p, 105u8, 115) {
        Some((BinOp::Is, p + 2))
    } else if lit3(b, p, 0xe2u8, 0x8a, 0x86) {
        Some((BinOp::SubSetOf, p + 3))
    } else if lit3(b, p, 0xe2u8, 0x8a, 0x87) {
        Some((BinOp::SuperSetOf, p + 3))
    } else if lit3(b, p, 0xe2u8, 0x88, 0xa9) {
        Some((BinOp::IntersectionOf, p + 3))
    } else if lit6(b, p, 110u8, 111, 116, 0xe2, 0x88, 0xa9) {
        Some((BinOp::NotIntersectionOf, p + 6))
    } else {
        None
    }
}

/// Number of `0` digits at the start of `d`.
pub open spec fn leading_zeros(d: Seq<u8>) -> nat
    decreases d.len(),
{
    if d.len() > 0 && d[0] == 48 {
        1 + leading_zeros(d.drop_first())
    } else {
        0
    }
}

/// `d` without its trailing `0` digits.
pub open spec fn trim_trailing_zeros(d: Seq<u8>) -> Seq<u8>
    decreases d.len(),
{
    if d.len() > 0 && d.last() == 48 {
        trim_trailing_zeros(d.drop_last())
    } else {
        d
    }
}

/// Decimal value of the digits `d`, read left to right and capped at
/// `EXPONENT_CAP`.
pub open spec fn capped_value(d: Seq<u8>) -> int
    decreases d.len(),
{
    if d.len() == 0 {
        0
    } else {
        let v = capped_value(d.drop_last()) * 10 + (d.last() - 48);
        if v > EXPONENT_CAP {
            EXPONENT_CAP as int
        } else {
            v
        }
    }
}

/// `x` clamped to `-EXPONENT_CAP ..= EXPONENT_CAP`.
pub open spec fn clamp_exponent(x: int) -> int {
    if x > EXPONENT_CAP {
        EXPONENT_CAP as int
    } else if x < -(EXPONENT_CAP as int) {
        -(EXPONENT_CAP as int)
    } else {
        x
    }
}

/// The number `±0.d × 10^(point + e)` in normal form, where `d` are the
/// digits as written and `point` is how many of them precede the decimal
/// point; its exponent is clamped to the cap.
pub open spec fn normalize(negative: bool, d: Seq<u8>, point: int, e: int) -> NumberModel {
    let k = leading_zeros(d);
    let t = trim_trailing_zeros(d.skip(k as int));
    if t.len() == 0 {
        NumberModel { negative: false, digits: seq![], exponent: 0 }
    } else {
        NumberModel { negative, digits: t, exponent: clamp_exponent(point - k + e) }
    }
}

/// End of the integer part that starts with a digit at `p`: a lone `0`, or
/// a run of digits.
pub open spec fn integer_end(s: Seq<u8>, p: int) -> int {
    if s[p] == 48 {
        p + 1
    } else {
        skip_digits(s, p)
    }
}

/// A fraction `.` digit+ starts at `p`.
pub open spec fn has_fraction(s: Seq<u8>, p: int) -> bool {
    0 <= p && p + 1 < s.len() && s[p] == 46 && is_digit(s[p + 1])
}

/// An exponent part at `p`, if any: its value (capped) and the position after
/// it; `(0, p)` where none stands.
pub open spec fn exponent_at(s: Seq<u8>, p: int) -> (int, int) {
    let has_e = 0 <= p < s.len() && (s[p] == 101 || s[p] == 69);
    let signed = has_e && p + 1 < s.len() && (s[p + 1] == 43 || s[p + 1] == 45);
    let q = if signed {
        p + 2
    } else {
        p + 1
    };
    if has_e && q < s.len() && is_digit(s[q]) {
        let end = skip_digits(s, q);
        let mag = capped_value(s.subrange(q, end));
        (if signed && s[p + 1] == 45 {
            -mag
        } else {
            mag
        }, end)
    } else {
        (0, p)
    }
}

/// A number literal at `p`: `-`? (`0` | `1-9` digit*) (`.` digit+)?
/// (`e`|`E` (`+`|`-`)? digit+)?, and the position after it.
pub open spec fn number_at(s: Seq<u8>, p: int) -> Option<(NumberModel, int)> {
    let neg = 0 <= p < s.len() && s[p] == 45;
    let p1 = if neg {
        p + 1
    } else {
        p
    };
    if !(0 <= p1 < s.len() && is_digit(s[p1])) {
        None
    } else {
        let p2 = integer_end(s, p1);
        let (p3, ds) = if has_fraction(s, p2) {
            let p3 = skip_digits(s, p2 + 1);
            (p3, s.subrange(p1, p2) + s.subrange(p2 + 1, p3))
        } else {
            (p2, s.subrange(p1, p2))
        };
        let (e, p4) = exponent_at(s, p3);
        Some((normalize(neg, ds, p2 - p1, e), p4))
    }
}

/// A string literal at `p`: `"`, any bytes but `"`, `"`. No escapes.
pub open spec fn string_at(s: Seq<u8>, p: int) -> Option<(Seq<u8>, int)> {
    if 0 <= p < s.len() && s[p] == 34 {
        let q = skip_to_quote(s, p + 1);
        if q < s.len() {
            Some((s.subrange(p + 1, q), q + 1))
        } else {
            None
        }
    } else {
        None
    }
}

pub proof fn lemma_skip_letters_ge(s: Seq<u8>, p: int)
    ensures
        skip_letters(s, p) >= p,
        0 <= p <= s.len() ==> skip_letters(s, p) <= s.len(),
    decreases s.len() - p,
{
    if 0 <= p < s.len() && is_letter(s[p]) {
        lemma_skip_letters_ge(s, p + 1);
    }
}

/// Further `.segment` parts of a path from `p`: the segments and the end.
pub open spec fn path_tail(s: Seq<u8>, p: int) -> (Seq<Seq<u8>>, int)
    decreases s.len() - p via path_tail_decreases
{
    if 0 <= p && p + 1 < s.len() && s[p] == 46 && is_letter(s[p + 1]) {
        let q = skip_letters(s, p + 1);
        let t = path_tail(s, q);
        (seq![s.subrange(p + 1, q)] + t.0, t.1)
    } else {
        (seq![], p)
    }
}

#[via_fn]
proof fn path_tail_decreases(s: Seq<u8>, p: int) {
    lemma_skip_letters_ge(s, p + 1);
    if 0 <= p && p + 1 < s.len() && s[p] == 46 && is_letter(s[p + 1]) {
        lemma_skip_letters_ge(s, p + 2);
    }
}

/// A property path at `p`: segments of letters joined by `.`.
pub open spec fn path_at(s: Seq<u8>, p: int) -> Option<(Seq<Seq<u8>>, int)> {
    let q = skip_letters(s, p);
    if q > p {
        let t = path_tail(s, q);
        Some((seq![s.subrange(p, q)] + t.0, t.1))
    } else {
        None
    }
}

/// A scalar at `p`, with whitespace around it: a number, a string, a
/// boolean, `none`, or a property path, tried in that order. The words
/// `true`, `false` and `none` match in any letter case; `false` reads as
/// the boolean false.
pub open spec fn scalar_at(s: Seq<u8>, p: int) -> Option<(Scalar, int)> {
    let p0 = skip_spaces(s, p);
    let v = match number_at(s, p0) {
        Some((n, q)) => Some((Scalar::Number(n), q)),
        None => match string_at(s, p0) {
            Some((t, q)) => Some((Scalar::Str(t), q)),
            None => if keyword_at(s, p0, seq![116u8, 114, 117, 101]) {
                Some((Scalar::Bool(true), p0 + 4))
            } else if keyword_at(s, p0, seq![102u8, 97, 108, 115, 101]) {
                Some((Scalar::Bool(false), p0 + 5))
            } else if keyword_at(s, p0, seq![110u8, 111, 110, 101]) {
                Some((Scalar::Absent, p0 + 4))
            } else {
                match path_at(s, p0) {
                    Some((segs, q)) => Some((Scalar::Path(segs), q)),
                    None => None,
                }
            },
        },
    };
    match v {
        Some((x, q)) => Some((x, skip_spaces(s, q))),
        None => None,
    }
}

proof fn lemma_trim_prefix(d: Seq<u8>)
    ensures
        trim_trailing_zeros(d).len() <= d.len(),
        trim_trailing_zeros(d) == d.subrange(0, trim_trailing_zeros(d).len() as int),
        trim_trailing_zeros(d).len() > 0 ==> trim_trailing_zeros(d).last() != 48,
    decreases d.len(),
{
    if d.len() > 0 && d.last() == 48 {
        lemma_trim_prefix(d.drop_last());
        assert(d.drop_last().subrange(0, trim_trailing_zeros(d).len() as int) =~= d.subrange(
            0,
            trim_trailing_zeros(d).len() as int,
        ));
    } else {
        assert(d.subrange(0, d.len() as int) =~= d);
    }
}

proof fn lemma_leading_zeros(d: Seq<u8>)
    ensures
        leading_zeros(d) <= d.len(),
        leading_zeros(d) < d.len() ==> d[leading_zeros(d) as int] != 48,
    decreases d.len(),
{
    if d.len() > 0 && d[0] == 48 {
        lemma_leading_zeros(d.drop_first());
    }
}

proof fn lemma_skip_digits(s: Seq<u8>, p: int)
    requires
        0 <= p,
    ensures
        p <= skip_digits(s, p),
        forall|i: int| p <= i < skip_digits(s, p) ==> is_digit(#[trigger] s[i]),
        p <= s.len() ==> skip_digits(s, p) <= s.len(),
    decreases s.len() - p,
{
    if 0 <= p < s.len() && is_digit(s[p]) {
        lemma_skip_digits(s, p + 1);
    }
}

/// A digit string in any form becomes a number in normal form.
pub proof fn lemma_normalize_wf(negative: bool, d: Seq<u8>, point: int, e: int)
    requires
        forall|i: int| 0 <= i < d.len() ==> is_digit(#[trigger] d[i]),
    ensures
        normalize(negative, d, point, e).wf(),
        -(EXPONENT_CAP as int) <= normalize(negative, d, point, e).exponent <= EXPONENT_CAP,
{
    let k = leading_zeros(d);
    lemma_leading_zeros(d);
    let rest = d.skip(k as int);
    lemma_trim_prefix(rest);
    let t = trim_trailing_zeros(rest);
    assert forall|i: int| 0 <= i < t.len() implies is_digit(#[trigger] t[i]) by {
        assert(t[i] == rest.subrange(0, t.len() as int)[i]);
        assert(rest[i] == d[k + i]);
    }
    if t.len() > 0 {
        assert(t[0] == rest.subrange(0, t.len() as int)[0]);
        assert(rest[0] == d[k as int]);
    }
}

/// Every number literal is read into normal form, with its exponent within
/// the cap, so two parsed numbers are equal exactly when they denote the same
/// (clamped) value.
pub proof fn law_parsed_numbers_are_normal(s: Seq<u8>, p: int)
    requires
        number_at(s, p) is Some,
    ensures
        number_at(s, p)->Some_0.0.wf(),
        -(EXPONENT_CAP as int) <= number_at(s, p)->Some_0.0.exponent <= EXPONENT_CAP,
{
    let neg = 0 <= p < s.len() && s[p] == 45;
    let p1 = if neg {
        p + 1
    } else {
        p
    };
    let p2 = integer_end(s, p1);
    lemma_skip_digits(s, p1);
    assert(forall|i: int| p1 <= i < p2 ==> is_digit(#[trigger] s[i]));
    if has_fraction(s, p2) {
        let p3 = skip_digits(s, p2 + 1);
        lemma_skip_digits(s, p2 + 1);
        let ds = s.subrange(p1, p2) + s.subrange(p2 + 1, p3);
        assert forall|i: int| 0 <= i < ds.len() implies is_digit(#[trigger] ds[i]) by {
            if i < p2 - p1 {
                assert(ds[i] == s[p1 + i]);
            } else {
                assert(ds[i] == s[p2 + 1 + (i - (p2 - p1))]);
            }
        }
        let (e, p4) = exponent_at(s, p3);
        lemma_normalize_wf(neg, ds, p2 - p1, e);
    } else {
        let ds = s.subrange(p1, p2);
        assert forall|i: int| 0 <= i < ds.len() implies is_digit(#[trigger] ds[i]) by {
            assert(ds[i] == s[p1 + i]);
        }
        let (e, p4) = exponent_at(s, p2);
        lemma_normalize_wf(neg, ds, p2 - p1, e);
    }
}

fn copy_range(b: &[u8], from: usize, to: usize) -> (r: Vec<u8>)
    requires
        from <= to <= b@.len(),
    ensures
        r@ == b@.subrange(from as int, to as int),
{
    let mut out: Vec<u8> = Vec::new();
    let mut i = from;
    while i < to
        invariant
            from <= i <= to,
            to <= b@.len(),
            out@ =~= b@.subrange(from as int, i as int),
        decreases to - i,
    {
        out.push(b[i]);
        i = i + 1;
    }
    out
}

#[verifier::rlimit(30)]
fn normalize_digits(negative: bool, d: &Vec<u8>, point: usize, e: i128) -> (r: Number)
    requires
        -(EXPONENT_CAP as int) <= e <= EXPONENT_CAP,
    ensures
        r@ == normalize(negative, d@, point as int, e as int),
{
    let mut k: usize = 0;
    assert(d@.skip(0) =~= d@);
    while k < d.len() && d[k] == 48
        invariant
            k <= d@.len(),
            leading_zeros(d@) == k + leading_zeros(d@.skip(k as int)),
        decreases d@.len() - k,
    {
        assert(d@.skip(k as int).drop_first() =~= d@.skip(k + 1));
        k = k + 1;
    }
    let ghost rest = d@.skip(k as int);
    if k < d.len() {
        assert(rest[0] == d@[k as int]);
    }
    assert(leading_zeros(rest) == 0);
    let mut j: usize = d.len();
    assert(d@.subrange(k as int, j as int) =~= rest);
    while j > k && d[j - 1] == 48
        invariant
            k <= j <= d@.len(),
            rest == d@.skip(k as int),
            leading_zeros(d@) == k,
            trim_trailing_zeros(rest) == trim_trailing_zeros(d@.subrange(k as int, j as int)),
        decreases j,
    {
        assert(d@.subrange(k as int, j as int).drop_last() =~= d@.subrange(k as int, j - 1));
        j = j - 1;
    }
    if j > k {
        assert(d@.subrange(k as int, j as int).last() == d@[j - 1]);
    }
    assert(trim_trailing_zeros(d@.subrange(k as int, j as int)) == d@.subrange(k as int, j as int));
    let t = copy_slice(d, k, j);
    assert(t@ == trim_trailing_zeros(d@.skip(leading_zeros(d@) as int)));
    if t.len() == 0 {
        assert(t@ =~= seq![]);
        Number { negative: false, digits: t, exponent: 0 }
    } else {
        let x: i128 = point as i128 - k as i128 + e;
        let cap = EXPONENT_CAP as i128;
        let exponent: i128 = if x > cap {
            cap
        } else if x < -cap {
            -cap
        } else {
            x
        };
        Number { negative, digits: t, exponent }
    }
}

fn copy_slice(d: &Vec<u8>, from: usize, to: usize) -> (r: Vec<u8>)
    requires
        from <= to <= d@.len(),
    ensures
        r@ == d@.subrange(from as int, to as int),
{
    copy_range(d.as_slice(), from, to)
}

fn exponent_value(b: &[u8], from: usize, to: usize) -> (r: u64)
    requires
        from <= to <= b@.len(),
        forall|i: int| from <= i < to ==> is_digit(#[trigger] b@[i]),
    ensures
        r as int == capped_value(b@.subrange(from as int, to as int)),
        r <= EXPONENT_CAP,
{
    let mut v: u64 = 0;
    let mut i = from;
    assert(b@.subrange(from as int, from as int) =~= Seq::<u8>::empty());
    while i < to
        invariant
            from <= i <= to,
            to <= b@.len(),
            forall|i: int| from <= i < to ==> is_digit(#[trigger] b@[i]),
            v as int == capped_value(b@.subrange(from as int, i as int)),
            v <= EXPONENT_CAP,
        decreases to - i,
    {
        assert(b@.subrange(from as int, i + 1).drop_last() =~= b@.subrange(from as int, i as int));
        assert(is_digit(b@[i as int]));
        let w: u64 = v * 10 + (b[i] - 48) as u64;
        v = if w > EXPONENT_CAP {
            EXPONENT_CAP
        } else {
            w
        };
        i = i + 1;
    }
    v
}

fn extend_from(out: &mut Vec<u8>, b: &[u8], from: usize, to: usize)
    requires
        from <= to <= b@.len(),
    ensures
        final(out)@ == old(out)@ + b@.subrange(from as int, to as int),
{
    let mut i = from;
    while i < to
        invariant
            from <= i <= to,
            to <= b@.len(),
            out@ =~= old(out)@ + b@.subrange(from as int, i as int),
        decreases to - i,
    {
        out.push(b[i]);
        i = i + 1;
    }
}

fn scan_exponent(b: &[u8], p: usize) -> (r: (i128, usize))
    requires
        p <= b@.len(),
    ensures
        exponent_at(b@, p as int) == (r.0 as int, r.1 as int),
        p <= r.1 <= b@.len(),
        -(EXPONENT_CAP as int) <= r.0 <= EXPONENT_CAP,
{
    let n = b.len();
    if !(p < n && (b[p] == 101 || b[p] == 69)) {
        return (0, p);
    }
    let signed = n - p > 1 && (b[p + 1] == 43 || b[p + 1] == 45);
    let q = if signed {
        p + 2
    } else {
        p + 1
    };
    if !(q < n && 48 <= b[q] && b[q] <= 57) {
        return (0, p);
    }
    let end = scan_digits(b, q + 1);
    let mag = exponent_value(b, q, end);
    if signed && b[p + 1] == 45 {
        (-(mag as i128), end)
    } else {
        (mag as i128, end)
    }
}

fn scan_number(b: &[u8], p: usize) -> (r: Option<(Number, usize)>)
    requires
        p <= b@.len(),
    ensures
        match r {
            Some((x, q)) => number_at(b@, p as int) == Some((x@, q as int)) && p < q <= b@.len(),
            None => number_at(b@, p as int) is None,
        },
{
    let n = b.len();
    let neg = p < n && b[p] == 45;
    let p1 = if neg {
        p + 1
    } else {
        p
    };
    if !(p1 < n && 48 <= b[p1] && b[p1] <= 57) {
        return None;
    }
    let p2 = if b[p1] == 48 {
        p1 + 1
    } else {
        scan_digits(b, p1 + 1)
    };
    assert(p2 as int == integer_end(b@, p1 as int));
    let mut ds = copy_range(b, p1, p2);
    let p3 = if p2 < n && n - p2 > 1 && b[p2] == 46 && 48 <= b[p2 + 1] && b[p2 + 1] <= 57 {
        let p3 = scan_digits(b, p2 + 2);
        extend_from(&mut ds, b, p2 + 1, p3);
        p3
    } else {
        p2
    };
    let (e, p4) = scan_exponent(b, p3);
    let x = normalize_digits(neg, &ds, p2 - p1, e);
    Some((x, p4))
}

fn scan_string(b: &[u8], p: usize) -> (r: Option<(Vec<u8>, usize)>)
    requires
        p <= b@.len(),
    ensures
        match r {
            Some((t, q)) => string_at(b@, p as int) == Some((t@, q as int)) && p < q <= b@.len(),
            None => string_at(b@, p as int) is None,
        },
{
    if p < b.len() && b[p] == 34 {
        let q = scan_to_quote(b, p + 1);
        if q < b.len() {
            Some((copy_range(b, p + 1, q), q + 1))
        } else {
            None
        }
    } else {
        None
    }
}

fn is_letter_byte(c: u8) -> (r: bool)
    ensures
        r == is_letter(c),
{
    (65 <= c && c <= 90) || (97 <= c && c <= 122) || c == 95
}

fn scan_path(b: &[u8], p: usize) -> (r: Option<(Vec<Vec<u8>>, usize)>)
    requires
        p <= b@.len(),
    ensures
        match r {
            Some((segs, q)) => path_at(b@, p as int) == Some((path_view(segs@), q as int)) && p
                < q <= b@.len(),
            None => path_at(b@, p as int) is None,
        },
{
    let q = scan_letters(b, p);
    if q == p {
        return None;
    }
    let mut segs: Vec<Vec<u8>> = Vec::new();
    segs.push(copy_range(b, p, q));
    let mut i = q;
    assert(path_view(segs@) =~= seq![b@.subrange(p as int, q as int)]);
    while i < b.len() && b.len() - i > 1 && b[i] == 46 && is_letter_byte(b[i + 1])
        invariant
            p < i <= b@.len(),
            path_at(b@, p as int) == Some(
                (path_view(segs@) + path_tail(b@, i as int).0, path_tail(b@, i as int).1),
            ),
        decreases b@.len() - i,
    {
        let j = scan_letters(b, i + 2);
        assert(skip_letters(b@, i + 1) == skip_letters(b@, i + 2));
        let ghost before = path_view(segs@);
        segs.push(copy_range(b, i + 1, j));
        assert(path_view(segs@) =~= before + seq![b@.subrange(i + 1, j as int)]);
        assert(path_view(segs@) + path_tail(b@, j as int).0 =~= before + (seq![
            b@.subrange(i + 1, j as int),
        ] + path_tail(b@, j as int).0));
        i = j;
    }
    assert(path_view(segs@) + path_tail(b@, i as int).0 =~= path_view(segs@));
    Some((segs, i))
}

fn scan_scalar(b: &[u8], p: usize) -> (r: Option<(SimpleValue, usize)>)
    requires
        p <= b@.len(),
    ensures
        match r {
            Some((v, q)) => scalar_at(b@, p as int) == Some((v@, q as int)) && p < q <= b@.len(),
            None => scalar_at(b@, p as int) is None,
        },
{
    let _n = b.len();
    let p0 = scan_spaces(b, p);
    let t: &[u8] = &[116u8, 114, 117, 101];
    let f: &[u8] = &[102u8, 97, 108, 115, 101];
    let z: &[u8] = &[110u8, 111, 110, 101];
    assert(t@ == seq![116u8, 114, 117, 101]);
    assert(f@ == seq![102u8, 97, 108, 115, 101]);
    assert(z@ == seq![110u8, 111, 110, 101]);
    let found: Option<(SimpleValue, usize)> = match scan_number(b, p0) {
        Some((x, q)) => Some((SimpleValue::Number(x), q)),
        None => match scan_string(b, p0) {
            Some((x, q)) => Some((SimpleValue::Str(x), q)),
            None => if match_keyword(b, p0, t) {
                Some((SimpleValue::Bool(true), p0 + 4))
            } else if match_keyword(b, p0, f) {
                Some((SimpleValue::Bool(false), p0 + 5))
            } else if match_keyword(b, p0, z) {
                Some((SimpleValue::Absent, p0 + 4))
            } else {
                match scan_path(b, p0) {
                    Some((x, q)) => Some((SimpleValue::PropertyPath(x), q)),
                    None => None,
                }
            },
        },
    };
    match found {
        Some((v, q)) => Some((v, scan_spaces(b, q))),
        None => None,
    }
}

/// Further `,` scalar elements of a group from `p`: the elements and the end.
pub open spec fn group_tail(s: Seq<u8>, p: int) -> (Seq<Scalar>, int)
    decreases s.len() - p,
{
    if 0 <= p < s.len() && s[p] == 44 {
        match scalar_at(s, skip_spaces(s, p + 1)) {
            Some((v, q)) => if p < q <= s.len() {
                let t = group_tail(s, q);
                (seq![v] + t.0, t.1)
            } else {
                (seq![], p)
            },
            None => (seq![], p),
        }
    } else {
        (seq![], p)
    }
}

/// A parenthesised group of scalars at `p`: `(` scalar (`,` scalar)* `)`.
pub open spec fn group_at(s: Seq<u8>, p: int) -> Option<(Seq<Scalar>, int)> {
    if 0 <= p < s.len() && s[p] == 40 {
        match scalar_at(s, p + 1) {
            Some((v, q)) => {
                let t = group_tail(s, q);
                if 0 <= t.1 < s.len() && s[t.1] == 41 {
                    Some((seq![v] + t.0, t.1 + 1))
                } else {
                    None
                }
            },
            None => None,
        }
    } else {
        None
    }
}

/// An operand at `p`, with whitespace around it: a group, else a scalar.
pub open spec fn operand_at(s: Seq<u8>, p: int) -> Option<(Operand, int)> {
    let p0 = skip_spaces(s, p);
    match group_at(s, p0) {
        Some((g, q)) => Some((Operand::Group(g), skip_spaces(s, q))),
        None => match scalar_at(s, p0) {
            Some((v, q)) => Some((Operand::Single(v), skip_spaces(s, q))),
            None => None,
        },
    }
}

/// A comparison at `p`: operand, operator, operand.
pub open spec fn comparison_at(s: Seq<u8>, p: int) -> Option<(Condition, int)> {
    match operand_at(s, p) {
        Some((l, p1)) => match binary_op(s, p1) {
            Some((op, p2)) => match operand_at(s, p2) {
                Some((r, p3)) => Some((Condition::Comparison(l, op, r), p3)),
                None => None,
            },
            None => None,
        },
        None => None,
    }
}

/// A connective at `p`: `and` or `or`, each letter in either case.
pub open spec fn connective_at(s: Seq<u8>, p: int) -> Option<(AndOr, int)> {
    if word_at(s, p, seq![97u8, 110, 100]) {
        Some((AndOr::And, p + 3))
    } else if word_at(s, p, seq![111u8, 114]) {
        Some((AndOr::Or, p + 2))
    } else {
        None
    }
}

pub proof fn lemma_skip_spaces_ge(s: Seq<u8>, p: int)
    ensures
        skip_spaces(s, p) >= p,
        0 <= p <= s.len() ==> skip_spaces(s, p) <= s.len(),
    decreases s.len() - p,
{
    if 0 <= p < s.len() && is_space(s[p]) {
        lemma_skip_spaces_ge(s, p + 1);
    }
}

/// A condition at `p`, with whitespace around it: a comparison, else
/// `(` expression `)`.
pub open spec fn condition_at(s: Seq<u8>, p: int) -> Option<(Condition, int)>
    decreases s.len() - p, 0int via condition_decreases
{
    if !(0 <= p <= s.len()) {
        None
    } else {
        let p0 = skip_spaces(s, p);
        match comparison_at(s, p0) {
            Some((c, q)) => Some((c, skip_spaces(s, q))),
            None => if p0 < s.len() && s[p0] == 40 {
                match expression_at(s, p0 + 1) {
                    Some((e, q)) => if 0 <= q < s.len() && s[q] == 41 {
                        Some((Condition::Group(Box::new(e)), skip_spaces(s, q + 1)))
                    } else {
                        None
                    },
                    None => None,
                }
            } else {
                None
            },
        }
    }
}

#[via_fn]
proof fn condition_decreases(s: Seq<u8>, p: int) {
    lemma_skip_spaces_ge(s, p);
}

/// An expression at `p`: a condition, then, where a connective and a further
/// expression follow, those. A chain therefore groups from the right.
pub open spec fn expression_at(s: Seq<u8>, p: int) -> Option<(Expression, int)>
    decreases s.len() - p, 1int,
{
    if !(0 <= p <= s.len()) {
        None
    } else {
        match condition_at(s, p) {
            None => None,
            Some((c, q)) => {
                let single = Expression { initial: c, rest: None };
                match connective_at(s, q) {
                    Some((op, q2)) => if p < q2 <= s.len() {
                        match expression_at(s, q2) {
                            Some((t, q3)) => Some(
                                (Expression { initial: c, rest: Some((op, Box::new(t))) }, q3),
                            ),
                            None => Some((single, q)),
                        }
                    } else {
                        Some((single, q))
                    },
                    None => Some((single, q)),
                }
            },
        }
    }
}

proof fn lemma_skip_digits_ge(s: Seq<u8>, p: int)
    ensures
        skip_digits(s, p) >= p,
    decreases s.len() - p,
{
    if 0 <= p < s.len() && is_digit(s[p]) {
        lemma_skip_digits_ge(s, p + 1);
    }
}

proof fn lemma_skip_to_quote_ge(s: Seq<u8>, p: int)
    ensures
        skip_to_quote(s, p) >= p,
    decreases s.len() - p,
{
    if 0 <= p < s.len() && s[p] != 34 {
        lemma_skip_to_quote_ge(s, p + 1);
    }
}

proof fn lemma_scalar_advances(s: Seq<u8>, p: int)
    requires
        scalar_at(s, p) is Some,
    ensures
        p < scalar_at(s, p)->Some_0.1,
{
    lemma_skip_spaces_ge(s, p);
    let p0 = skip_spaces(s, p);
    let q: int = match number_at(s, p0) {
        Some((n, q)) => {
            let neg = 0 <= p0 < s.len() && s[p0] == 45;
            let p1 = if neg {
                p0 + 1
            } else {
                p0
            };
            lemma_skip_digits_ge(s, p1 + 1);
            let p2 = integer_end(s, p1);
            lemma_skip_digits_ge(s, p2 + 1);
            let p3 = if has_fraction(s, p2) {
                skip_digits(s, p2 + 1)
            } else {
                p2
            };
            lemma_skip_digits_ge(s, p3 + 1);
            lemma_skip_digits_ge(s, p3 + 2);
            q
        },
        None => match string_at(s, p0) {
            Some((t, q)) => {
                lemma_skip_to_quote_ge(s, p0 + 1);
                q
            },
            None => if keyword_at(s, p0, seq![116u8, 114, 117, 101]) {
                p0 + 4
            } else if keyword_at(s, p0, seq![102u8, 97, 108, 115, 101]) {
                p0 + 5
            } else if keyword_at(s, p0, seq![110u8, 111, 110, 101]) {
                p0 + 4
            } else {
                let q0 = skip_letters(s, p0);
                lemma_skip_letters_ge(s, p0);
                lemma_path_tail_ge(s, q0);
                path_at(s, p0)->Some_0.1
            },
        },
    };
    lemma_skip_spaces_ge(s, q);
}

proof fn lemma_path_tail_ge(s: Seq<u8>, p: int)
    ensures
        path_tail(s, p).1 >= p,
    decreases s.len() - p,
{
    if 0 <= p && p + 1 < s.len() && s[p] == 46 && is_letter(s[p + 1]) {
        lemma_skip_letters_ge(s, p + 1);
        lemma_skip_letters_ge(s, p + 2);
        lemma_path_tail_ge(s, skip_letters(s, p + 1));
    }
}

proof fn lemma_group_tail_ge(s: Seq<u8>, p: int)
    ensures
        group_tail(s, p).1 >= p,
    decreases s.len() - p,
{
    if 0 <= p < s.len() && s[p] == 44 {
        match scalar_at(s, skip_spaces(s, p + 1)) {
            Some((v, q)) => if p < q <= s.len() {
                lemma_group_tail_ge(s, q);
            },
            None => {},
        }
    }
}

proof fn lemma_operand_advances(s: Seq<u8>, p: int)
    requires
        operand_at(s, p) is Some,
    ensures
        p < operand_at(s, p)->Some_0.1,
{
    lemma_skip_spaces_ge(s, p);
    let p0 = skip_spaces(s, p);
    match group_at(s, p0) {
        Some((g, q)) => {
            lemma_scalar_advances(s, p0 + 1);
            lemma_group_tail_ge(s, scalar_at(s, p0 + 1)->Some_0.1);
            lemma_skip_spaces_ge(s, q);
        },
        None => {
            lemma_scalar_advances(s, p0);
            lemma_skip_spaces_ge(s, scalar_at(s, p0)->Some_0.1);
        },
    }
}

proof fn lemma_comparison_advances(s: Seq<u8>, p: int)
    requires
        comparison_at(s, p) is Some,
    ensures
        p < comparison_at(s, p)->Some_0.1,
{
    lemma_operand_advances(s, p);
    let p1 = operand_at(s, p)->Some_0.1;
    let p2 = binary_op(s, p1)->Some_0.1;
    lemma_operand_advances(s, p2);
}

proof fn lemma_condition_advances(s: Seq<u8>, p: int)
    requires
        condition_at(s, p) is Some,
    ensures
        p < condition_at(s, p)->Some_0.1,
    decreases s.len() - p, 0int,
{
    lemma_skip_spaces_ge(s, p);
    let p0 = skip_spaces(s, p);
    match comparison_at(s, p0) {
        Some((c, q)) => {
            lemma_comparison_advances(s, p0);
            lemma_skip_spaces_ge(s, q);
        },
        None => {
            let q = expression_at(s, p0 + 1)->Some_0.1;
            lemma_expression_reaches(s, p0 + 1);
            lemma_skip_spaces_ge(s, q + 1);
        },
    }
}

proof fn lemma_expression_reaches(s: Seq<u8>, p: int)
    requires
        expression_at(s, p) is Some,
    ensures
        p < expression_at(s, p)->Some_0.1,
    decreases s.len() - p, 1int,
{
    lemma_condition_advances(s, p);
    let q = condition_at(s, p)->Some_0.1;
    match connective_at(s, q) {
        Some((op, q2)) => if p < q2 <= s.len() {
            if expression_at(s, q2) is Some {
                lemma_expression_reaches(s, q2);
            }
        },
        None => {},
    }
}

/// A chain groups from the right: where a condition, a connective and a
/// further expression follow one another, the expression read is the
/// condition joined to the whole of that further expression, whatever
/// connectives it holds (`A and B or C` is `A and (B or C)`).
pub proof fn law_chains_group_from_the_right(s: Seq<u8>, p: int)
    requires
        0 <= p <= s.len(),
        condition_at(s, p) is Some,
        connective_at(s, condition_at(s, p)->Some_0.1) is Some,
        expression_at(s, connective_at(s, condition_at(s, p)->Some_0.1)->Some_0.1) is Some,
    ensures
        ({
            let (a, q) = condition_at(s, p)->Some_0;
            let (op, q2) = connective_at(s, q)->Some_0;
            let (t, q3) = expression_at(s, q2)->Some_0;
            expression_at(s, p) == Some(
                (Expression { initial: a, rest: Some((op, Box::new(t))) }, q3),
            )
        }),
{
    lemma_condition_advances(s, p);
    let q = condition_at(s, p)->Some_0.1;
    lemma_expression_reaches(s, connective_at(s, q)->Some_0.1);
}

/// What a syntax error reports.
#[derive(PartialEq, Eq, Structural, Clone, Copy, Debug)]
pub enum SyntaxErrorKind {
    /// No expression could be read at the position.
    NoMatch,
    /// An expression was read, but input remains at the position.
    TrailingInput,
}

/// A syntax error: what went wrong, and the byte offset where it was seen.
#[derive(PartialEq, Eq, Structural, Clone, Copy, Debug)]
pub struct SyntaxError {
    pub kind: SyntaxErrorKind,
    pub position: usize,
}

impl SyntaxError {
    /// What went wrong, in words; `position` says where.
    pub fn message(&self) -> (r: &'static str)
        ensures
            self.kind == SyntaxErrorKind::NoMatch ==> r@ == "no expression could be read here"@,
            self.kind == SyntaxErrorKind::TrailingInput ==> r@
                == "unexpected input after the expression"@,
    {
        match self.kind {
            SyntaxErrorKind::NoMatch => "no expression could be read here",
            SyntaxErrorKind::TrailingInput => "unexpected input after the expression",
        }
    }
}

/// The whole of `s` read as one expression, with whitespace around it.
pub open spec fn parse_bytes(s: Seq<u8>) -> Result<Expression, (SyntaxErrorKind, int)> {
    let p0 = skip_spaces(s, 0);
    match expression_at(s, p0) {
        None => Err((SyntaxErrorKind::NoMatch, p0)),
        Some((e, q)) => if q == s.len() {
            Ok(e)
        } else {
            Err((SyntaxErrorKind::TrailingInput, q))
        },
    }
}

fn scan_group(b: &[u8], p: usize) -> (r: Option<(Vec<SimpleValue>, usize)>)
    requires
        p <= b@.len(),
    ensures
        match r {
            Some((g, q)) => group_at(b@, p as int) == Some((group_view(g@), q as int)) && p < q
                <= b@.len(),
            None => group_at(b@, p as int) is None,
        },
{
    let n = b.len();
    if !(p < n && b[p] == 40) {
        return None;
    }
    let (v, q) = match scan_scalar(b, p + 1) {
        Some(x) => x,
        None => return None,
    };
    let mut g: Vec<SimpleValue> = Vec::new();
    g.push(v);
    let mut i = q;
    assert(group_view(g@) =~= seq![v@]);
    loop
        invariant
            p < i <= n,
            n == b@.len(),
            group_tail(b@, q as int) == (
                group_view(g@).skip(1) + group_tail(b@, i as int).0,
                group_tail(b@, i as int).1,
            ),
            group_view(g@).len() >= 1,
            group_view(g@)[0] == v@,
        ensures
            p < i <= n,
            group_tail(b@, q as int) == (group_view(g@).skip(1), i as int),
            group_view(g@).len() >= 1,
            group_view(g@)[0] == v@,
        decreases n - i,
    {
        if !(i < n && b[i] == 44) {
            assert(group_view(g@).skip(1) + group_tail(b@, i as int).0 =~= group_view(g@).skip(1));
            break;
        }
        let j = scan_spaces(b, i + 1);
        match scan_scalar(b, j) {
            Some((w, k)) => {
                let ghost before = group_view(g@);
                g.push(w);
                assert(group_view(g@) =~= before.push(w@));
                assert(group_view(g@).skip(1) + group_tail(b@, k as int).0 =~= before.skip(1) + (
                seq![w@] + group_tail(b@, k as int).0));
                i = k;
            },
            None => {
                assert(group_view(g@).skip(1) + group_tail(b@, i as int).0 =~= group_view(
                    g@,
                ).skip(1));
                break;
            },
        }
    }
    assert(seq![v@] + group_view(g@).skip(1) =~= group_view(g@));
    if i < n && b[i] == 41 {
        Some((g, i + 1))
    } else {
        None
    }
}

fn scan_operand(b: &[u8], p: usize) -> (r: Option<(PropertyVal, usize)>)
    requires
        p <= b@.len(),
    ensures
        match r {
            Some((x, q)) => operand_at(b@, p as int) == Some((x@, q as int)) && p < q <= b@.len(),
            None => operand_at(b@, p as int) is None,
        },
{
    let p0 = scan_spaces(b, p);
    match scan_group(b, p0) {
        Some((g, q)) => Some((PropertyVal::Group(g), scan_spaces(b, q))),
        None => match scan_scalar(b, p0) {
            Some((v, q)) => Some((PropertyVal::SimpleValue(v), scan_spaces(b, q))),
            None => None,
        },
    }
}

fn scan_comparison(b: &[u8], p: usize) -> (r: Option<(BooleanCondition, usize)>)
    requires
        p <= b@.len(),
    ensures
        match r {
            Some((c, q)) => comparison_at(b@, p as int) == Some((c@, q as int)) && p < q
                <= b@.len(),
            None => comparison_at(b@, p as int) is None,
        },
{
    let _n = b.len();
    let (l, p1) = match scan_operand(b, p) {
        Some(x) => x,
        None => return None,
    };
    let (op, p2) = match scan_binary_op(b, p1) {
        Some(x) => x,
        None => return None,
    };
    let (r, p3) = match scan_operand(b, p2) {
        Some(x) => x,
        None => return None,
    };
    Some((BooleanCondition::Comparison(l, op, r), p3))
}

fn scan_connective(b: &[u8], p: usize) -> (r: Option<(AndOr, usize)>)
    ensures
        match r {
            Some((c, q)) => connective_at(b@, p as int) == Some((c, q as int)) && p < q <= b@.len(),
            None => connective_at(b@, p as int) is None,
        },
{
    let _n = b.len();
    let a: &[u8] = &[97u8, 110, 100];
    let o: &[u8] = &[111u8, 114];
    assert(a@ == seq![97u8, 110, 100]);
    assert(o@ == seq![111u8, 114]);
    if match_word(b, p, a) {
        Some((AndOr::And, p + 3))
    } else if match_word(b, p, o) {
        Some((AndOr::Or, p + 2))
    } else {
        None
    }
}

fn scan_condition(b: &[u8], p: usize) -> (r: Option<(BooleanCondition, usize)>)
    requires
        p <= b@.len(),
    ensures
        match r {
            Some((c, q)) => condition_at(b@, p as int) == Some((c@, q as int)) && p < q <= b@.len(),
            None => condition_at(b@, p as int) is None,
        },
    decreases b@.len() - p, 0int,
{
    let n = b.len();
    let p0 = scan_spaces(b, p);
    match scan_comparison(b, p0) {
        Some((c, q)) => Some((c, scan_spaces(b, q))),
        None => if p0 < n && b[p0] == 40 {
            match scan_expression(b, p0 + 1) {
                Some((e, q)) => if q < n && b[q] == 41 {
                    Some((BooleanCondition::Group(Box::new(e)), scan_spaces(b, q + 1)))
                } else {
                    None
                },
                None => None,
            }
        } else {
            None
        },
    }
}

fn scan_expression(b: &[u8], p: usize) -> (r: Option<(BooleanExpression, usize)>)
    requires
        p <= b@.len(),
    ensures
        match r {
            Some((e, q)) => expression_at(b@, p as int) == Some((e@, q as int)) && p < q
                <= b@.len(),
            None => expression_at(b@, p as int) is None,
        },
    decreases b@.len() - p, 1int,
{
    let (c, q) = match scan_condition(b, p) {
        Some(x) => x,
        None => return None,
    };
    match scan_connective(b, q) {
        Some((op, q2)) => match scan_expression(b, q2) {
            Some((t, q3)) => Some((BooleanExpression { initial: c, rest: Some((op, Box::new(t))) }, q3)),
            None => Some((BooleanExpression { initial: c, rest: None }, q)),
        },
        None => Some((BooleanExpression { initial: c, rest: None }, q)),
    }
}

/// Parses `input` as one expression. On failure the error says whether no
/// expression could be read, or input was left over, and where.
pub fn parse(input: &str) -> (r: Result<BooleanExpression, SyntaxError>)
    ensures
        match r {
            Ok(e) => parse_bytes(input.spec_bytes()) == Ok::<Expression, (SyntaxErrorKind, int)>(e@),
            Err(err) => parse_bytes(input.spec_bytes()) == Err::<Expression, (SyntaxErrorKind, int)>(
                (err.kind, err.position as int),
            ),
        },
{
    let b = input.as_bytes();
    let p0 = scan_spaces(b, 0);
    match scan_expression(b, p0) {
        None => Err(SyntaxError { kind: SyntaxErrorKind::NoMatch, position: p0 }),
        Some((e, q)) => if q == b.len() {
            Ok(e)
        } else {
            Err(SyntaxError { kind: SyntaxErrorKind::TrailingInput, position: q })
        },
    }
}

/// Reads `text` as one number literal (`20`, `-3.5`, `1e3`), with no
/// whitespace around it.
pub fn parse_number(text: &str) -> (r: Option<Number>)
    ensures
        match number_at(text.spec_bytes(), 0) {
            Some((x, q)) => if q == text.spec_bytes().len() {
                r matches Some(y) && y@ == x
            } else {
                r is None
            },
            None => r is None,
        },
{
    let b = text.as_bytes();
    match scan_number(b, 0) {
        Some((x, q)) => if q == b.len() {
            Some(x)
        } else {
            None
        },
        None => None,
    }
}

} // verus!

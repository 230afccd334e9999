//! Source text for an expression tree, and the proof that the text reads
//! back as the same tree.

use vstd::prelude::*;

use crate::parser::{
    capped_value, exponent_at, is_letter, leading_zeros, number_at, skip_digits, skip_letters,
    skip_spaces, skip_to_quote, string_at, trim_trailing_zeros, word_at, EXPONENT_CAP,
};
use crate::evaluator::{eval_condition, eval_expression, ContextModel, EvalFailure};
use crate::tree::{
    group_view, AndOr, BinOp, BooleanCondition, BooleanExpression, Condition, Expression, Operand,
    PropertyVal,
};
use crate::value::{is_digit, path_view, Number, NumberModel, Scalar, SimpleValue};

verus! {

/// `t` stands in `s` at `p`.
pub open spec fn text_at(s: Seq<u8>, p: int, t: Seq<u8>) -> bool {
    &&& 0 <= p && p + t.len() <= s.len()
    &&& forall|i: int| 0 <= i < t.len() ==> #[trigger] s[p + i] == t[i]
}

/// What may follow a printed token: the end, a space, `,` or `)`.
pub open spec fn boundary(s: Seq<u8>, q: int) -> bool {
    q == s.len() || (0 <= q < s.len() && (s[q] == 32 || s[q] == 44 || s[q] == 41))
}

/// Decimal digits of `m`.
pub open spec fn decimal(m: nat) -> Seq<u8>
    decreases m,
{
    if m < 10 {
        seq![(48 + m) as u8]
    } else {
        decimal(m / 10) + seq![(48 + m % 10) as u8]
    }
}

pub open spec fn exponent_text(x: int) -> Seq<u8> {
    if x < 0 {
        seq![45u8] + decimal((-x) as nat)
    } else {
        decimal(x as nat)
    }
}

/// A number as text: `0`, or `-`? `0.` digits `e` exponent.
pub open spec fn number_text(n: NumberModel) -> Seq<u8> {
    if n.digits.len() == 0 {
        seq![48u8]
    } else {
        (if n.negative {
            seq![45u8]
        } else {
            seq![]
        }) + seq![48u8, 46u8] + n.digits + seq![101u8] + exponent_text(n.exponent)
    }
}

proof fn lemma_text_split(s: Seq<u8>, p: int, a: Seq<u8>, b: Seq<u8>)
    requires
        text_at(s, p, a + b),
    ensures
        text_at(s, p, a),
        text_at(s, p + a.len(), b),
{
    assert forall|i: int| 0 <= i < a.len() implies #[trigger] s[p + i] == a[i] by {
        assert(s[p + i] == (a + b)[i]);
    }
    assert forall|i: int| 0 <= i < b.len() implies #[trigger] s[p + a.len() + i] == b[i] by {
        assert(s[p + (a.len() + i)] == (a + b)[a.len() + i]);
    }
}

proof fn lemma_text_subrange(s: Seq<u8>, p: int, t: Seq<u8>)
    requires
        text_at(s, p, t),
    ensures
        s.subrange(p, p + t.len()) == t,
{
    assert forall|i: int| 0 <= i < t.len() implies s.subrange(p, p + t.len())[i] == t[i] by {
        assert(s[p + i] == t[i]);
    }
    assert(s.subrange(p, p + t.len()) =~= t);
}

proof fn lemma_digit_run(s: Seq<u8>, p: int, t: Seq<u8>)
    requires
        text_at(s, p, t),
        forall|i: int| 0 <= i < t.len() ==> is_digit(#[trigger] t[i]),
        p + t.len() == s.len() || !is_digit(s[p + t.len()]),
    ensures
        skip_digits(s, p) == p + t.len(),
    decreases t.len(),
{
    if t.len() > 0 {
        assert(s[p + 0] == t[0]);
        lemma_text_split(s, p, seq![t[0]], t.drop_first());
        assert(seq![t[0]] + t.drop_first() =~= t);
        assert forall|i: int| 0 <= i < t.drop_first().len() implies is_digit(
            #[trigger] t.drop_first()[i],
        ) by {
            assert(t.drop_first()[i] == t[i + 1]);
        }
        lemma_digit_run(s, p + 1, t.drop_first());
    }
}

proof fn lemma_letter_run(s: Seq<u8>, p: int, t: Seq<u8>)
    requires
        text_at(s, p, t),
        forall|i: int| 0 <= i < t.len() ==> is_letter(#[trigger] t[i]),
        p + t.len() == s.len() || !is_letter(s[p + t.len()]),
    ensures
        skip_letters(s, p) == p + t.len(),
    decreases t.len(),
{
    if t.len() > 0 {
        assert(s[p + 0] == t[0]);
        lemma_text_split(s, p, seq![t[0]], t.drop_first());
        assert(seq![t[0]] + t.drop_first() =~= t);
        assert forall|i: int| 0 <= i < t.drop_first().len() implies is_letter(
            #[trigger] t.drop_first()[i],
        ) by {
            assert(t.drop_first()[i] == t[i + 1]);
        }
        lemma_letter_run(s, p + 1, t.drop_first());
    }
}

proof fn lemma_quote_run(s: Seq<u8>, p: int, t: Seq<u8>)
    requires
        text_at(s, p, t),
        forall|i: int| 0 <= i < t.len() ==> #[trigger] t[i] != 34,
        p + t.len() < s.len() && s[p + t.len()] == 34,
    ensures
        skip_to_quote(s, p) == p + t.len(),
    decreases t.len(),
{
    if t.len() > 0 {
        assert(s[p + 0] == t[0]);
        lemma_text_split(s, p, seq![t[0]], t.drop_first());
        assert(seq![t[0]] + t.drop_first() =~= t);
        assert forall|i: int| 0 <= i < t.drop_first().len() implies #[trigger] t.drop_first()[i]
            != 34 by {
            assert(t.drop_first()[i] == t[i + 1]);
        }
        lemma_quote_run(s, p + 1, t.drop_first());
    }
}

proof fn lemma_decimal(m: nat)
    ensures
        decimal(m).len() >= 1,
        forall|i: int| 0 <= i < decimal(m).len() ==> is_digit(#[trigger] decimal(m)[i]),
        m <= EXPONENT_CAP ==> capped_value(decimal(m)) == m,
    decreases m,
{
    if m >= 10 {
        lemma_decimal(m / 10);
        let d = decimal(m);
        assert(d.drop_last() =~= decimal(m / 10));
        assert forall|i: int| 0 <= i < d.len() implies is_digit(#[trigger] d[i]) by {
            if i < d.len() - 1 {
                assert(d[i] == decimal(m / 10)[i]);
            }
        }
        assert((m / 10) * 10 + m % 10 == m) by (nonlinear_arith);
        assert(m % 10 < 10);
        assert(d.last() == (48 + m % 10) as u8);
        assert(d.last() - 48 == m % 10);
        assert(m / 10 <= m);
        if m <= EXPONENT_CAP {
            assert(capped_value(d.drop_last()) == m / 10);
            assert(capped_value(d) == m);
        }
    } else {
        let d = decimal(m);
        assert(d.drop_last() =~= Seq::<u8>::empty());
        assert(d.last() - 48 == m);
        assert(capped_value(d.drop_last()) == 0);
    }
}

proof fn lemma_exponent_text(s: Seq<u8>, p: int, x: int)
    requires
        -(EXPONENT_CAP as int) <= x <= EXPONENT_CAP,
        0 <= p < s.len() && (s[p] == 101),
        text_at(s, p + 1, exponent_text(x)),
        boundary(s, p + 1 + exponent_text(x).len()),
    ensures
        exponent_at(s, p) == (x, p + 1 + exponent_text(x).len()),
{
    let m: nat = if x < 0 {
        (-x) as nat
    } else {
        x as nat
    };
    lemma_decimal(m);
    let d = decimal(m);
    let end = p + 1 + exponent_text(x).len();
    if x < 0 {
        lemma_text_split(s, p + 1, seq![45u8], d);
        assert(s[p + 1 + 0] == 45u8);
        assert(s[p + 2 + 0] == d[0]);
        lemma_digit_run(s, p + 2, d);
        lemma_text_subrange(s, p + 2, d);
    } else {
        assert(s[p + 1 + 0] == d[0]);
        lemma_digit_run(s, p + 1, d);
        lemma_text_subrange(s, p + 1, d);
    }
}

/// Printed numbers read back as themselves.
pub proof fn lemma_number_text(s: Seq<u8>, p: int, n: NumberModel)
    requires
        n.wf(),
        -(EXPONENT_CAP as int) <= n.exponent <= EXPONENT_CAP,
        text_at(s, p, number_text(n)),
        boundary(s, p + number_text(n).len()),
    ensures
        number_at(s, p) == Some((n, p + number_text(n).len())),
{
    if n.digits.len() == 0 {
        assert(s[p + 0] == 48u8);
        assert(s.subrange(p, p + 1) =~= seq![48u8]);
        assert(seq![48u8].skip(1) =~= Seq::<u8>::empty());
        assert(leading_zeros(seq![48u8].drop_first()) == 0);
        assert(trim_trailing_zeros(Seq::<u8>::empty()) == Seq::<u8>::empty());
        assert(n.digits =~= Seq::<u8>::empty());
    } else {
        let d = n.digits;
        let sign: Seq<u8> = if n.negative {
            seq![45u8]
        } else {
            seq![]
        };
        let et = exponent_text(n.exponent);
        let o = p + sign.len();
        assert(number_text(n) =~= sign + (seq![48u8, 46u8] + (d + (seq![101u8] + et))));
        lemma_text_split(s, p, sign, seq![48u8, 46u8] + (d + (seq![101u8] + et)));
        lemma_text_split(s, o, seq![48u8, 46u8], d + (seq![101u8] + et));
        lemma_text_split(s, o + 2, d, seq![101u8] + et);
        lemma_text_split(s, o + 2 + d.len(), seq![101u8], et);
        assert(s[o + 0] == 48u8);
        assert(s[o + 1] == 46u8);
        assert(s[o + 2 + 0] == d[0]);
        assert(s[o + 2 + d.len() + 0] == 101u8);
        if n.negative {
            assert(s[p + 0] == 45u8);
        }
        lemma_digit_run(s, o + 2, d);
        lemma_text_subrange(s, o + 2, d);
        assert(s.subrange(o, o + 1) =~= seq![48u8]);
        lemma_exponent_text(s, o + 2 + d.len(), n.exponent);
        let ds = seq![48u8] + d;
        assert(ds.drop_first() =~= d);
        assert(ds[0] == 48u8);
        assert(d[0] != 48u8);
        assert(leading_zeros(d) == 0);
        assert(leading_zeros(ds) == 1);
        assert(ds.skip(1) =~= d);
        assert(trim_trailing_zeros(d) == d);
        assert(number_text(n).len() == sign.len() + 3 + d.len() + et.len());
    }
}

/// Further segments of a path as text: `.segment` for each.
pub open spec fn tail_text(segs: Seq<Seq<u8>>) -> Seq<u8>
    decreases segs.len(),
{
    if segs.len() == 0 {
        seq![]
    } else {
        seq![46u8] + segs[0] + tail_text(segs.drop_first())
    }
}

/// A path as text: its segments joined by `.`.
pub open spec fn path_text(path: Seq<Seq<u8>>) -> Seq<u8> {
    if path.len() == 0 {
        seq![]
    } else {
        path[0] + tail_text(path.drop_first())
    }
}

pub open spec fn letters(t: Seq<u8>) -> bool {
    t.len() > 0 && forall|i: int| 0 <= i < t.len() ==> is_letter(#[trigger] t[i])
}

pub open spec fn word_true() -> Seq<u8> {
    seq![116u8, 114, 117, 101]
}

pub open spec fn word_false() -> Seq<u8> {
    seq![102u8, 97, 108, 115, 101]
}

pub open spec fn word_none() -> Seq<u8> {
    seq![110u8, 111, 110, 101]
}

/// `t` is the word `w`, each letter in either case.
pub open spec fn whole_word(t: Seq<u8>, w: Seq<u8>) -> bool {
    t.len() == w.len() && word_at(t, 0, w)
}

/// A path that reads back as itself: segments of letters, and not a single
/// segment that is a literal word (`true`, `false`, `none`, any case).
pub open spec fn printable_path(path: Seq<Seq<u8>>) -> bool {
    &&& path.len() > 0
    &&& forall|i: int| 0 <= i < path.len() ==> letters(#[trigger] path[i])
    &&& !(path.len() == 1 && (whole_word(path[0], word_true()) || whole_word(
        path[0],
        word_false(),
    ) || whole_word(path[0], word_none())))
}

/// A scalar as text.
pub open spec fn scalar_text(v: Scalar) -> Seq<u8> {
    match v {
        Scalar::Number(n) => number_text(n),
        Scalar::Str(t) => seq![34u8] + t + seq![34u8],
        Scalar::Bool(b) => if b {
            word_true()
        } else {
            word_false()
        },
        Scalar::Absent => word_none(),
        Scalar::Path(path) => path_text(path),
    }
}

/// A scalar whose text reads back as itself.
pub open spec fn printable_scalar(v: Scalar) -> bool {
    match v {
        Scalar::Number(n) => n.wf() && -(EXPONENT_CAP as int) <= n.exponent <= EXPONENT_CAP,
        Scalar::Str(t) => forall|i: int| 0 <= i < t.len() ==> #[trigger] t[i] != 34,
        Scalar::Path(path) => printable_path(path),
        _ => true,
    }
}

proof fn lemma_tail_text(s: Seq<u8>, p: int, segs: Seq<Seq<u8>>)
    requires
        forall|i: int| 0 <= i < segs.len() ==> letters(#[trigger] segs[i]),
        text_at(s, p, tail_text(segs)),
        boundary(s, p + tail_text(segs).len()),
    ensures
        crate::parser::path_tail(s, p) == (segs, p + tail_text(segs).len()),
    decreases segs.len(),
{
    if segs.len() > 0 {
        let seg = segs[0];
        let rest = segs.drop_first();
        assert(letters(segs[0]));
        assert forall|i: int| 0 <= i < rest.len() implies letters(#[trigger] rest[i]) by {
            assert(rest[i] == segs[i + 1]);
        }
        assert(tail_text(segs) =~= seq![46u8] + (seg + tail_text(rest)));
        lemma_text_split(s, p, seq![46u8], seg + tail_text(rest));
        lemma_text_split(s, p + 1, seg, tail_text(rest));
        assert(s[p + 0] == 46u8);
        assert(s[p + 1 + 0] == seg[0]);
        if rest.len() > 0 {
            assert(tail_text(rest)[0] == 46u8);
            assert(s[p + 1 + seg.len() + 0] == 46u8);
        }
        lemma_letter_run(s, p + 1, seg);
        lemma_text_subrange(s, p + 1, seg);
        lemma_tail_text(s, p + 1 + seg.len(), rest);
        assert(seq![seg] + rest =~= segs);
    } else {
        assert(segs =~= Seq::<Seq<u8>>::empty());
    }
}

proof fn lemma_path_text(s: Seq<u8>, p: int, path: Seq<Seq<u8>>)
    requires
        printable_path(path),
        text_at(s, p, path_text(path)),
        boundary(s, p + path_text(path).len()),
    ensures
        crate::parser::path_at(s, p) == Some((path, p + path_text(path).len())),
{
    let seg = path[0];
    let rest = path.drop_first();
    assert(letters(path[0]));
    assert forall|i: int| 0 <= i < rest.len() implies letters(#[trigger] rest[i]) by {
        assert(rest[i] == path[i + 1]);
    }
    lemma_text_split(s, p, seg, tail_text(rest));
    assert(s[p + 0] == seg[0]);
    if rest.len() > 0 {
        assert(tail_text(rest)[0] == 46u8);
        assert(s[p + seg.len() + 0] == 46u8);
    }
    lemma_letter_run(s, p, seg);
    lemma_text_subrange(s, p, seg);
    lemma_tail_text(s, p + seg.len(), rest);
    assert(seq![seg] + rest =~= path);
}

/// A printable path is never read as one of the literal words.
proof fn lemma_keyword_absent(s: Seq<u8>, p: int, path: Seq<Seq<u8>>, w: Seq<u8>)
    requires
        printable_path(path),
        text_at(s, p, path_text(path)),
        boundary(s, p + path_text(path).len()),
        w.len() > 0,
        forall|i: int| 0 <= i < w.len() ==> 97 <= #[trigger] w[i] <= 122,
        w == word_true() || w == word_false() || w == word_none(),
    ensures
        !crate::parser::keyword_at(s, p, w),
{
    let seg = path[0];
    let rest = path.drop_first();
    assert(letters(path[0]));
    lemma_text_split(s, p, seg, tail_text(rest));
    let m = seg.len() as int;
    let k = w.len() as int;
    if rest.len() > 0 {
        assert(letters(path[1]));
        assert(rest[0] == path[1]);
        assert(tail_text(rest) =~= seq![46u8] + (rest[0] + tail_text(rest.drop_first())));
        lemma_text_split(s, p + m, seq![46u8], rest[0] + tail_text(rest.drop_first()));
        lemma_text_split(s, p + m + 1, rest[0], tail_text(rest.drop_first()));
        assert(s[p + m + 0] == 46u8);
        assert(s[p + m + 1 + 0] == rest[0][0]);
    }
    if crate::parser::keyword_at(s, p, w) {
        if m > k {
            assert(s[p + k] == seg[k]);
            assert(is_letter(seg[k]));
        } else if m < k {
            assert(s[p + m] == w[m] || s[p + m] == crate::parser::upper(w[m]));
        } else {
            assert forall|i: int| 0 <= i < w.len() implies (#[trigger] seg[0 + i] == w[i] || seg[0
                + i] == crate::parser::upper(w[i])) by {
                assert(s[p + i] == seg[i]);
            }
            assert(whole_word(seg, w));
        }
    }
}

proof fn lemma_string_text(s: Seq<u8>, p: int, t: Seq<u8>)
    requires
        forall|i: int| 0 <= i < t.len() ==> #[trigger] t[i] != 34,
        text_at(s, p, seq![34u8] + t + seq![34u8]),
    ensures
        string_at(s, p) == Some((t, p + t.len() + 2)),
{
    assert(seq![34u8] + t + seq![34u8] =~= seq![34u8] + (t + seq![34u8]));
    lemma_text_split(s, p, seq![34u8], t + seq![34u8]);
    lemma_text_split(s, p + 1, t, seq![34u8]);
    assert(s[p + 0] == 34u8);
    assert(s[p + 1 + t.len() + 0] == 34u8);
    lemma_quote_run(s, p + 1, t);
    lemma_text_subrange(s, p + 1, t);
}

proof fn lemma_word_text(s: Seq<u8>, p: int, w: Seq<u8>)
    requires
        text_at(s, p, w),
    ensures
        word_at(s, p, w),
{
    assert forall|i: int| 0 <= i < w.len() implies (#[trigger] s[p + i] == w[i] || s[p + i]
        == crate::parser::upper(w[i])) by {}
}

proof fn lemma_scalar_text(s: Seq<u8>, p: int, v: Scalar)
    requires
        printable_scalar(v),
        text_at(s, p, scalar_text(v)),
        boundary(s, p + scalar_text(v).len()),
    ensures
        scalar_text(v).len() > 0,
        !crate::parser::is_space(s[p]),
        s[p] != 40 && s[p] != 41 && s[p] != 44,
        crate::parser::scalar_at(s, p) == Some(
            (v, skip_spaces(s, p + scalar_text(v).len())),
        ),
{
    let t = scalar_text(v);
    match v {
        Scalar::Number(n) => {
            lemma_number_text(s, p, n);
            if n.digits.len() > 0 && n.negative {
                assert(t[0] == 45u8);
            } else {
                assert(t[0] == 48u8);
            }
        },
        Scalar::Str(x) => {
            lemma_string_text(s, p, x);
            assert(t[0] == 34u8);
        },
        Scalar::Bool(b) => {
            lemma_word_text(s, p, t);
            assert(t[0] == 116u8 || t[0] == 102u8);
        },
        Scalar::Absent => {
            lemma_word_text(s, p, t);
            assert(t[0] == 110u8);
        },
        Scalar::Path(path) => {
            lemma_path_text(s, p, path);
            assert(letters(path[0]));
            assert(t[0] == path[0][0]);
            lemma_keyword_absent(s, p, path, word_true());
            lemma_keyword_absent(s, p, path, word_false());
            lemma_keyword_absent(s, p, path, word_none());
            assert(is_letter(t[0]));
        },
    }
    assert(s[p + 0] == t[0]);
}

/// Nothing is read as a scalar at `(`.
proof fn lemma_no_scalar_at_paren(s: Seq<u8>, p: int)
    requires
        0 <= p < s.len(),
        s[p] == 40,
    ensures
        crate::parser::scalar_at(s, p) is None,
{
    assert(skip_spaces(s, p) == p);
    assert(!word_at(s, p, word_true()) && !word_at(s, p, word_false()) && !word_at(
        s,
        p,
        word_none(),
    )) by {
        assert(s[p + 0] == 40);
    }
}

/// Elements after the first, as text: `, ` before each.
pub open spec fn rest_text(g: Seq<Scalar>) -> Seq<u8>
    decreases g.len(),
{
    if g.len() == 0 {
        seq![]
    } else {
        seq![44u8, 32u8] + scalar_text(g[0]) + rest_text(g.drop_first())
    }
}

/// The elements of a group as text, separated by `, `.
pub open spec fn items_text(g: Seq<Scalar>) -> Seq<u8> {
    if g.len() == 0 {
        seq![]
    } else {
        scalar_text(g[0]) + rest_text(g.drop_first())
    }
}

proof fn lemma_rest_text(s: Seq<u8>, p: int, g: Seq<Scalar>)
    requires
        forall|i: int| 0 <= i < g.len() ==> printable_scalar(#[trigger] g[i]),
        text_at(s, p, rest_text(g)),
        p + rest_text(g).len() < s.len(),
        s[p + rest_text(g).len()] == 41,
    ensures
        crate::parser::group_tail(s, p) == (g, p + rest_text(g).len()),
    decreases g.len(),
{
    if g.len() > 0 {
        let x = g[0];
        let rest = g.drop_first();
        assert(printable_scalar(g[0]));
        assert forall|i: int| 0 <= i < rest.len() implies printable_scalar(#[trigger] rest[i]) by {
            assert(rest[i] == g[i + 1]);
        }
        assert(rest_text(g) =~= seq![44u8, 32u8] + (scalar_text(x) + rest_text(rest)));
        lemma_text_split(s, p, seq![44u8, 32u8], scalar_text(x) + rest_text(rest));
        lemma_text_split(s, p + 2, scalar_text(x), rest_text(rest));
        assert(s[p + 0] == 44u8);
        assert(s[p + 1] == 32u8);
        let e = p + 2 + scalar_text(x).len();
        if rest.len() > 0 {
            assert(rest_text(rest)[0] == 44u8);
            assert(s[e + 0] == 44u8);
        }
        lemma_scalar_text(s, p + 2, x);
        assert(skip_spaces(s, p + 2) == p + 2);
        assert(skip_spaces(s, p + 1) == p + 2);
        assert(skip_spaces(s, e) == e);
        lemma_rest_text(s, e, rest);
        assert(seq![x] + rest =~= g);
    } else {
        assert(g =~= Seq::<Scalar>::empty());
    }
}

proof fn lemma_group_text(s: Seq<u8>, p: int, g: Seq<Scalar>)
    requires
        g.len() > 0,
        forall|i: int| 0 <= i < g.len() ==> printable_scalar(#[trigger] g[i]),
        text_at(s, p, seq![40u8] + items_text(g) + seq![41u8]),
    ensures
        crate::parser::group_at(s, p) == Some((g, p + items_text(g).len() + 2)),
{
    let x = g[0];
    let rest = g.drop_first();
    assert(printable_scalar(g[0]));
    assert forall|i: int| 0 <= i < rest.len() implies printable_scalar(#[trigger] rest[i]) by {
        assert(rest[i] == g[i + 1]);
    }
    assert(seq![40u8] + items_text(g) + seq![41u8] =~= seq![40u8] + (scalar_text(x) + (
    rest_text(rest) + seq![41u8])));
    lemma_text_split(s, p, seq![40u8], scalar_text(x) + (rest_text(rest) + seq![41u8]));
    lemma_text_split(s, p + 1, scalar_text(x), rest_text(rest) + seq![41u8]);
    let e = p + 1 + scalar_text(x).len();
    lemma_text_split(s, e, rest_text(rest), seq![41u8]);
    assert(s[p + 0] == 40u8);
    assert(s[e + rest_text(rest).len() + 0] == 41u8);
    if rest.len() > 0 {
        assert(rest_text(rest)[0] == 44u8);
        assert(s[e + 0] == 44u8);
    }
    lemma_scalar_text(s, p + 1, x);
    assert(skip_spaces(s, e) == e);
    lemma_rest_text(s, e, rest);
    assert(seq![x] + rest =~= g);
}

/// An operand as text.
pub open spec fn operand_text(x: Operand) -> Seq<u8> {
    match x {
        Operand::Single(v) => scalar_text(v),
        Operand::Group(g) => seq![40u8] + items_text(g) + seq![41u8],
    }
}

/// An operand whose text reads back as itself.
pub open spec fn printable_operand(x: Operand) -> bool {
    match x {
        Operand::Single(v) => printable_scalar(v),
        Operand::Group(g) => g.len() > 0 && forall|i: int|
            0 <= i < g.len() ==> printable_scalar(#[trigger] g[i]),
    }
}

proof fn lemma_skip_spaces_twice(s: Seq<u8>, p: int)
    ensures
        skip_spaces(s, skip_spaces(s, p)) == skip_spaces(s, p),
    decreases s.len() - p,
{
    if 0 <= p < s.len() && crate::parser::is_space(s[p]) {
        lemma_skip_spaces_twice(s, p + 1);
    }
}

#[verifier::spinoff_prover]
proof fn lemma_operand_text(s: Seq<u8>, q: int, p: int, x: Operand)
    requires
        printable_operand(x),
        0 <= q <= p,
        spaces_between(s, q, p),
        text_at(s, p, operand_text(x)),
        boundary(s, p + operand_text(x).len()),
    ensures
        operand_text(x).len() > 0,
        !crate::parser::is_space(s[p]),
        crate::parser::operand_at(s, q) == Some(
            (x, skip_spaces(s, p + operand_text(x).len())),
        ),
{
    match x {
        Operand::Single(v) => {
            lemma_scalar_text(s, p, v);
            lemma_skip_over_spaces(s, q, p);
            lemma_skip_spaces_twice(s, p + scalar_text(v).len());
        },
        Operand::Group(g) => {
            lemma_group_text(s, p, g);
            assert(s[p + 0] == 40u8);
            lemma_skip_over_spaces(s, q, p);
        },
    }
}

/// The spelling an operator is printed with.
pub open spec fn op_text(op: BinOp) -> Seq<u8> {
    match op {
        BinOp::Equal => seq![61u8, 61],
        BinOp::NotEqual => seq![33u8, 61],
        BinOp::GreaterThan => seq![62u8],
        BinOp::GreaterThanOrEqual => seq![62u8, 61],
        BinOp::LessThan => seq![60u8],
        BinOp::LessThanOrEqual => seq![60u8, 61],
        BinOp::In => seq![105u8, 110],
        BinOp::NotIn => seq![110u8, 111, 116, 105, 110],
        BinOp::Is => seq![105u8, 115],
        BinOp::IsNot => seq![105u8, 115, 110, 111, 116],
        BinOp::SubSetOf => seq![0xe2u8, 0x8a, 0x86],
        BinOp::SuperSetOf => seq![0xe2u8, 0x8a, 0x87],
        BinOp::IntersectionOf => seq![0xe2u8, 0x88, 0xa9],
        BinOp::NotIntersectionOf => seq![110u8, 111, 116, 0xe2, 0x88, 0xa9],
    }
}

proof fn lemma_lit_is_text(s: Seq<u8>, p: int, t: Seq<u8>)
    ensures
        crate::parser::lit_at(s, p, t) == text_at(s, p, t),
{
    if crate::parser::lit_at(s, p, t) {
        assert forall|i: int| 0 <= i < t.len() implies #[trigger] s[p + i] == t[i] by {
            assert(s.subrange(p, p + t.len())[i] == s[p + i]);
        }
    }
    if text_at(s, p, t) {
        lemma_text_subrange(s, p, t);
    }
}

proof fn lemma_op_text(s: Seq<u8>, p: int, op: BinOp)
    requires
        text_at(s, p, op_text(op)),
        p + op_text(op).len() < s.len(),
        s[p + op_text(op).len()] == 32,
    ensures
        crate::parser::binary_op(s, p) == Some((op, p + op_text(op).len())),
{
    let t = op_text(op);
    let n = t.len();
    assert(s[p + 0] == t[0]);
    if n > 1 {
        assert(s[p + 1] == t[1]);
    }
    if n > 2 {
        assert(s[p + 2] == t[2]);
    }
    if n > 3 {
        assert(s[p + 3] == t[3]);
    }
    if n > 4 {
        assert(s[p + 4] == t[4]);
    }
    if n > 5 {
        assert(s[p + 5] == t[5]);
    }
    assert(s[p + n] == 32);
    lemma_lit_is_text(s, p, seq![61u8, 61]);
    lemma_lit_is_text(s, p, seq![61u8]);
    lemma_lit_is_text(s, p, seq![101u8, 113]);
    lemma_lit_is_text(s, p, seq![33u8, 61]);
    lemma_lit_is_text(s, p, seq![110u8, 101]);
    lemma_lit_is_text(s, p, seq![0xe2u8, 0x89, 0xa0]);
    lemma_lit_is_text(s, p, seq![62u8, 61]);
    lemma_lit_is_text(s, p, seq![103u8, 101]);
    lemma_lit_is_text(s, p, seq![0xe2u8, 0x89, 0xa5]);
    lemma_lit_is_text(s, p, seq![62u8]);
    lemma_lit_is_text(s, p, seq![103u8, 116]);
    lemma_lit_is_text(s, p, seq![60u8, 61]);
    lemma_lit_is_text(s, p, seq![108u8, 101]);
    lemma_lit_is_text(s, p, seq![0xe2u8, 0x89, 0xa4]);
    lemma_lit_is_text(s, p, seq![60u8]);
    lemma_lit_is_text(s, p, seq![108u8, 116]);
    lemma_lit_is_text(s, p, seq![105u8, 110]);
    lemma_lit_is_text(s, p, seq![0xe2u8, 0x88, 0x88]);
    lemma_lit_is_text(s, p, seq![110u8, 111, 116, 105, 110]);
    lemma_lit_is_text(s, p, seq![0xe2u8, 0x88, 0x89]);
    lemma_lit_is_text(s, p, seq![105u8, 115, 110, 111, 116]);
    lemma_lit_is_text(s, p, seq![105u8, 115]);
    lemma_lit_is_text(s, p, seq![0xe2u8, 0x8a, 0x86]);
    lemma_lit_is_text(s, p, seq![0xe2u8, 0x8a, 0x87]);
    lemma_lit_is_text(s, p, seq![0xe2u8, 0x88, 0xa9]);
    lemma_lit_is_text(s, p, seq![110u8, 111, 116, 0xe2, 0x88, 0xa9]);
}

/// A connective as text, with a space on each side.
pub open spec fn connective_text(op: AndOr) -> Seq<u8> {
    match op {
        AndOr::And => seq![32u8, 97, 110, 100, 32],
        AndOr::Or => seq![32u8, 111, 114, 32],
    }
}

/// A condition as text: `l op r`, or `(` expression `)`.
pub open spec fn condition_text(c: Condition) -> Seq<u8>
    decreases c,
{
    match c {
        Condition::Comparison(l, op, r) => operand_text(l) + seq![32u8] + op_text(op) + seq![32u8]
            + operand_text(r),
        Condition::Group(e) => seq![40u8] + expression_text(*e) + seq![41u8],
    }
}

/// An expression as text: its conditions joined by ` and ` / ` or `.
pub open spec fn expression_text(e: Expression) -> Seq<u8>
    decreases e,
{
    condition_text(e.initial) + match e.rest {
        None => seq![],
        Some((op, t)) => connective_text(op) + expression_text(*t),
    }
}

/// A condition whose text reads back as itself.
pub open spec fn printable_condition(c: Condition) -> bool
    decreases c,
{
    match c {
        Condition::Comparison(l, _, r) => printable_operand(l) && printable_operand(r),
        Condition::Group(e) => printable_expression(*e),
    }
}

/// An expression whose text reads back as itself: every number in normal
/// form with its exponent within the cap, no `"` inside a string, no empty
/// group, and every path made of letter segments and not one literal word
/// (`true`, `false`, `none`). Every parsed tree is printable
/// (`law_parsed_expressions_print_back`).
pub open spec fn printable_expression(e: Expression) -> bool
    decreases e,
{
    printable_condition(e.initial) && match e.rest {
        None => true,
        Some((_, t)) => printable_expression(*t),
    }
}

pub open spec fn spaces_between(s: Seq<u8>, p: int, q: int) -> bool {
    forall|i: int| p <= i < q ==> crate::parser::is_space(#[trigger] s[i])
}

/// What a scalar read at `p` is followed by, where one is read: never a `,`
/// or a `)`, so no group can start one place before.
pub open spec fn no_group_inside(s: Seq<u8>, p: int) -> bool {
    match crate::parser::scalar_at(s, p) {
        None => true,
        Some((_, q)) => 0 <= q < s.len() && s[q] != 44 && s[q] != 41,
    }
}

proof fn lemma_skip_over_spaces(s: Seq<u8>, p: int, q: int)
    requires
        0 <= p <= q < s.len(),
        spaces_between(s, p, q),
        !crate::parser::is_space(s[q]),
    ensures
        skip_spaces(s, p) == q,
    decreases q - p,
{
    if p < q {
        lemma_skip_over_spaces(s, p + 1, q);
    }
}

#[verifier::spinoff_prover]
#[verifier::rlimit(100)]
proof fn lemma_comparison_text(s: Seq<u8>, p0: int, l: Operand, op: BinOp, r: Operand)
    requires
        printable_operand(l),
        printable_operand(r),
        text_at(s, p0, condition_text(Condition::Comparison(l, op, r))),
        boundary(s, p0 + condition_text(Condition::Comparison(l, op, r)).len()),
    ensures
        !crate::parser::is_space(s[p0]),
        crate::parser::comparison_at(s, p0) == Some(
            (
                Condition::Comparison(l, op, r),
                skip_spaces(s, p0 + condition_text(Condition::Comparison(l, op, r)).len()),
            ),
        ),
{
    let c = Condition::Comparison(l, op, r);
    let lt = operand_text(l);
    let ot = op_text(op);
    let rt = operand_text(r);
    assert(condition_text(c) =~= lt + (seq![32u8] + (ot + (seq![32u8] + rt))));
    lemma_text_split(s, p0, lt, seq![32u8] + (ot + (seq![32u8] + rt)));
    let e1 = p0 + lt.len();
    lemma_text_split(s, e1, seq![32u8], ot + (seq![32u8] + rt));
    lemma_text_split(s, e1 + 1, ot, seq![32u8] + rt);
    let e2 = e1 + 1 + ot.len();
    lemma_text_split(s, e2, seq![32u8], rt);
    assert(s[e1 + 0] == 32u8);
    assert(s[e2 + 0] == 32u8);
    assert(ot.len() > 0);
    assert(s[e1 + 1 + 0] == ot[0]);
    lemma_operand_text(s, p0, p0, l);
    assert(!crate::parser::is_space(ot[0]));
    assert(spaces_between(s, e1, e1 + 1));
    lemma_skip_over_spaces(s, e1, e1 + 1);
    lemma_op_text(s, e1 + 1, op);
    assert(spaces_between(s, e2, e2 + 1));
    lemma_operand_text(s, e2, e2 + 1, r);
    lemma_comparison_from_parts(s, p0, l, op, r, e1 + 1, e2);
}

proof fn lemma_comparison_from_parts(
    s: Seq<u8>,
    p0: int,
    l: Operand,
    op: BinOp,
    r: Operand,
    e1: int,
    e2: int,
)
    requires
        crate::parser::operand_at(s, p0) matches Some((x, q)) && x == l && q == e1,
        crate::parser::binary_op(s, e1) matches Some((o, q)) && o == op && q == e2,
        crate::parser::operand_at(s, e2) is Some,
        crate::parser::operand_at(s, e2)->Some_0.0 == r,
    ensures
        crate::parser::comparison_at(s, p0) == Some(
            (Condition::Comparison(l, op, r), crate::parser::operand_at(s, e2)->Some_0.1),
        ),
{
}

/// After a comparison's left operand comes its operator, never `,` or `)`.
#[verifier::spinoff_prover]
#[verifier::rlimit(100)]
proof fn lemma_comparison_no_group(s: Seq<u8>, p0: int, l: Operand, op: BinOp, r: Operand)
    requires
        printable_operand(l),
        printable_operand(r),
        text_at(s, p0, condition_text(Condition::Comparison(l, op, r))),
        boundary(s, p0 + condition_text(Condition::Comparison(l, op, r)).len()),
    ensures
        no_group_inside(s, p0),
{
    let c = Condition::Comparison(l, op, r);
    let lt = operand_text(l);
    let ot = op_text(op);
    let rt = operand_text(r);
    assert(condition_text(c) =~= lt + (seq![32u8] + (ot + (seq![32u8] + rt))));
    lemma_text_split(s, p0, lt, seq![32u8] + (ot + (seq![32u8] + rt)));
    let e1 = p0 + lt.len();
    lemma_text_split(s, e1, seq![32u8], ot + (seq![32u8] + rt));
    lemma_text_split(s, e1 + 1, ot, seq![32u8] + rt);
    assert(s[e1 + 0] == 32u8);
    assert(ot.len() > 0);
    assert(s[e1 + 1 + 0] == ot[0]);
    assert(!crate::parser::is_space(ot[0]));
    match l {
        Operand::Single(v) => {
            lemma_scalar_text(s, p0, v);
            assert(spaces_between(s, e1, e1 + 1));
            lemma_skip_over_spaces(s, e1, e1 + 1);
            assert(ot[0] != 44 && ot[0] != 41);
        },
        Operand::Group(_) => {
            lemma_text_split(s, p0, lt, seq![32u8] + (ot + (seq![32u8] + rt)));
            assert(s[p0 + 0] == 40u8);
            lemma_no_scalar_at_paren(s, p0);
        },
    }
}



proof fn lemma_paren_is_no_comparison(s: Seq<u8>, p0: int)
    requires
        0 <= p0 < s.len(),
        s[p0] == 40,
        no_group_inside(s, p0 + 1),
    ensures
        crate::parser::comparison_at(s, p0) is None,
{
    lemma_no_scalar_at_paren(s, p0);
    assert(skip_spaces(s, p0) == p0);
    match crate::parser::scalar_at(s, p0 + 1) {
        None => {},
        Some((v, q)) => {
            assert(crate::parser::group_tail(s, q) == (Seq::<Scalar>::empty(), q));
        },
    }
    assert(crate::parser::group_at(s, p0) is None);
    assert(crate::parser::operand_at(s, p0) is None);
}

#[verifier::spinoff_prover]
#[verifier::rlimit(60)]
proof fn lemma_condition_text(s: Seq<u8>, p: int, p0: int, c: Condition)
    requires
        printable_condition(c),
        0 <= p <= p0,
        spaces_between(s, p, p0),
        text_at(s, p0, condition_text(c)),
        boundary(s, p0 + condition_text(c).len()),
    ensures
        condition_text(c).len() > 0,
        !crate::parser::is_space(s[p0]),
        skip_spaces(s, p) == p0,
        no_group_inside(s, p0),
        crate::parser::condition_at(s, p) == Some(
            (c, skip_spaces(s, p0 + condition_text(c).len())),
        ),
    decreases c, 0int,
{
    let end = p0 + condition_text(c).len();
    match c {
        Condition::Comparison(l, op, r) => {
            lemma_comparison_text(s, p0, l, op, r);
            lemma_comparison_no_group(s, p0, l, op, r);
            lemma_skip_over_spaces(s, p, p0);
            lemma_skip_spaces_twice(s, end);
        },
        Condition::Group(e) => {
            let et = expression_text(*e);
            assert(condition_text(c) =~= seq![40u8] + (et + seq![41u8]));
            lemma_text_split(s, p0, seq![40u8], et + seq![41u8]);
            lemma_text_split(s, p0 + 1, et, seq![41u8]);
            assert(s[p0 + 0] == 40u8);
            assert(s[p0 + 1 + et.len() + 0] == 41u8);
            lemma_skip_over_spaces(s, p, p0);
            lemma_expression_text(s, p0 + 1, p0 + 1, *e);
            lemma_no_scalar_at_paren(s, p0);
            lemma_paren_is_no_comparison(s, p0);
        },
    }
}

#[verifier::spinoff_prover]
#[verifier::rlimit(60)]
proof fn lemma_expression_text(s: Seq<u8>, p: int, p0: int, e: Expression)
    requires
        printable_expression(e),
        0 <= p <= p0,
        spaces_between(s, p, p0),
        text_at(s, p0, expression_text(e)),
        p0 + expression_text(e).len() == s.len() || (p0 + expression_text(e).len() < s.len()
            && s[p0 + expression_text(e).len()] == 41),
    ensures
        !crate::parser::is_space(s[p0]),
        skip_spaces(s, p) == p0,
        no_group_inside(s, p0),
        crate::parser::expression_at(s, p) == Some((e, p0 + expression_text(e).len())),
    decreases e, 1int,
{
    let ct = condition_text(e.initial);
    let end_c = p0 + ct.len();
    let end = p0 + expression_text(e).len();
    match e.rest {
        None => {
            assert(expression_text(e) =~= ct);
            lemma_condition_text(s, p, p0, e.initial);
            assert(skip_spaces(s, end) == end);
            if end < s.len() {
                assert(s[end + 0] == 41);
            }
            assert(!word_at(s, end, seq![97u8, 110, 100]));
            assert(!word_at(s, end, seq![111u8, 114]));
            assert(crate::parser::connective_at(s, end) is None);
        },
        Some((op, t)) => {
            let nt = connective_text(op);
            let tt = expression_text(*t);
            assert(expression_text(e) =~= ct + (nt + tt));
            lemma_text_split(s, p0, ct, nt + tt);
            lemma_text_split(s, end_c, nt, tt);
            assert(s[end_c + 0] == 32u8);
            lemma_condition_text(s, p, p0, e.initial);
            let q = end_c + 1;
            let q2 = end_c + nt.len() - 1;
            assert(s[q2 + 0] == 32u8) by {
                assert(s[end_c + (nt.len() - 1)] == nt[nt.len() - 1]);
            }
            assert(spaces_between(s, q2, q2 + 1));
            lemma_expression_text(s, q2, q2 + 1, *t);
            assert(s[end_c + 1] == nt[1]);
            assert(s[end_c + 2] == nt[2]);
            assert(s[end_c + 3] == nt[3]);
            assert(!crate::parser::is_space(s[q]));
            assert(spaces_between(s, end_c, q));
            lemma_skip_over_spaces(s, end_c, q);
            if op == AndOr::And {
                assert(s[q + 0] == 97u8 && s[q + 1] == 110u8 && s[q + 2] == 100u8);
                lemma_word_text(s, q, seq![97u8, 110, 100]);
            } else {
                assert(s[q + 0] == 111u8 && s[q + 1] == 114u8);
                assert(!word_at(s, q, seq![97u8, 110, 100]));
                lemma_word_text(s, q, seq![111u8, 114]);
            }
            assert(crate::parser::connective_at(s, q) == Some((op, q2)));
        },
    }
}

proof fn lemma_letters_in_run(s: Seq<u8>, p: int)
    requires
        0 <= p,
    ensures
        p <= skip_letters(s, p),
        forall|i: int| p <= i < skip_letters(s, p) ==> is_letter(#[trigger] s[i]),
        p <= s.len() ==> skip_letters(s, p) <= s.len(),
        !(skip_letters(s, p) < s.len() && is_letter(s[skip_letters(s, p)])),
    decreases s.len() - p,
{
    if 0 <= p < s.len() && is_letter(s[p]) {
        lemma_letters_in_run(s, p + 1);
    }
}

proof fn lemma_no_quote_in_run(s: Seq<u8>, p: int)
    requires
        0 <= p,
    ensures
        p <= skip_to_quote(s, p),
        forall|i: int| p <= i < skip_to_quote(s, p) ==> #[trigger] s[i] != 34,
    decreases s.len() - p,
{
    if 0 <= p < s.len() && s[p] != 34 {
        lemma_no_quote_in_run(s, p + 1);
    }
}

proof fn lemma_segment_letters(s: Seq<u8>, p: int)
    requires
        0 <= p < s.len(),
        is_letter(s[p]),
    ensures
        letters(s.subrange(p, skip_letters(s, p))),
        skip_letters(s, p) <= s.len(),
{
    lemma_letters_in_run(s, p);
    let t = s.subrange(p, skip_letters(s, p));
    assert forall|i: int| 0 <= i < t.len() implies is_letter(#[trigger] t[i]) by {
        assert(t[i] == s[p + i]);
    }
    assert(skip_letters(s, p) == skip_letters(s, p + 1));
    lemma_letters_in_run(s, p + 1);
}

proof fn lemma_path_tail_letters(s: Seq<u8>, p: int)
    requires
        0 <= p,
    ensures
        forall|i: int|
            0 <= i < crate::parser::path_tail(s, p).0.len() ==> letters(
                #[trigger] crate::parser::path_tail(s, p).0[i],
            ),
        crate::parser::path_tail(s, p).0.len() == 0 ==> crate::parser::path_tail(s, p).1 == p
            && !(p + 1 < s.len() && s[p] == 46 && is_letter(s[p + 1])),
    decreases s.len() - p,
{
    if 0 <= p && p + 1 < s.len() && s[p] == 46 && is_letter(s[p + 1]) {
        let q = skip_letters(s, p + 1);
        lemma_segment_letters(s, p + 1);
        lemma_letters_in_run(s, p + 2);
        assert(q == skip_letters(s, p + 2));
        lemma_path_tail_letters(s, q);
        let t = crate::parser::path_tail(s, q);
        let all = seq![s.subrange(p + 1, q)] + t.0;
        assert forall|i: int| 0 <= i < all.len() implies letters(#[trigger] all[i]) by {
            if i > 0 {
                assert(all[i] == t.0[i - 1]);
            }
        }
    }
}

proof fn lemma_scalar_printable(s: Seq<u8>, p: int)
    requires
        crate::parser::scalar_at(s, p) is Some,
    ensures
        printable_scalar(crate::parser::scalar_at(s, p)->Some_0.0),
{
    crate::parser::lemma_skip_spaces_ge(s, p);
    let p0 = skip_spaces(s, p);
    if number_at(s, p0) is Some {
        crate::parser::law_parsed_numbers_are_normal(s, p0);
    } else if string_at(s, p0) is Some {
        lemma_no_quote_in_run(s, p0 + 1);
        let q = skip_to_quote(s, p0 + 1);
        let t = s.subrange(p0 + 1, q);
        assert forall|i: int| 0 <= i < t.len() implies #[trigger] t[i] != 34 by {
            assert(t[i] == s[p0 + 1 + i]);
        }
    } else if !crate::parser::keyword_at(s, p0, word_true()) && !crate::parser::keyword_at(
        s,
        p0,
        word_false(),
    ) && !crate::parser::keyword_at(s, p0, word_none()) {
        let q0 = skip_letters(s, p0);
        crate::parser::lemma_skip_letters_ge(s, p0);
        assert(q0 > p0);
        assert(p0 < s.len() && is_letter(s[p0]));
        lemma_segment_letters(s, p0);
        lemma_path_tail_letters(s, q0);
        let seg = s.subrange(p0, q0);
        let t = crate::parser::path_tail(s, q0);
        let path = seq![seg] + t.0;
        assert forall|i: int| 0 <= i < path.len() implies letters(#[trigger] path[i]) by {
            if i > 0 {
                assert(path[i] == t.0[i - 1]);
            }
        }
        if t.0.len() == 0 {
            assert(path[0] == seg);
            lemma_letters_in_run(s, p0);
            assert(!crate::parser::path_goes_on(s, q0));
            assert forall|w: Seq<u8>| whole_word(seg, w) implies word_at(s, p0, w) by {
                assert forall|i: int| 0 <= i < w.len() implies (#[trigger] s[p0 + i] == w[i]
                    || s[p0 + i] == crate::parser::upper(w[i])) by {
                    assert(seg[0 + i] == s[p0 + i]);
                }
            }
        }
        assert(printable_path(path));
    }
}

proof fn lemma_group_tail_printable(s: Seq<u8>, p: int)
    ensures
        forall|i: int|
            0 <= i < crate::parser::group_tail(s, p).0.len() ==> printable_scalar(
                #[trigger] crate::parser::group_tail(s, p).0[i],
            ),
    decreases s.len() - p,
{
    if 0 <= p < s.len() && s[p] == 44 {
        match crate::parser::scalar_at(s, skip_spaces(s, p + 1)) {
            Some((v, q)) => if p < q <= s.len() {
                lemma_scalar_printable(s, skip_spaces(s, p + 1));
                lemma_group_tail_printable(s, q);
                let t = crate::parser::group_tail(s, q);
                let all = seq![v] + t.0;
                assert forall|i: int| 0 <= i < all.len() implies printable_scalar(
                    #[trigger] all[i],
                ) by {
                    if i > 0 {
                        assert(all[i] == t.0[i - 1]);
                    }
                }
            },
            None => {},
        }
    }
}

proof fn lemma_operand_printable(s: Seq<u8>, p: int)
    requires
        crate::parser::operand_at(s, p) is Some,
    ensures
        printable_operand(crate::parser::operand_at(s, p)->Some_0.0),
{
    let p0 = skip_spaces(s, p);
    match crate::parser::group_at(s, p0) {
        Some((g, q)) => {
            lemma_scalar_printable(s, p0 + 1);
            let (v, q1) = crate::parser::scalar_at(s, p0 + 1)->Some_0;
            lemma_group_tail_printable(s, q1);
            let t = crate::parser::group_tail(s, q1);
            assert(g == seq![v] + t.0);
            assert forall|i: int| 0 <= i < g.len() implies printable_scalar(#[trigger] g[i]) by {
                if i > 0 {
                    assert(g[i] == t.0[i - 1]);
                }
            }
        },
        None => {
            lemma_scalar_printable(s, p0);
        },
    }
}

proof fn lemma_condition_printable(s: Seq<u8>, p: int)
    requires
        crate::parser::condition_at(s, p) is Some,
    ensures
        printable_condition(crate::parser::condition_at(s, p)->Some_0.0),
    decreases s.len() - p, 0int,
{
    crate::parser::lemma_skip_spaces_ge(s, p);
    let p0 = skip_spaces(s, p);
    match crate::parser::comparison_at(s, p0) {
        Some((c, q)) => {
            lemma_operand_printable(s, p0);
            let p1 = crate::parser::operand_at(s, p0)->Some_0.1;
            let p2 = crate::parser::binary_op(s, p1)->Some_0.1;
            lemma_operand_printable(s, p2);
        },
        None => {
            lemma_expression_printable(s, p0 + 1);
        },
    }
}

proof fn lemma_expression_printable(s: Seq<u8>, p: int)
    requires
        crate::parser::expression_at(s, p) is Some,
    ensures
        printable_expression(crate::parser::expression_at(s, p)->Some_0.0),
    decreases s.len() - p, 1int,
{
    lemma_condition_printable(s, p);
    let q = crate::parser::condition_at(s, p)->Some_0.1;
    match crate::parser::connective_at(s, q) {
        Some((op, q2)) => if p < q2 <= s.len() {
            if crate::parser::expression_at(s, q2) is Some {
                lemma_expression_printable(s, q2);
            }
        },
        None => {},
    }
}

/// Every tree that parsing returns can be printed and read back unchanged.
pub proof fn law_parsed_expressions_print_back(s: Seq<u8>)
    requires
        crate::parser::parse_bytes(s) is Ok,
    ensures
        printable_expression(crate::parser::parse_bytes(s)->Ok_0),
        crate::parser::parse_bytes(expression_text(crate::parser::parse_bytes(s)->Ok_0))
            == crate::parser::parse_bytes(s),
{
    lemma_expression_printable(s, skip_spaces(s, 0));
    law_printed_expressions_parse_back(crate::parser::parse_bytes(s)->Ok_0);
}

/// Printing a printable expression and reading the text back gives the same
/// tree: aliases of an operator and the spacing of the source are all that
/// printing loses.
pub proof fn law_printed_expressions_parse_back(e: Expression)
    requires
        printable_expression(e),
    ensures
        crate::parser::parse_bytes(expression_text(e)) == Ok::<
            Expression,
            (crate::parser::SyntaxErrorKind, int),
        >(e),
{
    let s = expression_text(e);
    lemma_expression_text(s, 0, 0, e);
}

proof fn lemma_tail_text_push(segs: Seq<Seq<u8>>, y: Seq<u8>)
    ensures
        tail_text(segs.push(y)) == tail_text(segs) + seq![46u8] + y,
    decreases segs.len(),
{
    if segs.len() == 0 {
        assert(segs.push(y).drop_first() =~= Seq::<Seq<u8>>::empty());
        assert(segs.push(y)[0] == y);
        assert(tail_text(Seq::<Seq<u8>>::empty()) == Seq::<u8>::empty());
        assert(tail_text(segs.push(y)) =~= seq![46u8] + y);
    } else {
        assert(segs.push(y).drop_first() =~= segs.drop_first().push(y));
        lemma_tail_text_push(segs.drop_first(), y);
        assert(tail_text(segs.push(y)) =~= tail_text(segs) + seq![46u8] + y);
    }
}

proof fn lemma_rest_text_push(g: Seq<Scalar>, x: Scalar)
    ensures
        rest_text(g.push(x)) == rest_text(g) + seq![44u8, 32u8] + scalar_text(x),
    decreases g.len(),
{
    if g.len() == 0 {
        assert(g.push(x).drop_first() =~= Seq::<Scalar>::empty());
        assert(g.push(x)[0] == x);
        assert(rest_text(Seq::<Scalar>::empty()) == Seq::<u8>::empty());
        assert(rest_text(g.push(x)) =~= seq![44u8, 32u8] + scalar_text(x));
    } else {
        assert(g.push(x).drop_first() =~= g.drop_first().push(x));
        lemma_rest_text_push(g.drop_first(), x);
        assert(rest_text(g.push(x)) =~= rest_text(g) + seq![44u8, 32u8] + scalar_text(x));
    }
}

fn push_all(out: &mut Vec<u8>, b: &Vec<u8>)
    ensures
        final(out)@ == old(out)@ + b@,
{
    let mut i: usize = 0;
    while i < b.len()
        invariant
            i <= b@.len(),
            out@ =~= old(out)@ + b@.subrange(0, i as int),
        decreases b@.len() - i,
    {
        out.push(b[i]);
        i = i + 1;
    }
    assert(b@.subrange(0, i as int) =~= b@);
}

fn push_decimal(out: &mut Vec<u8>, m: u128)
    ensures
        final(out)@ == old(out)@ + decimal(m as nat),
    decreases m,
{
    if m >= 10 {
        push_decimal(out, m / 10);
    }
    out.push((48 + m % 10) as u8);
    if m < 10 {
        assert(decimal(m as nat) =~= seq![(48 + m) as u8]);
    }
    assert(final(out)@ =~= old(out)@ + decimal(m as nat));
}

fn print_number(out: &mut Vec<u8>, n: &Number)
    ensures
        final(out)@ == old(out)@ + number_text(n@),
{
    if n.digits.len() == 0 {
        out.push(48u8);
        return;
    }
    let ghost start = out@;
    if n.negative {
        out.push(45u8);
    }
    out.push(48u8);
    out.push(46u8);
    push_all(out, &n.digits);
    out.push(101u8);
    if n.exponent < 0 {
        out.push(45u8);
        let m: u128 = (-(n.exponent + 1)) as u128 + 1;
        push_decimal(out, m);
    } else {
        push_decimal(out, n.exponent as u128);
    }
    assert(out@ =~= start + number_text(n@));
}

fn print_path(out: &mut Vec<u8>, path: &Vec<Vec<u8>>)
    ensures
        final(out)@ == old(out)@ + path_text(path_view(path@)),
{
    let ghost pv = path_view(path@);
    if path.len() == 0 {
        return;
    }
    let ghost start = out@;
    push_all(out, &path[0]);
    let mut i: usize = 1;
    assert(pv.subrange(1, 1) =~= Seq::<Seq<u8>>::empty());
    while i < path.len()
        invariant
            1 <= i <= path@.len(),
            pv == path_view(path@),
            out@ == start + pv[0] + tail_text(pv.subrange(1, i as int)),
        decreases path@.len() - i,
    {
        out.push(46u8);
        push_all(out, &path[i]);
        assert(pv.subrange(1, i + 1) =~= pv.subrange(1, i as int).push(pv[i as int]));
        proof {
            lemma_tail_text_push(pv.subrange(1, i as int), pv[i as int]);
        }
        assert(out@ =~= start + pv[0] + tail_text(pv.subrange(1, i + 1)));
        i = i + 1;
    }
    assert(pv.subrange(1, i as int) =~= pv.drop_first());
}

fn print_scalar(out: &mut Vec<u8>, v: &SimpleValue)
    ensures
        final(out)@ == old(out)@ + scalar_text(v@),
{
    let ghost start = out@;
    match v {
        SimpleValue::Number(n) => print_number(out, n),
        SimpleValue::Str(t) => {
            out.push(34u8);
            push_all(out, t);
            out.push(34u8);
            assert(out@ =~= start + scalar_text(v@));
        },
        SimpleValue::Bool(b) => {
            if *b {
                out.push(116u8);
                out.push(114u8);
                out.push(117u8);
                out.push(101u8);
            } else {
                out.push(102u8);
                out.push(97u8);
                out.push(108u8);
                out.push(115u8);
                out.push(101u8);
            }
            assert(out@ =~= start + scalar_text(v@));
        },
        SimpleValue::Absent => {
            out.push(110u8);
            out.push(111u8);
            out.push(110u8);
            out.push(101u8);
            assert(out@ =~= start + scalar_text(v@));
        },
        SimpleValue::PropertyPath(path) => print_path(out, path),
    }
}

fn print_operand(out: &mut Vec<u8>, x: &PropertyVal)
    ensures
        final(out)@ == old(out)@ + operand_text(x@),
{
    let ghost start = out@;
    match x {
        PropertyVal::SimpleValue(v) => print_scalar(out, v),
        PropertyVal::Group(g) => {
            let ghost gv = group_view(g@);
            out.push(40u8);
            if g.len() > 0 {
                print_scalar(out, &g[0]);
                let mut i: usize = 1;
                assert(gv.subrange(1, 1) =~= Seq::<Scalar>::empty());
                while i < g.len()
                    invariant
                        1 <= i <= g@.len(),
                        gv == group_view(g@),
                        out@ == start + seq![40u8] + scalar_text(gv[0]) + rest_text(
                            gv.subrange(1, i as int),
                        ),
                    decreases g@.len() - i,
                {
                    out.push(44u8);
                    out.push(32u8);
                    print_scalar(out, &g[i]);
                    assert(gv.subrange(1, i + 1) =~= gv.subrange(1, i as int).push(gv[i as int]));
                    proof {
                        lemma_rest_text_push(gv.subrange(1, i as int), gv[i as int]);
                    }
                    assert(out@ =~= start + seq![40u8] + scalar_text(gv[0]) + rest_text(
                        gv.subrange(1, i + 1),
                    ));
                    i = i + 1;
                }
                assert(gv.subrange(1, i as int) =~= gv.drop_first());
            }
            out.push(41u8);
            assert(out@ =~= start + operand_text(x@));
        },
    }
}

fn push_op(out: &mut Vec<u8>, op: BinOp)
    ensures
        final(out)@ == old(out)@ + op_text(op),
{
    let ghost start = out@;
    match op {
        BinOp::Equal => {
            out.push(61u8);
            out.push(61u8);
        },
        BinOp::NotEqual => {
            out.push(33u8);
            out.push(61u8);
        },
        BinOp::GreaterThan => {
            out.push(62u8);
        },
        BinOp::GreaterThanOrEqual => {
            out.push(62u8);
            out.push(61u8);
        },
        BinOp::LessThan => {
            out.push(60u8);
        },
        BinOp::LessThanOrEqual => {
            out.push(60u8);
            out.push(61u8);
        },
        BinOp::In => {
            out.push(105u8);
            out.push(110u8);
        },
        BinOp::NotIn => {
            out.push(110u8);
            out.push(111u8);
            out.push(116u8);
            out.push(105u8);
            out.push(110u8);
        },
        BinOp::Is => {
            out.push(105u8);
            out.push(115u8);
        },
        BinOp::IsNot => {
            out.push(105u8);
            out.push(115u8);
            out.push(110u8);
            out.push(111u8);
            out.push(116u8);
        },
        BinOp::SubSetOf => {
            out.push(0xe2u8);
            out.push(0x8au8);
            out.push(0x86u8);
        },
        BinOp::SuperSetOf => {
            out.push(0xe2u8);
            out.push(0x8au8);
            out.push(0x87u8);
        },
        BinOp::IntersectionOf => {
            out.push(0xe2u8);
            out.push(0x88u8);
            out.push(0xa9u8);
        },
        BinOp::NotIntersectionOf => {
            out.push(110u8);
            out.push(111u8);
            out.push(116u8);
            out.push(0xe2u8);
            out.push(0x88u8);
            out.push(0xa9u8);
        },
    }
    assert(out@ =~= start + op_text(op));
}

fn print_condition(out: &mut Vec<u8>, c: &BooleanCondition)
    ensures
        final(out)@ == old(out)@ + condition_text(c@),
    decreases c,
{
    let ghost start = out@;
    match c {
        BooleanCondition::Comparison(l, op, r) => {
            print_operand(out, l);
            out.push(32u8);
            push_op(out, *op);
            out.push(32u8);
            print_operand(out, r);
            assert(out@ =~= start + condition_text(c@));
        },
        BooleanCondition::Group(e) => {
            out.push(40u8);
            print_expression(out, e);
            out.push(41u8);
            assert(out@ =~= start + condition_text(c@));
        },
    }
}

fn print_expression(out: &mut Vec<u8>, e: &BooleanExpression)
    ensures
        final(out)@ == old(out)@ + expression_text(e@),
    decreases e,
{
    let ghost start = out@;
    print_condition(out, &e.initial);
    match &e.rest {
        None => {
            assert(out@ =~= start + expression_text(e@));
        },
        Some(t) => {
            match t.0 {
                AndOr::And => {
                    out.push(32u8);
                    out.push(97u8);
                    out.push(110u8);
                    out.push(100u8);
                    out.push(32u8);
                },
                AndOr::Or => {
                    out.push(32u8);
                    out.push(111u8);
                    out.push(114u8);
                    out.push(32u8);
                },
            }
            print_expression(out, &t.1);
            assert(out@ =~= start + expression_text(e@));
        },
    }
}

/// Source text for `e`, as UTF-8 bytes: operators in one spelling each,
/// single spaces, and parentheses only where the tree has a group.
pub fn to_source(e: &BooleanExpression) -> (r: Vec<u8>)
    ensures
        r@ == expression_text(e@),
{
    let mut out: Vec<u8> = Vec::new();
    print_expression(&mut out, e);
    assert(out@ =~= expression_text(e@));
    out
}

pub open spec fn combine(op: AndOr, x: bool, y: bool) -> bool {
    match op {
        AndOr::And => x && y,
        AndOr::Or => x || y,
    }
}

/// Two texts that parse, the first to one condition, joined by a connective
/// (in printed form) parse to the first condition joined to the whole second
/// expression; evaluated, both sides are evaluated: where both succeed the
/// result is `a and b` (`a or b`), and an error on either side is returned
/// even where the left side alone would decide.
pub proof fn law_joined_texts_evaluate_both_sides(
    ta: Seq<u8>,
    tb: Seq<u8>,
    op: AndOr,
    ctx: ContextModel,
)
    requires
        crate::parser::parse_bytes(ta) is Ok,
        crate::parser::parse_bytes(ta)->Ok_0.rest is None,
        crate::parser::parse_bytes(tb) is Ok,
    ensures
        ({
            let a = crate::parser::parse_bytes(ta)->Ok_0.initial;
            let b = crate::parser::parse_bytes(tb)->Ok_0;
            let joined = expression_text(crate::parser::parse_bytes(ta)->Ok_0) + connective_text(
                op,
            ) + expression_text(b);
            let e = Expression { initial: a, rest: Some((op, Box::new(b))) };
            &&& crate::parser::parse_bytes(joined) == Ok::<
                Expression,
                (crate::parser::SyntaxErrorKind, int),
            >(e)
            &&& (eval_condition(a, ctx) is Ok && eval_expression(b, ctx) is Ok) ==> eval_expression(
                e,
                ctx,
            ) == Ok::<bool, EvalFailure>(
                combine(op, eval_condition(a, ctx)->Ok_0, eval_expression(b, ctx)->Ok_0),
            )
            &&& eval_condition(a, ctx) is Err ==> eval_expression(e, ctx) == Err::<
                bool,
                EvalFailure,
            >(eval_condition(a, ctx)->Err_0)
            &&& (eval_condition(a, ctx) is Ok && eval_expression(b, ctx) is Err) ==> eval_expression(
                e,
                ctx,
            ) == Err::<bool, EvalFailure>(eval_expression(b, ctx)->Err_0)
        }),
{
    let ea = crate::parser::parse_bytes(ta)->Ok_0;
    let b = crate::parser::parse_bytes(tb)->Ok_0;
    law_parsed_expressions_print_back(ta);
    law_parsed_expressions_print_back(tb);
    let e = Expression { initial: ea.initial, rest: Some((op, Box::new(b))) };
    assert(expression_text(ea) =~= condition_text(ea.initial));
    assert(expression_text(e) =~= expression_text(ea) + connective_text(op) + expression_text(b));
    law_printed_expressions_parse_back(e);
}

/// Three texts that each parse to one condition, joined by two connectives
/// (in printed form), parse to `a c1 (b c2 c)` and evaluate to
/// `a c1 (b c2 c)` where each part succeeds: a chain groups from the right.
pub proof fn law_joined_chains_group_from_the_right(
    ta: Seq<u8>,
    tb: Seq<u8>,
    tc: Seq<u8>,
    c1: AndOr,
    c2: AndOr,
    ctx: ContextModel,
)
    requires
        crate::parser::parse_bytes(ta) is Ok,
        crate::parser::parse_bytes(ta)->Ok_0.rest is None,
        crate::parser::parse_bytes(tb) is Ok,
        crate::parser::parse_bytes(tb)->Ok_0.rest is None,
        crate::parser::parse_bytes(tc) is Ok,
        crate::parser::parse_bytes(tc)->Ok_0.rest is None,
    ensures
        ({
            let ea = crate::parser::parse_bytes(ta)->Ok_0;
            let eb = crate::parser::parse_bytes(tb)->Ok_0;
            let ec = crate::parser::parse_bytes(tc)->Ok_0;
            let joined = expression_text(ea) + connective_text(c1) + expression_text(eb)
                + connective_text(c2) + expression_text(ec);
            let tail = Expression { initial: eb.initial, rest: Some((c2, Box::new(ec))) };
            let e = Expression { initial: ea.initial, rest: Some((c1, Box::new(tail))) };
            &&& crate::parser::parse_bytes(joined) == Ok::<
                Expression,
                (crate::parser::SyntaxErrorKind, int),
            >(e)
            &&& (eval_condition(ea.initial, ctx) is Ok && eval_condition(eb.initial, ctx) is Ok
                && eval_condition(ec.initial, ctx) is Ok) ==> eval_expression(e, ctx) == Ok::<
                bool,
                EvalFailure,
            >(
                combine(
                    c1,
                    eval_condition(ea.initial, ctx)->Ok_0,
                    combine(
                        c2,
                        eval_condition(eb.initial, ctx)->Ok_0,
                        eval_condition(ec.initial, ctx)->Ok_0,
                    ),
                ),
            )
        }),
{
    let ea = crate::parser::parse_bytes(ta)->Ok_0;
    let eb = crate::parser::parse_bytes(tb)->Ok_0;
    let ec = crate::parser::parse_bytes(tc)->Ok_0;
    law_parsed_expressions_print_back(ta);
    law_parsed_expressions_print_back(tb);
    law_parsed_expressions_print_back(tc);
    let tail = Expression { initial: eb.initial, rest: Some((c2, Box::new(ec))) };
    let e = Expression { initial: ea.initial, rest: Some((c1, Box::new(tail))) };
    assert(expression_text(ea) =~= condition_text(ea.initial));
    assert(expression_text(eb) =~= condition_text(eb.initial));
    assert(expression_text(tail) =~= expression_text(eb) + connective_text(c2) + expression_text(
        ec,
    ));
    assert(expression_text(e) =~= expression_text(ea) + connective_text(c1) + expression_text(eb)
        + connective_text(c2) + expression_text(ec));
    assert(printable_condition(eb.initial));
    assert(printable_expression(tail));
    assert(printable_expression(e));
    law_printed_expressions_parse_back(e);
    assert(eval_expression(ec, ctx) == eval_condition(ec.initial, ctx));
    assert(eval_expression(tail, ctx) == match eval_condition(eb.initial, ctx) {
        Err(x) => Err(x),
        Ok(y) => match eval_expression(ec, ctx) {
            Err(x) => Err(x),
            Ok(z) => Ok::<bool, EvalFailure>(combine(c2, y, z)),
        },
    });
}

} // verus!

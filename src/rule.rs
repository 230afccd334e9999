//! The entry points for a host: build a rule from text, test it against
//! host values.

use vstd::prelude::*;
use vstd::string::StringSliceAdditionalSpecFns;

use crate::evaluator::{
    eval, eval_expression, eval_with_context, Context, ContextModel, EvalError, EvalFailure,
};
use crate::parser::{parse, parse_bytes, SyntaxError, SyntaxErrorKind};
use crate::tree::{BooleanExpression, Expression};
use crate::value::{Number, Scalar, SimpleValue};

verus! {

/// Why building or testing a rule failed.
#[derive(Debug)]
pub enum CoolRuleError {
    EvalError(EvalError),
    ParseError(SyntaxError),
}

/// A value supplied by the host for a context entry.
#[derive(Debug)]
pub enum Value {
    Number(Number),
    Str(String),
    Bool(bool),
    Absent,
}

/// The scalar a host value stands for; a string as its UTF-8 bytes.
pub open spec fn value_scalar(v: Value) -> Scalar {
    match v {
        Value::Number(n) => Scalar::Number(n@),
        Value::Str(s) => Scalar::Str(vstd::utf8::encode_utf8(s@)),
        Value::Bool(b) => Scalar::Bool(b),
        Value::Absent => Scalar::Absent,
    }
}

/// A context key as a path of byte strings.
pub open spec fn key_path(k: Seq<&str>) -> Seq<Seq<u8>> {
    k.map_values(|s: &str| s.spec_bytes())
}

/// The context that `pairs` describe; a later pair for a path replaces an
/// earlier one.
pub open spec fn context_of(pairs: Seq<(Vec<&str>, Value)>) -> ContextModel
    decreases pairs.len(),
{
    if pairs.len() == 0 {
        Map::empty()
    } else {
        context_of(pairs.drop_last()).insert(
            key_path(pairs.last().0@),
            value_scalar(pairs.last().1),
        )
    }
}

/// A parsed rule, ready to be tested any number of times.
pub struct CoolRule {
    boolean_expression: BooleanExpression,
}

impl View for CoolRule {
    type V = Expression;

    closed spec fn view(&self) -> Expression {
        self.boolean_expression@
    }
}

/// A test result matches the evaluation outcome `expected`; a test never
/// reports a syntax error.
pub open spec fn reports(r: Result<bool, CoolRuleError>, expected: Result<bool, EvalFailure>) -> bool {
    match r {
        Ok(b) => expected == Ok::<bool, EvalFailure>(b),
        Err(CoolRuleError::EvalError(e)) => expected == Err::<bool, EvalFailure>(e@),
        Err(CoolRuleError::ParseError(_)) => false,
    }
}

/// Parses `expr` into a rule.
pub fn new(expr: &str) -> (r: Result<CoolRule, CoolRuleError>)
    ensures
        match r {
            Ok(rule) => parse_bytes(expr.spec_bytes()) == Ok::<
                Expression,
                (SyntaxErrorKind, int),
            >(rule@),
            Err(CoolRuleError::ParseError(err)) => parse_bytes(expr.spec_bytes()) == Err::<
                Expression,
                (SyntaxErrorKind, int),
            >((err.kind, err.position as int)),
            Err(CoolRuleError::EvalError(_)) => false,
        },
{
    match parse(expr) {
        Ok(boolean_expression) => Ok(CoolRule { boolean_expression }),
        Err(e) => Err(CoolRuleError::ParseError(e)),
    }
}

fn to_simple_value(v: &Value) -> (r: SimpleValue)
    ensures
        r@ == value_scalar(*v),
{
    match v {
        Value::Number(n) => SimpleValue::Number(n.clone()),
        Value::Str(s) => SimpleValue::Str(vstd::slice::slice_to_vec(s.as_str().as_bytes())),
        Value::Bool(b) => SimpleValue::Bool(*b),
        Value::Absent => SimpleValue::Absent,
    }
}

fn to_path(k: &Vec<&str>) -> (r: Vec<Vec<u8>>)
    ensures
        crate::value::path_view(r@) == key_path(k@),
{
    let mut out: Vec<Vec<u8>> = Vec::new();
    let mut i: usize = 0;
    while i < k.len()
        invariant
            i <= k.len(),
            crate::value::path_view(out@) =~= key_path(k@.subrange(0, i as int)),
        decreases k.len() - i,
    {
        out.push(vstd::slice::slice_to_vec(k[i].as_bytes()));
        assert(key_path(k@.subrange(0, i + 1)) =~= key_path(k@.subrange(0, i as int)).push(
            k@[i as int].spec_bytes(),
        ));
        i = i + 1;
    }
    assert(k@.subrange(0, k.len() as int) =~= k@);
    out
}

/// Builds the context that `pairs` describe.
pub fn context_from(pairs: &Vec<(Vec<&str>, Value)>) -> (r: Context)
    ensures
        r@ == context_of(pairs@),
{
    let mut ctx = Context::new();
    let mut i: usize = 0;
    while i < pairs.len()
        invariant
            i <= pairs.len(),
            ctx@ == context_of(pairs@.subrange(0, i as int)),
        decreases pairs.len() - i,
    {
        assert(pairs@.subrange(0, i + 1).drop_last() =~= pairs@.subrange(0, i as int));
        ctx.insert(to_path(&pairs[i].0), to_simple_value(&pairs[i].1));
        i = i + 1;
    }
    assert(pairs@.subrange(0, pairs.len() as int) =~= pairs@);
    ctx
}

impl CoolRule {
    /// Evaluates the rule against an empty context.
    pub fn test(&self) -> (r: Result<bool, CoolRuleError>)
        ensures
            reports(r, eval_expression(self@, Map::empty())),
    {
        match eval(&self.boolean_expression) {
            Ok(b) => Ok(b),
            Err(e) => Err(CoolRuleError::EvalError(e)),
        }
    }

    /// Evaluates the rule against the context that `context` describes.
    pub fn test_with_context(&self, context: &Vec<(Vec<&str>, Value)>) -> (r: Result<
        bool,
        CoolRuleError,
    >)
        ensures
            reports(r, eval_expression(self@, context_of(context@))),
    {
        let ctx = context_from(context);
        match eval_with_context(&self.boolean_expression, &ctx) {
            Ok(b) => Ok(b),
            Err(e) => Err(CoolRuleError::EvalError(e)),
        }
    }
}

} // verus!

//! The expression tree and its mathematical model.

use vstd::prelude::*;

use crate::value::{Scalar, SimpleValue};

verus! {

/// Comparison operators. Spellings that name the same operator are listed
/// beside each variant.
#[derive(PartialEq, Eq, Structural, Clone, Copy, Debug)]
pub enum BinOp {
    Equal,  // =, ==, eq
    NotEqual,  // !=, ne, ≠
    GreaterThan,  // >, gt
    GreaterThanOrEqual,  // >=, ge, ≥
    LessThan,  // <, lt
    LessThanOrEqual,  // <=, le, ≤
    In,  // in, ∈
    NotIn,  // notin, ∉
    Is,  // is
    IsNot,  // isnot
    SubSetOf,  // ⊆
    SuperSetOf,  // ⊇
    IntersectionOf,  // ∩
    NotIntersectionOf,  // not∩
}

/// Connective between two conditions; both bind equally.
#[derive(PartialEq, Eq, Structural, Clone, Copy, Debug)]
pub enum AndOr {
    And,
    Or,
}

/// An operand of a comparison: one scalar, or a parenthesised group.
#[derive(Debug)]
pub enum PropertyVal {
    SimpleValue(SimpleValue),
    Group(Vec<SimpleValue>),
}

/// A comparison, or a parenthesised sub-expression.
#[derive(Debug)]
pub enum BooleanCondition {
    Comparison(PropertyVal, BinOp, PropertyVal),
    Group(Box<BooleanExpression>),
}

/// A condition, optionally followed by a connective and the rest of the
/// chain. A chain `a and b or c` is `a and (b or c)`: it groups from the right.
#[derive(Debug)]
pub struct BooleanExpression {
    pub initial: BooleanCondition,
    pub rest: Option<(AndOr, Box<BooleanExpression>)>,
}

/// Model of an operand.
pub ghost enum Operand {
    Single(Scalar),
    Group(Seq<Scalar>),
}

/// Model of a condition.
pub ghost enum Condition {
    Comparison(Operand, BinOp, Operand),
    Group(Box<Expression>),
}

/// Model of an expression.
pub ghost struct Expression {
    pub initial: Condition,
    pub rest: Option<(AndOr, Box<Expression>)>,
}

pub open spec fn group_view(g: Seq<SimpleValue>) -> Seq<Scalar> {
    g.map_values(|v: SimpleValue| v@)
}

impl View for PropertyVal {
    type V = Operand;

    open spec fn view(&self) -> Operand {
        match self {
            PropertyVal::SimpleValue(v) => Operand::Single(v@),
            PropertyVal::Group(g) => Operand::Group(group_view(g@)),
        }
    }
}

pub open spec fn condition_view(c: &BooleanCondition) -> Condition
    decreases c,
{
    match c {
        BooleanCondition::Comparison(l, op, r) => Condition::Comparison(l@, *op, r@),
        BooleanCondition::Group(e) => Condition::Group(Box::new(expression_view(e))),
    }
}

pub open spec fn expression_view(e: &BooleanExpression) -> Expression
    decreases e,
{
    Expression {
        initial: condition_view(&e.initial),
        rest: match &e.rest {
            Some(t) => Some((t.0, Box::new(expression_view(&t.1)))),
            None => None,
        },
    }
}

impl View for BooleanCondition {
    type V = Condition;

    open spec fn view(&self) -> Condition {
        condition_view(self)
    }
}

impl View for BooleanExpression {
    type V = Expression;

    open spec fn view(&self) -> Expression {
        expression_view(self)
    }
}

} // verus!

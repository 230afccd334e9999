//! A small boolean rule language: expressions such as
//! `foo.bar = "x" and (baz > 10 or baz ∈ (1, 2, 3))` are parsed into an
//! expression tree and evaluated against a context of named values.
//!
//! Connectives `and` / `or` carry no relative precedence: a chain groups from
//! the right, and every clause of a chain is evaluated (no short circuit).

pub mod evaluator;
pub mod parser;
pub mod printer;
pub mod rule;
pub mod tree;
pub mod value;

pub use evaluator::{
    eval, eval_with_context, intersection_of, is_subset, is_super_set, not_intersection_of,
    Context, EvalError,
};
pub use parser::{parse, parse_number, SyntaxError, SyntaxErrorKind};
pub use printer::to_source;
pub use rule::{context_from, new, CoolRule, CoolRuleError, Value};
pub use tree::{AndOr, BinOp, BooleanCondition, BooleanExpression, PropertyVal};
pub use value::{Number, SimpleValue};

//! Meaning of an expression against a context, and the evaluator proved to
//! compute it.

use vstd::prelude::*;

use crate::tree::{
    group_view, AndOr, BinOp, BooleanCondition, BooleanExpression, Condition, Expression, Operand,
    PropertyVal,
};
use crate::value::{
    clone_path, path_view, paths_equal, scalar_eq, scalar_lt, value_less, values_equal, Scalar,
    SimpleValue,
};

verus! {

/// Model of a context: property path to stored value.
pub type ContextModel = Map<Seq<Seq<u8>>, Scalar>;

/// Model of an evaluation error.
pub ghost enum EvalFailure {
    Missing(Seq<Seq<u8>>),
    PathInContext,
    NotIterable(Scalar),
}

/// Why an evaluation failed.
#[derive(Debug)]
pub enum EvalError {
    /// The property path has no entry in the context.
    MissingFromContext(Vec<Vec<u8>>),
    /// The context stores a property path as a value.
    PathInContext,
    /// The operator does not apply to operands of these shapes; the scalar
    /// operand involved is carried.
    NotIterable(SimpleValue),
}

impl View for EvalError {
    type V = EvalFailure;

    open spec fn view(&self) -> EvalFailure {
        match self {
            EvalError::MissingFromContext(p) => EvalFailure::Missing(path_view(p@)),
            EvalError::PathInContext => EvalFailure::PathInContext,
            EvalError::NotIterable(v) => EvalFailure::NotIterable(v@),
        }
    }
}

pub open spec fn result_view(r: Result<bool, EvalError>) -> Result<bool, EvalFailure> {
    match r {
        Ok(b) => Ok(b),
        Err(e) => Err(e@),
    }
}

/// `path` joined by `.`.
pub open spec fn dotted(path: Seq<Seq<u8>>) -> Seq<u8>
    decreases path.len(),
{
    if path.len() == 0 {
        seq![]
    } else if path.len() == 1 {
        path[0]
    } else {
        dotted(path.drop_last()) + seq![46u8] + path.last()
    }
}

impl EvalError {
    /// For a missing entry, its path joined by `.` (`foo.bar`); else empty.
    pub fn missing_path_text(&self) -> (r: Vec<u8>)
        ensures
            self@ matches EvalFailure::Missing(p) ==> r@ == dotted(p),
            !(self@ is Missing) ==> r@.len() == 0,
    {
        let mut out: Vec<u8> = Vec::new();
        if let EvalError::MissingFromContext(p) = self {
            let ghost pv = path_view(p@);
            let mut i: usize = 0;
            while i < p.len()
                invariant
                    i <= p.len(),
                    pv == path_view(p@),
                    out@ == dotted(pv.subrange(0, i as int)),
                decreases p.len() - i,
            {
                assert(pv.subrange(0, i + 1).drop_last() =~= pv.subrange(0, i as int));
                if i > 0 {
                    out.push(46u8);
                }
                let seg = &p[i];
                let mut j: usize = 0;
                let ghost start = out@;
                while j < seg.len()
                    invariant
                        j <= seg.len(),
                        out@ =~= start + seg@.subrange(0, j as int),
                    decreases seg.len() - j,
                {
                    out.push(seg[j]);
                    j = j + 1;
                }
                assert(seg@.subrange(0, j as int) =~= seg@);
                assert(pv[i as int] == seg@);
                if i == 0 {
                    assert(start =~= seq![]);
                }
                i = i + 1;
            }
            assert(pv.subrange(0, i as int) =~= pv);
        }
        out
    }
}

/// Values of the language keyed by property path. Later insertions of a path
/// replace earlier ones.
pub struct Context {
    entries: Vec<(Vec<Vec<u8>>, SimpleValue)>,
}

pub open spec fn first_match(entries: Seq<(Vec<Vec<u8>>, SimpleValue)>, key: Seq<Seq<u8>>) -> Option<
    Scalar,
>
    decreases entries.len(),
{
    if entries.len() == 0 {
        None
    } else if path_view(entries[0].0@) == key {
        Some(entries[0].1@)
    } else {
        first_match(entries.drop_first(), key)
    }
}

impl View for Context {
    type V = ContextModel;

    closed spec fn view(&self) -> ContextModel {
        Map::new(
            |k: Seq<Seq<u8>>| first_match(self.entries@, k) is Some,
            |k: Seq<Seq<u8>>| first_match(self.entries@, k)->0,
        )
    }
}

impl Context {
    /// An empty context.
    pub fn new() -> (r: Context)
        ensures
            r@ == Map::<Seq<Seq<u8>>, Scalar>::empty(),
    {
        let r = Context { entries: Vec::new() };
        assert(r@ =~= Map::<Seq<Seq<u8>>, Scalar>::empty());
        r
    }

    /// Sets the value stored under `key`.
    pub fn insert(&mut self, key: Vec<Vec<u8>>, value: SimpleValue)
        ensures
            final(self)@ == old(self)@.insert(path_view(key@), value@),
    {
        let ghost k = path_view(key@);
        let ghost v = value@;
        self.entries.insert(0, (key, value));
        assert(self.entries@.drop_first() =~= old(self).entries@);
        assert(self@ =~= old(self)@.insert(k, v));
    }

    /// The value stored under `key`, if any.
    pub fn lookup(&self, key: &Vec<Vec<u8>>) -> (r: Option<&SimpleValue>)
        ensures
            r matches Some(v) ==> self@.contains_key(path_view(key@)) && self@[path_view(key@)]
                == v@,
            r is None ==> !self@.contains_key(path_view(key@)),
    {
        let ghost k = path_view(key@);
        let mut i: usize = 0;
        assert(self.entries@.skip(0) =~= self.entries@);
        while i < self.entries.len()
            invariant
                i <= self.entries.len(),
                k == path_view(key@),
                first_match(self.entries@, k) == first_match(self.entries@.skip(i as int), k),
            decreases self.entries.len() - i,
        {
            assert(self.entries@.skip(i as int).drop_first() =~= self.entries@.skip(i + 1));
            assert(self.entries@.skip(i as int)[0] == self.entries@[i as int]);
            assert(first_match(self.entries@.skip(i as int), k) == if path_view(
                self.entries@[i as int].0@,
            ) == k {
                Some(self.entries@[i as int].1@)
            } else {
                first_match(self.entries@.skip(i + 1), k)
            });
            if paths_equal(&self.entries[i].0, key) {
                return Some(&self.entries[i].1);
            }
            i = i + 1;
        }
        assert(self.entries@.skip(i as int) =~= Seq::<(Vec<Vec<u8>>, SimpleValue)>::empty());
        None
    }
}

/// Resolution of a scalar: a property path is replaced by its context value.
pub open spec fn resolve(v: Scalar, ctx: ContextModel) -> Result<Scalar, EvalFailure> {
    match v {
        Scalar::Path(p) => if !ctx.contains_key(p) {
            Err(EvalFailure::Missing(p))
        } else if ctx[p] is Path {
            Err(EvalFailure::PathInContext)
        } else {
            Ok(ctx[p])
        },
        _ => Ok(v),
    }
}

/// Resolution of each element of a group, in order; the first failure wins.
pub open spec fn resolve_all(g: Seq<Scalar>, ctx: ContextModel) -> Result<Seq<Scalar>, EvalFailure>
    decreases g.len(),
{
    if g.len() == 0 {
        Ok(seq![])
    } else {
        match resolve(g[0], ctx) {
            Err(e) => Err(e),
            Ok(x) => match resolve_all(g.drop_first(), ctx) {
                Err(e) => Err(e),
                Ok(r) => Ok(seq![x] + r),
            },
        }
    }
}

/// `x` is equal to some element of `g`.
pub open spec fn member(x: Scalar, g: Seq<Scalar>) -> bool {
    exists|j: int| 0 <= j < g.len() && scalar_eq(x, #[trigger] g[j])
}

/// Every element of `a` is equal to some element of `b`.
pub open spec fn group_subset(a: Seq<Scalar>, b: Seq<Scalar>) -> bool {
    forall|i: int| 0 <= i < a.len() ==> member(#[trigger] a[i], b)
}

/// Some element of `a` is equal to some element of `b`.
pub open spec fn group_intersects(a: Seq<Scalar>, b: Seq<Scalar>) -> bool {
    exists|i: int| 0 <= i < a.len() && member(#[trigger] a[i], b)
}

/// Equal length and element-wise equal.
pub open spec fn group_equal(a: Seq<Scalar>, b: Seq<Scalar>) -> bool {
    a.len() == b.len() && forall|i: int| 0 <= i < a.len() ==> scalar_eq(#[trigger] a[i], b[i])
}

/// The ordering operators on two scalars.
pub open spec fn ordered(op: BinOp, x: Scalar, y: Scalar) -> bool {
    match op {
        BinOp::GreaterThan => scalar_lt(y, x),
        BinOp::GreaterThanOrEqual => scalar_eq(x, y) || scalar_lt(y, x),
        BinOp::LessThan => scalar_lt(x, y),
        BinOp::LessThanOrEqual => scalar_eq(x, y) || scalar_lt(x, y),
        _ => false,
    }
}

pub open spec fn is_ordering(op: BinOp) -> bool {
    op is GreaterThan || op is GreaterThanOrEqual || op is LessThan || op is LessThanOrEqual
}

pub open spec fn is_equality(op: BinOp) -> bool {
    op is Equal || op is Is
}

pub open spec fn is_inequality(op: BinOp) -> bool {
    op is NotEqual || op is IsNot
}

/// Comparing two resolved scalars.
pub open spec fn compare_scalars(x: Scalar, op: BinOp, y: Scalar) -> Result<bool, EvalFailure> {
    if is_equality(op) {
        Ok(scalar_eq(x, y))
    } else if is_inequality(op) {
        Ok(!scalar_eq(x, y))
    } else if is_ordering(op) {
        Ok(ordered(op, x, y))
    } else {
        Err(EvalFailure::NotIterable(y))
    }
}

/// Comparing a resolved scalar with a resolved group.
pub open spec fn compare_scalar_group(x: Scalar, op: BinOp, g: Seq<Scalar>) -> Result<
    bool,
    EvalFailure,
> {
    if is_equality(op) {
        Ok(false)
    } else if is_inequality(op) {
        Ok(true)
    } else if op is In {
        Ok(member(x, g))
    } else if op is NotIn {
        Ok(!member(x, g))
    } else {
        Err(EvalFailure::NotIterable(x))
    }
}

/// Comparing a group with a resolved scalar.
pub open spec fn compare_group_scalar(op: BinOp, y: Scalar) -> Result<bool, EvalFailure> {
    if is_equality(op) {
        Ok(false)
    } else if is_inequality(op) {
        Ok(true)
    } else {
        Err(EvalFailure::NotIterable(y))
    }
}

/// Every pair over the common prefix satisfies the ordering operator.
pub open spec fn pairwise(op: BinOp, a: Seq<Scalar>, b: Seq<Scalar>) -> bool {
    forall|i: int| 0 <= i < a.len() && i < b.len() ==> ordered(op, #[trigger] a[i], b[i])
}

/// Comparing two resolved groups.
pub open spec fn compare_groups(a: Seq<Scalar>, op: BinOp, b: Seq<Scalar>) -> bool {
    match op {
        BinOp::Equal | BinOp::Is => group_equal(a, b),
        BinOp::NotEqual | BinOp::IsNot => !group_equal(a, b),
        BinOp::In => false,
        BinOp::NotIn => true,
        BinOp::SubSetOf => group_subset(a, b),
        BinOp::SuperSetOf => group_subset(b, a),
        BinOp::IntersectionOf => group_intersects(a, b),
        BinOp::NotIntersectionOf => !group_intersects(a, b),
        _ => pairwise(op, a, b),
    }
}

/// Meaning of a comparison: operands are resolved (left before right, a
/// group element by element), then compared by shape.
pub open spec fn compare(l: Operand, op: BinOp, r: Operand, ctx: ContextModel) -> Result<
    bool,
    EvalFailure,
> {
    match (l, r) {
        (Operand::Single(a), Operand::Single(b)) => match resolve(a, ctx) {
            Err(e) => Err(e),
            Ok(x) => match resolve(b, ctx) {
                Err(e) => Err(e),
                Ok(y) => compare_scalars(x, op, y),
            },
        },
        (Operand::Single(a), Operand::Group(g)) => match resolve(a, ctx) {
            Err(e) => Err(e),
            Ok(x) => match resolve_all(g, ctx) {
                Err(e) => Err(e),
                Ok(gs) => compare_scalar_group(x, op, gs),
            },
        },
        (Operand::Group(g), Operand::Single(b)) => match resolve_all(g, ctx) {
            Err(e) => Err(e),
            Ok(_) => match resolve(b, ctx) {
                Err(e) => Err(e),
                Ok(y) => compare_group_scalar(op, y),
            },
        },
        (Operand::Group(g1), Operand::Group(g2)) => match resolve_all(g1, ctx) {
            Err(e) => Err(e),
            Ok(a) => match resolve_all(g2, ctx) {
                Err(e) => Err(e),
                Ok(b) => Ok(compare_groups(a, op, b)),
            },
        },
    }
}

/// Meaning of a condition.
pub open spec fn eval_condition(c: Condition, ctx: ContextModel) -> Result<bool, EvalFailure>
    decreases c,
{
    match c {
        Condition::Comparison(l, op, r) => compare(l, op, r, ctx),
        Condition::Group(e) => eval_expression(*e, ctx),
    }
}

/// Meaning of an expression: the first condition, then the rest of the chain,
/// both evaluated before they are combined.
pub open spec fn eval_expression(e: Expression, ctx: ContextModel) -> Result<bool, EvalFailure>
    decreases e,
{
    match eval_condition(e.initial, ctx) {
        Err(err) => Err(err),
        Ok(a) => match e.rest {
            None => Ok(a),
            Some(t) => match eval_expression(*t.1, ctx) {
                Err(err) => Err(err),
                Ok(b) => Ok(
                    match t.0 {
                        AndOr::And => a && b,
                        AndOr::Or => a || b,
                    },
                ),
            },
        },
    }
}

fn resolve_value(v: &SimpleValue, ctx: &Context) -> (r: Result<SimpleValue, EvalError>)
    ensures
        match r {
            Ok(x) => resolve(v@, ctx@) == Ok::<Scalar, EvalFailure>(x@),
            Err(e) => resolve(v@, ctx@) == Err::<Scalar, EvalFailure>(e@),
        },
{
    match v {
        SimpleValue::PropertyPath(p) => match ctx.lookup(p) {
            None => Err(EvalError::MissingFromContext(clone_path(p))),
            Some(x) => match x {
                SimpleValue::PropertyPath(_) => Err(EvalError::PathInContext),
                _ => Ok(x.clone()),
            },
        },
        _ => Ok(v.clone()),
    }
}

fn resolve_group(g: &Vec<SimpleValue>, ctx: &Context) -> (r: Result<Vec<SimpleValue>, EvalError>)
    ensures
        match r {
            Ok(x) => resolve_all(group_view(g@), ctx@) == Ok::<Seq<Scalar>, EvalFailure>(
                group_view(x@),
            ),
            Err(e) => resolve_all(group_view(g@), ctx@) == Err::<Seq<Scalar>, EvalFailure>(e@),
        },
{
    let ghost gv = group_view(g@);
    let mut out: Vec<SimpleValue> = Vec::new();
    let mut i: usize = 0;
    assert(gv.skip(0) =~= gv);
    while i < g.len()
        invariant
            i <= g.len(),
            gv == group_view(g@),
            resolve_all(gv, ctx@) == match resolve_all(gv.skip(i as int), ctx@) {
                Err(e) => Err(e),
                Ok(rest) => Ok::<Seq<Scalar>, EvalFailure>(group_view(out@) + rest),
            },
        decreases g.len() - i,
    {
        assert(gv.skip(i as int).drop_first() =~= gv.skip(i + 1));
        assert(gv.skip(i as int)[0] == g@[i as int]@);
        let x = resolve_value(&g[i], ctx);
        match x {
            Err(e) => {
                return Err(e);
            },
            Ok(v) => {
                let ghost before = group_view(out@);
                out.push(v);
                assert(group_view(out@) =~= before + seq![g@[i as int]@].take(0) + seq![
                    out@.last()@,
                ]);
                proof {
                    match resolve_all(gv.skip(i + 1), ctx@) {
                        Err(_) => {},
                        Ok(rest) => {
                            assert(group_view(out@) + rest =~= before + (seq![out@.last()@]
                                + rest));
                        },
                    }
                }
                i = i + 1;
            },
        }
    }
    assert(gv.skip(i as int) =~= Seq::<Scalar>::empty());
    assert(group_view(out@) + Seq::<Scalar>::empty() =~= group_view(out@));
    Ok(out)
}

fn contains_value(g: &Vec<SimpleValue>, x: &SimpleValue) -> (r: bool)
    ensures
        r == member(x@, group_view(g@)),
{
    let mut i: usize = 0;
    while i < g.len()
        invariant
            i <= g.len(),
            forall|j: int| 0 <= j < i ==> !scalar_eq(x@, #[trigger] group_view(g@)[j]),
        decreases g.len() - i,
    {
        if values_equal(x, &g[i]) {
            assert(scalar_eq(x@, group_view(g@)[i as int]));
            return true;
        }
        i = i + 1;
    }
    false
}

/// Every element of `subset` equals some element of `superset`.
pub fn is_subset(subset: &Vec<SimpleValue>, superset: &Vec<SimpleValue>) -> (r: bool)
    ensures
        r == group_subset(group_view(subset@), group_view(superset@)),
{
    let mut i: usize = 0;
    while i < subset.len()
        invariant
            i <= subset.len(),
            forall|j: int|
                0 <= j < i ==> member(#[trigger] group_view(subset@)[j], group_view(superset@)),
        decreases subset.len() - i,
    {
        if !contains_value(superset, &subset[i]) {
            assert(!member(group_view(subset@)[i as int], group_view(superset@)));
            return false;
        }
        i = i + 1;
    }
    true
}

/// Every element of `subset` equals some element of `superset`.
pub fn is_super_set(superset: &Vec<SimpleValue>, subset: &Vec<SimpleValue>) -> (r: bool)
    ensures
        r == group_subset(group_view(subset@), group_view(superset@)),
{
    is_subset(subset, superset)
}

/// Some element of `a` equals some element of `b`.
pub fn intersection_of(a: &Vec<SimpleValue>, b: &Vec<SimpleValue>) -> (r: bool)
    ensures
        r == group_intersects(group_view(a@), group_view(b@)),
{
    let mut i: usize = 0;
    while i < a.len()
        invariant
            i <= a.len(),
            forall|j: int| 0 <= j < i ==> !member(#[trigger] group_view(a@)[j], group_view(b@)),
        decreases a.len() - i,
    {
        if contains_value(b, &a[i]) {
            assert(member(group_view(a@)[i as int], group_view(b@)));
            return true;
        }
        i = i + 1;
    }
    false
}

/// No element of `a` equals an element of `b`.
pub fn not_intersection_of(a: &Vec<SimpleValue>, b: &Vec<SimpleValue>) -> (r: bool)
    ensures
        r == !group_intersects(group_view(a@), group_view(b@)),
{
    !intersection_of(a, b)
}

fn groups_equal(a: &Vec<SimpleValue>, b: &Vec<SimpleValue>) -> (r: bool)
    ensures
        r == group_equal(group_view(a@), group_view(b@)),
{
    if a.len() != b.len() {
        return false;
    }
    let mut i: usize = 0;
    while i < a.len()
        invariant
            i <= a.len(),
            a.len() == b.len(),
            forall|j: int|
                0 <= j < i ==> scalar_eq(#[trigger] group_view(a@)[j], group_view(b@)[j]),
        decreases a.len() - i,
    {
        if !values_equal(&a[i], &b[i]) {
            assert(!scalar_eq(group_view(a@)[i as int], group_view(b@)[i as int]));
            return false;
        }
        i = i + 1;
    }
    true
}

fn holds_ordered(op: BinOp, x: &SimpleValue, y: &SimpleValue) -> (r: bool)
    ensures
        r == ordered(op, x@, y@),
{
    match op {
        BinOp::GreaterThan => value_less(y, x),
        BinOp::GreaterThanOrEqual => values_equal(x, y) || value_less(y, x),
        BinOp::LessThan => value_less(x, y),
        BinOp::LessThanOrEqual => values_equal(x, y) || value_less(x, y),
        _ => false,
    }
}

fn all_ordered(op: BinOp, a: &Vec<SimpleValue>, b: &Vec<SimpleValue>) -> (r: bool)
    ensures
        r == pairwise(op, group_view(a@), group_view(b@)),
{
    let n: usize = if a.len() < b.len() {
        a.len()
    } else {
        b.len()
    };
    let mut i: usize = 0;
    while i < n
        invariant
            i <= n,
            n <= a.len(),
            n <= b.len(),
            n == a.len() || n == b.len(),
            forall|j: int|
                0 <= j < i ==> ordered(op, #[trigger] group_view(a@)[j], group_view(b@)[j]),
        decreases n - i,
    {
        if !holds_ordered(op, &a[i], &b[i]) {
            assert(!ordered(op, group_view(a@)[i as int], group_view(b@)[i as int]));
            return false;
        }
        i = i + 1;
    }
    true
}

fn compare_values(x: &SimpleValue, op: BinOp, y: SimpleValue) -> (r: Result<bool, EvalError>)
    ensures
        result_view(r) == compare_scalars(x@, op, y@),
{
    match op {
        BinOp::Equal | BinOp::Is => Ok(values_equal(x, &y)),
        BinOp::NotEqual | BinOp::IsNot => Ok(!values_equal(x, &y)),
        BinOp::GreaterThan | BinOp::GreaterThanOrEqual | BinOp::LessThan
        | BinOp::LessThanOrEqual => Ok(holds_ordered(op, x, &y)),
        _ => Err(EvalError::NotIterable(y)),
    }
}

fn compare_value_group(x: SimpleValue, op: BinOp, g: &Vec<SimpleValue>) -> (r: Result<
    bool,
    EvalError,
>)
    ensures
        result_view(r) == compare_scalar_group(x@, op, group_view(g@)),
{
    match op {
        BinOp::Equal | BinOp::Is => Ok(false),
        BinOp::NotEqual | BinOp::IsNot => Ok(true),
        BinOp::In => Ok(contains_value(g, &x)),
        BinOp::NotIn => Ok(!contains_value(g, &x)),
        _ => Err(EvalError::NotIterable(x)),
    }
}

fn compare_group_value(op: BinOp, y: SimpleValue) -> (r: Result<bool, EvalError>)
    ensures
        result_view(r) == compare_group_scalar(op, y@),
{
    match op {
        BinOp::Equal | BinOp::Is => Ok(false),
        BinOp::NotEqual | BinOp::IsNot => Ok(true),
        _ => Err(EvalError::NotIterable(y)),
    }
}

fn compare_group_values(a: &Vec<SimpleValue>, op: BinOp, b: &Vec<SimpleValue>) -> (r: bool)
    ensures
        r == compare_groups(group_view(a@), op, group_view(b@)),
{
    match op {
        BinOp::Equal | BinOp::Is => groups_equal(a, b),
        BinOp::NotEqual | BinOp::IsNot => !groups_equal(a, b),
        BinOp::In => false,
        BinOp::NotIn => true,
        BinOp::SubSetOf => is_subset(a, b),
        BinOp::SuperSetOf => is_super_set(a, b),
        BinOp::IntersectionOf => intersection_of(a, b),
        BinOp::NotIntersectionOf => not_intersection_of(a, b),
        _ => all_ordered(op, a, b),
    }
}

fn compare_operands(l: &PropertyVal, op: BinOp, r: &PropertyVal, ctx: &Context) -> (res: Result<
    bool,
    EvalError,
>)
    ensures
        result_view(res) == compare(l@, op, r@, ctx@),
{
    match (l, r) {
        (PropertyVal::SimpleValue(a), PropertyVal::SimpleValue(b)) => {
            let x = match resolve_value(a, ctx) {
                Ok(x) => x,
                Err(e) => return Err(e),
            };
            let y = match resolve_value(b, ctx) {
                Ok(y) => y,
                Err(e) => return Err(e),
            };
            compare_values(&x, op, y)
        },
        (PropertyVal::SimpleValue(a), PropertyVal::Group(g)) => {
            let x = match resolve_value(a, ctx) {
                Ok(x) => x,
                Err(e) => return Err(e),
            };
            let gs = match resolve_group(g, ctx) {
                Ok(gs) => gs,
                Err(e) => return Err(e),
            };
            compare_value_group(x, op, &gs)
        },
        (PropertyVal::Group(g), PropertyVal::SimpleValue(b)) => {
            if let Err(e) = resolve_group(g, ctx) {
                return Err(e);
            }
            let y = match resolve_value(b, ctx) {
                Ok(y) => y,
                Err(e) => return Err(e),
            };
            compare_group_value(op, y)
        },
        (PropertyVal::Group(g1), PropertyVal::Group(g2)) => {
            let a = match resolve_group(g1, ctx) {
                Ok(a) => a,
                Err(e) => return Err(e),
            };
            let b = match resolve_group(g2, ctx) {
                Ok(b) => b,
                Err(e) => return Err(e),
            };
            Ok(compare_group_values(&a, op, &b))
        },
    }
}

fn eval_boolean_condition(c: &BooleanCondition, ctx: &Context) -> (r: Result<bool, EvalError>)
    ensures
        result_view(r) == eval_condition(c@, ctx@),
    decreases c,
{
    match c {
        BooleanCondition::Comparison(l, op, r) => compare_operands(l, *op, r, ctx),
        BooleanCondition::Group(e) => eval_boolean_expression(e, ctx),
    }
}

fn eval_boolean_expression(e: &BooleanExpression, ctx: &Context) -> (r: Result<bool, EvalError>)
    ensures
        result_view(r) == eval_expression(e@, ctx@),
    decreases e,
{
    let a = match eval_boolean_condition(&e.initial, ctx) {
        Ok(a) => a,
        Err(err) => return Err(err),
    };
    match &e.rest {
        None => Ok(a),
        Some(t) => {
            let b = match eval_boolean_expression(&t.1, ctx) {
                Ok(b) => b,
                Err(err) => return Err(err),
            };
            match t.0 {
                AndOr::And => Ok(a && b),
                AndOr::Or => Ok(a || b),
            }
        },
    }
}

/// Evaluates `e` against an empty context.
pub fn eval(e: &BooleanExpression) -> (r: Result<bool, EvalError>)
    ensures
        result_view(r) == eval_expression(e@, Map::empty()),
{
    let ctx = Context::new();
    eval_boolean_expression(e, &ctx)
}

/// Evaluates `e` against `context`.
pub fn eval_with_context(e: &BooleanExpression, context: &Context) -> (r: Result<bool, EvalError>)
    ensures
        result_view(r) == eval_expression(e@, context@),
{
    eval_boolean_expression(e, context)
}

/// `A and B` (and likewise `A or B`) evaluates both sides before combining
/// them: where both succeed the result is their conjunction (disjunction);
/// where the left side fails its error is returned; where the left side
/// succeeds, even with `false`, and the right side fails, the right side's
/// error is returned.
pub proof fn law_connectives_evaluate_both_sides(
    a: Condition,
    b: Expression,
    op: AndOr,
    ctx: ContextModel,
)
    ensures
        ({
            let e = Expression { initial: a, rest: Some((op, Box::new(b))) };
            &&& eval_condition(a, ctx) matches Err(x) ==> eval_expression(e, ctx) == Err::<
                bool,
                EvalFailure,
            >(x)
            &&& (eval_condition(a, ctx) is Ok && eval_expression(b, ctx) is Err) ==> eval_expression(
                e,
                ctx,
            ) == Err::<bool, EvalFailure>(eval_expression(b, ctx)->Err_0)
            &&& (eval_condition(a, ctx) is Ok && eval_expression(b, ctx) is Ok) ==> eval_expression(
                e,
                ctx,
            ) == Ok::<bool, EvalFailure>(
                if op == AndOr::And {
                    eval_condition(a, ctx)->Ok_0 && eval_expression(b, ctx)->Ok_0
                } else {
                    eval_condition(a, ctx)->Ok_0 || eval_expression(b, ctx)->Ok_0
                },
            )
        }),
{
}

/// Evaluating one tree against one context twice gives the same outcome:
/// any two results that `eval_with_context` may return for them agree.
pub proof fn law_evaluation_is_repeatable(
    e: &BooleanExpression,
    ctx: &Context,
    first: Result<bool, EvalError>,
    second: Result<bool, EvalError>,
)
    requires
        result_view(first) == eval_expression(e@, ctx@),
        result_view(second) == eval_expression(e@, ctx@),
    ensures
        result_view(first) == result_view(second),
        first is Ok <==> second is Ok,
        first is Ok ==> first->Ok_0 == second->Ok_0,
{
}

} // verus!

//! The restricted expression grammar and its mathematical view.
//!
//! [`Expr`] is the executable tree. Its view [`ExprV`] replaces numbers by
//! their fractions and strings by character sequences, and lays out call
//! arguments and record fields as parallel sequences; every contract of the
//! symbolic layer is stated over the view.
use vstd::prelude::*;
use crate::number::{Number, Rat};

verus! {

#[derive(Clone, Copy, Debug, PartialEq, Eq, Structural)]
pub enum UnaryOp {
    Neg,
    Pos,
    Not,
}

#[derive(Clone, Copy, Debug, PartialEq, Eq, Structural)]
pub enum BinaryOp {
    Add,
    Sub,
    Mul,
    Div,
    Rem,
    Pow,
    And,
    Or,
}

#[derive(Clone, Copy, Debug, PartialEq, Eq, Structural)]
pub enum CompareOp {
    Eq,
    Ne,
    Lt,
    Le,
    Gt,
    Ge,
}

/// One argument of a call, optionally named (`name = value`).
pub struct CallArg {
    pub name: Option<String>,
    pub value: Expr,
}

/// An expression of the restricted grammar.
pub enum Expr {
    Number(Number),
    Text(String),
    Bool(bool),
    Ident(String),
    Array(Vec<Expr>),
    Record(Vec<(String, Expr)>),
    Unary { op: UnaryOp, expr: Box<Expr> },
    Binary { op: BinaryOp, left: Box<Expr>, right: Box<Expr> },
    Compare { operands: Vec<Expr>, ops: Vec<CompareOp> },
    Call { name: String, args: Vec<CallArg> },
}

/// The mathematical view of an expression.
pub enum ExprV {
    Number(Rat),
    Text(Seq<char>),
    Bool(bool),
    Ident(Seq<char>),
    Array(Seq<ExprV>),
    Record { keys: Seq<Seq<char>>, values: Seq<ExprV> },
    Unary { op: UnaryOp, arg: Box<ExprV> },
    Binary { op: BinaryOp, left: Box<ExprV>, right: Box<ExprV> },
    Compare { operands: Seq<ExprV>, ops: Seq<CompareOp> },
    Call { name: Seq<char>, arg_names: Seq<Option<Seq<char>>>, args: Seq<ExprV> },
}

pub open spec fn name_view(name: Option<String>) -> Option<Seq<char>> {
    match name {
        Some(s) => Some(s@),
        None => None,
    }
}

pub open spec fn arg_names_view(s: Seq<CallArg>) -> Seq<Option<Seq<char>>> {
    s.map_values(|a: CallArg| name_view(a.name))
}

pub open spec fn expr_view(e: &Expr) -> ExprV
    decreases e,
{
    match e {
        Expr::Number(n) => ExprV::Number(n@),
        Expr::Text(t) => ExprV::Text(t@),
        Expr::Bool(b) => ExprV::Bool(*b),
        Expr::Ident(s) => ExprV::Ident(s@),
        Expr::Array(items) => ExprV::Array(exprs_view(items@)),
        Expr::Record(fields) => ExprV::Record {
            keys: fields@.map_values(|f: (String, Expr)| f.0@),
            values: field_values_view(fields@),
        },
        Expr::Unary { op, expr } => ExprV::Unary { op: *op, arg: Box::new(expr_view(expr)) },
        Expr::Binary { op, left, right } => ExprV::Binary {
            op: *op,
            left: Box::new(expr_view(left)),
            right: Box::new(expr_view(right)),
        },
        Expr::Compare { operands, ops } => ExprV::Compare {
            operands: exprs_view(operands@),
            ops: ops@,
        },
        Expr::Call { name, args } => ExprV::Call {
            name: name@,
            arg_names: arg_names_view(args@),
            args: arg_values_view(args@),
        },
    }
}

pub open spec fn exprs_view(s: Seq<Expr>) -> Seq<ExprV>
    decreases s,
{
    if s.len() == 0 {
        Seq::empty()
    } else {
        exprs_view(s.drop_last()).push(expr_view(&s.last()))
    }
}

pub open spec fn field_values_view(s: Seq<(String, Expr)>) -> Seq<ExprV>
    decreases s,
{
    if s.len() == 0 {
        Seq::empty()
    } else {
        field_values_view(s.drop_last()).push(expr_view(&s.last().1))
    }
}

pub open spec fn arg_values_view(s: Seq<CallArg>) -> Seq<ExprV>
    decreases s,
{
    if s.len() == 0 {
        Seq::empty()
    } else {
        arg_values_view(s.drop_last()).push(expr_view(&s.last().value))
    }
}

impl View for Expr {
    type V = ExprV;

    open spec fn view(&self) -> ExprV {
        expr_view(self)
    }
}

pub proof fn lemma_exprs_view(s: Seq<Expr>)
    ensures
        exprs_view(s).len() == s.len(),
        forall|i: int| 0 <= i < s.len() ==> #[trigger] exprs_view(s)[i] == s[i]@,
    decreases s.len(),
{
    if s.len() > 0 {
        lemma_exprs_view(s.drop_last());
    }
}

/// Viewing a list with one more expression appends its view.
pub proof fn lemma_exprs_view_push(v: Seq<Expr>, x: Expr)
    ensures
        exprs_view(v.push(x)) == exprs_view(v).push(x@),
{
    assert(v.push(x).drop_last() =~= v);
}

pub proof fn lemma_field_values_view(s: Seq<(String, Expr)>)
    ensures
        field_values_view(s).len() == s.len(),
        forall|i: int| 0 <= i < s.len() ==> #[trigger] field_values_view(s)[i] == s[i].1@,
    decreases s.len(),
{
    if s.len() > 0 {
        lemma_field_values_view(s.drop_last());
    }
}

pub proof fn lemma_arg_values_view(s: Seq<CallArg>)
    ensures
        arg_values_view(s).len() == s.len(),
        forall|i: int| 0 <= i < s.len() ==> #[trigger] arg_values_view(s)[i] == s[i].value@,
    decreases s.len(),
{
    if s.len() > 0 {
        lemma_arg_values_view(s.drop_last());
    }
}

/// A copy of an optional argument name.
pub fn clone_name(name: &Option<String>) -> (r: Option<String>)
    ensures
        name_view(r) == name_view(*name),
{
    match name {
        Some(s) => Some(s.clone()),
        None => None,
    }
}

/// A deep copy of an expression.
pub fn clone_expr(e: &Expr) -> (r: Expr)
    ensures
        r@ == e@,
    decreases e,
{
    match e {
        Expr::Number(n) => Expr::Number(n.copy()),
        Expr::Text(t) => Expr::Text(t.clone()),
        Expr::Bool(b) => Expr::Bool(*b),
        Expr::Ident(s) => Expr::Ident(s.clone()),
        Expr::Array(items) => Expr::Array(clone_exprs(items)),
        Expr::Record(fields) => Expr::Record(clone_fields(fields)),
        Expr::Unary { op, expr } => Expr::Unary { op: *op, expr: Box::new(clone_expr(expr)) },
        Expr::Binary { op, left, right } => Expr::Binary {
            op: *op,
            left: Box::new(clone_expr(left)),
            right: Box::new(clone_expr(right)),
        },
        Expr::Compare { operands, ops } => {
            let new_operands = clone_exprs(operands);
            let new_ops = clone_ops(ops);
            Expr::Compare { operands: new_operands, ops: new_ops }
        },
        Expr::Call { name, args } => Expr::Call { name: name.clone(), args: clone_args(args) },
    }
}

fn clone_fields(fields: &Vec<(String, Expr)>) -> (r: Vec<(String, Expr)>)
    ensures
        r@.map_values(|f: (String, Expr)| f.0@) == fields@.map_values(|f: (String, Expr)| f.0@),
        field_values_view(r@) == field_values_view(fields@),
    decreases fields,
{
    let mut out: Vec<(String, Expr)> = Vec::new();
    let mut i: usize = 0;
    while i < fields.len()
        invariant
            i <= fields.len(),
            out.len() == i,
            forall|j: int| 0 <= j < i ==> (#[trigger] out@[j]).0@ == fields@[j].0@,
            forall|j: int| 0 <= j < i ==> (#[trigger] out@[j]).1@ == fields@[j].1@,
        decreases fields.len() - i,
    {
        let key = fields[i].0.clone();
        let value = clone_expr(&fields[i].1);
        out.push((key, value));
        i = i + 1;
    }
    proof {
        lemma_field_values_view(out@);
        lemma_field_values_view(fields@);
        assert(field_values_view(out@) =~= field_values_view(fields@));
        assert(out@.map_values(|f: (String, Expr)| f.0@) =~= fields@.map_values(
            |f: (String, Expr)| f.0@,
        ));
    }
    out
}

fn clone_args(args: &Vec<CallArg>) -> (r: Vec<CallArg>)
    ensures
        r@.map_values(|a: CallArg| name_view(a.name)) == args@.map_values(
            |a: CallArg| name_view(a.name),
        ),
        arg_values_view(r@) == arg_values_view(args@),
    decreases args,
{
    let mut out: Vec<CallArg> = Vec::new();
    let mut i: usize = 0;
    while i < args.len()
        invariant
            i <= args.len(),
            out.len() == i,
            forall|j: int|
                0 <= j < i ==> name_view((#[trigger] out@[j]).name) == name_view(args@[j].name),
            forall|j: int| 0 <= j < i ==> (#[trigger] out@[j]).value@ == args@[j].value@,
        decreases args.len() - i,
    {
        let arg_name = clone_name(&args[i].name);
        let value = clone_expr(&args[i].value);
        out.push(CallArg { name: arg_name, value });
        i = i + 1;
    }
    proof {
        lemma_arg_values_view(out@);
        lemma_arg_values_view(args@);
        assert(arg_values_view(out@) =~= arg_values_view(args@));
        assert(out@.map_values(|a: CallArg| name_view(a.name)) =~= args@.map_values(
            |a: CallArg| name_view(a.name),
        ));
    }
    out
}

/// A copy of a list of comparison operators.
pub fn clone_ops(ops: &Vec<CompareOp>) -> (r: Vec<CompareOp>)
    ensures
        r@ == ops@,
{
    let mut new_ops: Vec<CompareOp> = Vec::new();
    let mut i: usize = 0;
    while i < ops.len()
        invariant
            i <= ops.len(),
            new_ops@ == ops@.subrange(0, i as int),
        decreases ops.len() - i,
    {
        new_ops.push(ops[i]);
        i = i + 1;
        assert(new_ops@ =~= ops@.subrange(0, i as int));
    }
    assert(new_ops@ =~= ops@);
    new_ops
}

/// A deep copy of a list of expressions.
pub fn clone_exprs(items: &Vec<Expr>) -> (r: Vec<Expr>)
    ensures
        exprs_view(r@) == exprs_view(items@),
        r.len() == items.len(),
    decreases items,
{
    let mut out: Vec<Expr> = Vec::new();
    let mut i: usize = 0;
    while i < items.len()
        invariant
            i <= items.len(),
            out.len() == i,
            forall|j: int| 0 <= j < i ==> (#[trigger] out@[j])@ == items@[j]@,
        decreases items.len() - i,
    {
        let value = clone_expr(&items[i]);
        out.push(value);
        i = i + 1;
    }
    proof {
        lemma_exprs_view(out@);
        lemma_exprs_view(items@);
        assert(exprs_view(out@) =~= exprs_view(items@));
    }
    out
}

fn name_eq(a: &Option<String>, b: &Option<String>) -> (r: bool)
    ensures
        r == (name_view(*a) == name_view(*b)),
{
    match (a, b) {
        (Some(x), Some(y)) => *x == *y,
        (None, None) => true,
        _ => false,
    }
}

/// Structural equality of the views of two expressions.
pub fn expr_eq(a: &Expr, b: &Expr) -> (r: bool)
    ensures
        r == (a@ == b@),
    decreases a,
{
    match (a, b) {
        (Expr::Number(x), Expr::Number(y)) => x.equals(y),
        (Expr::Text(x), Expr::Text(y)) => *x == *y,
        (Expr::Bool(x), Expr::Bool(y)) => *x == *y,
        (Expr::Ident(x), Expr::Ident(y)) => *x == *y,
        (Expr::Array(x), Expr::Array(y)) => exprs_eq(x, y),
        (Expr::Record(x), Expr::Record(y)) => fields_eq(x, y),
        (Expr::Unary { op: o1, expr: e1 }, Expr::Unary { op: o2, expr: e2 }) => {
            *o1 == *o2 && expr_eq(e1, e2)
        },
        (
            Expr::Binary { op: o1, left: l1, right: r1 },
            Expr::Binary { op: o2, left: l2, right: r2 },
        ) => *o1 == *o2 && expr_eq(l1, l2) && expr_eq(r1, r2),
        (
            Expr::Compare { operands: x, ops: p1 },
            Expr::Compare { operands: y, ops: p2 },
        ) => exprs_eq(x, y) && ops_eq(p1, p2),
        (Expr::Call { name: n1, args: x }, Expr::Call { name: n2, args: y }) => {
            *n1 == *n2 && args_eq(x, y)
        },
        _ => false,
    }
}

fn ops_eq(a: &Vec<CompareOp>, b: &Vec<CompareOp>) -> (r: bool)
    ensures
        r == (a@ == b@),
{
    if a.len() != b.len() {
        return false;
    }
    let mut i: usize = 0;
    while i < a.len()
        invariant
            a.len() == b.len(),
            i <= a.len(),
            forall|j: int| 0 <= j < i ==> a@[j] == b@[j],
        decreases a.len() - i,
    {
        if a[i] != b[i] {
            return false;
        }
        i = i + 1;
    }
    assert(a@ =~= b@);
    true
}

/// Pointwise equality of the views of two expression lists.
pub fn exprs_eq(a: &Vec<Expr>, b: &Vec<Expr>) -> (r: bool)
    ensures
        r == (exprs_view(a@) == exprs_view(b@)),
    decreases a,
{
    proof {
        lemma_exprs_view(a@);
        lemma_exprs_view(b@);
    }
    if a.len() != b.len() {
        return false;
    }
    let mut i: usize = 0;
    while i < a.len()
        invariant
            a.len() == b.len(),
            i <= a.len(),
            exprs_view(a@).len() == a.len(),
            exprs_view(b@).len() == b.len(),
            forall|j: int| 0 <= j < a.len() ==> #[trigger] exprs_view(a@)[j] == a@[j]@,
            forall|j: int| 0 <= j < b.len() ==> #[trigger] exprs_view(b@)[j] == b@[j]@,
            forall|j: int| 0 <= j < i ==> a@[j]@ == b@[j]@,
        decreases a.len() - i,
    {
        if !expr_eq(&a[i], &b[i]) {
            assert(exprs_view(a@)[i as int] != exprs_view(b@)[i as int]);
            return false;
        }
        i = i + 1;
    }
    assert(exprs_view(a@) =~= exprs_view(b@));
    true
}

fn fields_eq(a: &Vec<(String, Expr)>, b: &Vec<(String, Expr)>) -> (r: bool)
    ensures
        r == (a@.map_values(|f: (String, Expr)| f.0@) == b@.map_values(|f: (String, Expr)| f.0@)
            && field_values_view(a@) == field_values_view(b@)),
    decreases a,
{
    proof {
        lemma_field_values_view(a@);
        lemma_field_values_view(b@);
    }
    let ghost ka = a@.map_values(|f: (String, Expr)| f.0@);
    let ghost kb = b@.map_values(|f: (String, Expr)| f.0@);
    if a.len() != b.len() {
        assert(ka.len() != kb.len());
        return false;
    }
    let mut i: usize = 0;
    while i < a.len()
        invariant
            a.len() == b.len(),
            i <= a.len(),
            ka == a@.map_values(|f: (String, Expr)| f.0@),
            kb == b@.map_values(|f: (String, Expr)| f.0@),
            field_values_view(a@).len() == a.len(),
            field_values_view(b@).len() == b.len(),
            forall|j: int| 0 <= j < a.len() ==> #[trigger] field_values_view(a@)[j] == a@[j].1@,
            forall|j: int| 0 <= j < b.len() ==> #[trigger] field_values_view(b@)[j] == b@[j].1@,
            forall|j: int| 0 <= j < i ==> a@[j].0@ == b@[j].0@ && a@[j].1@ == b@[j].1@,
        decreases a.len() - i,
    {
        if !(a[i].0 == b[i].0) {
            assert(ka[i as int] != kb[i as int]);
            return false;
        }
        if !expr_eq(&a[i].1, &b[i].1) {
            assert(field_values_view(a@)[i as int] != field_values_view(b@)[i as int]);
            return false;
        }
        i = i + 1;
    }
    assert(ka =~= kb);
    assert(field_values_view(a@) =~= field_values_view(b@));
    true
}

fn args_eq(a: &Vec<CallArg>, b: &Vec<CallArg>) -> (r: bool)
    ensures
        r == (a@.map_values(|x: CallArg| name_view(x.name)) == b@.map_values(
            |x: CallArg| name_view(x.name),
        ) && arg_values_view(a@) == arg_values_view(b@)),
    decreases a,
{
    proof {
        lemma_arg_values_view(a@);
        lemma_arg_values_view(b@);
    }
    let ghost na = a@.map_values(|x: CallArg| name_view(x.name));
    let ghost nb = b@.map_values(|x: CallArg| name_view(x.name));
    if a.len() != b.len() {
        assert(na.len() != nb.len());
        return false;
    }
    let mut i: usize = 0;
    while i < a.len()
        invariant
            a.len() == b.len(),
            i <= a.len(),
            na == a@.map_values(|x: CallArg| name_view(x.name)),
            nb == b@.map_values(|x: CallArg| name_view(x.name)),
            arg_values_view(a@).len() == a.len(),
            arg_values_view(b@).len() == b.len(),
            forall|j: int| 0 <= j < a.len() ==> #[trigger] arg_values_view(a@)[j] == a@[j].value@,
            forall|j: int| 0 <= j < b.len() ==> #[trigger] arg_values_view(b@)[j] == b@[j].value@,
            forall|j: int|
                0 <= j < i ==> name_view(a@[j].name) == name_view(b@[j].name) && a@[j].value@
                    == b@[j].value@,
        decreases a.len() - i,
    {
        if !name_eq(&a[i].name, &b[i].name) {
            assert(na[i as int] != nb[i as int]);
            return false;
        }
        if !expr_eq(&a[i].value, &b[i].value) {
            assert(arg_values_view(a@)[i as int] != arg_values_view(b@)[i as int]);
            return false;
        }
        i = i + 1;
    }
    assert(na =~= nb);
    assert(arg_values_view(a@) =~= arg_values_view(b@));
    true
}

} // verus!

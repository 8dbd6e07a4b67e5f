//! Precedence-aware printing of the restricted expression grammar.
//!
//! The printer emits the minimal parentheses required by the reader's
//! precedence and associativity. Negative literals and rational literals are
//! treated as operators for precedence purposes because their printed form
//! contains `-` or `/`.
use vstd::prelude::*;
use crate::ast::{all_well_formed, lemma_all_well_formed, lemma_sizes_prefix, lemma_sizes_step, size, sizes, well_formed};
use crate::error::{budget_ok, exhausted, Budget, EngineError, ErrorCode, Limits};
use crate::expr::{
    arg_names_view, arg_values_view, exprs_view, field_values_view, lemma_arg_values_view,
    lemma_exprs_view, lemma_field_values_view, name_view, BinaryOp, CallArg, CompareOp, Expr,
    ExprV, UnaryOp,
};
use crate::number::{digit_char, rat_text};
use vstd::string::*;

verus! {

pub const PREC_OR: u8 = 1;
pub const PREC_AND: u8 = 2;
pub const PREC_NOT: u8 = 3;
pub const PREC_COMPARE: u8 = 4;
pub const PREC_ADD: u8 = 5;
pub const PREC_MUL: u8 = 6;
pub const PREC_UNARY: u8 = 7;
pub const PREC_POW: u8 = 8;
pub const PREC_ATOM: u8 = 9;

// ---------------------------------------------------------------------------
// String quoting
// ---------------------------------------------------------------------------

pub open spec fn hex_char(n: int) -> char {
    if n < 10 {
        digit_char(n as nat)
    } else {
        ((n - 10) + ('a' as int)) as char
    }
}

/// JSON escape of one character: quote, backslash and the control
/// characters are escaped, everything else is kept.
pub open spec fn json_escape(c: char) -> Seq<char> {
    if c == '"' {
        seq!['\\', '"']
    } else if c == '\\' {
        seq!['\\', '\\']
    } else if c == '\u{8}' {
        seq!['\\', 'b']
    } else if c == '\u{c}' {
        seq!['\\', 'f']
    } else if c == '\n' {
        seq!['\\', 'n']
    } else if c == '\r' {
        seq!['\\', 'r']
    } else if c == '\t' {
        seq!['\\', 't']
    } else if (c as int) < 32 {
        seq!['\\', 'u', '0', '0', hex_char((c as int) / 16), hex_char((c as int) % 16)]
    } else {
        seq![c]
    }
}

pub open spec fn json_escaped(s: Seq<char>) -> Seq<char>
    decreases s.len(),
{
    if s.len() == 0 {
        Seq::empty()
    } else {
        json_escaped(s.drop_last()) + json_escape(s.last())
    }
}

/// A string as a JSON string literal.
pub open spec fn json_quoted(s: Seq<char>) -> Seq<char> {
    seq!['"'] + json_escaped(s) + seq!['"']
}

/// `serde_json::to_string` on a `str`: the JSON string literal, with `"`,
/// `\` and the control characters below U+0020 escaped (`\b \f \n \r \t`,
/// otherwise `\u00xx` in lower-case hex) and every other character kept.
/// Serialising a `str` into the in-memory buffer that `to_string` uses has no
/// failing path in the crate's source, so the error arm is never taken.
#[verifier::external_body]
fn json_quote(text: &str) -> (r: String)
    ensures
        r@ == json_quoted(text@),
{
    match serde_json::to_string(text) {
        Ok(quoted) => quoted,
        Err(_) => String::new(),
    }
}

// ---------------------------------------------------------------------------
// Precedence and symbols
// ---------------------------------------------------------------------------

pub open spec fn binary_prec(op: BinaryOp) -> nat {
    match op {
        BinaryOp::Or => PREC_OR as nat,
        BinaryOp::And => PREC_AND as nat,
        BinaryOp::Add | BinaryOp::Sub => PREC_ADD as nat,
        BinaryOp::Mul | BinaryOp::Div | BinaryOp::Rem => PREC_MUL as nat,
        BinaryOp::Pow => PREC_POW as nat,
    }
}

pub open spec fn unary_prec(op: UnaryOp) -> nat {
    match op {
        UnaryOp::Not => PREC_NOT as nat,
        _ => PREC_UNARY as nat,
    }
}

/// Binding strength of the printed form of a node.
pub open spec fn prec(e: ExprV) -> nat {
    match e {
        ExprV::Binary { op, .. } => binary_prec(op),
        ExprV::Unary { op, .. } => unary_prec(op),
        ExprV::Compare { .. } => PREC_COMPARE as nat,
        ExprV::Number(q) => if q.den != 1 {
            PREC_MUL as nat
        } else if q.num < 0 {
            PREC_UNARY as nat
        } else {
            PREC_ATOM as nat
        },
        _ => PREC_ATOM as nat,
    }
}

pub open spec fn binary_symbol(op: BinaryOp) -> Seq<char> {
    match op {
        BinaryOp::Add => seq!['+'],
        BinaryOp::Sub => seq!['-'],
        BinaryOp::Mul => seq!['*'],
        BinaryOp::Div => seq!['/'],
        BinaryOp::Rem => seq!['%'],
        BinaryOp::Pow => seq!['^'],
        BinaryOp::And => seq!['a', 'n', 'd'],
        BinaryOp::Or => seq!['o', 'r'],
    }
}

pub open spec fn unary_symbol(op: UnaryOp) -> Seq<char> {
    match op {
        UnaryOp::Neg => seq!['-'],
        UnaryOp::Pos => seq!['+'],
        UnaryOp::Not => seq!['n', 'o', 't', ' '],
    }
}

pub open spec fn compare_symbol(op: CompareOp) -> Seq<char> {
    match op {
        CompareOp::Eq => seq!['=', '='],
        CompareOp::Ne => seq!['!', '='],
        CompareOp::Lt => seq!['<'],
        CompareOp::Le => seq!['<', '='],
        CompareOp::Gt => seq!['>'],
        CompareOp::Ge => seq!['>', '='],
    }
}

pub open spec fn comma() -> Seq<char> {
    seq![',', ' ']
}

// ---------------------------------------------------------------------------
// The printed text
// ---------------------------------------------------------------------------

/// The text of `e` printed inside a context of binding strength `parent`:
/// parenthesised exactly when the node binds less tightly than its context.
pub open spec fn printed(e: ExprV, parent: nat) -> Seq<char>
    decreases e, 1int,
{
    if prec(e) < parent {
        seq!['('] + printed_body(e) + seq![')']
    } else {
        printed_body(e)
    }
}

/// The text of a node without surrounding parentheses.
pub open spec fn printed_body(e: ExprV) -> Seq<char>
    decreases e, 0int,
{
    match e {
        ExprV::Number(q) => rat_text(q),
        ExprV::Text(t) => json_quoted(t),
        ExprV::Bool(b) => if b {
            seq!['t', 'r', 'u', 'e']
        } else {
            seq!['f', 'a', 'l', 's', 'e']
        },
        ExprV::Ident(name) => name,
        ExprV::Array(items) => seq!['['] + printed_list(items) + seq![']'],
        ExprV::Record { keys, values } => seq!['{'] + printed_fields(keys, values) + seq!['}'],
        ExprV::Unary { op, arg } => unary_symbol(op) + printed(*arg, unary_prec(op)),
        ExprV::Binary { op, left, right } => if op == BinaryOp::Pow {
            printed(*left, PREC_POW as nat + 1) + seq!['^'] + printed(*right, PREC_POW as nat)
        } else {
            printed(*left, binary_prec(op)) + seq![' '] + binary_symbol(op) + seq![' '] + printed(
                *right,
                binary_prec(op) + 1,
            )
        },
        ExprV::Compare { operands, ops } => printed_chain(operands, ops),
        ExprV::Call { name, arg_names, args } => name + seq!['('] + printed_args(arg_names, args)
            + seq![')'],
    }
}

/// Items separated by `", "`.
pub open spec fn printed_list(s: Seq<ExprV>) -> Seq<char>
    decreases s, 0int,
{
    if s.len() == 0 {
        Seq::empty()
    } else {
        let before = printed_list(s.drop_last());
        (if s.len() > 1 {
            before + comma()
        } else {
            before
        }) + printed(s.last(), 0)
    }
}

/// Record fields `"key": value` separated by `", "`.
pub open spec fn printed_fields(keys: Seq<Seq<char>>, values: Seq<ExprV>) -> Seq<char>
    decreases values, 0int,
{
    if values.len() == 0 {
        Seq::empty()
    } else {
        let before = printed_fields(keys, values.drop_last());
        (if values.len() > 1 {
            before + comma()
        } else {
            before
        }) + json_quoted(keys[values.len() - 1]) + seq![':', ' '] + printed(values.last(), 0)
    }
}

/// Call arguments, each with its `name = ` prefix when it has one.
pub open spec fn printed_args(names: Seq<Option<Seq<char>>>, args: Seq<ExprV>) -> Seq<char>
    decreases args, 0int,
{
    if args.len() == 0 {
        Seq::empty()
    } else {
        let before = printed_args(names, args.drop_last());
        let label = match names[args.len() - 1] {
            Some(n) => n + seq![' ', '=', ' '],
            None => Seq::empty(),
        };
        (if args.len() > 1 {
            before + comma()
        } else {
            before
        }) + label + printed(args.last(), 0)
    }
}

/// A comparison chain: operands joined by their operators.
pub open spec fn printed_chain(operands: Seq<ExprV>, ops: Seq<CompareOp>) -> Seq<char>
    decreases operands, 0int,
{
    if operands.len() == 0 {
        Seq::empty()
    } else {
        let before = printed_chain(operands.drop_last(), ops);
        (if operands.len() > 1 {
            before + seq![' '] + compare_symbol(ops[operands.len() - 2]) + seq![' ']
        } else {
            before
        }) + printed(operands.last(), PREC_COMPARE as nat)
    }
}

// ---------------------------------------------------------------------------
// Writing
// ---------------------------------------------------------------------------

fn precedence(expr: &Expr) -> (r: u8)
    ensures
        r as nat == prec(expr@),
{
    match expr {
        Expr::Binary { op, .. } => binary_precedence(*op),
        Expr::Unary { op, .. } => match op {
            UnaryOp::Not => PREC_NOT,
            _ => PREC_UNARY,
        },
        Expr::Compare { .. } => PREC_COMPARE,
        Expr::Number(number) => {
            if !number.is_integer() {
                PREC_MUL
            } else if number.is_negative() {
                PREC_UNARY
            } else {
                PREC_ATOM
            }
        },
        _ => PREC_ATOM,
    }
}

fn binary_precedence(op: BinaryOp) -> (r: u8)
    ensures
        r as nat == binary_prec(op),
{
    match op {
        BinaryOp::Or => PREC_OR,
        BinaryOp::And => PREC_AND,
        BinaryOp::Add | BinaryOp::Sub => PREC_ADD,
        BinaryOp::Mul | BinaryOp::Div | BinaryOp::Rem => PREC_MUL,
        BinaryOp::Pow => PREC_POW,
    }
}

fn write_binary_symbol(op: BinaryOp, out: &mut String)
    ensures
        final(out)@ == old(out)@ + binary_symbol(op),
{
    proof {
        reveal_strlit("+");
        reveal_strlit("-");
        reveal_strlit("*");
        reveal_strlit("/");
        reveal_strlit("%");
        reveal_strlit("^");
        reveal_strlit("and");
        reveal_strlit("or");
    }
    match op {
        BinaryOp::Add => out.append("+"),
        BinaryOp::Sub => out.append("-"),
        BinaryOp::Mul => out.append("*"),
        BinaryOp::Div => out.append("/"),
        BinaryOp::Rem => out.append("%"),
        BinaryOp::Pow => out.append("^"),
        BinaryOp::And => out.append("and"),
        BinaryOp::Or => out.append("or"),
    }
}

fn write_unary_symbol(op: UnaryOp, out: &mut String)
    ensures
        final(out)@ == old(out)@ + unary_symbol(op),
{
    proof {
        reveal_strlit("-");
        reveal_strlit("+");
        reveal_strlit("not ");
    }
    match op {
        UnaryOp::Neg => out.append("-"),
        UnaryOp::Pos => out.append("+"),
        UnaryOp::Not => out.append("not "),
    }
}

fn write_compare_symbol(op: CompareOp, out: &mut String)
    ensures
        final(out)@ == old(out)@ + compare_symbol(op),
{
    proof {
        reveal_strlit("==");
        reveal_strlit("!=");
        reveal_strlit("<");
        reveal_strlit("<=");
        reveal_strlit(">");
        reveal_strlit(">=");
    }
    match op {
        CompareOp::Eq => out.append("=="),
        CompareOp::Ne => out.append("!="),
        CompareOp::Lt => out.append("<"),
        CompareOp::Le => out.append("<="),
        CompareOp::Gt => out.append(">"),
        CompareOp::Ge => out.append(">="),
    }
}

fn write_expr(expr: &Expr, parent: u8, out: &mut String, budget: &mut Budget) -> (r: Result<
    (),
    EngineError,
>)
    requires
        well_formed(expr@),
    ensures
        budget_ok(*old(budget), *final(budget), size(expr@) as int, exhausted(r)),
        r is Ok ==> final(out)@ == old(out)@ + printed(expr@, parent as nat),
        r matches Err(e) ==> e.code == ErrorCode::ResourceLimit,
    decreases expr, 1int,
{
    proof {
        reveal_strlit("(");
        reveal_strlit(")");
    }
    let parenthesize = precedence(expr) < parent;
    if parenthesize {
        out.append("(");
    }
    let ghost opened = out@;
    write_body(expr, out, budget)?;
    if parenthesize {
        out.append(")");
        assert(out@ =~= old(out)@ + (seq!['('] + printed_body(expr@) + seq![')']));
    } else {
        assert(out@ =~= old(out)@ + printed_body(expr@));
    }
    Ok(())
}

#[verifier::spinoff_prover]
#[verifier::rlimit(40)]
fn write_body(expr: &Expr, out: &mut String, budget: &mut Budget) -> (r: Result<(), EngineError>)
    requires
        well_formed(expr@),
    ensures
        budget_ok(*old(budget), *final(budget), size(expr@) as int, exhausted(r)),
        r is Ok ==> final(out)@ == old(out)@ + printed_body(expr@),
        r matches Err(e) ==> e.code == ErrorCode::ResourceLimit,
    decreases expr, 0int,
{
    budget.tick()?;
    match expr {
        Expr::Number(number) => {
            let text = number.to_text();
            out.append(text.as_str());
        },
        Expr::Text(text) => {
            let quoted = json_quote(text.as_str());
            out.append(quoted.as_str());
        },
        Expr::Bool(value) => {
            proof {
                reveal_strlit("true");
                reveal_strlit("false");
            }
            if *value {
                out.append("true");
            } else {
                out.append("false");
            }
        },
        Expr::Ident(name) => {
            out.append(name.as_str());
        },
        Expr::Array(items) => {
            proof {
                reveal_strlit("[");
                reveal_strlit("]");
            }
            out.append("[");
            write_list(items, out, budget)?;
            out.append("]");
            assert(out@ =~= old(out)@ + printed_body(expr@));
        },
        Expr::Record(fields) => {
            proof {
                reveal_strlit("{");
                reveal_strlit("}");
            }
            out.append("{");
            write_fields(fields, out, budget)?;
            out.append("}");
            assert(out@ =~= old(out)@ + printed_body(expr@));
        },
        Expr::Unary { op, expr: inner } => {
            write_unary_symbol(*op, out);
            let operand = match op {
                UnaryOp::Not => PREC_NOT,
                _ => PREC_UNARY,
            };
            write_expr(inner, operand, out, budget)?;
            assert(out@ =~= old(out)@ + printed_body(expr@));
        },
        Expr::Binary { op, left, right } => {
            proof {
                reveal_strlit("^");
                reveal_strlit(" ");
            }
            if *op == BinaryOp::Pow {
                write_expr(left, PREC_POW + 1, out, budget)?;
                out.append("^");
                write_expr(right, PREC_POW, out, budget)?;
            } else {
                let q = binary_precedence(*op);
                write_expr(left, q, out, budget)?;
                out.append(" ");
                write_binary_symbol(*op, out);
                out.append(" ");
                write_expr(right, q + 1, out, budget)?;
            }
            assert(out@ =~= old(out)@ + printed_body(expr@));
        },
        Expr::Compare { operands, ops } => {
            proof {
                lemma_exprs_view(operands@);
            }
            write_chain(operands, ops, out, budget)?;
        },
        Expr::Call { name, args } => {
            proof {
                reveal_strlit("(");
                reveal_strlit(")");
            }
            out.append(name.as_str());
            out.append("(");
            write_args(args, out, budget)?;
            out.append(")");
            assert(out@ =~= old(out)@ + printed_body(expr@));
        },
    }
    Ok(())
}

fn write_list(xs: &Vec<Expr>, out: &mut String, budget: &mut Budget) -> (r: Result<
    (),
    EngineError,
>)
    requires
        all_well_formed(exprs_view(xs@)),
    ensures
        budget_ok(*old(budget), *final(budget), sizes(exprs_view(xs@)) as int, exhausted(r)),
        r is Ok ==> final(out)@ == old(out)@ + printed_list(exprs_view(xs@)),
        r matches Err(e) ==> e.code == ErrorCode::ResourceLimit,
    decreases xs, 0int,
{
    proof {
        reveal_strlit(", ");
    }
    let ghost views = exprs_view(xs@);
    proof {
        lemma_exprs_view(xs@);
        lemma_all_well_formed(views);
    }
    let mut i: usize = 0;
    assert(views.subrange(0, 0) =~= Seq::<ExprV>::empty());
    assert(out@ =~= old(out)@ + printed_list(views.subrange(0, 0)));
    while i < xs.len()
        invariant
            i <= xs.len(),
            views == exprs_view(xs@),
            views.len() == xs.len(),
            forall|j: int| 0 <= j < xs.len() ==> #[trigger] views[j] == xs@[j]@,
            forall|j: int| 0 <= j < xs.len() ==> #[trigger] well_formed(views[j]),
            out@ == old(out)@ + printed_list(views.subrange(0, i as int)),
            budget.limit() == old(budget).limit(),
            old(budget).spent() <= budget.spent(),
            budget.spent() <= old(budget).spent() + sizes(views.subrange(0, i as int)),
        decreases xs.len() - i,
    {
        proof {
            reveal_strlit(", ");
            reveal_strlit(": ");
            reveal_strlit(" = ");
            reveal_strlit(" ");
            lemma_sizes_step(views, i as int);
            lemma_sizes_prefix(views, i as int + 1);
        }
        let ghost prefix = views.subrange(0, i as int + 1);
        assert(prefix.drop_last() =~= views.subrange(0, i as int));
        assert(prefix.last() == xs@[i as int]@);
        let ghost before = out@;
        if i > 0 {
            out.append(", ");
        }
        let ghost separated = out@;
        assert(separated == before + if i > 0 {
            comma()
        } else {
            Seq::<char>::empty()
        });
        assert(well_formed(xs@[i as int]@));
        write_expr(&xs[i], 0, out, budget)?;
        assert(out@ == separated + printed(views[i as int], 0));
        assert(printed_list(prefix) == (if i > 0 {
            printed_list(views.subrange(0, i as int)) + comma()
        } else {
            printed_list(views.subrange(0, i as int))
        }) + printed(views[i as int], 0));
        assert(out@ =~= old(out)@ + printed_list(prefix));
        i = i + 1;
    }
    assert(views.subrange(0, xs.len() as int) =~= views);
    Ok(())
}

fn write_fields(xs: &Vec<(String, Expr)>, out: &mut String, budget: &mut Budget) -> (r: Result<
    (),
    EngineError,
>)
    requires
        all_well_formed(field_values_view(xs@)),
    ensures
        budget_ok(*old(budget), *final(budget), sizes(field_values_view(xs@)) as int, exhausted(r)),
        r is Ok ==> final(out)@ == old(out)@ + printed_fields(
            xs@.map_values(|f: (String, Expr)| f.0@),
            field_values_view(xs@),
        ),
        r matches Err(e) ==> e.code == ErrorCode::ResourceLimit,
    decreases xs, 0int,
{
    proof {
        reveal_strlit(", ");
        reveal_strlit(": ");
    }
    let ghost views = field_values_view(xs@);
    let ghost keys = xs@.map_values(|f: (String, Expr)| f.0@);
    proof {
        lemma_field_values_view(xs@);
        lemma_all_well_formed(views);
    }
    let mut i: usize = 0;
    assert(views.subrange(0, 0) =~= Seq::<ExprV>::empty());
    assert(out@ =~= old(out)@ + printed_fields(keys, views.subrange(0, 0)));
    while i < xs.len()
        invariant
            i <= xs.len(),
            views == field_values_view(xs@),
            keys == xs@.map_values(|f: (String, Expr)| f.0@),
            views.len() == xs.len(),
            forall|j: int| 0 <= j < xs.len() ==> #[trigger] views[j] == xs@[j].1@,
            forall|j: int| 0 <= j < xs.len() ==> #[trigger] well_formed(views[j]),
            out@ == old(out)@ + printed_fields(keys, views.subrange(0, i as int)),
            budget.limit() == old(budget).limit(),
            old(budget).spent() <= budget.spent(),
            budget.spent() <= old(budget).spent() + sizes(views.subrange(0, i as int)),
        decreases xs.len() - i,
    {
        proof {
            reveal_strlit(", ");
            reveal_strlit(": ");
            reveal_strlit(" = ");
            reveal_strlit(" ");
            lemma_sizes_step(views, i as int);
            lemma_sizes_prefix(views, i as int + 1);
        }
        let ghost prefix = views.subrange(0, i as int + 1);
        assert(prefix.drop_last() =~= views.subrange(0, i as int));
        assert(prefix.last() == xs@[i as int].1@);
        assert(keys[i as int] == xs@[i as int].0@);
        if i > 0 {
            out.append(", ");
        }
        let quoted = json_quote(xs[i].0.as_str());
        out.append(quoted.as_str());
        out.append(": ");
        assert(well_formed(xs@[i as int].1@));
        write_expr(&xs[i].1, 0, out, budget)?;
        assert(out@ =~= old(out)@ + printed_fields(keys, prefix));
        i = i + 1;
    }
    assert(views.subrange(0, xs.len() as int) =~= views);
    Ok(())
}

fn write_args(xs: &Vec<CallArg>, out: &mut String, budget: &mut Budget) -> (r: Result<
    (),
    EngineError,
>)
    requires
        all_well_formed(arg_values_view(xs@)),
    ensures
        budget_ok(*old(budget), *final(budget), sizes(arg_values_view(xs@)) as int, exhausted(r)),
        r is Ok ==> final(out)@ == old(out)@ + printed_args(
            arg_names_view(xs@),
            arg_values_view(xs@),
        ),
        r matches Err(e) ==> e.code == ErrorCode::ResourceLimit,
    decreases xs, 0int,
{
    proof {
        reveal_strlit(", ");
        reveal_strlit(" = ");
    }
    let ghost views = arg_values_view(xs@);
    let ghost names = arg_names_view(xs@);
    proof {
        lemma_arg_values_view(xs@);
        lemma_all_well_formed(views);
    }
    let mut i: usize = 0;
    assert(views.subrange(0, 0) =~= Seq::<ExprV>::empty());
    assert(out@ =~= old(out)@ + printed_args(names, views.subrange(0, 0)));
    while i < xs.len()
        invariant
            i <= xs.len(),
            views == arg_values_view(xs@),
            names == arg_names_view(xs@),
            views.len() == xs.len(),
            forall|j: int| 0 <= j < xs.len() ==> #[trigger] views[j] == xs@[j].value@,
            forall|j: int| 0 <= j < xs.len() ==> #[trigger] well_formed(views[j]),
            out@ == old(out)@ + printed_args(names, views.subrange(0, i as int)),
            budget.limit() == old(budget).limit(),
            old(budget).spent() <= budget.spent(),
            budget.spent() <= old(budget).spent() + sizes(views.subrange(0, i as int)),
        decreases xs.len() - i,
    {
        proof {
            reveal_strlit(", ");
            reveal_strlit(": ");
            reveal_strlit(" = ");
            reveal_strlit(" ");
            lemma_sizes_step(views, i as int);
            lemma_sizes_prefix(views, i as int + 1);
        }
        let ghost prefix = views.subrange(0, i as int + 1);
        assert(prefix.drop_last() =~= views.subrange(0, i as int));
        assert(prefix.last() == xs@[i as int].value@);
        assert(names[i as int] == name_view(xs@[i as int].name));
        if i > 0 {
            out.append(", ");
        }
        if let Some(arg_name) = &xs[i].name {
            out.append(arg_name.as_str());
            out.append(" = ");
        }
        assert(well_formed(xs@[i as int].value@));
        write_expr(&xs[i].value, 0, out, budget)?;
        assert(out@ =~= old(out)@ + printed_args(names, prefix));
        i = i + 1;
    }
    assert(views.subrange(0, xs.len() as int) =~= views);
    Ok(())
}

fn write_chain(xs: &Vec<Expr>, ops: &Vec<CompareOp>, out: &mut String, budget: &mut Budget) -> (r:
    Result<(), EngineError>)
    requires
        all_well_formed(exprs_view(xs@)),
        xs.len() == ops.len() + 1,
    ensures
        budget_ok(*old(budget), *final(budget), sizes(exprs_view(xs@)) as int, exhausted(r)),
        r is Ok ==> final(out)@ == old(out)@ + printed_chain(exprs_view(xs@), ops@),
        r matches Err(e) ==> e.code == ErrorCode::ResourceLimit,
    decreases xs, 0int,
{
    proof {
        reveal_strlit(" ");
    }
    let ghost views = exprs_view(xs@);
    proof {
        lemma_exprs_view(xs@);
        lemma_all_well_formed(views);
    }
    let mut i: usize = 0;
    assert(views.subrange(0, 0) =~= Seq::<ExprV>::empty());
    assert(out@ =~= old(out)@ + printed_chain(views.subrange(0, 0), ops@));
    while i < xs.len()
        invariant
            i <= xs.len(),
            xs.len() == ops.len() + 1,
            views == exprs_view(xs@),
            views.len() == xs.len(),
            forall|j: int| 0 <= j < xs.len() ==> #[trigger] views[j] == xs@[j]@,
            forall|j: int| 0 <= j < xs.len() ==> #[trigger] well_formed(views[j]),
            out@ == old(out)@ + printed_chain(views.subrange(0, i as int), ops@),
            budget.limit() == old(budget).limit(),
            old(budget).spent() <= budget.spent(),
            budget.spent() <= old(budget).spent() + sizes(views.subrange(0, i as int)),
        decreases xs.len() - i,
    {
        proof {
            reveal_strlit(", ");
            reveal_strlit(": ");
            reveal_strlit(" = ");
            reveal_strlit(" ");
            lemma_sizes_step(views, i as int);
            lemma_sizes_prefix(views, i as int + 1);
        }
        let ghost prefix = views.subrange(0, i as int + 1);
        assert(prefix.drop_last() =~= views.subrange(0, i as int));
        assert(prefix.last() == xs@[i as int]@);
        if i > 0 {
            out.append(" ");
            write_compare_symbol(ops[i - 1], out);
            out.append(" ");
        }
        assert(well_formed(xs@[i as int]@));
        write_expr(&xs[i], PREC_COMPARE, out, budget)?;
        assert(out@ =~= old(out)@ + printed_chain(prefix, ops@));
        i = i + 1;
    }
    assert(views.subrange(0, xs.len() as int) =~= views);
    Ok(())
}

/// Print an expression with minimal parentheses under the caller's limits.
pub fn print_expression(expr: &Expr, limits: &Limits) -> (r: Result<String, EngineError>)
    requires
        well_formed(expr@),
    ensures
        r matches Ok(text) ==> text@ == printed(expr@, 0),
        r matches Err(e) ==> e.code == ErrorCode::ResourceLimit,
        size(expr@) <= limits.max_operations ==> r is Ok,
{
    let mut budget = Budget::new(limits.max_operations);
    let mut out = String::new();
    write_expr(expr, 0, &mut out, &mut budget)?;
    assert(out@ =~= printed(expr@, 0));
    Ok(out)
}


// ---------------------------------------------------------------------------
// Grouping is kept
// ---------------------------------------------------------------------------

/// Printing keeps the grouping of a chain of left-associative operators of
/// one precedence: `a op (b op2 c)` and `(a op b) op2 c` print differently,
/// so the right-nested form is never printed as the left-nested one.
pub proof fn lemma_print_keeps_grouping(op: BinaryOp, op2: BinaryOp, a: ExprV, b: ExprV, c: ExprV)
    requires
        op != BinaryOp::Pow,
        op2 != BinaryOp::Pow,
        binary_prec(op) == binary_prec(op2),
    ensures
        printed(crate::ast::binary_node(op, a, crate::ast::binary_node(op2, b, c)), 0) != printed(
            crate::ast::binary_node(op2, crate::ast::binary_node(op, a, b), c),
            0,
        ),
{
    let p = binary_prec(op);
    let inner1 = crate::ast::binary_node(op2, b, c);
    let inner2 = crate::ast::binary_node(op, a, b);
    let e1 = crate::ast::binary_node(op, a, inner1);
    let e2 = crate::ast::binary_node(op2, inner2, c);
    let pa = printed(a, p) + seq![' '] + binary_symbol(op) + seq![' '];
    let s2 = seq![' '] + binary_symbol(op2) + seq![' '];
    let tc = printed(c, p + 1);
    let bp = printed(b, p);
    let bq = printed(b, p + 1);
    assert(prec(inner1) == p && prec(inner2) == p && prec(e1) == p && prec(e2) == p);
    assert(printed(e1, 0) == printed_body(e1));
    assert(printed(e2, 0) == printed_body(e2));
    assert(printed(inner1, p + 1) == seq!['('] + printed_body(inner1) + seq![')']);
    assert(printed(inner2, p) == printed_body(inner2));
    let t1 = pa + (seq!['('] + (bp + s2 + tc) + seq![')']);
    let t2 = pa + bq + s2 + tc;
    assert(printed(e1, 0) =~= t1);
    assert(printed(e2, 0) =~= t2);
    if prec(b) == p {
        // Same length: the first difference follows the text of `b`.
        let body = printed_body(b);
        assert(bp == body);
        assert(bq == seq!['('] + body + seq![')']);
        let i: int = (pa.len() + 1 + body.len()) as int;
        assert(t1[i] == ' ');
        assert(t2[i] == ')');
    } else {
        assert(bp == bq);
        assert(t1.len() == t2.len() + 2);
    }
}

proof fn lemma_lower_left_grouped(op: BinaryOp, op2: BinaryOp, a: ExprV, b: ExprV, c: ExprV)
    requires
        op != BinaryOp::Pow,
        op2 != BinaryOp::Pow,
        binary_prec(op) < binary_prec(op2),
    ensures
        printed(
            crate::ast::binary_node(op2, crate::ast::binary_node(op, a, b), c),
            0,
        ) != printed(crate::ast::binary_node(op, a, crate::ast::binary_node(op2, b, c)), 0),
{
    let p = binary_prec(op);
    let q = binary_prec(op2);
    let s1 = seq![' '] + binary_symbol(op) + seq![' '];
    let s2 = seq![' '] + binary_symbol(op2) + seq![' '];
    let low = crate::ast::binary_node(op, a, b);
    let e1 = crate::ast::binary_node(op2, low, c);
    let high = crate::ast::binary_node(op2, b, c);
    let e2 = crate::ast::binary_node(op, a, high);
    assert(prec(low) == p && prec(e1) == q && prec(high) == q && prec(e2) == p);
    assert(printed(e1, 0) == printed_body(e1));
    assert(printed(e2, 0) == printed_body(e2));
    assert(printed(low, q) == seq!['('] + printed_body(low) + seq![')']);
    assert(printed(high, p + 1) == printed_body(high));
    let ta = printed(a, p);
    let tc = printed(c, q + 1);
    let bp = printed(b, p + 1);
    let bq = printed(b, q);
    let t1 = seq!['('] + (ta + s1 + bp) + seq![')'] + s2 + tc;
    let t2 = ta + s1 + (bq + s2 + tc);
    assert(printed(e1, 0) =~= t1);
    assert(printed(e2, 0) =~= t2);
    if bp.len() == bq.len() {
        assert(t1.len() == t2.len() + 2);
    } else {
        let body = printed_body(b);
        assert(bq == seq!['('] + body + seq![')']);
        let i: int = (ta.len() + s1.len()) as int;
        assert(t1[i] == s1[s1.len() - 1]);
        assert(t1[i] == ' ');
        assert(t2[i] == bq[0]);
        assert(t2[i] == '(');
    }
}

proof fn lemma_lower_right_grouped(op: BinaryOp, op2: BinaryOp, a: ExprV, b: ExprV, c: ExprV)
    requires
        op != BinaryOp::Pow,
        op2 != BinaryOp::Pow,
        binary_prec(op) < binary_prec(op2),
    ensures
        printed(
            crate::ast::binary_node(op2, a, crate::ast::binary_node(op, b, c)),
            0,
        ) != printed(crate::ast::binary_node(op, crate::ast::binary_node(op2, a, b), c), 0),
{
    let p = binary_prec(op);
    let q = binary_prec(op2);
    let s1 = seq![' '] + binary_symbol(op) + seq![' '];
    let s2 = seq![' '] + binary_symbol(op2) + seq![' '];
    let low2 = crate::ast::binary_node(op, b, c);
    let e3 = crate::ast::binary_node(op2, a, low2);
    let high2 = crate::ast::binary_node(op2, a, b);
    let e4 = crate::ast::binary_node(op, high2, c);
    assert(prec(low2) == p && prec(e3) == q && prec(high2) == q && prec(e4) == p);
    assert(printed(e3, 0) == printed_body(e3));
    assert(printed(e4, 0) == printed_body(e4));
    assert(printed(low2, q + 1) == seq!['('] + printed_body(low2) + seq![')']);
    assert(printed(high2, p) == printed_body(high2));
    let ua = printed(a, q);
    let uc = printed(c, p + 1);
    let bp = printed(b, p);
    let bq = printed(b, q + 1);
    let t3 = ua + s2 + (seq!['('] + (bp + s1 + uc) + seq![')']);
    let t4 = ua + s2 + bq + s1 + uc;
    assert(printed(e3, 0) =~= t3);
    assert(printed(e4, 0) =~= t4);
    if bp.len() == bq.len() {
        assert(t3.len() == t4.len() + 2);
    } else {
        let body = printed_body(b);
        assert(bp == body);
        assert(bq == seq!['('] + body + seq![')']);
        let i: int = (ua.len() + s2.len() + 1 + body.len()) as int;
        assert(t3[i] == ' ');
        assert(t4[i] == ')');
    }
}

/// Printing keeps the grouping across precedence levels: for `op` binding
/// less tightly than `op2`, `(a op b) op2 c` never prints as `a op (b op2 c)`
/// (which is how `a op b op2 c` reads), and `a op2 (b op c)` never prints as
/// `(a op2 b) op c`.
pub proof fn lemma_print_keeps_precedence(op: BinaryOp, op2: BinaryOp, a: ExprV, b: ExprV, c: ExprV)
    requires
        op != BinaryOp::Pow,
        op2 != BinaryOp::Pow,
        binary_prec(op) < binary_prec(op2),
    ensures
        printed(
            crate::ast::binary_node(op2, crate::ast::binary_node(op, a, b), c),
            0,
        ) != printed(crate::ast::binary_node(op, a, crate::ast::binary_node(op2, b, c)), 0),
        printed(
            crate::ast::binary_node(op2, a, crate::ast::binary_node(op, b, c)),
            0,
        ) != printed(crate::ast::binary_node(op, crate::ast::binary_node(op2, a, b), c), 0),
{
    lemma_lower_left_grouped(op, op2, a, b, c);
    lemma_lower_right_grouped(op, op2, a, b, c);
}

/// Printing keeps the grouping of powers: `a^(b^c)` and `(a^b)^c` print
/// differently.
pub proof fn lemma_print_keeps_power_grouping(a: ExprV, b: ExprV, c: ExprV)
    ensures
        printed(
            crate::ast::binary_node(BinaryOp::Pow, a, crate::ast::binary_node(BinaryOp::Pow, b, c)),
            0,
        ) != printed(
            crate::ast::binary_node(BinaryOp::Pow, crate::ast::binary_node(BinaryOp::Pow, a, b), c),
            0,
        ),
{
    let p = PREC_POW as nat;
    let right = crate::ast::binary_node(BinaryOp::Pow, b, c);
    let left = crate::ast::binary_node(BinaryOp::Pow, a, b);
    let e1 = crate::ast::binary_node(BinaryOp::Pow, a, right);
    let e2 = crate::ast::binary_node(BinaryOp::Pow, left, c);
    assert(prec(right) == p && prec(left) == p && prec(e1) == p && prec(e2) == p);
    assert(printed(e1, 0) == printed_body(e1));
    assert(printed(e2, 0) == printed_body(e2));
    assert(printed(right, p) == printed_body(right));
    assert(printed(left, p + 1) == seq!['('] + printed_body(left) + seq![')']);
    let ta = printed(a, p + 1);
    let tc = printed(c, p);
    let b1 = printed(b, p + 1);
    let b0 = printed(b, p);
    let t1 = ta + seq!['^'] + (b1 + seq!['^'] + tc);
    let t2 = seq!['('] + (ta + seq!['^'] + b0) + seq![')'] + seq!['^'] + tc;
    assert(printed(e1, 0) =~= t1);
    assert(printed(e2, 0) =~= t2);
    if b1.len() == b0.len() {
        assert(t2.len() == t1.len() + 2);
    } else {
        let body = printed_body(b);
        assert(b1 == seq!['('] + body + seq![')']);
        let i: int = (ta.len() + 1) as int;
        assert(t1[i] == b1[0]);
        assert(t1[i] == '(');
        assert(t2[i] == '^');
    }
}

/// Printing keeps what a minus sign applies to: `-(a op b)` never prints as
/// `(-a) op b` for a sum or a product `op`, and `(-a)^b` never prints as
/// `-(a^b)`.
pub proof fn lemma_print_keeps_sign(op: BinaryOp, a: ExprV, b: ExprV)
    requires
        op != BinaryOp::Pow,
        binary_prec(op) == PREC_ADD || binary_prec(op) == PREC_MUL,
    ensures
        printed(
            ExprV::Unary { op: UnaryOp::Neg, arg: Box::new(crate::ast::binary_node(op, a, b)) },
            0,
        ) != printed(
            crate::ast::binary_node(op, ExprV::Unary { op: UnaryOp::Neg, arg: Box::new(a) }, b),
            0,
        ),
        printed(
            crate::ast::binary_node(
                BinaryOp::Pow,
                ExprV::Unary { op: UnaryOp::Neg, arg: Box::new(a) },
                b,
            ),
            0,
        ) != printed(
            ExprV::Unary {
                op: UnaryOp::Neg,
                arg: Box::new(crate::ast::binary_node(BinaryOp::Pow, a, b)),
            },
            0,
        ),
{
    let p = binary_prec(op);
    let u = PREC_UNARY as nat;
    let s1 = seq![' '] + binary_symbol(op) + seq![' '];
    let inner = crate::ast::binary_node(op, a, b);
    let e1 = ExprV::Unary { op: UnaryOp::Neg, arg: Box::new(inner) };
    let na = ExprV::Unary { op: UnaryOp::Neg, arg: Box::new(a) };
    let e2 = crate::ast::binary_node(op, na, b);
    assert(prec(inner) == p && prec(e1) == u && prec(na) == u && prec(e2) == p);
    assert(printed(e1, 0) == printed_body(e1));
    assert(printed(e2, 0) == printed_body(e2));
    assert(printed(inner, u) == seq!['('] + printed_body(inner) + seq![')']);
    assert(printed(na, p) == printed_body(na));
    let a5 = printed(a, p);
    let a7 = printed(a, u);
    let tb = printed(b, p + 1);
    let t1 = seq!['-'] + (seq!['('] + (a5 + s1 + tb) + seq![')']);
    let t2 = (seq!['-'] + a7) + s1 + tb;
    assert(printed(e1, 0) =~= t1);
    assert(printed(e2, 0) =~= t2);
    if a5.len() == a7.len() {
        assert(t1.len() == t2.len() + 2);
    } else {
        let body = printed_body(a);
        assert(a5 == body);
        assert(a7 == seq!['('] + body + seq![')']);
        let i: int = (2 + body.len()) as int;
        assert(t1[i] == ' ');
        assert(t2[i] == ')');
    }
    // the sign of a power's base
    let pw = PREC_POW as nat;
    let e3 = crate::ast::binary_node(BinaryOp::Pow, na, b);
    let inner2 = crate::ast::binary_node(BinaryOp::Pow, a, b);
    let e4 = ExprV::Unary { op: UnaryOp::Neg, arg: Box::new(inner2) };
    assert(prec(e3) == pw && prec(inner2) == pw && prec(e4) == u);
    assert(printed(e3, 0) == printed_body(e3));
    assert(printed(e4, 0) == printed_body(e4));
    assert(printed(na, pw + 1) == seq!['('] + printed_body(na) + seq![')']);
    assert(printed(e3, 0)[0] == '(');
    assert(printed(e4, 0)[0] == '-');
}

} // verus!

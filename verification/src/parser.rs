//! A recursive-descent parser for the token language whose grammar is the
//! printer in `grammar`: every function below returns the unique syntax tree
//! whose printing is the tokens it consumed, and fails exactly when there is
//! none.
pub mod grammar;

use vstd::prelude::*;
use crate::common::{
    Expression, OperationType, Parameter, SpecExpr, SpecStmt, Statement, exprs_view, opt_str_view,
    lemma_exprs_view, lemma_stmts_view, param_view, params_view, stmt_view, stmts_view,
};
use crate::lexer::error::LexingError;
use crate::lexer::{Lexer, collect_tokens};
use crate::lexer::spec::lex_from;
use crate::lexer::token::{SpecToken, Token, copy_token, tokens_view};
use self::grammar::{
    cast_base, cast_parent, cast_tail, expr_at, expr_ends, is_expr_start,
    is_stmt_start, lemma_atom_shape, lemma_cast_base, lemma_cast_spine, lemma_join,
    lemma_render_expr_start, lemma_render_stmt_start, lemma_render_stmts_split, lemma_spine,
    lemma_spine_base, lemma_split_at, lemma_token_op_inverse, lemma_wf_stmts_index,
    on_cast_spine, pow_head, on_spine, op_level, op_token,
    render_args, render_expr, render_opt_type, render_param, render_params, render_return,
    render_stmt, render_stmts, spine_base, spine_parent, spine_tail, stmt_ends, token_op,
    wf_args, wf_expr, wf_stmt, wf_stmts, wf_tree,
};

verus! {

/// Why a token sequence is not a program.
#[derive(Debug, Clone, PartialEq)]
pub enum ParseError {
    /// A token that cannot stand where it was found.
    UnrecognizedToken { token: Token },
    /// The input ended in the middle of a construct.
    UnrecognizedEof,
    /// The source text could not be split into tokens.
    User { error: LexingError },
}

/// What a refusal of a token list says: a token of the list, at or after
/// `pos`, that cannot stand where it is, or the end of the list reached in
/// the middle of a construct. Errors of the lexer are never made up by the
/// parser.
pub open spec fn refusal_within(e: ParseError, ts: Seq<SpecToken>, pos: int) -> bool {
    match e {
        ParseError::UnrecognizedToken { token } => exists|k: int| pos <= k < ts.len() && #[trigger] ts[k] == token@,
        ParseError::UnrecognizedEof => true,
        ParseError::User { .. } => false,
    }
}

pub open spec fn tv(ts: &Vec<Token>) -> Seq<SpecToken> {
    tokens_view(ts@)
}

fn binop_of(t: &Token) -> (r: Option<OperationType>)
    ensures
        r == token_op(t@),
{
    match t {
        Token::Plus => Some(OperationType::Add),
        Token::Minus => Some(OperationType::Sub),
        Token::Star => Some(OperationType::Mul),
        Token::Slash => Some(OperationType::Div),
        Token::Caret => Some(OperationType::Pow),
        Token::Tile => Some(OperationType::Cat),
        _ => None,
    }
}

fn binop_level(op: OperationType) -> (l: usize)
    ensures
        l == op_level(op),
{
    match op {
        OperationType::Cat => 0,
        OperationType::Add => 1,
        OperationType::Sub => 1,
        OperationType::Mul => 2,
        OperationType::Div => 2,
        OperationType::Pow => 3,
    }
}

fn starts_statement(t: &Token) -> (b: bool)
    ensures
        b == is_stmt_start(t@),
{
    match t {
        Token::Echo => true,
        Token::Sit => true,
        Token::Voc => true,
        Token::Functio => true,
        _ => false,
    }
}

fn starts_expression(t: &Token) -> (b: bool)
    ensures
        b == is_expr_start(t@),
{
    match t {
        Token::Catena(_) => true,
        Token::Number(_) => true,
        Token::True => true,
        Token::False => true,
        Token::Identifier(_) => true,
        _ => false,
    }
}

fn is_double_column(t: &Token) -> (b: bool)
    ensures
        b == (t@ == SpecToken::DoubleColumn),
{
    match t {
        Token::DoubleColumn => true,
        _ => false,
    }
}

fn is_left_paran(t: &Token) -> (b: bool)
    ensures
        b == (t@ == SpecToken::LeftParan),
{
    match t {
        Token::LeftParan => true,
        _ => false,
    }
}

fn is_right_paran(t: &Token) -> (b: bool)
    ensures
        b == (t@ == SpecToken::RightParan),
{
    match t {
        Token::RightParan => true,
        _ => false,
    }
}

fn is_comma(t: &Token) -> (b: bool)
    ensures
        b == (t@ == SpecToken::Comma),
{
    match t {
        Token::Comma => true,
        _ => false,
    }
}

fn is_column(t: &Token) -> (b: bool)
    ensures
        b == (t@ == SpecToken::Column),
{
    match t {
        Token::Column => true,
        _ => false,
    }
}

fn is_caret(t: &Token) -> (b: bool)
    ensures
        b == (t@ == SpecToken::Caret),
{
    match t {
        Token::Caret => true,
        _ => false,
    }
}

fn is_right_arrow(t: &Token) -> (b: bool)
    ensures
        b == (t@ == SpecToken::RightArrow),
{
    match t {
        Token::RightArrow => true,
        _ => false,
    }
}

fn is_reddi(t: &Token) -> (b: bool)
    ensures
        b == (t@ == SpecToken::Reddi),
{
    match t {
        Token::Reddi => true,
        _ => false,
    }
}

fn level_op(t: &Token, level: usize) -> (r: Option<OperationType>)
    ensures
        r matches Some(op) ==> token_op(t@) == Some(op) && op_level(op) == level,
        r is None ==> !(token_op(t@) matches Some(op) && op_level(op) == level),
{
    match binop_of(t) {
        Some(op) => if binop_level(op) == level {
            Some(op)
        } else {
            None
        },
        None => None,
    }
}

// ---------------------------------------------------------------------------
// Lemmas that take apart a hypothetical parse
// ---------------------------------------------------------------------------

pub open spec fn args_at(t: Seq<SpecToken>, pos: int, p: int, a: Seq<SpecExpr>) -> bool {
    &&& 0 <= pos <= p <= t.len()
    &&& wf_args(a)
    &&& render_args(a) + seq![SpecToken::RightParan] == t.subrange(pos, p)
}

proof fn lemma_ends_weaken(t: Seq<SpecToken>, p: int, level: int, higher: int)
    requires
        level <= higher,
        expr_ends(t, p, level),
    ensures
        expr_ends(t, p, higher),
{
}

/// An argument list with at least one element: its first argument, then a
/// comma and the rest, or the closing parenthesis.
proof fn lemma_args_decompose(t: Seq<SpecToken>, pos: int, p: int, a: Seq<SpecExpr>)
    requires
        args_at(t, pos, p, a),
        a.len() > 0,
    ensures
        ({
            let q = pos + render_expr(a[0]).len();
            &&& expr_at(t, pos, q, a[0], 0)
            &&& q < p
            &&& (a.len() > 1 ==> t[q] == SpecToken::Comma && args_at(
                t,
                q + 1,
                p,
                a.subrange(1, a.len() as int),
            ))
            &&& (a.len() == 1 ==> t[q] == SpecToken::RightParan && p == q + 1)
        }),
{
    let r0 = render_expr(a[0]);
    if a.len() == 1 {
        lemma_split_at(t, pos, p, r0, seq![SpecToken::RightParan]);
    } else {
        let rest = a.subrange(1, a.len() as int);
        assert(render_args(a) + seq![SpecToken::RightParan] =~= r0 + (seq![SpecToken::Comma] + (
        render_args(rest) + seq![SpecToken::RightParan])));
        lemma_split_at(t, pos, p, r0, seq![SpecToken::Comma] + (render_args(rest) + seq![SpecToken::RightParan]));
        lemma_split_at(t, pos + r0.len(), p, seq![SpecToken::Comma], render_args(rest) + seq![SpecToken::RightParan]);
    }
}

/// A nonempty argument list begins with the first token of its first argument.
proof fn lemma_args_first(a: Seq<SpecExpr>)
    requires
        wf_args(a),
        a.len() > 0,
    ensures
        wf_tree(a[0]),
        render_args(a).len() > 0,
        render_args(a)[0] == render_expr(a[0])[0],
        is_expr_start(render_args(a)[0]),
{
    lemma_render_expr_start(a[0]);
}

/// Whatever expression of a left-associative level covers `t[pos..p]`
/// begins with the base of its operator chain.
proof fn lemma_level_start(t: Seq<SpecToken>, pos: int, p: int, e: SpecExpr, level: int)
    requires
        0 <= level <= 2,
        expr_at(t, pos, p, e, level),
    ensures
        on_spine(e, spine_base(e, level), level),
        expr_at(t, pos, pos + render_expr(spine_base(e, level)).len(), spine_base(e, level), level + 1),
{
    let b = spine_base(e, level);
    lemma_spine_base(e, level);
    lemma_spine(e, b, level);
    lemma_split_at(t, pos, p, render_expr(b), spine_tail(e, b, level));
}

/// If the token after a prefix `x` of the chain is an operator of the level,
/// the chain goes on with that operator and one more operand.
proof fn lemma_level_step(
    t: Seq<SpecToken>,
    pos: int,
    p: int,
    e: SpecExpr,
    level: int,
    x: SpecExpr,
    cur: int,
    op: OperationType,
)
    requires
        0 <= level <= 2,
        expr_at(t, pos, p, e, level),
        on_spine(e, x, level),
        pos <= cur < t.len(),
        render_expr(x) == t.subrange(pos, cur),
        token_op(t[cur]) == Some(op),
        op_level(op) == level,
    ensures
        ({
            let n = spine_parent(e, x, level);
            &&& on_spine(e, n, level)
            &&& n matches SpecExpr::BinaryOperation { lhs, rhs, op_type } && *lhs == x && op_type
                == op && expr_at(t, cur + 1, cur + 1 + render_expr(*rhs).len(), *rhs, level + 1)
        }),
{
    lemma_spine(e, x, level);
    lemma_split_at(t, pos, p, render_expr(x), spine_tail(e, x, level));
    if e == x {
        assert(cur == p);
        assert(false);
    }
    let n = spine_parent(e, x, level);
    lemma_spine(e, n, level);
    match n {
        SpecExpr::BinaryOperation { lhs, rhs, op_type } => {
            let rr = render_expr(*rhs);
            assert(render_expr(e) =~= render_expr(x) + (seq![op_token(op_type)] + (rr + spine_tail(e, n, level))));
            lemma_split_at(t, pos, p, render_expr(x), seq![op_token(op_type)] + (rr + spine_tail(e, n, level)));
            lemma_split_at(t, cur, p, seq![op_token(op_type)], rr + spine_tail(e, n, level));
            lemma_split_at(t, cur + 1, p, rr, spine_tail(e, n, level));
            lemma_token_op_inverse(op_type);
            if e == n {
                lemma_ends_weaken(t, p, level, level + 1);
            }
        },
        _ => {},
    }
}

/// If the token after a prefix `x` of the chain is no operator of the level,
/// the chain is `x` itself.
proof fn lemma_level_end(t: Seq<SpecToken>, pos: int, p: int, e: SpecExpr, level: int, x: SpecExpr, cur: int)
    requires
        0 <= level <= 2,
        expr_at(t, pos, p, e, level),
        on_spine(e, x, level),
        pos <= cur <= t.len(),
        render_expr(x) == t.subrange(pos, cur),
        !(cur < t.len() && (token_op(t[cur]) matches Some(op) && op_level(op) == level)),
    ensures
        e == x,
        p == cur,
{
    lemma_spine(e, x, level);
    lemma_split_at(t, pos, p, render_expr(x), spine_tail(e, x, level));
}

proof fn lemma_cast_start(t: Seq<SpecToken>, pos: int, p: int, e: SpecExpr)
    requires
        expr_at(t, pos, p, e, 4),
    ensures
        on_cast_spine(e, cast_base(e)),
        expr_at(t, pos, pos + render_expr(cast_base(e)).len(), cast_base(e), 5),
{
    let b = cast_base(e);
    lemma_cast_base(e);
    lemma_cast_spine(e, b);
    lemma_split_at(t, pos, p, render_expr(b), cast_tail(e, b));
}

proof fn lemma_cast_step(t: Seq<SpecToken>, pos: int, p: int, e: SpecExpr, x: SpecExpr, cur: int)
    requires
        expr_at(t, pos, p, e, 4),
        on_cast_spine(e, x),
        pos <= cur < t.len(),
        render_expr(x) == t.subrange(pos, cur),
        t[cur] == SpecToken::DoubleColumn,
    ensures
        cur + 1 < t.len(),
        cast_parent(e, x) matches SpecExpr::Cast { operand, output_type } && *operand == x && t[cur + 1]
            == SpecToken::Identifier(output_type),
        on_cast_spine(e, cast_parent(e, x)),
        render_expr(cast_parent(e, x)) == t.subrange(pos, cur + 2),
{
    lemma_cast_spine(e, x);
    lemma_split_at(t, pos, p, render_expr(x), cast_tail(e, x));
    if e == x {
        assert(false);
    }
    let n = cast_parent(e, x);
    assert(render_expr(n) == render_expr(x) + seq![t[cur], t[cur + 1]]);
    assert(t.subrange(pos, cur + 2) =~= t.subrange(pos, cur) + seq![t[cur], t[cur + 1]]);
}

proof fn lemma_cast_end(t: Seq<SpecToken>, pos: int, p: int, e: SpecExpr, x: SpecExpr, cur: int)
    requires
        expr_at(t, pos, p, e, 4),
        on_cast_spine(e, x),
        pos <= cur <= t.len(),
        render_expr(x) == t.subrange(pos, cur),
        !(cur < t.len() && t[cur] == SpecToken::DoubleColumn),
    ensures
        e == x,
        p == cur,
{
    lemma_cast_spine(e, x);
    lemma_split_at(t, pos, p, render_expr(x), cast_tail(e, x));
}

/// An atom made of the single token at `pos`.
proof fn lemma_single_atom(t: Seq<SpecToken>, pos: int, a: SpecExpr)
    requires
        0 <= pos < t.len(),
        wf_expr(a, 5),
        render_expr(a) == seq![t[pos]],
        !(t[pos] is Identifier),
    ensures
        render_expr(a) == t.subrange(pos, pos + 1),
        forall|e: SpecExpr, p: int| expr_at(t, pos, p, e, 5) ==> e == a && p == pos + 1,
{
    assert(t.subrange(pos, pos + 1) =~= seq![t[pos]]);
    assert forall|e: SpecExpr, p: int| expr_at(t, pos, p, e, 5) implies e == a && p == pos + 1 by {
        lemma_atom_shape(e);
        assert(render_expr(e)[0] == t.subrange(pos, p)[0]);
    }
}

proof fn lemma_no_expr_at_end(t: Seq<SpecToken>, pos: int, level: int)
    requires
        pos == t.len(),
    ensures
        forall|e: SpecExpr, p: int| !expr_at(t, pos, p, e, level),
{
    assert forall|e: SpecExpr, p: int| !expr_at(t, pos, p, e, level) by {
        if expr_at(t, pos, p, e, level) {
            lemma_render_expr_start(e);
        }
    }
}

// ---------------------------------------------------------------------------
// Expressions
// ---------------------------------------------------------------------------

/// Parses a literal, a variable or a function call at `pos`.
fn parse_atom(ts: &Vec<Token>, pos: usize) -> (r: Result<(Expression, usize), ParseError>)
    requires
        pos <= ts.len(),
    ensures
        r matches Err(e) ==> refusal_within(e, tv(ts), pos as int),
        r matches Ok((e, p)) ==> pos < p <= ts.len() && wf_expr(e@, 5) && render_expr(e@)
            == tv(ts).subrange(pos as int, p as int),
        forall|e: SpecExpr, p: int|
            expr_at(tv(ts), pos as int, p, e, 5) ==> (r matches Ok((e2, p2)) && e2@ == e && p2
                == p),
    decreases ts.len() - pos, 3nat,
{
    let ghost t = tv(ts);
    if pos >= ts.len() {
        proof {
            lemma_no_expr_at_end(t, pos as int, 5);
        }
        return Err(ParseError::UnrecognizedEof);
    }
    proof {
        assert(t[pos as int] == ts@[pos as int]@);
    }
    match &ts[pos] {
        Token::Catena(s) => {
            let e = Expression::StringValue { value: s.clone() };
            proof {
                lemma_single_atom(t, pos as int, e@);
            }
            Ok((e, pos + 1))
        },
        Token::Number(n) => {
            let e = Expression::Number { value: *n };
            proof {
                lemma_single_atom(t, pos as int, e@);
            }
            Ok((e, pos + 1))
        },
        Token::True => {
            let e = Expression::Boolean { value: true };
            proof {
                lemma_single_atom(t, pos as int, e@);
            }
            Ok((e, pos + 1))
        },
        Token::False => {
            let e = Expression::Boolean { value: false };
            proof {
                lemma_single_atom(t, pos as int, e@);
            }
            Ok((e, pos + 1))
        },
        Token::Identifier(x) => {
            if pos + 1 < ts.len() && is_left_paran(&ts[pos + 1]) {
                proof {
                    assert(t[pos + 1] == ts@[pos + 1]@);
                    assert forall|e: SpecExpr, p: int| expr_at(t, pos as int, p, e, 5) implies (e matches SpecExpr::FunctionCall { identifier, argument_list }
                        && identifier == x@ && args_at(t, pos + 2, p, argument_list)) by {
                        lemma_atom_shape(e);
                        assert(render_expr(e)[0] == t[pos as int]);
                        assert(render_expr(e).len() > 1);
                        assert(render_expr(e)[1] == t[pos + 1]);
                        match e {
                            SpecExpr::FunctionCall { identifier, argument_list } => {
                                let head = seq![SpecToken::Identifier(identifier), SpecToken::LeftParan];
                                let rest = render_args(argument_list) + seq![SpecToken::RightParan];
                                assert(render_expr(e) =~= head + rest);
                                lemma_split_at(t, pos as int, p, head, rest);
                            },
                            _ => {},
                        }
                    }
                }
                match parse_args(ts, pos + 2) {
                    Ok((args, q)) => {
                        let e = Expression::FunctionCall {
                            identifier: x.clone(),
                            argument_list: Box::new(args),
                        };
                        proof {
                            let head = seq![SpecToken::Identifier(x@), SpecToken::LeftParan];
                            assert(t.subrange(pos as int, pos + 2) =~= head);
                            lemma_join(t, pos as int, pos + 2, q as int);
                            assert(render_expr(e@) =~= head + (render_args(exprs_view(args@))
                                + seq![SpecToken::RightParan]));
                        }
                        Ok((e, q))
                    },
                    Err(err) => Err(err),
                }
            } else {
                let e = Expression::Variable { identifier: x.clone() };
                proof {
                    if pos + 1 < ts.len() {
                        assert(t[pos + 1] == ts@[pos + 1]@);
                    }
                    assert(t.subrange(pos as int, pos + 1) =~= render_expr(e@));
                    assert forall|e2: SpecExpr, p: int| expr_at(t, pos as int, p, e2, 5) implies e2
                        == e@ && p == pos + 1 by {
                        lemma_atom_shape(e2);
                        assert(render_expr(e2)[0] == t[pos as int]);
                        if render_expr(e2).len() >= 3 {
                            assert(render_expr(e2)[1] == t[pos + 1]);
                        }
                    }
                }
                Ok((e, pos + 1))
            }
        },
        _ => {
            proof {
                assert forall|e: SpecExpr, p: int| !expr_at(t, pos as int, p, e, 5) by {
                    if expr_at(t, pos as int, p, e, 5) {
                        lemma_atom_shape(e);
                        assert(render_expr(e)[0] == t[pos as int]);
                    }
                }
            }
            Err(ParseError::UnrecognizedToken { token: copy_token(&ts[pos]) })
        },
    }
}

/// Parses the arguments of a call and its closing parenthesis, starting
/// just after the opening one.
fn parse_args(ts: &Vec<Token>, pos: usize) -> (r: Result<(Vec<Expression>, usize), ParseError>)
    requires
        pos <= ts.len(),
    ensures
        r matches Err(e) ==> refusal_within(e, tv(ts), pos as int),
        r matches Ok((v, p)) ==> pos < p <= ts.len() && args_at(tv(ts), pos as int, p as int, exprs_view(v@)),
        forall|a: Seq<SpecExpr>, p: int|
            args_at(tv(ts), pos as int, p, a) ==> (r matches Ok((v2, p2)) && exprs_view(v2@) == a
                && p2 == p),
    decreases ts.len() - pos, 10nat,
{
    let ghost t = tv(ts);
    if pos < ts.len() && is_right_paran(&ts[pos]) {
        let v: Vec<Expression> = Vec::new();
        proof {
            assert(t[pos as int] == ts@[pos as int]@);
            assert(exprs_view(v@) =~= Seq::<SpecExpr>::empty());
            assert(render_args(exprs_view(v@)) + seq![SpecToken::RightParan] =~= t.subrange(pos as int, pos + 1));
            assert forall|a: Seq<SpecExpr>, p: int| args_at(t, pos as int, p, a) implies a == exprs_view(v@) && p == pos + 1 by {
                if a.len() > 0 {
                    lemma_args_first(a);
                    lemma_split_at(t, pos as int, p, render_args(a), seq![SpecToken::RightParan]);
                    assert(t[pos as int] == render_args(a)[0]);
                }
                assert(render_args(a) + seq![SpecToken::RightParan] =~= seq![SpecToken::RightParan]);
                assert(a =~= exprs_view(v@));
            }
        }
        Ok((v, pos + 1))
    } else {
        proof {
            if pos < ts.len() {
                assert(t[pos as int] == ts@[pos as int]@);
            }
            assert forall|a: Seq<SpecExpr>, p: int| args_at(t, pos as int, p, a) implies a.len() > 0 by {
                if a.len() == 0 {
                    assert(render_args(a) + seq![SpecToken::RightParan] =~= seq![SpecToken::RightParan]);
                    assert(t.subrange(pos as int, p)[0] == t[pos as int]);
                }
            }
        }
        parse_arg_list(ts, pos)
    }
}

/// Parses one or more arguments separated by commas, and the closing
/// parenthesis.
fn parse_arg_list(ts: &Vec<Token>, pos: usize) -> (r: Result<(Vec<Expression>, usize), ParseError>)
    requires
        pos <= ts.len(),
    ensures
        r matches Err(e) ==> refusal_within(e, tv(ts), pos as int),
        r matches Ok((v, p)) ==> pos < p <= ts.len() && args_at(tv(ts), pos as int, p as int, exprs_view(v@))
            && exprs_view(v@).len() > 0,
        forall|a: Seq<SpecExpr>, p: int|
            args_at(tv(ts), pos as int, p, a) && a.len() > 0 ==> (r matches Ok((v2, p2))
                && exprs_view(v2@) == a && p2 == p),
    decreases ts.len() - pos, 9nat,
{
    let ghost t = tv(ts);
    proof {
        assert forall|a: Seq<SpecExpr>, p: int| args_at(t, pos as int, p, a) && a.len() > 0 implies
            expr_at(t, pos as int, pos + render_expr(a[0]).len(), a[0], 0) by {
            lemma_args_decompose(t, pos as int, p, a);
        }
    }
    match parse_binary(ts, pos, 0) {
        Err(err) => Err(err),
        Ok((e, c)) => {
            if c < ts.len() && is_comma(&ts[c]) {
                proof {
                    assert(t[c as int] == ts@[c as int]@);
                    assert forall|a: Seq<SpecExpr>, p: int| args_at(t, pos as int, p, a) && a.len() > 0
                        implies a[0] == e@ && a.len() > 1 && args_at(t, c + 1, p, a.subrange(1, a.len() as int)) by {
                        lemma_args_decompose(t, pos as int, p, a);
                    }
                }
                match parse_arg_list(ts, c + 1) {
                    Ok((rest, q)) => {
                        let ghost rest_view = exprs_view(rest@);
                        let mut v = rest;
                        v.insert(0, e);
                        proof {
                            lemma_exprs_view(v@);
                            lemma_exprs_view(rest@);
                            let vv = exprs_view(v@);
                            assert(vv =~= seq![e@] + rest_view);
                            assert(vv.subrange(1, vv.len() as int) =~= rest_view);
                            assert(vv[0] == e@);
                            lemma_render_expr_start(e@);
                            lemma_args_first(rest_view);
                            assert(render_args(vv) + seq![SpecToken::RightParan] =~= render_expr(e@) + (seq![SpecToken::Comma] + (render_args(rest_view) + seq![SpecToken::RightParan])));
                            lemma_join(t, c as int, c + 1, q as int);
                            assert(t.subrange(c as int, c + 1) =~= seq![SpecToken::Comma]);
                            lemma_join(t, pos as int, c as int, q as int);
                            assert(wf_args(vv));
                            assert(render_args(vv) + seq![SpecToken::RightParan] =~= t.subrange(pos as int, q as int));
                            assert forall|a: Seq<SpecExpr>, p: int| args_at(t, pos as int, p, a) && a.len() > 0
                                implies vv == a && q == p by {
                                lemma_args_decompose(t, pos as int, p, a);
                                assert(a =~= seq![a[0]] + a.subrange(1, a.len() as int));
                            }
                        }
                        Ok((v, q))
                    },
                    Err(err) => Err(err),
                }
            } else if c < ts.len() && is_right_paran(&ts[c]) {
                let mut v: Vec<Expression> = Vec::new();
                v.push(e);
                proof {
                    assert(t[c as int] == ts@[c as int]@);
                    lemma_exprs_view(v@);
                    let vv = exprs_view(v@);
                    assert(vv =~= seq![e@]);
                    assert(vv.subrange(1, 1) =~= Seq::<SpecExpr>::empty());
                    assert(wf_args(vv.subrange(1, 1)));
                    assert(wf_args(vv));
                    assert(render_args(vv) + seq![SpecToken::RightParan] =~= t.subrange(pos as int, c + 1));
                    assert(t.subrange(c as int, c + 1) =~= seq![SpecToken::RightParan]);
                    lemma_join(t, pos as int, c as int, c + 1);
                    assert forall|a: Seq<SpecExpr>, p: int| args_at(t, pos as int, p, a) && a.len() > 0
                        implies vv == a && c + 1 == p by {
                        lemma_args_decompose(t, pos as int, p, a);
                        assert(a =~= seq![a[0]]);
                    }
                }
                Ok((v, c + 1))
            } else {
                proof {
                    if c < ts.len() {
                        assert(t[c as int] == ts@[c as int]@);
                    }
                    assert forall|a: Seq<SpecExpr>, p: int| !(args_at(t, pos as int, p, a) && a.len() > 0) by {
                        if args_at(t, pos as int, p, a) && a.len() > 0 {
                            lemma_args_decompose(t, pos as int, p, a);
                        }
                    }
                }
                if c < ts.len() {
                    Err(ParseError::UnrecognizedToken { token: copy_token(&ts[c]) })
                } else {
                    Err(ParseError::UnrecognizedEof)
                }
            }
        },
    }
}

/// Parses an atom followed by any number of casts `:: type`.
fn parse_postfix(ts: &Vec<Token>, pos: usize) -> (r: Result<(Expression, usize), ParseError>)
    requires
        pos <= ts.len(),
    ensures
        r matches Err(e) ==> refusal_within(e, tv(ts), pos as int),
        r matches Ok((e, p)) ==> pos < p <= ts.len() && wf_expr(e@, 4) && render_expr(e@)
            == tv(ts).subrange(pos as int, p as int),
        forall|e: SpecExpr, p: int|
            expr_at(tv(ts), pos as int, p, e, 4) ==> (r matches Ok((e2, p2)) && e2@ == e && p2
                == p),
    decreases ts.len() - pos, 4nat,
{
    let ghost t = tv(ts);
    proof {
        assert forall|e: SpecExpr, p: int| expr_at(t, pos as int, p, e, 4) implies
            expr_at(t, pos as int, pos + render_expr(cast_base(e)).len(), cast_base(e), 5) by {
            lemma_cast_start(t, pos as int, p, e);
        }
    }
    let (mut lhs, mut cur) = match parse_atom(ts, pos) {
        Ok(x) => x,
        Err(err) => {
            return Err(err);
        },
    };
    proof {
        assert forall|e: SpecExpr, p: int| expr_at(t, pos as int, p, e, 4) implies on_cast_spine(e, lhs@) by {
            lemma_cast_start(t, pos as int, p, e);
        }
    }
    loop
        invariant
            t == tv(ts),
            pos < cur <= ts.len(),
            wf_expr(lhs@, 4),
            render_expr(lhs@) == t.subrange(pos as int, cur as int),
            forall|e: SpecExpr, p: int| expr_at(t, pos as int, p, e, 4) ==> on_cast_spine(e, lhs@),
        decreases ts.len() - cur,
    {
        if cur >= ts.len() || !is_double_column(&ts[cur]) {
            proof {
                if cur < ts.len() {
                    assert(t[cur as int] == ts@[cur as int]@);
                }
                assert forall|e: SpecExpr, p: int| expr_at(t, pos as int, p, e, 4) implies e == lhs@ && p == cur by {
                    lemma_cast_end(t, pos as int, p, e, lhs@, cur as int);
                }
            }
            return Ok((lhs, cur));
        }
        proof {
            assert(t[cur as int] == ts@[cur as int]@);
        }
        if cur + 1 >= ts.len() {
            proof {
                assert forall|e: SpecExpr, p: int| !expr_at(t, pos as int, p, e, 4) by {
                    if expr_at(t, pos as int, p, e, 4) {
                        lemma_cast_step(t, pos as int, p, e, lhs@, cur as int);
                    }
                }
            }
            return Err(ParseError::UnrecognizedEof);
        }
        proof {
            assert(t[cur + 1] == ts@[cur + 1]@);
        }
        match &ts[cur + 1] {
            Token::Identifier(name) => {
                let ghost old_lhs = lhs@;
                lhs = Expression::Cast { operand: Box::new(lhs), output_type: name.clone() };
                proof {
                    assert(render_expr(lhs@) =~= render_expr(old_lhs) + seq![t[cur as int], t[cur + 1]]);
                    assert(t.subrange(pos as int, cur + 2) =~= t.subrange(pos as int, cur as int) + seq![t[cur as int], t[cur + 1]]);
                    assert forall|e: SpecExpr, p: int| expr_at(t, pos as int, p, e, 4) implies on_cast_spine(e, lhs@) by {
                        lemma_cast_step(t, pos as int, p, e, old_lhs, cur as int);
                    }
                }
                cur = cur + 2;
            },
            _ => {
                proof {
                    assert forall|e: SpecExpr, p: int| !expr_at(t, pos as int, p, e, 4) by {
                        if expr_at(t, pos as int, p, e, 4) {
                            lemma_cast_step(t, pos as int, p, e, lhs@, cur as int);
                        }
                    }
                }
                return Err(ParseError::UnrecognizedToken { token: copy_token(&ts[cur + 1]) });
            },
        }
    }
}

/// Parses `a ^ b`, which groups to the right.
fn parse_power(ts: &Vec<Token>, pos: usize) -> (r: Result<(Expression, usize), ParseError>)
    requires
        pos <= ts.len(),
    ensures
        r matches Err(e) ==> refusal_within(e, tv(ts), pos as int),
        r matches Ok((e, p)) ==> pos < p <= ts.len() && wf_expr(e@, 3) && render_expr(e@)
            == tv(ts).subrange(pos as int, p as int),
        forall|e: SpecExpr, p: int|
            expr_at(tv(ts), pos as int, p, e, 3) ==> (r matches Ok((e2, p2)) && e2@ == e && p2
                == p),
    decreases ts.len() - pos, 5nat,
{
    let ghost t = tv(ts);
    proof {
        assert forall|e: SpecExpr, p: int| expr_at(t, pos as int, p, e, 3) implies
            expr_at(t, pos as int, pos + render_expr(pow_head(e)).len(), pow_head(e), 4) by {
            match e {
                SpecExpr::BinaryOperation { lhs, rhs, op_type } => {
                    if op_type == OperationType::Pow {
                        assert(render_expr(e) =~= render_expr(*lhs) + (seq![SpecToken::Caret] + render_expr(*rhs)));
                        lemma_split_at(t, pos as int, p, render_expr(*lhs), seq![SpecToken::Caret] + render_expr(*rhs));
                    }
                },
                _ => {},
            }
        }
    }
    let (l, c) = match parse_postfix(ts, pos) {
        Ok(x) => x,
        Err(err) => {
            return Err(err);
        },
    };
    if c < ts.len() && is_caret(&ts[c]) {
        proof {
            assert(t[c as int] == ts@[c as int]@);
            assert forall|e: SpecExpr, p: int| expr_at(t, pos as int, p, e, 3) implies (e matches SpecExpr::BinaryOperation { lhs, rhs, op_type }
                && op_type == OperationType::Pow && *lhs == l@ && expr_at(t, c + 1, p, *rhs, 3)) by {
                match e {
                    SpecExpr::BinaryOperation { lhs, rhs, op_type } => {
                        if op_type == OperationType::Pow {
                            assert(render_expr(e) =~= render_expr(*lhs) + (seq![SpecToken::Caret] + render_expr(*rhs)));
                            lemma_split_at(t, pos as int, p, render_expr(*lhs), seq![SpecToken::Caret] + render_expr(*rhs));
                            lemma_split_at(t, c as int, p, seq![SpecToken::Caret], render_expr(*rhs));
                        }
                    },
                    _ => {},
                }
            }
        }
        match parse_power(ts, c + 1) {
            Ok((rr, q)) => {
                let e = Expression::BinaryOperation { lhs: Box::new(l), rhs: Box::new(rr), op_type: OperationType::Pow };
                proof {
                    assert(t.subrange(c as int, c + 1) =~= seq![SpecToken::Caret]);
                    lemma_join(t, c as int, c + 1, q as int);
                    lemma_join(t, pos as int, c as int, q as int);
                    assert(render_expr(e@) =~= t.subrange(pos as int, q as int));
                }
                Ok((e, q))
            },
            Err(err) => Err(err),
        }
    } else {
        proof {
            if c < ts.len() {
                assert(t[c as int] == ts@[c as int]@);
            }
            assert forall|e: SpecExpr, p: int| expr_at(t, pos as int, p, e, 3) implies e == l@ && p == c by {
                match e {
                    SpecExpr::BinaryOperation { lhs, rhs, op_type } => {
                        if op_type == OperationType::Pow {
                            assert(render_expr(e) =~= render_expr(*lhs) + (seq![SpecToken::Caret] + render_expr(*rhs)));
                            lemma_split_at(t, pos as int, p, render_expr(*lhs), seq![SpecToken::Caret] + render_expr(*rhs));
                        }
                    },
                    _ => {},
                }
            }
        }
        Ok((l, c))
    }
}

/// Parses a left-associative chain of operators of binding `level`
/// (0: `~`, 1: `+ -`, 2: `* /`).
fn parse_binary(ts: &Vec<Token>, pos: usize, level: usize) -> (r: Result<(Expression, usize), ParseError>)
    requires
        pos <= ts.len(),
        level <= 2,
    ensures
        r matches Err(e) ==> refusal_within(e, tv(ts), pos as int),
        r matches Ok((e, p)) ==> pos < p <= ts.len() && wf_expr(e@, level as int) && render_expr(e@)
            == tv(ts).subrange(pos as int, p as int),
        forall|e: SpecExpr, p: int|
            expr_at(tv(ts), pos as int, p, e, level as int) ==> (r matches Ok((e2, p2)) && e2@ == e
                && p2 == p),
    decreases ts.len() - pos, 8 - level,
{
    let ghost t = tv(ts);
    proof {
        assert forall|e: SpecExpr, p: int| expr_at(t, pos as int, p, e, level as int) implies
            expr_at(t, pos as int, pos + render_expr(spine_base(e, level as int)).len(), spine_base(e, level as int), level + 1) by {
            lemma_level_start(t, pos as int, p, e, level as int);
        }
    }
    let first = if level < 2 {
        parse_binary(ts, pos, level + 1)
    } else {
        parse_power(ts, pos)
    };
    let (mut lhs, mut cur) = match first {
        Ok(x) => x,
        Err(err) => {
            return Err(err);
        },
    };
    proof {
        assert forall|e: SpecExpr, p: int| expr_at(t, pos as int, p, e, level as int) implies on_spine(e, lhs@, level as int) by {
            lemma_level_start(t, pos as int, p, e, level as int);
        }
    }
    loop
        invariant
            t == tv(ts),
            level <= 2,
            pos < cur <= ts.len(),
            wf_expr(lhs@, level as int),
            render_expr(lhs@) == t.subrange(pos as int, cur as int),
            forall|e: SpecExpr, p: int| expr_at(t, pos as int, p, e, level as int) ==> on_spine(e, lhs@, level as int),
        decreases ts.len() - cur,
    {
        let op = if cur < ts.len() {
            level_op(&ts[cur], level)
        } else {
            None
        };
        match op {
            None => {
                proof {
                    if cur < ts.len() {
                        assert(t[cur as int] == ts@[cur as int]@);
                    }
                    assert forall|e: SpecExpr, p: int| expr_at(t, pos as int, p, e, level as int) implies e == lhs@ && p == cur by {
                        lemma_level_end(t, pos as int, p, e, level as int, lhs@, cur as int);
                    }
                }
                return Ok((lhs, cur));
            },
            Some(op) => {
                proof {
                    assert(t[cur as int] == ts@[cur as int]@);
                    assert forall|e: SpecExpr, p: int| expr_at(t, pos as int, p, e, level as int) implies
                        expr_at(t, cur + 1, cur + 1 + render_expr(*spine_parent(e, lhs@, level as int)->rhs).len(), *spine_parent(e, lhs@, level as int)->rhs, level + 1) by {
                        lemma_level_step(t, pos as int, p, e, level as int, lhs@, cur as int, op);
                    }
                }
                let next = if level < 2 {
                    parse_binary(ts, cur + 1, level + 1)
                } else {
                    parse_power(ts, cur + 1)
                };
                match next {
                    Ok((rhs, q)) => {
                        let ghost old_lhs = lhs@;
                        lhs = Expression::BinaryOperation { lhs: Box::new(lhs), rhs: Box::new(rhs), op_type: op };
                        proof {
                            lemma_token_op_inverse(op);
                            assert(t.subrange(cur as int, cur + 1) =~= seq![op_token(op)]);
                            lemma_join(t, cur as int, cur + 1, q as int);
                            lemma_join(t, pos as int, cur as int, q as int);
                            assert(render_expr(lhs@) =~= t.subrange(pos as int, q as int));
                            assert forall|e: SpecExpr, p: int| expr_at(t, pos as int, p, e, level as int) implies on_spine(e, lhs@, level as int) by {
                                lemma_level_step(t, pos as int, p, e, level as int, old_lhs, cur as int, op);
                            }
                        }
                        cur = q;
                    },
                    Err(err) => {
                        return Err(err);
                    },
                }
            },
        }
    }
}

/// Parses a complete expression starting at `pos`.
pub fn parse_expression(ts: &Vec<Token>, pos: usize) -> (r: Result<(Expression, usize), ParseError>)
    requires
        pos <= ts.len(),
    ensures
        r matches Err(e) ==> refusal_within(e, tv(ts), pos as int),
        r matches Ok((e, p)) ==> pos < p <= ts.len() && wf_expr(e@, 0) && render_expr(e@)
            == tv(ts).subrange(pos as int, p as int),
        forall|e: SpecExpr, p: int|
            expr_at(tv(ts), pos as int, p, e, 0) ==> (r matches Ok((e2, p2)) && e2@ == e && p2
                == p),
{
    parse_binary(ts, pos, 0)
}

// ---------------------------------------------------------------------------
// Statements
// ---------------------------------------------------------------------------

pub open spec fn params_at(t: Seq<SpecToken>, pos: int, p: int, ps: Seq<(Seq<char>, Seq<char>)>) -> bool {
    &&& 0 <= pos <= p <= t.len()
    &&& render_params(ps) + seq![SpecToken::RightParan] == t.subrange(pos, p)
}

proof fn lemma_params_decompose(t: Seq<SpecToken>, pos: int, p: int, ps: Seq<(Seq<char>, Seq<char>)>)
    requires
        params_at(t, pos, p, ps),
        ps.len() > 0,
    ensures
        pos + 3 < p,
        t[pos] == SpecToken::Identifier(ps[0].0),
        t[pos + 1] == SpecToken::Column,
        t[pos + 2] == SpecToken::Identifier(ps[0].1),
        ps.len() > 1 ==> t[pos + 3] == SpecToken::Comma && params_at(t, pos + 4, p, ps.subrange(1, ps.len() as int)),
        ps.len() == 1 ==> t[pos + 3] == SpecToken::RightParan && p == pos + 4,
{
    let r0 = render_param(ps[0]);
    if ps.len() == 1 {
        lemma_split_at(t, pos, p, r0, seq![SpecToken::RightParan]);
    } else {
        let rest = ps.subrange(1, ps.len() as int);
        assert(render_params(ps) + seq![SpecToken::RightParan] =~= r0 + (seq![SpecToken::Comma] + (render_params(rest) + seq![SpecToken::RightParan])));
        lemma_split_at(t, pos, p, r0, seq![SpecToken::Comma] + (render_params(rest) + seq![SpecToken::RightParan]));
        lemma_split_at(t, pos + 3, p, seq![SpecToken::Comma], render_params(rest) + seq![SpecToken::RightParan]);
    }
    lemma_split_at(t, pos, pos + 3, r0, Seq::empty());
    assert(r0 + Seq::<SpecToken>::empty() =~= r0);
}

/// Parses `name : type` pairs separated by commas, and the closing
/// parenthesis.
fn parse_param_list(ts: &Vec<Token>, pos: usize) -> (r: Result<(Vec<Parameter>, usize), ParseError>)
    requires
        pos <= ts.len(),
    ensures
        r matches Err(e) ==> refusal_within(e, tv(ts), pos as int),
        r matches Ok((v, p)) ==> pos < p <= ts.len() && params_at(tv(ts), pos as int, p as int, params_view(v@))
            && v@.len() > 0,
        forall|ps: Seq<(Seq<char>, Seq<char>)>, p: int|
            params_at(tv(ts), pos as int, p, ps) && ps.len() > 0 ==> (r matches Ok((v2, p2))
                && params_view(v2@) == ps && p2 == p),
    decreases ts.len() - pos,
{
    let ghost t = tv(ts);
    if ts.len() - pos <= 3 {
        proof {
            assert forall|ps: Seq<(Seq<char>, Seq<char>)>, p: int| !(params_at(t, pos as int, p, ps) && ps.len() > 0) by {
                if params_at(t, pos as int, p, ps) && ps.len() > 0 {
                    lemma_params_decompose(t, pos as int, p, ps);
                }
            }
        }
        return Err(ParseError::UnrecognizedEof);
    }
    proof {
        assert(t[pos as int] == ts@[pos as int]@);
        assert(t[pos + 1] == ts@[pos + 1]@);
        assert(t[pos + 2] == ts@[pos + 2]@);
        assert(t[pos + 3] == ts@[pos + 3]@);
    }
    let param = match (&ts[pos], &ts[pos + 2]) {
        (Token::Identifier(name), Token::Identifier(ty)) => {
            if !is_column(&ts[pos + 1]) {
                proof {
                    assert forall|ps: Seq<(Seq<char>, Seq<char>)>, p: int| !(params_at(t, pos as int, p, ps) && ps.len() > 0) by {
                        if params_at(t, pos as int, p, ps) && ps.len() > 0 {
                            lemma_params_decompose(t, pos as int, p, ps);
                        }
                    }
                }
                return Err(ParseError::UnrecognizedToken { token: copy_token(&ts[pos + 1]) });
            }
            Parameter { identifier: name.clone(), param_type: ty.clone() }
        },
        _ => {
            proof {
                assert forall|ps: Seq<(Seq<char>, Seq<char>)>, p: int| !(params_at(t, pos as int, p, ps) && ps.len() > 0) by {
                    if params_at(t, pos as int, p, ps) && ps.len() > 0 {
                        lemma_params_decompose(t, pos as int, p, ps);
                    }
                }
            }
            return Err(ParseError::UnrecognizedToken { token: copy_token(&ts[pos]) });
        },
    };
    proof {
        assert(t.subrange(pos as int, pos + 3) =~= render_param(param_view(param)));
    }
    if is_comma(&ts[pos + 3]) {
        match parse_param_list(ts, pos + 4) {
            Ok((rest, q)) => {
                let ghost rest_view = params_view(rest@);
                let mut v = rest;
                v.insert(0, param);
                proof {
                    let vv = params_view(v@);
                    assert(vv =~= seq![param_view(param)] + rest_view);
                    assert(vv.subrange(1, vv.len() as int) =~= rest_view);
                    assert(render_params(vv) + seq![SpecToken::RightParan] =~= render_param(param_view(param)) + (seq![SpecToken::Comma] + (render_params(rest_view) + seq![SpecToken::RightParan])));
                    assert(t.subrange(pos + 3, pos + 4) =~= seq![SpecToken::Comma]);
                    lemma_join(t, pos + 3, pos + 4, q as int);
                    lemma_join(t, pos as int, pos + 3, q as int);
                    assert(render_params(vv) + seq![SpecToken::RightParan] =~= t.subrange(pos as int, q as int));
                    assert forall|ps: Seq<(Seq<char>, Seq<char>)>, p: int| params_at(t, pos as int, p, ps) && ps.len() > 0
                        implies vv == ps && q == p by {
                        lemma_params_decompose(t, pos as int, p, ps);
                        assert(ps =~= seq![ps[0]] + ps.subrange(1, ps.len() as int));
                    }
                }
                Ok((v, q))
            },
            Err(err) => {
                proof {
                    assert forall|ps: Seq<(Seq<char>, Seq<char>)>, p: int| !(params_at(t, pos as int, p, ps) && ps.len() > 0) by {
                        if params_at(t, pos as int, p, ps) && ps.len() > 0 {
                            lemma_params_decompose(t, pos as int, p, ps);
                        }
                    }
                }
                Err(err)
            },
        }
    } else if is_right_paran(&ts[pos + 3]) {
        let mut v: Vec<Parameter> = Vec::new();
        v.push(param);
        proof {
            let vv = params_view(v@);
            assert(vv =~= seq![param_view(param)]);
            assert(t.subrange(pos + 3, pos + 4) =~= seq![SpecToken::RightParan]);
            lemma_join(t, pos as int, pos + 3, pos + 4);
            assert(render_params(vv) + seq![SpecToken::RightParan] =~= t.subrange(pos as int, pos + 4));
            assert forall|ps: Seq<(Seq<char>, Seq<char>)>, p: int| params_at(t, pos as int, p, ps) && ps.len() > 0
                implies vv == ps && pos + 4 == p by {
                lemma_params_decompose(t, pos as int, p, ps);
                assert(ps =~= seq![ps[0]]);
            }
        }
        Ok((v, pos + 4))
    } else {
        proof {
            assert forall|ps: Seq<(Seq<char>, Seq<char>)>, p: int| !(params_at(t, pos as int, p, ps) && ps.len() > 0) by {
                if params_at(t, pos as int, p, ps) && ps.len() > 0 {
                    lemma_params_decompose(t, pos as int, p, ps);
                }
            }
        }
        Err(ParseError::UnrecognizedToken { token: copy_token(&ts[pos + 3]) })
    }
}

/// Parses a parameter list and its closing parenthesis, starting just after
/// the opening one.
fn parse_params(ts: &Vec<Token>, pos: usize) -> (r: Result<(Vec<Parameter>, usize), ParseError>)
    requires
        pos <= ts.len(),
    ensures
        r matches Err(e) ==> refusal_within(e, tv(ts), pos as int),
        r matches Ok((v, p)) ==> pos < p <= ts.len() && params_at(tv(ts), pos as int, p as int, params_view(v@)),
        forall|ps: Seq<(Seq<char>, Seq<char>)>, p: int|
            params_at(tv(ts), pos as int, p, ps) ==> (r matches Ok((v2, p2)) && params_view(v2@) == ps && p2 == p),
{
    let ghost t = tv(ts);
    if pos < ts.len() && is_right_paran(&ts[pos]) {
        let v: Vec<Parameter> = Vec::new();
        proof {
            assert(t[pos as int] == ts@[pos as int]@);
            assert(params_view(v@) =~= Seq::<(Seq<char>, Seq<char>)>::empty());
            assert(render_params(params_view(v@)) + seq![SpecToken::RightParan] =~= t.subrange(pos as int, pos + 1));
            assert forall|ps: Seq<(Seq<char>, Seq<char>)>, p: int| params_at(t, pos as int, p, ps) implies ps == params_view(v@) && p == pos + 1 by {
                if ps.len() > 0 {
                    lemma_params_decompose(t, pos as int, p, ps);
                }
                assert(render_params(ps) + seq![SpecToken::RightParan] =~= seq![SpecToken::RightParan]);
                assert(ps =~= params_view(v@));
            }
        }
        Ok((v, pos + 1))
    } else {
        proof {
            if pos < ts.len() {
                assert(t[pos as int] == ts@[pos as int]@);
            }
            assert forall|ps: Seq<(Seq<char>, Seq<char>)>, p: int| params_at(t, pos as int, p, ps) implies ps.len() > 0 by {
                if ps.len() == 0 {
                    assert(render_params(ps) + seq![SpecToken::RightParan] =~= seq![SpecToken::RightParan]);
                    assert(t.subrange(pos as int, p)[0] == t[pos as int]);
                }
            }
        }
        parse_param_list(ts, pos)
    }
}

proof fn lemma_render_stmts_single(s: Seq<SpecStmt>)
    requires
        s.len() == 1,
    ensures
        render_stmts(s) == render_stmt(s[0]),
{
    assert(s.subrange(0, 0) =~= Seq::<SpecStmt>::empty());
    assert(render_stmts(Seq::<SpecStmt>::empty()) =~= Seq::<SpecToken>::empty());
    assert(Seq::<SpecToken>::empty() + render_stmt(s[0]) =~= render_stmt(s[0]));
}

pub open spec fn stmt_at(t: Seq<SpecToken>, pos: int, p: int, s: SpecStmt) -> bool {
    &&& 0 <= pos <= p <= t.len()
    &&& wf_stmt(s)
    &&& render_stmt(s) == t.subrange(pos, p)
    &&& stmt_ends(t, p)
}

pub open spec fn block_at(t: Seq<SpecToken>, pos: int, p: int, b: Seq<SpecStmt>) -> bool {
    &&& 0 <= pos <= p <= t.len()
    &&& wf_stmts(b)
    &&& render_stmts(b) == t.subrange(pos, p)
    &&& (p == t.len() || t[p] == SpecToken::Reddi)
}

proof fn lemma_stmt_ends_expr(t: Seq<SpecToken>, p: int)
    requires
        stmt_ends(t, p),
    ensures
        expr_ends(t, p, 0),
        p < t.len() ==> !is_expr_start(t[p]),
{
}

/// The parts of a function declaration and where they sit.
pub open spec fn fn_header_len(s: SpecStmt) -> int {
    match s {
        SpecStmt::FunctionDeclaration { param_list, return_type, .. } => (3 + render_params(param_list).len() + 1
            + render_opt_type(return_type, SpecToken::RightArrow).len()) as int,
        _ => 0,
    }
}

proof fn lemma_function_decompose(t: Seq<SpecToken>, pos: int, p: int, s: SpecStmt)
    requires
        stmt_at(t, pos, p, s),
        s is FunctionDeclaration,
    ensures
        ({
            let identifier = s->FunctionDeclaration_identifier;
            let param_list = s->FunctionDeclaration_param_list;
            let return_type = s->FunctionDeclaration_return_type;
            let block = s->FunctionDeclaration_block;
            let c = pos + 3 + render_params(param_list).len() + 1;
            let cur = pos + fn_header_len(s);
            let body = block.subrange(0, block.len() - 1);
            let q = cur + render_stmts(body).len();
            &&& t[pos] == SpecToken::Functio
            &&& t[pos + 1] == SpecToken::Identifier(identifier)
            &&& t[pos + 2] == SpecToken::LeftParan
            &&& params_at(t, pos + 3, c, param_list)
            &&& (return_type matches Some(ty) ==> c + 1 < t.len() && t[c] == SpecToken::RightArrow && t[c + 1] == SpecToken::Identifier(ty))
            &&& (return_type is None ==> c < t.len() && t[c] != SpecToken::RightArrow)
            &&& block_at(t, cur, q, body)
            &&& q < t.len() && t[q] == SpecToken::Reddi
            &&& (block[block.len() - 1] matches SpecStmt::ReturnStatement { return_value, function }
                && function == identifier
                && (return_value matches Some(v) ==> q + 1 < t.len() && is_expr_start(t[q + 1]) && expr_at(t, q + 1, p, v, 0))
                && (return_value is None ==> p == q + 1 && (p < t.len() ==> !is_expr_start(t[p]))))
        }),
{
    let identifier = s->FunctionDeclaration_identifier;
    let param_list = s->FunctionDeclaration_param_list;
    let return_type = s->FunctionDeclaration_return_type;
    let block = s->FunctionDeclaration_block;
    let head = seq![SpecToken::Functio, SpecToken::Identifier(identifier), SpecToken::LeftParan];
    let ps = render_params(param_list) + seq![SpecToken::RightParan];
    let rt = render_opt_type(return_type, SpecToken::RightArrow);
    let body = block.subrange(0, block.len() - 1);
    let rb = render_stmts(body);
    let rr = render_return(block[block.len() - 1]);
    let tail = rb + (seq![SpecToken::Reddi] + rr);
    assert(render_stmt(s) =~= head + (ps + (rt + tail)));
    lemma_split_at(t, pos, p, head, ps + (rt + tail));
    lemma_split_at(t, pos + 3, p, ps, rt + tail);
    let c = pos + 3 + ps.len();
    lemma_split_at(t, c, p, rt, tail);
    let cur = c + rt.len();
    lemma_split_at(t, cur, p, rb, seq![SpecToken::Reddi] + rr);
    let q = cur + rb.len();
    lemma_split_at(t, q, p, seq![SpecToken::Reddi], rr);
    assert(t.subrange(pos, pos + 3) == head);
    assert(t[pos] == head[0] && t[pos + 1] == head[1] && t[pos + 2] == head[2]);
    // What follows the header: the body's first statement or `reddi`.
    if return_type is None {
        if body.len() > 0 {
            lemma_render_stmts_split(body, 0);
            assert(body.subrange(0, 0) =~= Seq::<SpecStmt>::empty());
            assert(body.subrange(0, body.len() as int) =~= body);
            lemma_render_stmts_split(body, 1);
            assert(body.subrange(0, 1).subrange(0, 0) =~= Seq::<SpecStmt>::empty());
            lemma_wf_stmts_index(body, 0);
            lemma_render_stmt_start(body[0]);
            assert(render_stmts(body.subrange(0, 1)) == render_stmt(body[0]));
            assert(rb[0] == render_stmt(body[0])[0]);
            assert(t[cur] == rb[0]);
        } else {
            assert(t[cur] == SpecToken::Reddi);
        }
    }
    match block[block.len() - 1] {
        SpecStmt::ReturnStatement { return_value: Some(v), .. } => {
            lemma_render_expr_start(v);
            assert(t[q + 1] == rr[0]);
            lemma_stmt_ends_expr(t, p);
        },
        _ => {
            lemma_stmt_ends_expr(t, p);
        },
    }
}

/// Parses one statement at `pos`.
fn parse_statement(ts: &Vec<Token>, pos: usize) -> (r: Result<(Statement, usize), ParseError>)
    requires
        pos < ts.len(),
    ensures
        r matches Err(e) ==> refusal_within(e, tv(ts), pos as int),
        r matches Ok((s, p)) ==> pos < p <= ts.len() && wf_stmt(s@) && render_stmt(s@) == tv(ts).subrange(pos as int, p as int),
        forall|s: SpecStmt, p: int|
            stmt_at(tv(ts), pos as int, p, s) ==> (r matches Ok((s2, p2)) && s2@ == s && p2 == p),
    decreases ts.len() - pos, 1nat,
{
    let ghost t = tv(ts);
    proof {
        assert(t[pos as int] == ts@[pos as int]@);
        assert forall|s: SpecStmt, p: int| stmt_at(t, pos as int, p, s) implies render_stmt(s)[0] == t[pos as int] by {
            lemma_render_stmt_start(s);
        }
    }
    match &ts[pos] {
        Token::Echo => {
            proof {
                assert forall|s: SpecStmt, p: int| stmt_at(t, pos as int, p, s) implies
                    (s matches SpecStmt::Print { value } && expr_at(t, pos + 1, p, value, 0)) by {
                    lemma_render_stmt_start(s);
                    match s {
                        SpecStmt::Print { value } => {
                            lemma_split_at(t, pos as int, p, seq![SpecToken::Echo], render_expr(value));
                            lemma_stmt_ends_expr(t, p);
                        },
                        _ => {},
                    }
                }
            }
            match parse_expression(ts, pos + 1) {
                Ok((value, q)) => {
                    let s = Statement::Print { value };
                    proof {
                        assert(t.subrange(pos as int, pos + 1) =~= seq![SpecToken::Echo]);
                        lemma_join(t, pos as int, pos + 1, q as int);
                    }
                    Ok((s, q))
                },
                Err(err) => Err(err),
            }
        },
        Token::Voc => {
            proof {
                assert forall|s: SpecStmt, p: int| stmt_at(t, pos as int, p, s) implies
                    (s matches SpecStmt::Call { expression } && expr_at(t, pos + 1, p, expression, 0)) by {
                    lemma_render_stmt_start(s);
                    match s {
                        SpecStmt::Call { expression } => {
                            lemma_split_at(t, pos as int, p, seq![SpecToken::Voc], render_expr(expression));
                            lemma_stmt_ends_expr(t, p);
                        },
                        _ => {},
                    }
                }
            }
            match parse_expression(ts, pos + 1) {
                Ok((expression, q)) => {
                    let s = Statement::Call { expression };
                    proof {
                        assert(t.subrange(pos as int, pos + 1) =~= seq![SpecToken::Voc]);
                        lemma_join(t, pos as int, pos + 1, q as int);
                    }
                    Ok((s, q))
                },
                Err(err) => Err(err),
            }
        },
        Token::Sit => parse_declaration(ts, pos),
        Token::Functio => parse_function(ts, pos),
        _ => {
            proof {
                assert forall|s: SpecStmt, p: int| !stmt_at(t, pos as int, p, s) by {
                    if stmt_at(t, pos as int, p, s) {
                        lemma_render_stmt_start(s);
                    }
                }
            }
            Err(ParseError::UnrecognizedToken { token: copy_token(&ts[pos]) })
        },
    }
}

/// Parses `sit name [: type] value`.
fn parse_declaration(ts: &Vec<Token>, pos: usize) -> (r: Result<(Statement, usize), ParseError>)
    requires
        pos < ts.len(),
        tv(ts)[pos as int] == SpecToken::Sit,
    ensures
        r matches Err(e) ==> refusal_within(e, tv(ts), pos as int),
        r matches Ok((s, p)) ==> pos < p <= ts.len() && wf_stmt(s@) && render_stmt(s@) == tv(ts).subrange(pos as int, p as int),
        forall|s: SpecStmt, p: int|
            stmt_at(tv(ts), pos as int, p, s) ==> (r matches Ok((s2, p2)) && s2@ == s && p2 == p),
{
    let ghost t = tv(ts);
    // Where the pieces of a declaration sit.
    proof {
        assert forall|s: SpecStmt, p: int| stmt_at(t, pos as int, p, s) implies (s matches SpecStmt::VariableDeclaration { value, identifier, variable_type }
            && pos + 2 <= t.len() && t[pos + 1] == SpecToken::Identifier(identifier)
            && (variable_type matches Some(ty) ==> pos + 3 < t.len() && t[pos + 2] == SpecToken::Column && t[pos + 3] == SpecToken::Identifier(ty)
                && expr_at(t, pos + 4, p, value, 0))
            && (variable_type is None ==> pos + 2 < t.len() && t[pos + 2] != SpecToken::Column && expr_at(t, pos + 2, p, value, 0))) by {
            lemma_render_stmt_start(s);
            assert(render_stmt(s)[0] == t[pos as int]);
            match s {
                SpecStmt::VariableDeclaration { value, identifier, variable_type } => {
                    let head = seq![SpecToken::Sit, SpecToken::Identifier(identifier)];
                    let ty = render_opt_type(variable_type, SpecToken::Column);
                    assert(render_stmt(s) =~= head + (ty + render_expr(value)));
                    lemma_split_at(t, pos as int, p, head, ty + render_expr(value));
                    lemma_split_at(t, pos + 2, p, ty, render_expr(value));
                    lemma_stmt_ends_expr(t, p);
                    lemma_render_expr_start(value);
                },
                _ => {},
            }
        }
    }
    if pos + 1 >= ts.len() {
        return Err(ParseError::UnrecognizedEof);
    }
    proof {
        assert(t[pos + 1] == ts@[pos + 1]@);
    }
    let name = match &ts[pos + 1] {
        Token::Identifier(name) => name.clone(),
        _ => {
            return Err(ParseError::UnrecognizedToken { token: copy_token(&ts[pos + 1]) });
        },
    };
    let mut cur = pos + 2;
    let mut variable_type: Option<String> = None;
    if cur < ts.len() && is_column(&ts[cur]) {
        proof {
            assert(t[cur as int] == ts@[cur as int]@);
        }
        if cur + 1 >= ts.len() {
            return Err(ParseError::UnrecognizedEof);
        }
        proof {
            assert(t[cur + 1] == ts@[cur + 1]@);
        }
        match &ts[cur + 1] {
            Token::Identifier(ty) => {
                variable_type = Some(ty.clone());
                cur = cur + 2;
            },
            _ => {
                return Err(ParseError::UnrecognizedToken { token: copy_token(&ts[cur + 1]) });
            },
        }
    } else {
        proof {
            if cur < ts.len() {
                assert(t[cur as int] == ts@[cur as int]@);
            }
        }
    }
    proof {
        assert(t.subrange(pos as int, cur as int) =~= seq![SpecToken::Sit, SpecToken::Identifier(name@)]
            + render_opt_type(opt_str_view(variable_type), SpecToken::Column));
    }
    match parse_expression(ts, cur) {
        Ok((value, q)) => {
            let s = Statement::VariableDeclaration { value, identifier: name, variable_type };
            proof {
                lemma_join(t, pos as int, cur as int, q as int);
                assert(render_stmt(s@) =~= t.subrange(pos as int, q as int));
            }
            Ok((s, q))
        },
        Err(err) => Err(err),
    }
}

/// Parses `fvnctio name(params) [=> type] body reddi [value]`.
pub open spec fn header_tokens(name: Seq<char>, ps: Seq<(Seq<char>, Seq<char>)>, rt: Option<Seq<char>>) -> Seq<SpecToken> {
    seq![SpecToken::Functio, SpecToken::Identifier(name), SpecToken::LeftParan] + render_params(ps)
        + seq![SpecToken::RightParan] + render_opt_type(rt, SpecToken::RightArrow)
}

/// Parses `fvnctio name(params) [=> type]`.
fn parse_function_header(ts: &Vec<Token>, pos: usize) -> (r: Result<(String, Vec<Parameter>, Option<String>, usize), ParseError>)
    requires
        pos < ts.len(),
        tv(ts)[pos as int] == SpecToken::Functio,
    ensures
        r matches Err(e) ==> refusal_within(e, tv(ts), pos as int),
        r matches Ok((name, ps, rt, cur)) ==> pos < cur <= ts.len() && header_tokens(name@, params_view(ps@), opt_str_view(rt))
            == tv(ts).subrange(pos as int, cur as int),
        forall|s: SpecStmt, p: int|
            stmt_at(tv(ts), pos as int, p, s) ==> (r matches Ok((name, ps, rt, cur)) && (s matches SpecStmt::FunctionDeclaration { identifier, param_list, return_type, .. }
                && identifier == name@ && param_list == params_view(ps@) && return_type == opt_str_view(rt) && cur == pos + fn_header_len(s))),
{
    let ghost t = tv(ts);
    proof {
        assert forall|s: SpecStmt, p: int| stmt_at(t, pos as int, p, s) implies s is FunctionDeclaration by {
            lemma_render_stmt_start(s);
            assert(render_stmt(s)[0] == t[pos as int]);
        }
        assert forall|s: SpecStmt, p: int| stmt_at(t, pos as int, p, s) implies pos + 3 <= t.len()
            && t[pos + 1] == SpecToken::Identifier(s->FunctionDeclaration_identifier) && t[pos + 2] == SpecToken::LeftParan
            && params_at(t, pos + 3, pos + 3 + render_params(s->FunctionDeclaration_param_list).len() + 1, s->FunctionDeclaration_param_list) by {
            lemma_function_decompose(t, pos as int, p, s);
        }
    }
    if ts.len() - pos < 3 {
        return Err(ParseError::UnrecognizedEof);
    }
    proof {
        assert(t[pos + 1] == ts@[pos + 1]@);
        assert(t[pos + 2] == ts@[pos + 2]@);
    }
    let name = match &ts[pos + 1] {
        Token::Identifier(name) => name.clone(),
        _ => {
            return Err(ParseError::UnrecognizedToken { token: copy_token(&ts[pos + 1]) });
        },
    };
    if !is_left_paran(&ts[pos + 2]) {
        return Err(ParseError::UnrecognizedToken { token: copy_token(&ts[pos + 2]) });
    }
    let (param_list, c) = match parse_params(ts, pos + 3) {
        Ok(x) => x,
        Err(err) => {
            return Err(err);
        },
    };
    proof {
        assert forall|s: SpecStmt, p: int| stmt_at(t, pos as int, p, s) implies
            s->FunctionDeclaration_param_list == params_view(param_list@)
                && pos + 3 + render_params(s->FunctionDeclaration_param_list).len() + 1 == c
                && (s->FunctionDeclaration_return_type matches Some(ty) ==> c + 1 < t.len() && t[c as int] == SpecToken::RightArrow && t[c + 1] == SpecToken::Identifier(ty))
                && (s->FunctionDeclaration_return_type is None ==> c < t.len() && t[c as int] != SpecToken::RightArrow) by {
            lemma_function_decompose(t, pos as int, p, s);
        }
        let head = seq![SpecToken::Functio, SpecToken::Identifier(name@), SpecToken::LeftParan];
        assert(t.subrange(pos as int, pos + 3) =~= head);
        lemma_join(t, pos as int, pos + 3, c as int);
        if c < ts.len() {
            assert(t[c as int] == ts@[c as int]@);
        }
    }
    if c < ts.len() && is_right_arrow(&ts[c]) {
        if c + 1 >= ts.len() {
            return Err(ParseError::UnrecognizedEof);
        }
        proof {
            assert(t[c + 1] == ts@[c + 1]@);
        }
        match &ts[c + 1] {
            Token::Identifier(ty) => {
                let rt = Some(ty.clone());
                proof {
                    assert(t.subrange(c as int, c + 2) =~= render_opt_type(opt_str_view(rt), SpecToken::RightArrow));
                    lemma_join(t, pos as int, c as int, c + 2);
                    assert(header_tokens(name@, params_view(param_list@), opt_str_view(rt)) =~= t.subrange(pos as int, c + 2));
                }
                Ok((name, param_list, rt, c + 2))
            },
            _ => Err(ParseError::UnrecognizedToken { token: copy_token(&ts[c + 1]) }),
        }
    } else {
        let rt: Option<String> = None;
        proof {
            assert(header_tokens(name@, params_view(param_list@), opt_str_view(rt)) =~= t.subrange(pos as int, c as int));
        }
        Ok((name, param_list, rt, c))
    }
}

/// Parses `fvnctio name(params) [=> type] body reddi [value]`.
#[verifier::rlimit(100)]
fn parse_function(ts: &Vec<Token>, pos: usize) -> (r: Result<(Statement, usize), ParseError>)
    requires
        pos < ts.len(),
        tv(ts)[pos as int] == SpecToken::Functio,
    ensures
        r matches Err(e) ==> refusal_within(e, tv(ts), pos as int),
        r matches Ok((s, p)) ==> pos < p <= ts.len() && wf_stmt(s@) && render_stmt(s@) == tv(ts).subrange(pos as int, p as int),
        forall|s: SpecStmt, p: int|
            stmt_at(tv(ts), pos as int, p, s) ==> (r matches Ok((s2, p2)) && s2@ == s && p2 == p),
    decreases ts.len() - pos, 0nat,
{
    let ghost t = tv(ts);
    let (name, param_list, return_type, cur) = match parse_function_header(ts, pos) {
        Ok(x) => x,
        Err(err) => {
            return Err(err);
        },
    };
    proof {
        assert forall|s: SpecStmt, p: int| stmt_at(t, pos as int, p, s) implies
            block_at(t, cur as int, cur + render_stmts(s->FunctionDeclaration_block.subrange(0, s->FunctionDeclaration_block.len() - 1)).len(),
                s->FunctionDeclaration_block.subrange(0, s->FunctionDeclaration_block.len() - 1)) by {
            lemma_function_decompose(t, pos as int, p, s);
        }
    }
    let (body, q) = match parse_block(ts, cur) {
        Ok(x) => x,
        Err(err) => {
            return Err(err);
        },
    };
    proof {
        assert forall|s: SpecStmt, p: int| stmt_at(t, pos as int, p, s) implies
            s->FunctionDeclaration_block.subrange(0, s->FunctionDeclaration_block.len() - 1) == stmts_view(body@)
                && q < t.len() && t[q as int] == SpecToken::Reddi by {
            lemma_function_decompose(t, pos as int, p, s);
        }
    }
    if q >= ts.len() || !is_reddi(&ts[q]) {
        proof {
            if q < ts.len() {
                assert(t[q as int] == ts@[q as int]@);
            }
        }
        if q < ts.len() {
            return Err(ParseError::UnrecognizedToken { token: copy_token(&ts[q]) });
        } else {
            return Err(ParseError::UnrecognizedEof);
        }
    }
    proof {
        assert(t[q as int] == ts@[q as int]@);
        if q + 1 < ts.len() {
            assert(t[q + 1] == ts@[q + 1]@);
        }
    }
    let (return_value, end) = if q + 1 < ts.len() && starts_expression(&ts[q + 1]) {
        proof {
            assert forall|s: SpecStmt, p: int| stmt_at(t, pos as int, p, s) implies
                (s->FunctionDeclaration_block[s->FunctionDeclaration_block.len() - 1] matches SpecStmt::ReturnStatement { return_value: Some(v), .. }
                    && expr_at(t, q + 1, p, v, 0)) by {
                lemma_function_decompose(t, pos as int, p, s);
            }
        }
        match parse_expression(ts, q + 1) {
            Ok((v, e)) => (Some(v), e),
            Err(err) => {
                return Err(err);
            },
        }
    } else {
        proof {
            assert forall|s: SpecStmt, p: int| stmt_at(t, pos as int, p, s) implies
                (s->FunctionDeclaration_block[s->FunctionDeclaration_block.len() - 1] matches SpecStmt::ReturnStatement { return_value: None, .. })
                    && p == q + 1 by {
                lemma_function_decompose(t, pos as int, p, s);
            }
        }
        (None, q + 1)
    };
    let ghost body_view = stmts_view(body@);
    let mut block = body;
    let ret = Statement::ReturnStatement { return_value, function: name.clone() };
    block.push(ret);
    let s = Statement::FunctionDeclaration { identifier: name, param_list, return_type, block: Box::new(block) };
    proof {
        lemma_stmts_view(block@);
        lemma_stmts_view(body@);
        let bv = stmts_view(block@);
        assert(bv.subrange(0, bv.len() - 1) =~= body_view);
        assert(bv[bv.len() - 1] == stmt_view(ret));
        assert(t.subrange(q as int, q + 1) =~= seq![SpecToken::Reddi]);
        lemma_join(t, pos as int, cur as int, q as int);
        lemma_join(t, pos as int, q as int, q + 1);
        lemma_join(t, pos as int, q + 1, end as int);
        let head = header_tokens(name@, params_view(param_list@), opt_str_view(return_type));
        assert(render_stmt(s@) =~= head + render_stmts(body_view) + seq![SpecToken::Reddi] + render_return(stmt_view(ret)));
        assert(render_stmt(s@) =~= t.subrange(pos as int, end as int));
        assert forall|s2: SpecStmt, p: int| stmt_at(t, pos as int, p, s2) implies s2 == s@ && p == end by {
            lemma_function_decompose(t, pos as int, p, s2);
            let b2 = s2->FunctionDeclaration_block;
            assert(b2 =~= b2.subrange(0, b2.len() - 1).push(b2[b2.len() - 1]));
            assert(bv =~= body_view.push(bv[bv.len() - 1]));
        }
    }
    Ok((s, end))
}

/// Parses statements at `pos` for as long as one starts there.
pub fn parse_block(ts: &Vec<Token>, pos: usize) -> (r: Result<(Vec<Statement>, usize), ParseError>)
    requires
        pos <= ts.len(),
    ensures
        r matches Err(e) ==> refusal_within(e, tv(ts), pos as int),
        r matches Ok((b, p)) ==> pos <= p <= ts.len() && wf_stmts(stmts_view(b@)) && render_stmts(stmts_view(b@))
            == tv(ts).subrange(pos as int, p as int) && (p == ts.len() || !is_stmt_start(tv(ts)[p as int])),
        forall|b: Seq<SpecStmt>, p: int|
            block_at(tv(ts), pos as int, p, b) ==> (r matches Ok((b2, p2)) && stmts_view(b2@) == b && p2 == p),
    decreases ts.len() - pos, 2nat,
{
    let ghost t = tv(ts);
    let mut acc: Vec<Statement> = Vec::new();
    let mut cur = pos;
    proof {
        assert(stmts_view(acc@) =~= Seq::<SpecStmt>::empty());
        assert(t.subrange(pos as int, pos as int) =~= Seq::<SpecToken>::empty());
        assert forall|b: Seq<SpecStmt>, p: int| block_at(t, pos as int, p, b) implies b.subrange(0, 0) == stmts_view(acc@) by {
            assert(b.subrange(0, 0) =~= Seq::<SpecStmt>::empty());
        }
    }
    loop
        invariant
            t == tv(ts),
            pos <= cur <= ts.len(),
            wf_stmts(stmts_view(acc@)),
            render_stmts(stmts_view(acc@)) == t.subrange(pos as int, cur as int),
            forall|b: Seq<SpecStmt>, p: int| block_at(t, pos as int, p, b) ==>
                acc@.len() <= b.len() && b.subrange(0, acc@.len() as int) == stmts_view(acc@),
        decreases ts.len() - cur,
    {
        proof {
            lemma_stmts_view(acc@);
        }
        if cur >= ts.len() || !starts_statement(&ts[cur]) {
            proof {
                if cur < ts.len() {
                    assert(t[cur as int] == ts@[cur as int]@);
                }
                assert forall|b: Seq<SpecStmt>, p: int| block_at(t, pos as int, p, b) implies stmts_view(acc@) == b && cur == p by {
                    let k = acc@.len() as int;
                    lemma_render_stmts_split(b, k);
                    lemma_split_at(t, pos as int, p, render_stmts(b.subrange(0, k)), render_stmts(b.subrange(k, b.len() as int)));
                    if k < b.len() {
                        let rest = b.subrange(k, b.len() as int);
                        lemma_render_stmts_split(rest, 1);
                        assert(rest.subrange(0, 1).subrange(0, 0) =~= Seq::<SpecStmt>::empty());
                        lemma_wf_stmts_index(b, k);
                        lemma_render_stmt_start(b[k]);
                        assert(rest[0] == b[k]);
                        lemma_render_stmts_single(rest.subrange(0, 1));
                        assert(t[cur as int] == render_stmts(rest)[0]);
                    }
                    assert(b.subrange(0, k) =~= b);
                }
            }
            return Ok((acc, cur));
        }
        proof {
            assert(t[cur as int] == ts@[cur as int]@);
            assert forall|b: Seq<SpecStmt>, p: int| block_at(t, pos as int, p, b) implies
                acc@.len() < b.len() && stmt_at(t, cur as int, cur + render_stmt(b[acc@.len() as int]).len(), b[acc@.len() as int]) by {
                let k = acc@.len() as int;
                lemma_render_stmts_split(b, k);
                lemma_split_at(t, pos as int, p, render_stmts(b.subrange(0, k)), render_stmts(b.subrange(k, b.len() as int)));
                if k == b.len() {
                    assert(b.subrange(k, b.len() as int) =~= Seq::<SpecStmt>::empty());
                }
                let rest = b.subrange(k, b.len() as int);
                lemma_render_stmts_split(rest, 1);
                assert(rest.subrange(0, 1).subrange(0, 0) =~= Seq::<SpecStmt>::empty());
                assert(rest[0] == b[k]);
                lemma_render_stmts_single(rest.subrange(0, 1));
                lemma_wf_stmts_index(b, k);
                let after = rest.subrange(1, rest.len() as int);
                lemma_split_at(t, cur as int, p, render_stmt(b[k]), render_stmts(after));
                if after.len() > 0 {
                    lemma_render_stmts_split(after, 1);
                    assert(after.subrange(0, 1).subrange(0, 0) =~= Seq::<SpecStmt>::empty());
                    assert(after[0] == b[k + 1]);
                    lemma_render_stmts_single(after.subrange(0, 1));
                    lemma_wf_stmts_index(b, k + 1);
                    lemma_render_stmt_start(b[k + 1]);
                } else {
                    assert(render_stmts(after) =~= Seq::<SpecToken>::empty());
                }
            }
        }
        match parse_statement(ts, cur) {
            Ok((s, q)) => {
                let ghost old_view = stmts_view(acc@);
                acc.push(s);
                proof {
                    lemma_stmts_view(acc@);
                    let nv = stmts_view(acc@);
                    assert(nv.subrange(0, nv.len() - 1) =~= old_view);
                    assert(nv[nv.len() - 1] == s@);
                    lemma_join(t, pos as int, cur as int, q as int);
                    assert forall|b: Seq<SpecStmt>, p: int| block_at(t, pos as int, p, b) implies
                        acc@.len() <= b.len() && b.subrange(0, acc@.len() as int) == nv by {
                        assert(b.subrange(0, acc@.len() as int) =~= old_view.push(b[old_view.len() as int]));
                        assert(nv =~= old_view.push(s@));
                    }
                }
                cur = q;
            },
            Err(err) => {
                return Err(err);
            },
        }
    }
}

/// Parses a whole program: the tokens must be exactly a list of statements.
pub fn parse_tokens(ts: &Vec<Token>) -> (r: Result<Vec<Statement>, ParseError>)
    ensures
        r matches Err(e) ==> refusal_within(e, tv(ts), 0),
        r matches Ok(b) ==> wf_stmts(stmts_view(b@)) && render_stmts(stmts_view(b@)) == tv(ts),
        forall|b: Seq<SpecStmt>|
            wf_stmts(b) && render_stmts(b) == tv(ts) ==> (r matches Ok(b2) && stmts_view(b2@) == b),
{
    let ghost t = tv(ts);
    proof {
        assert(t.subrange(0, t.len() as int) =~= t);
    }
    match parse_block(ts, 0) {
        Ok((b, p)) => {
            if p == ts.len() {
                proof {
                    assert forall|b2: Seq<SpecStmt>| wf_stmts(b2) && render_stmts(b2) == t implies stmts_view(b@) == b2 by {
                        assert(block_at(t, 0, t.len() as int, b2));
                    }
                }
                Ok(b)
            } else {
                proof {
                    assert forall|b2: Seq<SpecStmt>| !(wf_stmts(b2) && render_stmts(b2) == t) by {
                        if wf_stmts(b2) && render_stmts(b2) == t {
                            assert(block_at(t, 0, t.len() as int, b2));
                        }
                    }
                }
                Err(ParseError::UnrecognizedToken { token: copy_token(&ts[p]) })
            }
        },
        Err(err) => {
            proof {
                assert forall|b2: Seq<SpecStmt>| !(wf_stmts(b2) && render_stmts(b2) == t) by {
                    if wf_stmts(b2) && render_stmts(b2) == t {
                        assert(block_at(t, 0, t.len() as int, b2));
                    }
                }
            }
            Err(err)
        },
    }
}

/// Reads all the tokens of the lexer and parses them as a program. A lexing
/// error is reported as `User`; otherwise the result is that of
/// `parse_tokens` on the tokens.
pub fn parse(lexer: Lexer) -> (r: Result<Vec<Statement>, ParseError>)
    ensures
        match lex_from(lexer.text(), lexer.position()) {
            Err(e) => r matches Err(ParseError::User { error }) && error@ == e,
            Ok(ts) => (r matches Err(e) ==> refusal_within(e, ts, 0)) && (r matches Ok(b) ==> wf_stmts(stmts_view(b@)) && render_stmts(stmts_view(b@)) == ts)
                && forall|b: Seq<SpecStmt>| wf_stmts(b) && render_stmts(b) == ts ==> (r matches Ok(b2) && stmts_view(b2@) == b),
        },
{
    let mut lexer = lexer;
    match collect_tokens(&mut lexer) {
        Ok(tokens) => parse_tokens(&tokens),
        Err(error) => Err(ParseError::User { error }),
    }
}

} // verus!

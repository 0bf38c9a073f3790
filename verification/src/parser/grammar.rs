//! The concrete syntax of the language, given as a printer from syntax trees
//! to tokens. A token sequence is a program exactly when it is the printing of
//! a well-formed statement list; the parser inverts this printer.
use vstd::prelude::*;
use crate::common::{OperationType, SpecExpr, SpecStmt};
use crate::lexer::token::SpecToken;

verus! {

// ---------------------------------------------------------------------------
// Operators and precedence
// ---------------------------------------------------------------------------

pub open spec fn op_token(op: OperationType) -> SpecToken {
    match op {
        OperationType::Add => SpecToken::Plus,
        OperationType::Sub => SpecToken::Minus,
        OperationType::Mul => SpecToken::Star,
        OperationType::Div => SpecToken::Slash,
        OperationType::Pow => SpecToken::Caret,
        OperationType::Cat => SpecToken::Tile,
    }
}

pub open spec fn token_op(t: SpecToken) -> Option<OperationType> {
    match t {
        SpecToken::Plus => Some(OperationType::Add),
        SpecToken::Minus => Some(OperationType::Sub),
        SpecToken::Star => Some(OperationType::Mul),
        SpecToken::Slash => Some(OperationType::Div),
        SpecToken::Caret => Some(OperationType::Pow),
        SpecToken::Tile => Some(OperationType::Cat),
        _ => None,
    }
}

/// Binding strength: `~` binds loosest, then `+ -`, then `* /`, then `^`
/// (right associative); the cast `e :: t` is postfix (level 4) and atoms
/// are at level 5.
pub open spec fn op_level(op: OperationType) -> int {
    match op {
        OperationType::Cat => 0,
        OperationType::Add => 1,
        OperationType::Sub => 1,
        OperationType::Mul => 2,
        OperationType::Div => 2,
        OperationType::Pow => 3,
    }
}

pub open spec fn node_level(e: SpecExpr) -> int {
    match e {
        SpecExpr::BinaryOperation { op_type, .. } => op_level(op_type),
        SpecExpr::Cast { .. } => 4,
        _ => 5,
    }
}

/// Every subtree can be printed without parentheses: operands bind at least
/// as tightly as their position demands, and only surface constructs occur.
pub open spec fn wf_tree(e: SpecExpr) -> bool
    decreases e,
{
    match e {
        SpecExpr::StringValue { .. } => true,
        SpecExpr::Number { .. } => true,
        SpecExpr::Boolean { .. } => true,
        SpecExpr::Variable { .. } => true,
        SpecExpr::FunctionCall { argument_list, .. } => wf_args(argument_list),
        SpecExpr::Cast { operand, .. } => 4 <= node_level(*operand) && wf_tree(*operand),
        SpecExpr::BinaryOperation { lhs, rhs, op_type } => if op_type == OperationType::Pow {
            4 <= node_level(*lhs) && wf_tree(*lhs) && 3 <= node_level(*rhs) && wf_tree(*rhs)
        } else {
            op_level(op_type) <= node_level(*lhs) && wf_tree(*lhs) && op_level(op_type) + 1
                <= node_level(*rhs) && wf_tree(*rhs)
        },
        _ => false,
    }
}

pub open spec fn wf_args(s: Seq<SpecExpr>) -> bool
    decreases s,
{
    if s.len() == 0 {
        true
    } else {
        wf_tree(s[0]) && wf_args(s.subrange(1, s.len() as int))
    }
}

/// `e` can stand, unparenthesized, where an expression of binding level
/// `level` is expected.
pub open spec fn wf_expr(e: SpecExpr, level: int) -> bool {
    level <= node_level(e) && wf_tree(e)
}

pub open spec fn render_expr(e: SpecExpr) -> Seq<SpecToken>
    decreases e,
{
    match e {
        SpecExpr::StringValue { value } => seq![SpecToken::Catena(value)],
        SpecExpr::Number { value } => seq![SpecToken::Number(value)],
        SpecExpr::Boolean { value } => if value {
            seq![SpecToken::True]
        } else {
            seq![SpecToken::False]
        },
        SpecExpr::Variable { identifier } => seq![SpecToken::Identifier(identifier)],
        SpecExpr::BinaryOperation { lhs, rhs, op_type } => render_expr(*lhs) + seq![
            op_token(op_type),
        ] + render_expr(*rhs),
        SpecExpr::Cast { operand, output_type } => render_expr(*operand) + seq![
            SpecToken::DoubleColumn,
            SpecToken::Identifier(output_type),
        ],
        SpecExpr::FunctionCall { identifier, argument_list } => seq![
            SpecToken::Identifier(identifier),
            SpecToken::LeftParan,
        ] + render_args(argument_list) + seq![SpecToken::RightParan],
        _ => Seq::empty(),
    }
}

/// Arguments separated by commas.
pub open spec fn render_args(s: Seq<SpecExpr>) -> Seq<SpecToken>
    decreases s,
{
    if s.len() == 0 {
        Seq::empty()
    } else if s.len() == 1 {
        render_expr(s[0])
    } else {
        render_expr(s[0]) + seq![SpecToken::Comma] + render_args(s.subrange(1, s.len() as int))
    }
}

pub open spec fn is_expr_start(t: SpecToken) -> bool {
    match t {
        SpecToken::Catena(_) => true,
        SpecToken::Number(_) => true,
        SpecToken::True => true,
        SpecToken::False => true,
        SpecToken::Identifier(_) => true,
        _ => false,
    }
}

/// Token `t` would extend an expression of binding level `level` that it
/// follows.
pub open spec fn continues(level: int, t: SpecToken) -> bool {
    ||| (token_op(t) matches Some(op) && op_level(op) >= level)
    ||| (t == SpecToken::DoubleColumn && level <= 4)
    ||| t == SpecToken::LeftParan
}

pub open spec fn expr_ends(ts: Seq<SpecToken>, p: int, level: int) -> bool {
    p == ts.len() || !continues(level, ts[p])
}

/// `ts[pos..p]` is the printing of `e`, which fits at `level` and is not
/// extended by the token that follows.
pub open spec fn expr_at(ts: Seq<SpecToken>, pos: int, p: int, e: SpecExpr, level: int) -> bool {
    &&& 0 <= pos <= p <= ts.len()
    &&& wf_expr(e, level)
    &&& render_expr(e) == ts.subrange(pos, p)
    &&& expr_ends(ts, p, level)
}

// ---------------------------------------------------------------------------
// Statements
// ---------------------------------------------------------------------------

pub open spec fn wf_return(s: SpecStmt, name: Seq<char>) -> bool {
    match s {
        SpecStmt::ReturnStatement { return_value, function } => function == name && match return_value {
            Some(v) => wf_expr(v, 0),
            None => true,
        },
        _ => false,
    }
}

/// A statement as the parser produces it: a print, a declaration, a call, or
/// a function whose body ends with its one return statement.
pub open spec fn wf_stmt(s: SpecStmt) -> bool
    decreases s,
{
    match s {
        SpecStmt::Print { value } => wf_expr(value, 0),
        SpecStmt::VariableDeclaration { value, .. } => wf_expr(value, 0),
        SpecStmt::Call { expression } => wf_expr(expression, 0),
        SpecStmt::FunctionDeclaration { identifier, block, .. } => block.len() > 0 && wf_return(
            block[block.len() - 1],
            identifier,
        ) && wf_stmts(block.subrange(0, block.len() - 1)),
        _ => false,
    }
}

pub open spec fn wf_stmts(b: Seq<SpecStmt>) -> bool
    decreases b,
{
    if b.len() == 0 {
        true
    } else {
        wf_stmts(b.subrange(0, b.len() - 1)) && wf_stmt(b[b.len() - 1])
    }
}

pub open spec fn render_opt_type(t: Option<Seq<char>>, lead: SpecToken) -> Seq<SpecToken> {
    match t {
        Some(name) => seq![lead, SpecToken::Identifier(name)],
        None => Seq::empty(),
    }
}

pub open spec fn render_param(p: (Seq<char>, Seq<char>)) -> Seq<SpecToken> {
    seq![SpecToken::Identifier(p.0), SpecToken::Column, SpecToken::Identifier(p.1)]
}

pub open spec fn render_params(ps: Seq<(Seq<char>, Seq<char>)>) -> Seq<SpecToken>
    decreases ps.len(),
{
    if ps.len() == 0 {
        Seq::empty()
    } else if ps.len() == 1 {
        render_param(ps[0])
    } else {
        render_param(ps[0]) + seq![SpecToken::Comma] + render_params(ps.subrange(1, ps.len() as int))
    }
}

pub open spec fn render_return(s: SpecStmt) -> Seq<SpecToken> {
    match s {
        SpecStmt::ReturnStatement { return_value: Some(v), .. } => render_expr(v),
        _ => Seq::empty(),
    }
}

pub open spec fn render_stmt(s: SpecStmt) -> Seq<SpecToken>
    decreases s,
{
    match s {
        SpecStmt::Print { value } => seq![SpecToken::Echo] + render_expr(value),
        SpecStmt::VariableDeclaration { value, identifier, variable_type } => seq![
            SpecToken::Sit,
            SpecToken::Identifier(identifier),
        ] + render_opt_type(variable_type, SpecToken::Column) + render_expr(value),
        SpecStmt::Call { expression } => seq![SpecToken::Voc] + render_expr(expression),
        SpecStmt::FunctionDeclaration { identifier, param_list, return_type, block } => seq![
            SpecToken::Functio,
            SpecToken::Identifier(identifier),
            SpecToken::LeftParan,
        ] + render_params(param_list) + seq![SpecToken::RightParan] + render_opt_type(
            return_type,
            SpecToken::RightArrow,
        ) + if block.len() > 0 {
            render_stmts(block.subrange(0, block.len() - 1)) + seq![SpecToken::Reddi]
                + render_return(block[block.len() - 1])
        } else {
            seq![SpecToken::Reddi]
        },
        _ => Seq::empty(),
    }
}

pub open spec fn render_stmts(b: Seq<SpecStmt>) -> Seq<SpecToken>
    decreases b,
{
    if b.len() == 0 {
        Seq::empty()
    } else {
        render_stmts(b.subrange(0, b.len() - 1)) + render_stmt(b[b.len() - 1])
    }
}

pub open spec fn is_stmt_start(t: SpecToken) -> bool {
    ||| t == SpecToken::Echo
    ||| t == SpecToken::Sit
    ||| t == SpecToken::Voc
    ||| t == SpecToken::Functio
}

/// What may follow a statement: another statement, the end of a function
/// body, or the end of the input.
pub open spec fn stmt_ends(ts: Seq<SpecToken>, p: int) -> bool {
    p == ts.len() || is_stmt_start(ts[p]) || ts[p] == SpecToken::Reddi
}

// ---------------------------------------------------------------------------
// Lemmas about the printer
// ---------------------------------------------------------------------------

pub proof fn lemma_token_op_inverse(op: OperationType)
    ensures
        token_op(op_token(op)) == Some(op),
{
}

/// A well-formed expression prints to at least one token, and the first one
/// starts an expression.
pub proof fn lemma_render_expr_start(e: SpecExpr)
    requires
        wf_tree(e),
    ensures
        render_expr(e).len() > 0,
        is_expr_start(render_expr(e)[0]),
    decreases e,
{
    match e {
        SpecExpr::BinaryOperation { lhs, rhs, op_type } => {
            lemma_render_expr_start(*lhs);
        },
        SpecExpr::Cast { operand, .. } => {
            lemma_render_expr_start(*operand);
        },
        _ => {},
    }
}

/// The first token decides which kind of atom an expression of level 5 is.
pub proof fn lemma_atom_shape(e: SpecExpr)
    requires
        wf_expr(e, 5),
    ensures
        render_expr(e).len() > 0,
        match render_expr(e)[0] {
            SpecToken::Catena(s) => e == (SpecExpr::StringValue { value: s })
                && render_expr(e).len() == 1,
            SpecToken::Number(n) => e == (SpecExpr::Number { value: n }) && render_expr(e).len()
                == 1,
            SpecToken::True => e == (SpecExpr::Boolean { value: true }) && render_expr(e).len()
                == 1,
            SpecToken::False => e == (SpecExpr::Boolean { value: false }) && render_expr(e).len()
                == 1,
            SpecToken::Identifier(x) => (e == (SpecExpr::Variable { identifier: x })
                && render_expr(e).len() == 1) || (e matches SpecExpr::FunctionCall {
                identifier,
                ..
            } && identifier == x && render_expr(e).len() >= 3 && render_expr(e)[1]
                == SpecToken::LeftParan),
            _ => false,
        },
{
}

pub proof fn lemma_render_stmt_start(s: SpecStmt)
    requires
        wf_stmt(s),
    ensures
        render_stmt(s).len() > 0,
        is_stmt_start(render_stmt(s)[0]),
{
}

/// Printing a list of statements is printing its first `k` and then the rest.
pub proof fn lemma_render_stmts_split(b: Seq<SpecStmt>, k: int)
    requires
        0 <= k <= b.len(),
    ensures
        render_stmts(b) == render_stmts(b.subrange(0, k)) + render_stmts(
            b.subrange(k, b.len() as int),
        ),
    decreases b.len(),
{
    if k == b.len() {
        assert(b.subrange(0, k) =~= b);
        assert(render_stmts(b.subrange(k, b.len() as int)) =~= Seq::empty());
        assert(render_stmts(b) + Seq::empty() =~= render_stmts(b));
    } else {
        let n = b.len() - 1;
        let front = b.subrange(0, n);
        lemma_render_stmts_split(front, k);
        assert(front.subrange(0, k) =~= b.subrange(0, k));
        let tail = b.subrange(k, b.len() as int);
        assert(tail.subrange(0, tail.len() - 1) =~= front.subrange(k, front.len() as int));
        assert(tail[tail.len() - 1] == b[n]);
        assert(render_stmts(b) == render_stmts(front) + render_stmt(b[n]));
        assert(render_stmts(tail) == render_stmts(front.subrange(k, front.len() as int))
            + render_stmt(b[n]));
        assert(render_stmts(b) =~= render_stmts(b.subrange(0, k)) + render_stmts(tail));
    }
}

pub proof fn lemma_wf_stmts_index(b: Seq<SpecStmt>, i: int)
    requires
        wf_stmts(b),
        0 <= i < b.len(),
    ensures
        wf_stmt(b[i]),
    decreases b.len(),
{
    if i < b.len() - 1 {
        lemma_wf_stmts_index(b.subrange(0, b.len() - 1), i);
    }
}

// ---------------------------------------------------------------------------
// Left spines: the chain of left operands of a left-associative level
// ---------------------------------------------------------------------------

/// `x` is `e`, or the left operand (repeatedly) of operators of `level`
/// at the top of `e`.
/// The operand before a top-level `^`, or the expression itself.
pub open spec fn pow_head(e: SpecExpr) -> SpecExpr {
    match e {
        SpecExpr::BinaryOperation { lhs, op_type, .. } => if op_type == OperationType::Pow {
            *lhs
        } else {
            e
        },
        _ => e,
    }
}

pub open spec fn on_spine(e: SpecExpr, x: SpecExpr, level: int) -> bool
    decreases e,
{
    e == x || match e {
        SpecExpr::BinaryOperation { lhs, op_type, .. } => op_level(op_type) == level && on_spine(
            *lhs,
            x,
            level,
        ),
        _ => false,
    }
}

pub open spec fn spine_base(e: SpecExpr, level: int) -> SpecExpr
    decreases e,
{
    match e {
        SpecExpr::BinaryOperation { lhs, op_type, .. } => if op_level(op_type) == level {
            spine_base(*lhs, level)
        } else {
            e
        },
        _ => e,
    }
}

pub open spec fn spine_parent(e: SpecExpr, x: SpecExpr, level: int) -> SpecExpr
    decreases e,
{
    match e {
        SpecExpr::BinaryOperation { lhs, op_type, .. } => if op_level(op_type) == level && *lhs
            != x {
            spine_parent(*lhs, x, level)
        } else {
            e
        },
        _ => e,
    }
}

/// The tokens that follow the printing of `x` inside the printing of `e`.
pub open spec fn spine_tail(e: SpecExpr, x: SpecExpr, level: int) -> Seq<SpecToken>
    decreases e,
{
    if e == x {
        Seq::empty()
    } else {
        match e {
            SpecExpr::BinaryOperation { lhs, rhs, op_type } => spine_tail(*lhs, x, level) + seq![
                op_token(op_type),
            ] + render_expr(*rhs),
            _ => Seq::empty(),
        }
    }
}

pub proof fn lemma_spine(e: SpecExpr, x: SpecExpr, level: int)
    requires
        0 <= level <= 2,
        wf_expr(e, level),
        on_spine(e, x, level),
    ensures
        wf_expr(x, level),
        render_expr(e) == render_expr(x) + spine_tail(e, x, level),
        e == x ==> spine_tail(e, x, level).len() == 0,
        e != x ==> spine_tail(e, x, level).len() > 0 && (token_op(spine_tail(e, x, level)[0]) matches Some(op)
            && op_level(op) == level),
        e != x ==> (spine_parent(e, x, level) matches SpecExpr::BinaryOperation { lhs, rhs, op_type }
            && *lhs == x && op_level(op_type) == level && wf_expr(*rhs, level + 1)
            && spine_tail(spine_parent(e, x, level), x, level) == seq![op_token(op_type)] + render_expr(*rhs)),
        e != x ==> on_spine(e, spine_parent(e, x, level), level),
    decreases e,
{
    if e == x {
        assert(render_expr(e) + Seq::empty() =~= render_expr(e));
    } else {
        match e {
            SpecExpr::BinaryOperation { lhs, rhs, op_type } => {
                assert(op_type != OperationType::Pow);
                if *lhs == x {
                    assert(spine_tail(*lhs, x, level) =~= Seq::empty());
                    assert(spine_tail(e, x, level) =~= seq![op_token(op_type)] + render_expr(*rhs));
                    assert(render_expr(e) =~= render_expr(x) + spine_tail(e, x, level));
                } else {
                    lemma_spine(*lhs, x, level);
                    assert(render_expr(e) =~= render_expr(x) + spine_tail(e, x, level));
                    assert(spine_tail(e, x, level)[0] == spine_tail(*lhs, x, level)[0]);
                }
            },
            _ => {},
        }
    }
}

pub proof fn lemma_spine_base(e: SpecExpr, level: int)
    requires
        0 <= level <= 2,
        wf_expr(e, level),
    ensures
        on_spine(e, spine_base(e, level), level),
        wf_expr(spine_base(e, level), level + 1),
    decreases e,
{
    match e {
        SpecExpr::BinaryOperation { lhs, op_type, .. } => {
            if op_level(op_type) == level {
                lemma_spine_base(*lhs, level);
            }
        },
        _ => {},
    }
}

// ---------------------------------------------------------------------------
// Cast chains: `e :: t1 :: t2 ...`
// ---------------------------------------------------------------------------

pub open spec fn on_cast_spine(e: SpecExpr, x: SpecExpr) -> bool
    decreases e,
{
    e == x || match e {
        SpecExpr::Cast { operand, .. } => on_cast_spine(*operand, x),
        _ => false,
    }
}

pub open spec fn cast_base(e: SpecExpr) -> SpecExpr
    decreases e,
{
    match e {
        SpecExpr::Cast { operand, .. } => cast_base(*operand),
        _ => e,
    }
}

pub open spec fn cast_parent(e: SpecExpr, x: SpecExpr) -> SpecExpr
    decreases e,
{
    match e {
        SpecExpr::Cast { operand, .. } => if *operand != x {
            cast_parent(*operand, x)
        } else {
            e
        },
        _ => e,
    }
}

pub open spec fn cast_tail(e: SpecExpr, x: SpecExpr) -> Seq<SpecToken>
    decreases e,
{
    if e == x {
        Seq::empty()
    } else {
        match e {
            SpecExpr::Cast { operand, output_type } => cast_tail(*operand, x) + seq![
                SpecToken::DoubleColumn,
                SpecToken::Identifier(output_type),
            ],
            _ => Seq::empty(),
        }
    }
}

pub proof fn lemma_cast_spine(e: SpecExpr, x: SpecExpr)
    requires
        wf_expr(e, 4),
        on_cast_spine(e, x),
    ensures
        wf_expr(x, 4),
        render_expr(e) == render_expr(x) + cast_tail(e, x),
        e == x ==> cast_tail(e, x).len() == 0,
        e != x ==> cast_tail(e, x).len() >= 2 && cast_tail(e, x)[0] == SpecToken::DoubleColumn
            && (cast_parent(e, x) matches SpecExpr::Cast { operand, output_type } && *operand == x
            && cast_tail(e, x)[1] == SpecToken::Identifier(output_type))
            && on_cast_spine(e, cast_parent(e, x)),
    decreases e,
{
    if e == x {
        assert(render_expr(e) + Seq::empty() =~= render_expr(e));
    } else {
        match e {
            SpecExpr::Cast { operand, output_type } => {
                if *operand == x {
                    assert(cast_tail(*operand, x) =~= Seq::empty());
                    assert(render_expr(e) =~= render_expr(x) + cast_tail(e, x));
                } else {
                    lemma_cast_spine(*operand, x);
                    assert(render_expr(e) =~= render_expr(x) + cast_tail(e, x));
                    assert(cast_tail(e, x)[0] == cast_tail(*operand, x)[0]);
                    assert(cast_tail(e, x)[1] == cast_tail(*operand, x)[1]);
                }
            },
            _ => {},
        }
    }
}

pub proof fn lemma_cast_base(e: SpecExpr)
    requires
        wf_expr(e, 4),
    ensures
        on_cast_spine(e, cast_base(e)),
        wf_expr(cast_base(e), 5),
    decreases e,
{
    match e {
        SpecExpr::Cast { operand, .. } => {
            lemma_cast_base(*operand);
        },
        _ => {},
    }
}

// ---------------------------------------------------------------------------
// Sequence slicing helpers
// ---------------------------------------------------------------------------

/// If `ts[pos..p]` is `a + b`, the two parts sit side by side in `ts`.
pub proof fn lemma_split_at(ts: Seq<SpecToken>, pos: int, p: int, a: Seq<SpecToken>, b: Seq<SpecToken>)
    requires
        0 <= pos <= p <= ts.len(),
        ts.subrange(pos, p) == a + b,
    ensures
        pos + a.len() <= p,
        ts.subrange(pos, pos + a.len()) == a,
        ts.subrange(pos + a.len(), p) == b,
        forall|i: int| 0 <= i < a.len() ==> ts[pos + i] == a[i],
        forall|i: int| 0 <= i < b.len() ==> ts[pos + a.len() + i] == b[i],
        b.len() > 0 ==> ts[pos + a.len()] == b[0],
        a.len() > 0 ==> ts[pos] == a[0],
{
    let s = ts.subrange(pos, p);
    assert(s.len() == a.len() + b.len());
    assert forall|i: int| 0 <= i < a.len() implies ts[pos + i] == a[i] by {
        assert(s[i] == ts[pos + i]);
        assert((a + b)[i] == a[i]);
    }
    assert forall|i: int| 0 <= i < b.len() implies ts[pos + a.len() + i] == b[i] by {
        assert(s[a.len() + i] == ts[pos + a.len() + i]);
        assert((a + b)[a.len() + i] == b[i]);
    }
    assert(ts.subrange(pos, pos + a.len()) =~= a);
    assert(ts.subrange(pos + a.len(), p) =~= b);
    if b.len() > 0 {
        assert(s[a.len() as int] == ts[pos + a.len()]);
        assert((a + b)[a.len() as int] == b[0]);
    }
    if a.len() > 0 {
        assert(s[0] == ts[pos]);
    }
}

/// Adjacent slices join.
pub proof fn lemma_join(ts: Seq<SpecToken>, pos: int, mid: int, p: int)
    requires
        0 <= pos <= mid <= p <= ts.len(),
    ensures
        ts.subrange(pos, p) == ts.subrange(pos, mid) + ts.subrange(mid, p),
{
    assert(ts.subrange(pos, p) =~= ts.subrange(pos, mid) + ts.subrange(mid, p));
}

} // verus!

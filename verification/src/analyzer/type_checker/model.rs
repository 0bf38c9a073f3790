//! What type checking computes, over the models of the syntax tree.
//!
//! Statements are checked in order; an error is reported and checking goes
//! on. A variable without a declared type takes the type of the first value
//! assigned to it. Type equality is that of the language: the null type
//! equals no type, not even itself.
use vstd::prelude::*;
use crate::common::{Nil, OperationType, SpecExpr, SpecFunction, SpecLocal, SpecStmt, SpecSymtable, Type, same_type};
use crate::analyzer::type_checker::error::{SpecCheckError, SpecReturnErr, SpecTypeError};

verus! {

/// The checker between two statements: the symbol table as it has filled
/// in variable types so far, and the errors it has reported.
pub struct TState {
    pub vars: Seq<SpecLocal>,
    pub funcs: Seq<SpecFunction>,
    pub errors: Seq<SpecCheckError>,
}

/// The type an operation takes and gives: strings for `~`, integers for
/// the others.
pub open spec fn expected_type(op: OperationType) -> Type {
    match op {
        OperationType::Cat => Type::StringType,
        _ => Type::Integer,
    }
}

/// What a call gives: the function's return type, or the null type.
pub open spec fn call_type(f: SpecFunction) -> Type {
    match f.return_type {
        Some(t) => t,
        None => Type::Null(Nil {}),
    }
}

/// Checking an expression: `None` where checking is not defined (a variable
/// whose type is not known yet, a number out of the tables, or a construct
/// the checker does not take); otherwise the expression with every cast
/// annotated with its operand's type, its type, and the errors found in it,
/// in order.
pub open spec fn check_expr(e: SpecExpr, vars: Seq<SpecLocal>, funcs: Seq<SpecFunction>) -> Option<(SpecExpr, Type, Seq<SpecCheckError>)>
    decreases e,
{
    match e {
        SpecExpr::StringValue { .. } => Some((e, Type::StringType, Seq::empty())),
        SpecExpr::Number { .. } => Some((e, Type::Integer, Seq::empty())),
        SpecExpr::LocalVar { id, .. } => if id < vars.len() {
            match vars[id as int].vartype {
                Some(t) => Some((e, t, Seq::empty())),
                None => None,
            }
        } else {
            None
        },
        SpecExpr::ResolvedFunctionCall { id, argument_list } => if id >= funcs.len() {
            None
        } else {
            let f = funcs[id as int];
            if argument_list.len() != f.param_list.len() {
                Some((
                    e,
                    call_type(f),
                    seq![SpecCheckError::ArityError(f.identifier, f.param_list.len() as usize, argument_list.len() as usize)],
                ))
            } else {
                match check_args(argument_list, f.param_list, f.identifier, vars, funcs) {
                    None => None,
                    Some((args, es)) => Some((SpecExpr::ResolvedFunctionCall { id, argument_list: args }, call_type(f), es)),
                }
            }
        },
        SpecExpr::BinaryOperation { lhs, rhs, op_type } => {
            let expected = expected_type(op_type);
            match check_expr(*lhs, vars, funcs) {
                None => None,
                Some((l, lt, el)) => match check_expr(*rhs, vars, funcs) {
                    None => None,
                    Some((r, rt, er)) => Some((
                        SpecExpr::BinaryOperation { lhs: Box::new(l), rhs: Box::new(r), op_type },
                        expected,
                        if !same_type(lt, expected) || !same_type(rt, expected) {
                            (el + er).push(
                                SpecCheckError::MismatchedTypeError(SpecTypeError::BinaryOperandError(op_type, expected, lt, rt)),
                            )
                        } else {
                            el + er
                        },
                    )),
                },
            }
        },
        SpecExpr::ResolvedCast { operand, output_type } => match check_expr(*operand, vars, funcs) {
            None => None,
            Some((o, t, eo)) => Some((
                SpecExpr::AnalyzedCast { operand: Box::new(o), output_type, input_type: t },
                output_type,
                eo,
            )),
        },
        _ => None,
    }
}

/// Checking arguments against the parameters they are passed to, in order;
/// an argument of another type than its parameter is reported after the
/// errors inside it.
pub open spec fn check_args(
    args: Seq<SpecExpr>,
    params: Seq<(Seq<char>, Type)>,
    name: Seq<char>,
    vars: Seq<SpecLocal>,
    funcs: Seq<SpecFunction>,
) -> Option<(Seq<SpecExpr>, Seq<SpecCheckError>)>
    decreases args,
{
    if args.len() == 0 || params.len() == 0 {
        Some((Seq::empty(), Seq::empty()))
    } else {
        match check_expr(args[0], vars, funcs) {
            None => None,
            Some((a, t, e0)) => {
                let p = params[0];
                let e1 = if !same_type(t, p.1) {
                    e0.push(SpecCheckError::MismatchedTypeError(SpecTypeError::ParameterArgumentError(name, p.0, p.1, t)))
                } else {
                    e0
                };
                match check_args(args.subrange(1, args.len() as int), params.subrange(1, params.len() as int), name, vars, funcs) {
                    None => None,
                    Some((rest, es)) => Some((seq![a] + rest, e1 + es)),
                }
            },
        }
    }
}

pub open spec fn report(st: TState, es: Seq<SpecCheckError>) -> TState {
    TState { errors: st.errors + es, ..st }
}

/// The errors of a return statement, given the type of its value if it has
/// one.
pub open spec fn return_errors(f: SpecFunction, value: Option<Type>) -> Seq<SpecCheckError> {
    match value {
        Some(t) => match f.return_type {
            Some(rt) => if !same_type(rt, t) {
                seq![SpecCheckError::MismatchedTypeError(SpecTypeError::ReturnedValueError(f.identifier, rt, t))]
            } else {
                Seq::empty()
            },
            None => if !(t is Null) {
                seq![SpecCheckError::ReturnError(SpecReturnErr::ValueReturnedOnNull(f.identifier))]
            } else {
                Seq::empty()
            },
        },
        None => if f.return_type is Some {
            seq![SpecCheckError::ReturnError(SpecReturnErr::NullReturnedOnValue(f.identifier))]
        } else {
            Seq::empty()
        },
    }
}

/// Checking a statement: `None` where checking is not defined, otherwise
/// the statement (with its casts annotated) and the state after it.
pub open spec fn check_stmt(s: SpecStmt, st: TState) -> Option<(SpecStmt, TState)>
    decreases s,
{
    match s {
        SpecStmt::Print { value } => match check_expr(value, st.vars, st.funcs) {
            None => None,
            Some((v, t, es)) => Some((
                SpecStmt::Print { value: v },
                report(
                    st,
                    if !same_type(t, Type::StringType) {
                        es.push(SpecCheckError::MismatchedTypeError(SpecTypeError::PrintValueError(t)))
                    } else {
                        es
                    },
                ),
            )),
        },
        SpecStmt::Call { expression } => match check_expr(expression, st.vars, st.funcs) {
            None => None,
            Some((v, _, es)) => Some((SpecStmt::Call { expression: v }, report(st, es))),
        },
        SpecStmt::VariableAssignment { value, identifier } => if identifier >= st.vars.len() {
            None
        } else {
            let var = st.vars[identifier as int];
            match check_expr(value, st.vars, st.funcs) {
                None => None,
                Some((v, t, es)) => Some((
                    SpecStmt::VariableAssignment { value: v, identifier },
                    match var.vartype {
                        Some(vt) => report(
                            st,
                            if !same_type(vt, t) {
                                es.push(
                                    SpecCheckError::MismatchedTypeError(
                                        SpecTypeError::VariableAssignmentError(var.identifier, vt, t),
                                    ),
                                )
                            } else {
                                es
                            },
                        ),
                        None => TState {
                            vars: st.vars.update(identifier as int, SpecLocal { vartype: Some(t), ..var }),
                            errors: st.errors + es,
                            ..st
                        },
                    },
                )),
            }
        },
        SpecStmt::FunctionDefinition { identifier, block } => match check_stmts(block, st) {
            None => None,
            Some((b, s1)) => Some((SpecStmt::FunctionDefinition { identifier, block: b }, s1)),
        },
        SpecStmt::ResolvedReturn { return_value, function } => if function >= st.funcs.len() {
            None
        } else {
            let f = st.funcs[function as int];
            match return_value {
                None => Some((s, report(st, return_errors(f, None)))),
                Some(value) => match check_expr(value, st.vars, st.funcs) {
                    None => None,
                    Some((v, t, es)) => Some((
                        SpecStmt::ResolvedReturn { return_value: Some(v), function },
                        report(st, es + return_errors(f, Some(t))),
                    )),
                },
            }
        },
        _ => None,
    }
}

pub open spec fn check_stmts(b: Seq<SpecStmt>, st: TState) -> Option<(Seq<SpecStmt>, TState)>
    decreases b,
{
    if b.len() == 0 {
        Some((Seq::empty(), st))
    } else {
        match check_stmt(b[0], st) {
            None => None,
            Some((s0, s1)) => match check_stmts(b.subrange(1, b.len() as int), s1) {
                None => None,
                Some((rest, s2)) => Some((seq![s0] + rest, s2)),
            },
        }
    }
}

/// Checking a resolved program against its symbol table: `None` where
/// checking is not defined, otherwise the annotated program and the final
/// state.
pub open spec fn type_check_model(ast: Seq<SpecStmt>, table: SpecSymtable) -> Option<(Seq<SpecStmt>, TState)> {
    check_stmts(ast, TState { vars: table.variables, funcs: table.functions, errors: Seq::empty() })
}

/// `b` is `a` with, at most, types given to variables that had none.
pub open spec fn refines(a: Seq<SpecLocal>, b: Seq<SpecLocal>) -> bool {
    &&& a.len() == b.len()
    &&& forall|i: int|
        0 <= i < a.len() ==> #[trigger] b[i].identifier == a[i].identifier && b[i].index == a[i].index && (
        a[i].vartype is Some ==> b[i].vartype == a[i].vartype)
}

proof fn lemma_check_stmt_keeps(s: SpecStmt, st: TState)
    ensures
        check_stmt(s, st) matches Some((_, st2)) ==> st2.funcs == st.funcs && refines(st.vars, st2.vars),
    decreases s,
{
    match s {
        SpecStmt::FunctionDefinition { block, .. } => lemma_check_stmts_keeps(block, st),
        _ => {},
    }
}

proof fn lemma_check_stmts_keeps(b: Seq<SpecStmt>, st: TState)
    ensures
        check_stmts(b, st) matches Some((_, st2)) ==> st2.funcs == st.funcs && refines(st.vars, st2.vars),
    decreases b,
{
    if b.len() > 0 {
        lemma_check_stmt_keeps(b[0], st);
        if let Some((_, s1)) = check_stmt(b[0], st) {
            lemma_check_stmts_keeps(b.subrange(1, b.len() as int), s1);
            if let Some((_, s2)) = check_stmts(b.subrange(1, b.len() as int), s1) {
                assert forall|i: int| 0 <= i < st.vars.len() implies #[trigger] s2.vars[i].identifier
                    == st.vars[i].identifier && s2.vars[i].index == st.vars[i].index && (st.vars[i].vartype is Some
                    ==> s2.vars[i].vartype == st.vars[i].vartype) by {
                    assert(s1.vars[i].identifier == st.vars[i].identifier);
                }
            }
        }
    }
}

/// Type checking leaves the function table as it is and keeps every
/// variable's name, slot and declared type; it only gives a type to
/// variables that had none.
pub proof fn lemma_type_check_keeps_table(ast: Seq<SpecStmt>, table: SpecSymtable)
    ensures
        type_check_model(ast, table) matches Some((_, st)) ==> st.funcs == table.functions && refines(
            table.variables,
            st.vars,
        ),
{
    lemma_check_stmts_keeps(ast, TState { vars: table.variables, funcs: table.functions, errors: Seq::empty() });
}

/// A binary operation takes operands of one type: strings for `~`,
/// integers for `+ - * / ^`, and gives that type. Where both operands check,
/// the operation's errors are theirs, left first, followed by exactly one
/// `BinaryOperandError` naming the operation, the type it takes and both
/// operand types when either operand has another type, and by nothing when
/// both have it.
pub proof fn lemma_binary_operand_types(
    lhs: SpecExpr,
    rhs: SpecExpr,
    op: OperationType,
    vars: Seq<SpecLocal>,
    funcs: Seq<SpecFunction>,
)
    ensures
        ({
            let want = if op == OperationType::Cat { Type::StringType } else { Type::Integer };
            match (check_expr(lhs, vars, funcs), check_expr(rhs, vars, funcs)) {
                (Some((_, lt, el)), Some((_, rt, er))) => match check_expr(
                    SpecExpr::BinaryOperation { lhs: Box::new(lhs), rhs: Box::new(rhs), op_type: op },
                    vars,
                    funcs,
                ) {
                    Some((_, t, es)) => {
                        &&& t == want
                        &&& es.len() >= el.len() + er.len()
                        &&& es.subrange(0, (el.len() + er.len()) as int) == el + er
                        &&& ((lt != want || rt != want) <==> es.len() == el.len() + er.len() + 1)
                        &&& ((lt != want || rt != want) ==> es.last() == SpecCheckError::MismatchedTypeError(
                            SpecTypeError::BinaryOperandError(op, want, lt, rt),
                        ))
                    },
                    None => false,
                },
                _ => true,
            }
        }),
{
    let want = if op == OperationType::Cat { Type::StringType } else { Type::Integer };
    assert(expected_type(op) == want);
    if let Some((_, lt, el)) = check_expr(lhs, vars, funcs) {
        if let Some((_, rt, er)) = check_expr(rhs, vars, funcs) {
            assert(same_type(lt, want) <==> lt == want);
            assert(same_type(rt, want) <==> rt == want);
            assert((el + er).push(SpecCheckError::MismatchedTypeError(SpecTypeError::BinaryOperandError(op, want, lt, rt))).subrange(
                0,
                (el.len() + er.len()) as int,
            ) =~= el + er);
            assert((el + er).subrange(0, (el.len() + er.len()) as int) =~= el + er);
            let e = SpecExpr::BinaryOperation { lhs: Box::new(lhs), rhs: Box::new(rhs), op_type: op };
            let es = check_expr(e, vars, funcs).unwrap().2;
            if lt != want || rt != want {
                assert(es == (el + er).push(
                    SpecCheckError::MismatchedTypeError(SpecTypeError::BinaryOperandError(op, want, lt, rt)),
                ));
            } else {
                assert(es == el + er);
            }
        }
    }
}

/// Only strings are printed: checking `echo` of a value reports the errors
/// inside the value and then a `PrintValueError` with the value's type when
/// that type is not the string type, and nothing more otherwise.
pub proof fn lemma_print_takes_strings(value: SpecExpr, st: TState)
    ensures
        match check_expr(value, st.vars, st.funcs) {
            Some((_, t, es)) => match check_stmt(SpecStmt::Print { value }, st) {
                Some((_, s2)) => s2.errors == st.errors + (if t != Type::StringType {
                    es.push(SpecCheckError::MismatchedTypeError(SpecTypeError::PrintValueError(t)))
                } else {
                    es
                }) && s2.vars == st.vars,
                None => false,
            },
            None => true,
        },
{
    if let Some((_, t, es)) = check_expr(value, st.vars, st.funcs) {
        assert(same_type(t, Type::StringType) <==> t == Type::StringType);
    }
}

/// A variable keeps its type: assigning a value to a variable of a known
/// type reports a `VariableAssignmentError` (after the errors inside the
/// value) when the value has another type; a variable without a type takes
/// the value's type and nothing is reported beyond the value's errors.
pub proof fn lemma_assignment_types(value: SpecExpr, id: usize, st: TState)
    requires
        id < st.vars.len(),
    ensures
        match check_expr(value, st.vars, st.funcs) {
            Some((_, t, es)) => match check_stmt(SpecStmt::VariableAssignment { value, identifier: id }, st) {
                Some((_, s2)) => match st.vars[id as int].vartype {
                    Some(vt) => s2.vars == st.vars && s2.errors == st.errors + (if vt != t || t is Null {
                        es.push(
                            SpecCheckError::MismatchedTypeError(
                                SpecTypeError::VariableAssignmentError(st.vars[id as int].identifier, vt, t),
                            ),
                        )
                    } else {
                        es
                    }),
                    None => s2.errors == st.errors + es && s2.vars[id as int].vartype == Some(t) && s2.vars[id as int].identifier
                        == st.vars[id as int].identifier && s2.vars[id as int].index == st.vars[id as int].index
                        && s2.vars.len() == st.vars.len(),
                },
                None => false,
            },
            None => true,
        },
{
    if let Some((_, t, es)) = check_expr(value, st.vars, st.funcs) {
        if let Some(vt) = st.vars[id as int].vartype {
            assert(same_type(vt, t) <==> !(vt != t || t is Null));
        }
    }
}

} // verus!

//! Type checking of a resolved program.
use vstd::prelude::*;
use crate::common::{
    Expression, LocalVariable, Nil, OperationType, ParamType, ResolvedAst, SpecExpr, SpecStmt, SpecSymtable, Statement,
    Symtable, Type, expr_view, exprs_view, lemma_exprs_view, lemma_stmts_view, param_types_view,
    same_type, stmt_view, stmts_view, type_eq,
};

pub mod error;
pub mod model;

use error::{ReturnErr, SpecCheckError, SpecTypeError, TypeCheckError, TypeError, check_errors_view};
use model::{
    TState, check_args, check_expr, check_stmt, check_stmts, expected_type, report, return_errors,
    type_check_model,
};

verus! {

fn expected_of(op: OperationType) -> (t: Type)
    ensures
        t == expected_type(op),
{
    match op {
        OperationType::Cat => Type::StringType,
        _ => Type::Integer,
    }
}

/// Checks an expression against the symbol table, reporting errors in order;
/// gives the expression with its casts annotated, and its type, or `None`
/// where checking is not defined.
fn check_expression(e: Expression, table: &Symtable, errors: &mut Vec<TypeCheckError>) -> (r: Option<(Expression, Type)>)
    ensures
        match check_expr(e@, table@.variables, table@.functions) {
            None => r is None,
            Some((e2, t, es)) => r matches Some((v, vt)) && v@ == e2 && vt == t && check_errors_view(final(errors)@)
                == check_errors_view(old(errors)@) + es,
        },
    decreases e,
{
    let ghost vars = table@.variables;
    let ghost funcs = table@.functions;
    let ghost before = check_errors_view(errors@);
    proof {
        assert(before + Seq::<SpecCheckError>::empty() =~= before);
    }
    match e {
        Expression::StringValue { .. } => Some((e, Type::StringType)),
        Expression::Number { .. } => Some((e, Type::Integer)),
        Expression::LocalVar { id, depth } => {
            if id >= table.variable_table.len() {
                return None;
            }
            match table.variable_table[id].vartype {
                Some(t) => Some((Expression::LocalVar { id, depth }, t)),
                None => None,
            }
        },
        Expression::ResolvedFunctionCall { id, argument_list } => {
            if id >= table.function_table.len() {
                return None;
            }
            let f = &table.function_table[id];
            proof {
                assert(funcs[id as int] == f@);
                lemma_exprs_view((*argument_list)@);
            }
            let rt = match f.return_type {
                Some(t) => t,
                None => Type::Null(Nil {}),
            };
            if argument_list.len() != f.param_list.len() {
                let ghost prev = errors@;
                errors.push(TypeCheckError::ArityError(f.identifier.clone(), f.param_list.len(), argument_list.len()));
                proof {
                    assert(check_errors_view(errors@) =~= check_errors_view(prev).push(errors@.last()@));
                }
                Some((Expression::ResolvedFunctionCall { id, argument_list }, rt))
            } else {
                match check_arguments(*argument_list, &f.param_list, &f.identifier, table, errors) {
                    None => None,
                    Some(args) => Some((Expression::ResolvedFunctionCall { id, argument_list: Box::new(args) }, rt)),
                }
            }
        },
        Expression::BinaryOperation { lhs, rhs, op_type } => {
            let expected = expected_of(op_type);
            let (l, lt) = match check_expression(*lhs, table, errors) {
                None => return None,
                Some(x) => x,
            };
            let (r, rt) = match check_expression(*rhs, table, errors) {
                None => return None,
                Some(x) => x,
            };
            let ghost el = check_expr(expr_view(*lhs), vars, funcs)->Some_0.2;
            let ghost er = check_expr(expr_view(*rhs), vars, funcs)->Some_0.2;
            proof {
                assert(before + el + er =~= before + (el + er));
            }
            if !type_eq(&lt, &expected) || !type_eq(&rt, &expected) {
                let ghost prev = errors@;
                errors.push(TypeCheckError::MismatchedTypeError(TypeError::BinaryOperandError(op_type, expected, lt, rt)));
                proof {
                    assert(check_errors_view(errors@) =~= check_errors_view(prev).push(errors@.last()@));
                    assert(before + (el + er).push(errors@.last()@) =~= (before + (el + er)).push(errors@.last()@));
                }
            }
            Some((Expression::BinaryOperation { lhs: Box::new(l), rhs: Box::new(r), op_type }, expected))
        },
        Expression::ResolvedCast { operand, output_type } => match check_expression(*operand, table, errors) {
            None => None,
            Some((o, t)) => Some((Expression::AnalyzedCast { operand: Box::new(o), output_type, input_type: t }, output_type)),
        },
        _ => None,
    }
}

/// Checks the arguments of a call against its parameters, in order.
fn check_arguments(
    args: Vec<Expression>,
    params: &Vec<ParamType>,
    name: &String,
    table: &Symtable,
    errors: &mut Vec<TypeCheckError>,
) -> (r: Option<Vec<Expression>>)
    requires
        args.len() == params.len(),
    ensures
        match check_args(exprs_view(args@), param_types_view(params@), name@, table@.variables, table@.functions) {
            None => r is None,
            Some((rs, es)) => r matches Some(v) && exprs_view(v@) == rs && check_errors_view(final(errors)@)
                == check_errors_view(old(errors)@) + es,
        },
    decreases args,
{
    let ghost orig = args;
    let ghost vars = table@.variables;
    let ghost funcs = table@.functions;
    let ghost all = exprs_view(args@);
    let ghost ps = param_types_view(params@);
    let ghost before = check_errors_view(errors@);
    let n = args.len();
    let mut rest = args;
    let mut out: Vec<Expression> = Vec::new();
    let mut i: usize = 0;
    let ghost mut done_es: Seq<SpecCheckError> = Seq::empty();
    proof {
        lemma_exprs_view(orig@);
        assert(all.subrange(0, n as int) =~= all);
        assert(ps.subrange(0, n as int) =~= ps);
        assert(exprs_view(out@) =~= Seq::<SpecExpr>::empty());
        assert(before + done_es =~= before);
    }
    while i < n
        invariant
            orig == args,
            n == orig@.len(),
            n == params.len(),
            i <= n,
            rest.len() == n - i,
            rest@ == orig@.subrange(i as int, n as int),
            all == exprs_view(orig@),
            all.len() == n,
            ps == param_types_view(params@),
            vars == table@.variables,
            funcs == table@.functions,
            forall|j: int| 0 <= j < n ==> #[trigger] all[j] == expr_view(orig@[j]),
            check_args(all, ps, name@, vars, funcs) == (match check_args(
                all.subrange(i as int, n as int),
                ps.subrange(i as int, n as int),
                name@,
                vars,
                funcs,
            ) {
                Some((rs, es)) => Some((exprs_view(out@) + rs, done_es + es)),
                None => None,
            }),
            check_errors_view(errors@) == before + done_es,
        decreases n - i,
    {
        let ghost tail = all.subrange(i as int, n as int);
        let ghost ptail = ps.subrange(i as int, n as int);
        let a = rest.remove(0);
        proof {
            assert(a == orig@[i as int]);
            assert(decreases_to!(orig => orig@));
            assert(decreases_to!(orig@ => orig@[i as int]));
            assert(decreases_to!(args => a));
            assert(tail[0] == expr_view(a));
            assert(ptail[0] == params@[i as int]@);
            assert(tail.subrange(1, tail.len() as int) =~= all.subrange(i + 1, n as int));
            assert(ptail.subrange(1, ptail.len() as int) =~= ps.subrange(i + 1, n as int));
            assert(rest@ =~= orig@.subrange(i + 1, n as int));
        }
        let ghost mid = check_errors_view(errors@);
        let (a2, t) = match check_expression(a, table, errors) {
            None => {
                proof {
                    assert(check_args(tail, ptail, name@, vars, funcs) is None);
                }
                return None;
            },
            Some(x) => x,
        };
        let p = &params[i];
        let ghost e0 = check_expr(expr_view(a), vars, funcs)->Some_0.2;
        let ghost e1 = if !same_type(t, p.param_type) {
            e0.push(SpecCheckError::MismatchedTypeError(SpecTypeError::ParameterArgumentError(name@, p.identifier@, p.param_type, t)))
        } else {
            e0
        };
        if !type_eq(&t, &p.param_type) {
            let ghost prev = errors@;
            errors.push(
                TypeCheckError::MismatchedTypeError(
                    TypeError::ParameterArgumentError(name.clone(), p.identifier.clone(), p.param_type, t),
                ),
            );
            proof {
                assert(check_errors_view(errors@) =~= check_errors_view(prev).push(errors@.last()@));
            }
        }
        let ghost prev_out = out@;
        out.push(a2);
        proof {
            assert(check_errors_view(errors@) =~= before + (done_es + e1));
            let (rs2, es2) = check_args(all.subrange(i + 1, n as int), ps.subrange(i + 1, n as int), name@, vars, funcs)->Some_0;
            assert(out@.subrange(0, out@.len() - 1) =~= prev_out);
            assert(exprs_view(out@) == exprs_view(prev_out).push(expr_view(a2)));
            assert(exprs_view(prev_out) + (seq![expr_view(a2)] + rs2) =~= exprs_view(out@) + rs2);
            assert(done_es + (e1 + es2) =~= (done_es + e1) + es2);
            done_es = done_es + e1;
        }
        i = i + 1;
    }
    proof {
        assert(all.subrange(n as int, n as int) =~= Seq::<SpecExpr>::empty());
        assert(exprs_view(out@) + Seq::<SpecExpr>::empty() =~= exprs_view(out@));
        assert(done_es + Seq::<SpecCheckError>::empty() =~= done_es);
    }
    Some(out)
}

struct TypeChecker {
    symtable: Symtable,
    error_stack: Vec<TypeCheckError>,
}

impl TypeChecker {
    spec fn tstate(&self) -> TState {
        TState {
            vars: self.symtable@.variables,
            funcs: self.symtable@.functions,
            errors: check_errors_view(self.error_stack@),
        }
    }

    /// Checks an expression, reporting to the checker.
    fn check_in(&mut self, e: Expression) -> (r: Option<(Expression, Type)>)
        ensures
            final(self).symtable == old(self).symtable,
            match check_expr(e@, old(self).tstate().vars, old(self).tstate().funcs) {
                None => r is None,
                Some((e2, t, es)) => r matches Some((v, vt)) && v@ == e2 && vt == t && final(self).tstate() == report(
                    old(self).tstate(),
                    es,
                ),
            },
    {
        check_expression(e, &self.symtable, &mut self.error_stack)
    }

    fn push_error(&mut self, error: TypeCheckError)
        ensures
            final(self).tstate() == report(old(self).tstate(), seq![error@]),
    {
        let ghost prev = self.error_stack@;
        self.error_stack.push(error);
        proof {
            assert(check_errors_view(self.error_stack@) =~= check_errors_view(prev) + seq![error@]);
        }
    }
}

/// The errors of a return statement, as `return_errors` says.
fn return_error(identifier: &String, return_type: Option<Type>, value: Option<Type>) -> (r: Option<TypeCheckError>)
    ensures
        return_errors(
            crate::common::SpecFunction { return_type, param_list: Seq::empty(), identifier: identifier@ },
            value,
        ) == (match r {
            Some(e) => seq![e@],
            None => Seq::empty(),
        }),
{
    match value {
        Some(t) => match return_type {
            Some(rt) => if !type_eq(&rt, &t) {
                Some(TypeCheckError::MismatchedTypeError(TypeError::ReturnedValueError(identifier.clone(), rt, t)))
            } else {
                None
            },
            None => if !t.is_null() {
                Some(TypeCheckError::ReturnError(ReturnErr::ValueReturnedOnNull(identifier.clone())))
            } else {
                None
            },
        },
        None => if return_type.is_some() {
            Some(TypeCheckError::ReturnError(ReturnErr::NullReturnedOnValue(identifier.clone())))
        } else {
            None
        },
    }
}

/// Checks a statement. A variable without a type takes the type of the
/// value assigned to it.
fn check_statement(s: Statement, tc: &mut TypeChecker) -> (r: Option<Statement>)
    ensures
        match check_stmt(s@, old(tc).tstate()) {
            None => r is None,
            Some((s2, st)) => r matches Some(v) && v@ == s2 && final(tc).tstate() == st,
        },
    decreases s,
{
    let ghost st = tc.tstate();
    match s {
        Statement::Print { value } => {
            let (v, t) = match tc.check_in(value) {
                None => return None,
                Some(x) => x,
            };
            if !type_eq(&t, &Type::StringType) {
                tc.push_error(TypeCheckError::MismatchedTypeError(TypeError::PrintValueError(t)));
                proof {
                    let es = check_expr(expr_view(value), st.vars, st.funcs)->Some_0.2;
                    assert(st.errors + es + seq![SpecCheckError::MismatchedTypeError(SpecTypeError::PrintValueError(t))]
                        =~= st.errors + es.push(SpecCheckError::MismatchedTypeError(SpecTypeError::PrintValueError(t))));
                }
            }
            Some(Statement::Print { value: v })
        },
        Statement::Call { expression } => match tc.check_in(expression) {
            None => None,
            Some((v, _)) => Some(Statement::Call { expression: v }),
        },
        Statement::VariableAssignment { value, identifier } => {
            if identifier >= tc.symtable.variable_table.len() {
                return None;
            }
            let vartype = tc.symtable.variable_table[identifier].vartype;
            let name = tc.symtable.variable_table[identifier].identifier.clone();
            let index = tc.symtable.variable_table[identifier].index;
            proof {
                assert(st.vars[identifier as int] == tc.symtable.variable_table@[identifier as int]@);
            }
            let (v, t) = match tc.check_in(value) {
                None => return None,
                Some(x) => x,
            };
            let ghost es = check_expr(expr_view(value), st.vars, st.funcs)->Some_0.2;
            match vartype {
                Some(vt) => {
                    if !type_eq(&vt, &t) {
                        tc.push_error(
                            TypeCheckError::MismatchedTypeError(TypeError::VariableAssignmentError(name, vt, t)),
                        );
                        proof {
                            let err = SpecCheckError::MismatchedTypeError(
                                SpecTypeError::VariableAssignmentError(st.vars[identifier as int].identifier, vt, t),
                            );
                            assert(st.errors + es + seq![err] =~= st.errors + es.push(err));
                        }
                    }
                },
                None => {
                    tc.symtable.variable_table.set(identifier, LocalVariable { vartype: Some(t), identifier: name, index });
                    proof {
                        assert(tc.symtable@.variables =~= st.vars.update(
                            identifier as int,
                            crate::common::SpecLocal { vartype: Some(t), ..st.vars[identifier as int] },
                        ));
                    }
                },
            }
            Some(Statement::VariableAssignment { value: v, identifier })
        },
        Statement::FunctionDefinition { identifier, block } => {
            proof {
                assert(decreases_to!(s => *block));
            }
            match check_block(*block, tc) {
                None => None,
                Some(b) => Some(Statement::FunctionDefinition { identifier, block: Box::new(b) }),
            }
        },
        Statement::ResolvedReturn { return_value, function } => {
            if function >= tc.symtable.function_table.len() {
                return None;
            }
            let return_type = tc.symtable.function_table[function].return_type;
            let name = tc.symtable.function_table[function].identifier.clone();
            proof {
                assert(st.funcs[function as int] == tc.symtable.function_table@[function as int]@);
            }
            let ghost f = st.funcs[function as int];
            let ghost fshort = crate::common::SpecFunction { return_type, param_list: Seq::empty(), identifier: name@ };
            match return_value {
                None => {
                    let err = return_error(&name, return_type, None);
                    proof {
                        assert(return_errors(f, None) == return_errors(fshort, None));
                    }
                    match err {
                        Some(x) => tc.push_error(x),
                        None => {
                            proof {
                                assert(st.errors + Seq::<SpecCheckError>::empty() =~= st.errors);
                            }
                        },
                    }
                    Some(Statement::ResolvedReturn { return_value: None, function })
                },
                Some(value) => {
                    let (v, t) = match tc.check_in(value) {
                        None => return None,
                        Some(x) => x,
                    };
                    let err = return_error(&name, return_type, Some(t));
                    proof {
                        assert(return_errors(f, Some(t)) == return_errors(fshort, Some(t)));
                    }
                    let ghost es = check_expr(expr_view(value), st.vars, st.funcs)->Some_0.2;
                    match err {
                        Some(x) => {
                            tc.push_error(x);
                            proof {
                                assert(st.errors + es + seq![x@] =~= st.errors + (es + seq![x@]));
                            }
                        },
                        None => {
                            proof {
                                assert(st.errors + es =~= st.errors + (es + Seq::<SpecCheckError>::empty()));
                            }
                        },
                    }
                    Some(Statement::ResolvedReturn { return_value: Some(v), function })
                },
            }
        },
        _ => None,
    }
}

/// Checks the statements of a block in order.
fn check_block(b: Vec<Statement>, tc: &mut TypeChecker) -> (r: Option<Vec<Statement>>)
    ensures
        match check_stmts(stmts_view(b@), old(tc).tstate()) {
            None => r is None,
            Some((b2, st)) => r matches Some(v) && stmts_view(v@) == b2 && final(tc).tstate() == st,
        },
    decreases b,
{
    let ghost orig = b;
    let ghost all = stmts_view(b@);
    let ghost st0 = tc.tstate();
    let n = b.len();
    let mut rest = b;
    let mut out: Vec<Statement> = Vec::new();
    proof {
        lemma_stmts_view(orig@);
        assert(all.subrange(0, n as int) =~= all);
        assert(stmts_view(out@) =~= Seq::<SpecStmt>::empty());
    }
    while rest.len() > 0
        invariant
            orig == b,
            st0 == old(tc).tstate(),
            n == orig@.len(),
            rest.len() <= n,
            rest@ == orig@.subrange(n - rest.len(), n as int),
            all == stmts_view(orig@),
            all.len() == n,
            forall|i: int| 0 <= i < n ==> #[trigger] all[i] == stmt_view(orig@[i]),
            check_stmts(all, st0) == (match check_stmts(all.subrange(n - rest.len(), n as int), tc.tstate()) {
                Some((rs, s)) => Some((stmts_view(out@) + rs, s)),
                None => None,
            }),
        decreases rest.len(),
    {
        let ghost k = n - rest.len();
        let ghost tail = all.subrange(k, n as int);
        let ghost cur = tc.tstate();
        let a = rest.remove(0);
        proof {
            assert(a == orig@[k]);
            assert(decreases_to!(orig => orig@));
            assert(decreases_to!(orig@ => orig@[k]));
            assert(decreases_to!(b => a));
            assert(tail[0] == stmt_view(a));
            assert(tail.subrange(1, tail.len() as int) =~= all.subrange(k + 1, n as int));
            assert(rest@ =~= orig@.subrange(k + 1, n as int));
        }
        let s2 = match check_statement(a, tc) {
            None => {
                proof {
                    assert(check_stmt(tail[0], cur) is None);
                    assert(check_stmts(tail, cur) is None);
                    assert(check_stmts(all, st0) is None);
                }
                return None;
            },
            Some(x) => x,
        };
        let ghost prev_out = out@;
        out.push(s2);
        proof {
            let (rs2, fin) = check_stmts(all.subrange(k + 1, n as int), tc.tstate())->Some_0;
            assert(out@.subrange(0, out@.len() - 1) =~= prev_out);
            assert(stmts_view(out@) == stmts_view(prev_out).push(stmt_view(s2)));
            assert(stmts_view(prev_out) + (seq![stmt_view(s2)] + rs2) =~= stmts_view(out@) + rs2);
        }
    }
    proof {
        assert(all.subrange(n as int, n as int) =~= Seq::<SpecStmt>::empty());
        assert(stmts_view(out@) + Seq::<SpecStmt>::empty() =~= stmts_view(out@));
    }
    Some(out)
}

/// Checks the types of a resolved program and gives, beside it, the errors
/// found in order. The result is flagged as erroneous when the input was or
/// some error was found.
pub fn type_check_with_errors(resolved_ast: ResolvedAst) -> (r: (ResolvedAst, Vec<TypeCheckError>))
    requires
        type_check_model(stmts_view(resolved_ast.ast@), resolved_ast.symtable@) is Some,
    ensures
        type_check_model(stmts_view(resolved_ast.ast@), resolved_ast.symtable@) matches Some((prog, st))
            && stmts_view(r.0.ast@) == prog && r.0.symtable@ == (SpecSymtable { variables: st.vars, functions: st.funcs })
            && check_errors_view(r.1@) == st.errors,
        r.0.error_mode == (resolved_ast.error_mode || r.1.len() > 0),
{
    type_check_checked(resolved_ast).unwrap()
}

/// Checks the types of a resolved program, or gives `None` where checking is
/// not defined on it.
pub fn type_check_checked(resolved_ast: ResolvedAst) -> (r: Option<(ResolvedAst, Vec<TypeCheckError>)>)
    ensures
        match type_check_model(stmts_view(resolved_ast.ast@), resolved_ast.symtable@) {
            None => r is None,
            Some((prog, st)) => r matches Some((res, errors)) && stmts_view(res.ast@) == prog && res.symtable@ == (
            SpecSymtable { variables: st.vars, functions: st.funcs }) && check_errors_view(errors@) == st.errors
                && res.error_mode == (resolved_ast.error_mode || errors.len() > 0),
        },
{
    let mut tc = TypeChecker { symtable: resolved_ast.symtable, error_stack: Vec::new() };
    proof {
        assert(check_errors_view(tc.error_stack@) =~= Seq::<SpecCheckError>::empty());
    }
    let ast = match check_block(resolved_ast.ast, &mut tc) {
        None => return None,
        Some(ast) => ast,
    };
    let error_mode = resolved_ast.error_mode || tc.error_stack.len() > 0;
    Some((ResolvedAst { ast, symtable: tc.symtable, error_mode }, tc.error_stack))
}

/// Checks the types of a resolved program: casts are annotated with the
/// type they convert from, untyped variables get the type of their value,
/// and a type error flags the result.
pub fn type_check(resolved_ast: ResolvedAst) -> (r: ResolvedAst)
    requires
        type_check_model(stmts_view(resolved_ast.ast@), resolved_ast.symtable@) is Some,
    ensures
        type_check_model(stmts_view(resolved_ast.ast@), resolved_ast.symtable@) matches Some((prog, st))
            && stmts_view(r.ast@) == prog && r.symtable@ == (SpecSymtable { variables: st.vars, functions: st.funcs })
            && r.error_mode == (resolved_ast.error_mode || st.errors.len() > 0),
{
    type_check_with_errors(resolved_ast).0
}

} // verus!

//! What name resolution computes, over the models of the syntax tree.
//!
//! Scopes form a stack, the innermost last. A name is looked up in the
//! innermost scope first and then outwards; the depth of a variable is the
//! number of scopes passed. Within a scope a later binding of a name hides an
//! earlier one. Resolution goes through statements in order and keeps what
//! succeeds; each failure is reported, after the failures found inside it.
use vstd::prelude::*;
use crate::common::{SpecExpr, SpecFunction, SpecLocal, SpecStmt, Type};
use crate::analyzer::resolver::error::SpecRefError;
use crate::analyzer::resolver::Reference;

verus! {

pub struct SpecScope {
    pub bindings: Seq<(Seq<char>, Reference)>,
    pub local_count: nat,
}

/// The resolver between two statements: its scopes, the tables it has
/// filled and the errors it has reported.
pub struct RState {
    pub env: Seq<SpecScope>,
    pub vars: Seq<SpecLocal>,
    pub funcs: Seq<SpecFunction>,
    pub errors: Seq<SpecRefError>,
}

pub open spec fn empty_scope() -> SpecScope {
    SpecScope { bindings: Seq::empty(), local_count: 0 }
}

pub open spec fn initial_rstate() -> RState {
    RState { env: seq![empty_scope()], vars: Seq::empty(), funcs: Seq::empty(), errors: Seq::empty() }
}

/// The latest binding of `name` in a scope.
pub open spec fn scope_lookup(bs: Seq<(Seq<char>, Reference)>, name: Seq<char>) -> Option<Reference>
    decreases bs.len(),
{
    if bs.len() == 0 {
        None
    } else if bs.last().0 == name {
        Some(bs.last().1)
    } else {
        scope_lookup(bs.drop_last(), name)
    }
}

/// The binding of `name` seen from the innermost scope, with the number of
/// scopes passed to find it.
pub open spec fn env_lookup(env: Seq<SpecScope>, name: Seq<char>) -> Option<(Reference, nat)>
    decreases env.len(),
{
    if env.len() == 0 {
        None
    } else {
        match scope_lookup(env.last().bindings, name) {
            Some(r) => Some((r, 0)),
            None => match env_lookup(env.drop_last(), name) {
                Some((r, d)) => Some((r, d + 1)),
                None => None,
            },
        }
    }
}

pub open spec fn lookup_variable(env: Seq<SpecScope>, name: Seq<char>) -> Result<(usize, usize), SpecRefError> {
    match env_lookup(env, name) {
        Some((Reference::Variable(i), d)) => Ok((i, d as usize)),
        Some((Reference::Function(_), _)) => Err(SpecRefError::InvalidSymbolUseAsVariable(name)),
        None => Err(SpecRefError::UndefinedVariableName(name)),
    }
}

pub open spec fn lookup_function(env: Seq<SpecScope>, name: Seq<char>) -> Result<usize, SpecRefError> {
    match env_lookup(env, name) {
        Some((Reference::Function(i), _)) => Ok(i),
        Some((Reference::Variable(_), _)) => Err(SpecRefError::InvalidSymbolUseAsFunction(name)),
        None => Err(SpecRefError::UndefinedFunctionName(name)),
    }
}

/// The type a type name stands for: `cat` for strings, `num` for integers,
/// `bin` for booleans.
pub open spec fn type_named(name: Seq<char>) -> Option<Type> {
    if name == seq!['c', 'a', 't'] {
        Some(Type::StringType)
    } else if name == seq!['n', 'u', 'm'] {
        Some(Type::Integer)
    } else if name == seq!['b', 'i', 'n'] {
        Some(Type::Boolean)
    } else {
        None
    }
}

pub open spec fn resolve_type_model(name: Option<Seq<char>>) -> Result<Option<Type>, SpecRefError> {
    match name {
        None => Ok(None),
        Some(n) => match type_named(n) {
            Some(t) => Ok(Some(t)),
            None => Err(SpecRefError::UndefinedTypeName(n)),
        },
    }
}

/// The successes of a list of results, in order.
pub open spec fn oks<T>(rs: Seq<Result<T, SpecRefError>>) -> Seq<T>
    decreases rs.len(),
{
    if rs.len() == 0 {
        Seq::empty()
    } else {
        match rs.last() {
            Ok(v) => oks(rs.drop_last()).push(v),
            Err(_) => oks(rs.drop_last()),
        }
    }
}

/// The failures of a list of results, in order.
pub open spec fn errs<T>(rs: Seq<Result<T, SpecRefError>>) -> Seq<SpecRefError>
    decreases rs.len(),
{
    if rs.len() == 0 {
        Seq::empty()
    } else {
        match rs.last() {
            Ok(_) => errs(rs.drop_last()),
            Err(e) => errs(rs.drop_last()).push(e),
        }
    }
}

/// Resolving an expression: the rewritten expression or the error that stops
/// it, and the errors reported on the way (those of dropped arguments).
pub open spec fn res_expr(e: SpecExpr, env: Seq<SpecScope>) -> (Result<SpecExpr, SpecRefError>, Seq<SpecRefError>)
    decreases e,
{
    match e {
        SpecExpr::Variable { identifier } => (
            match lookup_variable(env, identifier) {
                Ok((id, depth)) => Ok(SpecExpr::LocalVar { id, depth }),
                Err(err) => Err(err),
            },
            Seq::empty(),
        ),
        SpecExpr::FunctionCall { identifier, argument_list } => match lookup_function(env, identifier) {
            Err(err) => (Err(err), Seq::empty()),
            Ok(id) => {
                let (rs, es) = res_args(argument_list, env);
                (Ok(SpecExpr::ResolvedFunctionCall { id, argument_list: oks(rs) }), es + errs(rs))
            },
        },
        SpecExpr::BinaryOperation { lhs, rhs, op_type } => {
            let (l, el) = res_expr(*lhs, env);
            match l {
                Err(err) => (Err(err), el),
                Ok(lv) => {
                    let (r, er) = res_expr(*rhs, env);
                    match r {
                        Err(err) => (Err(err), el + er),
                        Ok(rv) => (
                            Ok(SpecExpr::BinaryOperation { lhs: Box::new(lv), rhs: Box::new(rv), op_type }),
                            el + er,
                        ),
                    }
                },
            }
        },
        SpecExpr::Cast { operand, output_type } => match type_named(output_type) {
            None => (Err(SpecRefError::UndefinedTypeName(output_type)), Seq::empty()),
            Some(t) => {
                let (o, eo) = res_expr(*operand, env);
                match o {
                    Err(err) => (Err(err), eo),
                    Ok(ov) => (Ok(SpecExpr::ResolvedCast { operand: Box::new(ov), output_type: t }), eo),
                }
            },
        },
        _ => (Ok(e), Seq::empty()),
    }
}

pub open spec fn res_args(args: Seq<SpecExpr>, env: Seq<SpecScope>) -> (Seq<Result<SpecExpr, SpecRefError>>, Seq<SpecRefError>)
    decreases args,
{
    if args.len() == 0 {
        (Seq::empty(), Seq::empty())
    } else {
        let (r0, e0) = res_expr(args[0], env);
        let (rs, es) = res_args(args.subrange(1, args.len() as int), env);
        (seq![r0] + rs, e0 + es)
    }
}

pub open spec fn emit(st: RState, es: Seq<SpecRefError>) -> RState {
    RState { errors: st.errors + es, ..st }
}

/// Declares a variable in the innermost scope and gives its number.
pub open spec fn declare_variable(st: RState, name: Seq<char>, t: Option<Type>) -> (usize, RState) {
    let top = st.env.last();
    let id = st.vars.len() as usize;
    (
        id,
        RState {
            vars: st.vars.push(SpecLocal { vartype: t, identifier: name, index: top.local_count as usize }),
            env: st.env.update(
                st.env.len() - 1,
                SpecScope { bindings: top.bindings.push((name, Reference::Variable(id))), local_count: top.local_count + 1 },
            ),
            ..st
        },
    )
}

/// Enters a function with an empty entry in the table, bound in the
/// innermost scope.
pub open spec fn register_function(st: RState, name: Seq<char>) -> RState {
    let top = st.env.last();
    RState {
        funcs: st.funcs.push(SpecFunction { return_type: None, param_list: Seq::empty(), identifier: name }),
        env: st.env.update(
            st.env.len() - 1,
            SpecScope { bindings: top.bindings.push((name, Reference::Function(st.funcs.len() as usize))), ..top },
        ),
        ..st
    }
}

pub open spec fn define_function(st: RState, index: usize, rt: Option<Type>, params: Seq<(Seq<char>, Type)>) -> RState {
    RState {
        funcs: st.funcs.update(
            index as int,
            SpecFunction { return_type: rt, param_list: params, identifier: st.funcs[index as int].identifier },
        ),
        ..st
    }
}

pub open spec fn open_scope(st: RState) -> RState {
    RState { env: st.env.push(empty_scope()), ..st }
}

pub open spec fn end_scope(st: RState) -> RState {
    RState { env: st.env.drop_last(), ..st }
}

/// A parameter is declared as a variable of its type.
pub open spec fn res_param(p: (Seq<char>, Seq<char>), st: RState) -> (Result<(Seq<char>, Type), SpecRefError>, RState) {
    match type_named(p.1) {
        None => (Err(SpecRefError::UndefinedTypeName(p.1)), st),
        Some(t) => (Ok((p.0, t)), declare_variable(st, p.0, Some(t)).1),
    }
}

pub open spec fn res_params(ps: Seq<(Seq<char>, Seq<char>)>, st: RState) -> (Seq<Result<(Seq<char>, Type), SpecRefError>>, RState)
    decreases ps.len(),
{
    if ps.len() == 0 {
        (Seq::empty(), st)
    } else {
        let (r0, s1) = res_param(ps[0], st);
        let (rs, s2) = res_params(ps.subrange(1, ps.len() as int), s1);
        (seq![r0] + rs, s2)
    }
}

/// Resolving a statement: `None` for a statement that is already resolved
/// (resolution is not defined on those), otherwise the rewritten statement or
/// the error that stops it, and the state after it.
pub open spec fn res_stmt(s: SpecStmt, st: RState) -> Option<(Result<SpecStmt, SpecRefError>, RState)>
    decreases s,
{
    match s {
        SpecStmt::Print { value } => {
            let (r, es) = res_expr(value, st.env);
            Some((
                match r {
                    Ok(v) => Ok(SpecStmt::Print { value: v }),
                    Err(err) => Err(err),
                },
                emit(st, es),
            ))
        },
        SpecStmt::Call { expression } => {
            let (r, es) = res_expr(expression, st.env);
            Some((
                match r {
                    Ok(v) => Ok(SpecStmt::Call { expression: v }),
                    Err(err) => Err(err),
                },
                emit(st, es),
            ))
        },
        SpecStmt::VariableDeclaration { value, identifier, variable_type } => {
            let (r, es) = res_expr(value, st.env);
            let s1 = emit(st, es);
            match r {
                Err(err) => Some((Err(err), s1)),
                Ok(v) => match resolve_type_model(variable_type) {
                    Err(err) => Some((Err(err), s1)),
                    Ok(t) => {
                        let (id, s2) = declare_variable(s1, identifier, t);
                        Some((Ok(SpecStmt::VariableAssignment { value: v, identifier: id }), s2))
                    },
                },
            }
        },
        SpecStmt::ReturnStatement { return_value, function } => {
            let (rv, s1) = match return_value {
                None => (Ok(None), st),
                Some(v) => {
                    let (r, es) = res_expr(v, st.env);
                    (
                        match r {
                            Ok(x) => Ok(Some(x)),
                            Err(err) => Err(err),
                        },
                        emit(st, es),
                    )
                },
            };
            match rv {
                Err(err) => Some((Err(err), s1)),
                Ok(v) => match lookup_function(s1.env, function) {
                    Err(err) => Some((Err(err), s1)),
                    Ok(id) => Some((Ok(SpecStmt::ResolvedReturn { return_value: v, function: id }), s1)),
                },
            }
        },
        SpecStmt::FunctionDeclaration { identifier, param_list, return_type, block } => match lookup_function(
            st.env,
            identifier,
        ) {
            Err(err) => Some((Err(err), st)),
            Ok(index) => match resolve_type_model(return_type) {
                Err(err) => Some((Err(err), st)),
                Ok(rt) => {
                    let (prs, s2) = res_params(param_list, open_scope(st));
                    match res_stmts(block, s2) {
                        None => None,
                        Some((brs, s3)) => {
                            let s4 = emit(end_scope(emit(s3, errs(brs))), errs(prs));
                            Some((
                                Ok(SpecStmt::FunctionDefinition { identifier: index, block: oks(brs) }),
                                define_function(s4, index, rt, oks(prs)),
                            ))
                        },
                    }
                },
            },
        },
        _ => None,
    }
}

pub open spec fn res_stmts(b: Seq<SpecStmt>, st: RState) -> Option<(Seq<Result<SpecStmt, SpecRefError>>, RState)>
    decreases b,
{
    if b.len() == 0 {
        Some((Seq::empty(), st))
    } else {
        match res_stmt(b[0], st) {
            None => None,
            Some((r0, s1)) => match res_stmts(b.subrange(1, b.len() as int), s1) {
                None => None,
                Some((rs, s2)) => Some((seq![r0] + rs, s2)),
            },
        }
    }
}

/// A block keeps the statements that resolved and reports the others.
pub open spec fn res_block(b: Seq<SpecStmt>, st: RState) -> Option<(Seq<SpecStmt>, RState)> {
    match res_stmts(b, st) {
        None => None,
        Some((rs, s1)) => Some((oks(rs), emit(s1, errs(rs)))),
    }
}

/// Every function declared at the top level is entered first, so that calls
/// may come before the declaration.
pub open spec fn register_global(ast: Seq<SpecStmt>, st: RState) -> RState
    decreases ast.len(),
{
    if ast.len() == 0 {
        st
    } else {
        let s1 = match ast[0] {
            SpecStmt::FunctionDeclaration { identifier, .. } => register_function(st, identifier),
            _ => st,
        };
        register_global(ast.subrange(1, ast.len() as int), s1)
    }
}

/// Resolving a program: `None` where it holds a statement that is already
/// resolved; otherwise the resolved program and the final state.
pub open spec fn resolve_model(ast: Seq<SpecStmt>) -> Option<(Seq<SpecStmt>, RState)> {
    res_block(ast, register_global(ast, initial_rstate()))
}

pub open spec fn ref_ok(r: Reference, nv: nat, nf: nat) -> bool {
    match r {
        Reference::Variable(i) => i < nv,
        Reference::Function(i) => i < nf,
    }
}

pub open spec fn refs_ok(env: Seq<SpecScope>, nv: nat, nf: nat) -> bool {
    forall|k: int, j: int|
        0 <= k < env.len() && 0 <= j < env[k].bindings.len() ==> ref_ok(#[trigger] env[k].bindings[j].1, nv, nf)
}

/// A state the resolver can be in: there is a scope, no scope has counted
/// more variables than exist, and every binding refers to an entry of the
/// tables.
pub open spec fn wf_rstate(st: RState) -> bool {
    &&& st.env.len() >= 1
    &&& forall|k: int| 0 <= k < st.env.len() ==> #[trigger] st.env[k].local_count <= st.vars.len()
    &&& refs_ok(st.env, st.vars.len(), st.funcs.len())
}

pub proof fn lemma_scope_lookup_ok(bs: Seq<(Seq<char>, Reference)>, name: Seq<char>, nv: nat, nf: nat)
    requires
        forall|j: int| 0 <= j < bs.len() ==> ref_ok(#[trigger] bs[j].1, nv, nf),
    ensures
        scope_lookup(bs, name) matches Some(r) ==> ref_ok(r, nv, nf),
    decreases bs.len(),
{
    if bs.len() > 0 && bs.last().0 != name {
        lemma_scope_lookup_ok(bs.drop_last(), name, nv, nf);
    }
}

/// A binding found by a lookup refers to an entry of the tables, and was
/// found within the scopes there are.
pub proof fn lemma_env_lookup_ok(env: Seq<SpecScope>, name: Seq<char>, nv: nat, nf: nat)
    requires
        refs_ok(env, nv, nf),
    ensures
        env_lookup(env, name) matches Some((r, d)) ==> ref_ok(r, nv, nf) && d < env.len(),
    decreases env.len(),
{
    if env.len() > 0 {
        let k = env.len() - 1;
        assert forall|j: int| 0 <= j < env.last().bindings.len() implies ref_ok(#[trigger] env.last().bindings[j].1, nv, nf) by {
            assert(ref_ok(env[k].bindings[j].1, nv, nf));
        }
        lemma_scope_lookup_ok(env.last().bindings, name, nv, nf);
        let inner = env.drop_last();
        assert forall|k2: int, j: int| 0 <= k2 < inner.len() && 0 <= j < inner[k2].bindings.len() implies ref_ok(
            #[trigger] inner[k2].bindings[j].1,
            nv,
            nf,
        ) by {
            assert(inner[k2] == env[k2]);
        }
        lemma_env_lookup_ok(inner, name, nv, nf);
    }
}

} // verus!

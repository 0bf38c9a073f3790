//! Name resolution: every variable, function and type name is replaced by
//! what it refers to.
use vstd::prelude::*;
use crate::common::{
    Expression, Function, LocalVariable, ParamType, Parameter, ResolvedAst, SpecExpr, SpecStmt, SpecSymtable, Statement,
    Symtable, Type, expr_view, exprs_view, functions_view, lemma_exprs_view, lemma_stmts_view, param_types_view,
    params_view, stmt_view, stmts_view, variables_view,
};
use crate::lexer::chars_of;

pub mod error;
pub mod laws;
pub mod model;

use error::{ReferenceError, SpecRefError, ref_errors_view};
use model::{
    RState, SpecScope, declare_variable, define_function, emit, empty_scope, end_scope, env_lookup, errs,
    initial_rstate, lemma_env_lookup_ok, lookup_function, lookup_variable, oks, open_scope, ref_ok,
    register_function, register_global, res_args, res_block, res_expr, res_param, res_params, res_stmt, res_stmts,
    resolve_model, resolve_type_model, scope_lookup, type_named, wf_rstate,
};

verus! {

/// What a name is bound to: a variable or a function, by its number in the
/// symbol table.
#[derive(Debug, Clone, Copy, PartialEq, Eq, Structural)]
pub enum Reference {
    Variable(usize),
    Function(usize),
}

struct Scope {
    bindings: Vec<(String, Reference)>,
    local_count: usize,
}

spec fn bindings_view(bs: Seq<(String, Reference)>) -> Seq<(Seq<char>, Reference)> {
    bs.map_values(|b: (String, Reference)| (b.0@, b.1))
}

spec fn scope_view(s: Scope) -> SpecScope {
    SpecScope { bindings: bindings_view(s.bindings@), local_count: s.local_count as nat }
}

spec fn env_view(env: Seq<Scope>) -> Seq<SpecScope> {
    env.map_values(|s: Scope| scope_view(s))
}

/// The latest binding of `name` in one scope.
fn scope_find(bs: &Vec<(String, Reference)>, name: &String) -> (r: Option<Reference>)
    ensures
        r == scope_lookup(bindings_view(bs@), name@),
{
    let ghost full = bindings_view(bs@);
    let mut j = bs.len();
    proof {
        assert(full.subrange(0, j as int) =~= full);
    }
    while j > 0
        invariant
            j <= bs.len(),
            full == bindings_view(bs@),
            scope_lookup(full, name@) == scope_lookup(full.subrange(0, j as int), name@),
        decreases j,
    {
        let ghost pre = full.subrange(0, j as int);
        proof {
            assert(pre.drop_last() =~= full.subrange(0, j - 1));
        }
        j = j - 1;
        if bs[j].0 == *name {
            return Some(bs[j].1);
        }
    }
    None
}

pub open spec fn add_depth(o: Option<(Reference, nat)>, m: nat) -> Option<(Reference, nat)> {
    match o {
        Some((r, d)) => Some((r, d + m)),
        None => None,
    }
}

/// The binding of `name` seen from the innermost scope, and its depth.
fn lookup(env: &Vec<Scope>, name: &String) -> (r: Option<(Reference, usize)>)
    ensures
        match env_lookup(env_view(env@), name@) {
            Some((rf, d)) => r == Some((rf, d as usize)) && d < env.len(),
            None => r is None,
        },
{
    let ghost full = env_view(env@);
    let n = env.len();
    let mut k = n;
    proof {
        assert(full.subrange(0, k as int) =~= full);
    }
    while k > 0
        invariant
            k <= n,
            n == env.len(),
            full == env_view(env@),
            env_lookup(full, name@) == add_depth(env_lookup(full.subrange(0, k as int), name@), (n - k) as nat),
        decreases k,
    {
        let ghost pre = full.subrange(0, k as int);
        proof {
            assert(pre.drop_last() =~= full.subrange(0, k - 1));
            assert(pre.last() == scope_view(env@[k - 1]));
        }
        match scope_find(&env[k - 1].bindings, name) {
            Some(rf) => {
                return Some((rf, n - k));
            },
            None => {},
        }
        k = k - 1;
    }
    None
}

/// The type a type name stands for.
fn type_of_name(name: &String) -> (r: Option<Type>)
    ensures
        r == type_named(name@),
{
    let cs = chars_of(name.as_str());
    if cs.len() == 3 && cs[0] == 'c' && cs[1] == 'a' && cs[2] == 't' {
        proof {
            assert(cs@ =~= seq!['c', 'a', 't']);
        }
        Some(Type::StringType)
    } else if cs.len() == 3 && cs[0] == 'n' && cs[1] == 'u' && cs[2] == 'm' {
        proof {
            assert(cs@ =~= seq!['n', 'u', 'm']);
            assert(cs@ != seq!['c', 'a', 't']);
        }
        Some(Type::Integer)
    } else if cs.len() == 3 && cs[0] == 'b' && cs[1] == 'i' && cs[2] == 'n' {
        proof {
            assert(cs@ =~= seq!['b', 'i', 'n']);
            assert(cs@ != seq!['c', 'a', 't']);
            assert(cs@ != seq!['n', 'u', 'm']);
        }
        Some(Type::Boolean)
    } else {
        proof {
            if cs@ == seq!['c', 'a', 't'] {
                assert(cs@[0] == 'c');
            }
            if cs@ == seq!['n', 'u', 'm'] {
                assert(cs@[0] == 'n');
            }
            if cs@ == seq!['b', 'i', 'n'] {
                assert(cs@[0] == 'b');
            }
        }
        None
    }
}

fn resolve_type(name: Option<String>) -> (r: Result<Option<Type>, ReferenceError>)
    ensures
        match r {
            Ok(t) => resolve_type_model(opt_string_view(name)) == Ok::<Option<Type>, SpecRefError>(t),
            Err(e) => resolve_type_model(opt_string_view(name)) == Err::<Option<Type>, SpecRefError>(e@),
        },
{
    match name {
        None => Ok(None),
        Some(n) => match type_of_name(&n) {
            Some(t) => Ok(Some(t)),
            None => Err(ReferenceError::UndefinedTypeName(n)),
        },
    }
}

pub open spec fn opt_string_view(s: Option<String>) -> Option<Seq<char>> {
    match s {
        Some(x) => Some(x@),
        None => None,
    }
}

fn resolve_variable(env: &Vec<Scope>, name: String) -> (r: Result<(usize, usize), ReferenceError>)
    ensures
        match r {
            Ok(v) => lookup_variable(env_view(env@), name@) == Ok::<(usize, usize), SpecRefError>(v),
            Err(e) => lookup_variable(env_view(env@), name@) == Err::<(usize, usize), SpecRefError>(e@),
        },
{
    match lookup(env, &name) {
        Some((Reference::Variable(index), depth)) => Ok((index, depth)),
        Some((Reference::Function(_), _)) => Err(ReferenceError::InvalidSymbolUseAsVariable(name)),
        None => Err(ReferenceError::UndefinedVariableName(name)),
    }
}

fn resolve_function(env: &Vec<Scope>, name: String) -> (r: Result<usize, ReferenceError>)
    ensures
        match r {
            Ok(v) => lookup_function(env_view(env@), name@) == Ok::<usize, SpecRefError>(v),
            Err(e) => lookup_function(env_view(env@), name@) == Err::<usize, SpecRefError>(e@),
        },
{
    match lookup(env, &name) {
        Some((Reference::Function(index), _)) => Ok(index),
        Some((Reference::Variable(_), _)) => Err(ReferenceError::InvalidSymbolUseAsFunction(name)),
        None => Err(ReferenceError::UndefinedFunctionName(name)),
    }
}

struct Resolver {
    env: Vec<Scope>,
    symtable: Symtable,
    error_stack: Vec<ReferenceError>,
}

impl Resolver {
    spec fn rstate(&self) -> RState {
        RState {
            env: env_view(self.env@),
            vars: variables_view(self.symtable.variable_table@),
            funcs: functions_view(self.symtable.function_table@),
            errors: ref_errors_view(self.error_stack@),
        }
    }

    spec fn wf(&self) -> bool {
        wf_rstate(self.rstate())
    }

    fn new() -> (r: Self)
        ensures
            r.wf(),
            r.rstate() == initial_rstate(),
    {
        let mut env: Vec<Scope> = Vec::new();
        env.push(Scope { bindings: Vec::new(), local_count: 0 });
        let r = Resolver {
            env,
            symtable: Symtable { variable_table: Vec::new(), function_table: Vec::new() },
            error_stack: Vec::new(),
        };
        proof {
            assert(bindings_view(Seq::<(String, Reference)>::empty()) =~= Seq::empty());
            assert(env_view(r.env@) =~= seq![empty_scope()]);
            assert(variables_view(r.symtable.variable_table@) =~= Seq::empty());
            assert(functions_view(r.symtable.function_table@) =~= Seq::empty());
            assert(ref_errors_view(r.error_stack@) =~= Seq::empty());
        }
        r
    }

    fn declare_variable(&mut self, name: String, t: Option<Type>) -> (id: usize)
        requires
            old(self).wf(),
        ensures
            final(self).wf(),
            (id, final(self).rstate()) == declare_variable(old(self).rstate(), name@, t),
    {
        let ghost st = self.rstate();
        let mut top = self.env.pop().unwrap();
        let index = top.local_count;
        let id = self.symtable.variable_table.len();
        self.symtable.variable_table.push(LocalVariable { vartype: t, identifier: name.clone(), index });
        proof {
            assert(index <= id) by {
                assert(st.env[st.env.len() - 1].local_count <= st.vars.len());
            }
        }
        let count = self.symtable.variable_table.len();
        assert(index < count);
        let ghost old_bindings = top.bindings@;
        top.bindings.push((name, Reference::Variable(id)));
        top.local_count = index + 1;
        self.env.push(top);
        proof {
            let st2 = self.rstate();
            let (id2, want) = declare_variable(st, name@, t);
            assert(bindings_view(top.bindings@) =~= bindings_view(old_bindings).push((name@, Reference::Variable(id))));
            assert(st2.env =~= want.env);
            assert(st2.vars =~= want.vars);
            assert forall|k: int, j: int| 0 <= k < st2.env.len() && 0 <= j < st2.env[k].bindings.len() implies ref_ok(
                #[trigger] st2.env[k].bindings[j].1,
                st2.vars.len(),
                st2.funcs.len(),
            ) by {
                if k < st2.env.len() - 1 || j < st2.env[k].bindings.len() - 1 {
                    assert(ref_ok(st.env[k].bindings[j].1, st.vars.len(), st.funcs.len()));
                }
            }
            assert forall|k: int| 0 <= k < st2.env.len() implies #[trigger] st2.env[k].local_count <= st2.vars.len() by {
                if k < st2.env.len() - 1 {
                    assert(st.env[k].local_count <= st.vars.len());
                }
            }
        }
        id
    }

    fn register_function(&mut self, name: String)
        requires
            old(self).wf(),
        ensures
            final(self).wf(),
            final(self).rstate() == register_function(old(self).rstate(), name@),
    {
        let ghost st = self.rstate();
        let mut top = self.env.pop().unwrap();
        let id = self.symtable.function_table.len();
        self.symtable.function_table.push(Function { return_type: None, param_list: Vec::new(), identifier: name.clone() });
        let ghost old_bindings = top.bindings@;
        top.bindings.push((name, Reference::Function(id)));
        self.env.push(top);
        proof {
            let st2 = self.rstate();
            let want = register_function(st, name@);
            assert(param_types_view(Seq::<ParamType>::empty()) =~= Seq::empty());
            assert(bindings_view(top.bindings@) =~= bindings_view(old_bindings).push((name@, Reference::Function(id))));
            assert(st2.env =~= want.env);
            assert(st2.funcs =~= want.funcs);
            assert forall|k: int, j: int| 0 <= k < st2.env.len() && 0 <= j < st2.env[k].bindings.len() implies ref_ok(
                #[trigger] st2.env[k].bindings[j].1,
                st2.vars.len(),
                st2.funcs.len(),
            ) by {
                if k < st2.env.len() - 1 || j < st2.env[k].bindings.len() - 1 {
                    assert(ref_ok(st.env[k].bindings[j].1, st.vars.len(), st.funcs.len()));
                }
            }
            assert forall|k: int| 0 <= k < st2.env.len() implies #[trigger] st2.env[k].local_count <= st2.vars.len() by {
                assert(st.env[k].local_count <= st.vars.len());
            }
        }
    }

    fn define_function(&mut self, index: usize, rt: Option<Type>, params: Vec<ParamType>)
        requires
            old(self).wf(),
            index < old(self).symtable.function_table.len(),
        ensures
            final(self).wf(),
            final(self).rstate() == define_function(old(self).rstate(), index, rt, param_types_view(params@)),
    {
        let ghost st = self.rstate();
        let identifier = self.symtable.function_table[index].identifier.clone();
        let ghost pv = param_types_view(params@);
        self.symtable.function_table.set(index, Function { return_type: rt, param_list: params, identifier });
        proof {
            assert(self.rstate().funcs =~= define_function(st, index, rt, pv).funcs);
        }
    }

    fn open_scope(&mut self)
        requires
            old(self).wf(),
        ensures
            final(self).wf(),
            final(self).rstate() == open_scope(old(self).rstate()),
    {
        let ghost st = self.rstate();
        self.env.push(Scope { bindings: Vec::new(), local_count: 0 });
        proof {
            assert(bindings_view(Seq::<(String, Reference)>::empty()) =~= Seq::empty());
            let st2 = self.rstate();
            assert(st2.env =~= st.env.push(empty_scope()));
            assert forall|k: int, j: int| 0 <= k < st2.env.len() && 0 <= j < st2.env[k].bindings.len() implies ref_ok(
                #[trigger] st2.env[k].bindings[j].1,
                st2.vars.len(),
                st2.funcs.len(),
            ) by {
                assert(ref_ok(st.env[k].bindings[j].1, st.vars.len(), st.funcs.len()));
            }
            assert forall|k: int| 0 <= k < st2.env.len() implies #[trigger] st2.env[k].local_count <= st2.vars.len() by {
                if k < st2.env.len() - 1 {
                    assert(st.env[k].local_count <= st.vars.len());
                }
            }
        }
    }

    fn end_scope(&mut self)
        requires
            old(self).wf(),
            old(self).env.len() >= 2,
        ensures
            final(self).wf(),
            final(self).rstate() == end_scope(old(self).rstate()),
    {
        let ghost st = self.rstate();
        let _ = self.env.pop();
        proof {
            let st2 = self.rstate();
            assert(st2.env =~= st.env.drop_last());
            assert forall|k: int, j: int| 0 <= k < st2.env.len() && 0 <= j < st2.env[k].bindings.len() implies ref_ok(
                #[trigger] st2.env[k].bindings[j].1,
                st2.vars.len(),
                st2.funcs.len(),
            ) by {
                assert(ref_ok(st.env[k].bindings[j].1, st.vars.len(), st.funcs.len()));
            }
            assert forall|k: int| 0 <= k < st2.env.len() implies #[trigger] st2.env[k].local_count <= st2.vars.len() by {
                assert(st.env[k].local_count <= st.vars.len());
            }
        }
    }

    /// Reports errors, after those already reported.
    fn report(&mut self, failed: Vec<ReferenceError>)
        requires
            old(self).wf(),
        ensures
            final(self).wf(),
            final(self).rstate() == emit(old(self).rstate(), ref_errors_view(failed@)),
    {
        let ghost st = self.rstate();
        let mut failed = failed;
        let ghost fv = ref_errors_view(failed@);
        self.error_stack.append(&mut failed);
        proof {
            assert(self.rstate().errors =~= st.errors + fv);
        }
    }
}

pub open spec fn expr_result_view(r: Result<Expression, ReferenceError>) -> Result<SpecExpr, SpecRefError> {
    match r {
        Ok(e) => Ok(e@),
        Err(x) => Err(x@),
    }
}

/// Resolves an expression; the errors of arguments that had to be dropped
/// are reported to `errors` on the way.
fn resolve_expression(e: Expression, env: &Vec<Scope>, errors: &mut Vec<ReferenceError>) -> (r: Result<
    Expression,
    ReferenceError,
>)
    ensures
        expr_result_view(r) == res_expr(e@, env_view(env@)).0,
        ref_errors_view(final(errors)@) == ref_errors_view(old(errors)@) + res_expr(e@, env_view(env@)).1,
    decreases e,
{
    let ghost envv = env_view(env@);
    let ghost before = ref_errors_view(errors@);
    proof {
        assert(before + Seq::<SpecRefError>::empty() =~= before);
    }
    match e {
        Expression::Variable { identifier } => match resolve_variable(env, identifier) {
            Ok((id, depth)) => Ok(Expression::LocalVar { id, depth }),
            Err(err) => Err(err),
        },
        Expression::FunctionCall { identifier, argument_list } => {
            let id = match resolve_function(env, identifier) {
                Err(err) => return Err(err),
                Ok(id) => id,
            };
            let args = resolve_arguments(*argument_list, env, errors);
            proof {
                let (rs, es) = res_args(exprs_view((*argument_list)@), envv);
                assert(before + es + errs(rs) =~= before + (es + errs(rs)));
            }
            Ok(Expression::ResolvedFunctionCall { id, argument_list: Box::new(args) })
        },
        Expression::BinaryOperation { lhs, rhs, op_type } => {
            let l = match resolve_expression(*lhs, env, errors) {
                Err(err) => return Err(err),
                Ok(v) => v,
            };
            let ghost mid = ref_errors_view(errors@);
            let r = resolve_expression(*rhs, env, errors);
            proof {
                let el = res_expr(expr_view(*lhs), envv).1;
                let er = res_expr(expr_view(*rhs), envv).1;
                assert(before + el + er =~= before + (el + er));
            }
            match r {
                Err(err) => Err(err),
                Ok(rv) => Ok(Expression::BinaryOperation { lhs: Box::new(l), rhs: Box::new(rv), op_type }),
            }
        },
        Expression::Cast { operand, output_type } => {
            let t = match type_of_name(&output_type) {
                None => return Err(ReferenceError::UndefinedTypeName(output_type)),
                Some(t) => t,
            };
            match resolve_expression(*operand, env, errors) {
                Err(err) => Err(err),
                Ok(o) => Ok(Expression::ResolvedCast { operand: Box::new(o), output_type: t }),
            }
        },
        other => Ok(other),
    }
}

/// Resolves arguments in order and keeps those that resolve; the errors of
/// the others are reported after everything found inside the arguments.
fn resolve_arguments(args: Vec<Expression>, env: &Vec<Scope>, errors: &mut Vec<ReferenceError>) -> (r: Vec<Expression>)
    ensures
        exprs_view(r@) == oks(res_args(exprs_view(args@), env_view(env@)).0),
        ref_errors_view(final(errors)@) == ref_errors_view(old(errors)@) + res_args(
            exprs_view(args@),
            env_view(env@),
        ).1 + errs(res_args(exprs_view(args@), env_view(env@)).0),
    decreases args,
{
    let ghost orig = args;
    let ghost envv = env_view(env@);
    let ghost all = exprs_view(args@);
    let ghost before = ref_errors_view(errors@);
    let n = args.len();
    let mut rest = args;
    let mut out: Vec<Expression> = Vec::new();
    let mut failed: Vec<ReferenceError> = Vec::new();
    let ghost mut done_rs: Seq<Result<SpecExpr, SpecRefError>> = Seq::empty();
    let ghost mut done_es: Seq<SpecRefError> = Seq::empty();
    proof {
        lemma_exprs_view(orig@);
        assert(all.subrange(0, n as int) =~= all);
        assert(done_rs + res_args(all, envv).0 =~= res_args(all, envv).0);
        assert(done_es + res_args(all, envv).1 =~= res_args(all, envv).1);
        assert(ref_errors_view(failed@) =~= Seq::empty());
        assert(before + done_es =~= before);
    }
    while rest.len() > 0
        invariant
            orig == args,
            n == orig@.len(),
            rest.len() <= n,
            rest@ == orig@.subrange(n - rest.len(), n as int),
            all == exprs_view(orig@),
            envv == env_view(env@),
            all.len() == n,
            forall|i: int| 0 <= i < n ==> #[trigger] all[i] == expr_view(orig@[i]),
            res_args(all, envv).0 == done_rs + res_args(all.subrange(n - rest.len(), n as int), envv).0,
            res_args(all, envv).1 == done_es + res_args(all.subrange(n - rest.len(), n as int), envv).1,
            exprs_view(out@) == oks(done_rs),
            ref_errors_view(failed@) == errs(done_rs),
            ref_errors_view(errors@) == before + done_es,
        decreases rest.len(),
    {
        let ghost k = n - rest.len();
        let ghost tail = all.subrange(k, n as int);
        let a = rest.remove(0);
        proof {
            assert(a == orig@[k]);
            assert(decreases_to!(orig => orig@));
            assert(decreases_to!(orig@ => orig@[k]));
            assert(decreases_to!(args => a));
            assert(tail[0] == expr_view(a));
            assert(tail.subrange(1, tail.len() as int) =~= all.subrange(k + 1, n as int));
            assert(rest@ =~= orig@.subrange(k + 1, n as int));
        }
        let ghost (r0, e0) = res_expr(expr_view(a), envv);
        let res = resolve_expression(a, env, errors);
        proof {
            let (rs2, es2) = res_args(all.subrange(k + 1, n as int), envv);
            assert(done_rs + (seq![r0] + rs2) =~= done_rs.push(r0) + rs2);
            assert(done_es + (e0 + es2) =~= (done_es + e0) + es2);
            assert(before + done_es + e0 =~= before + (done_es + e0));
            assert(done_rs.push(r0).drop_last() =~= done_rs);
            done_rs = done_rs.push(r0);
            done_es = done_es + e0;
        }
        match res {
            Ok(v) => {
                let ghost prev = out@;
                out.push(v);
                proof {
                    assert(out@.subrange(0, out@.len() - 1) =~= prev);
                }
            },
            Err(err) => {
                let ghost prev = failed@;
                failed.push(err);
                proof {
                    assert(ref_errors_view(failed@) =~= ref_errors_view(prev).push(err@));
                }
            },
        }
    }
    proof {
        assert(all.subrange(n as int, n as int) =~= Seq::<SpecExpr>::empty());
        assert(done_rs + Seq::<Result<SpecExpr, SpecRefError>>::empty() =~= done_rs);
        assert(done_es + Seq::<SpecRefError>::empty() =~= done_es);
    }
    let ghost mid = errors@;
    errors.append(&mut failed);
    proof {
        assert(ref_errors_view(errors@) =~= ref_errors_view(mid) + errs(done_rs));
    }
    out
}

pub open spec fn stmt_result_view(r: Result<Statement, ReferenceError>) -> Result<SpecStmt, SpecRefError> {
    match r {
        Ok(s) => Ok(s@),
        Err(x) => Err(x@),
    }
}

pub open spec fn param_result_view(r: Result<ParamType, ReferenceError>) -> Result<(Seq<char>, Type), SpecRefError> {
    match r {
        Ok(p) => Ok(p@),
        Err(x) => Err(x@),
    }
}

/// Resolves an expression in the resolver's scopes, reporting to it.
fn resolve_in(e: Expression, resolver: &mut Resolver) -> (r: Result<Expression, ReferenceError>)
    requires
        old(resolver).wf(),
    ensures
        final(resolver).wf(),
        final(resolver).env.len() == old(resolver).env.len(),
        final(resolver).symtable.function_table.len() == old(resolver).symtable.function_table.len(),
        expr_result_view(r) == res_expr(e@, old(resolver).rstate().env).0,
        final(resolver).rstate() == emit(old(resolver).rstate(), res_expr(e@, old(resolver).rstate().env).1),
{
    let r = resolve_expression(e, &resolver.env, &mut resolver.error_stack);
    r
}

/// Declares the parameters of a function in its scope, in order; gives the
/// typed parameters and the errors of those whose type does not resolve.
fn resolve_params(params: Vec<Parameter>, resolver: &mut Resolver) -> (r: (Vec<ParamType>, Vec<ReferenceError>))
    requires
        old(resolver).wf(),
    ensures
        final(resolver).wf(),
        final(resolver).env.len() == old(resolver).env.len(),
        final(resolver).symtable.function_table.len() == old(resolver).symtable.function_table.len(),
        param_types_view(r.0@) == oks(res_params(params_view(params@), old(resolver).rstate()).0),
        ref_errors_view(r.1@) == errs(res_params(params_view(params@), old(resolver).rstate()).0),
        final(resolver).rstate() == res_params(params_view(params@), old(resolver).rstate()).1,
{
    let ghost all = params_view(params@);
    let ghost st0 = resolver.rstate();
    let ghost nenv = resolver.env.len();
    let ghost nf = resolver.symtable.function_table.len();
    let n = params.len();
    let mut rest = params;
    let mut out: Vec<ParamType> = Vec::new();
    let mut failed: Vec<ReferenceError> = Vec::new();
    let ghost mut done_rs: Seq<Result<(Seq<char>, Type), SpecRefError>> = Seq::empty();
    proof {
        assert(all.subrange(0, n as int) =~= all);
        assert(done_rs + res_params(all, st0).0 =~= res_params(all, st0).0);
        assert(param_types_view(out@) =~= Seq::empty());
        assert(ref_errors_view(failed@) =~= Seq::empty());
    }
    while rest.len() > 0
        invariant
            resolver.wf(),
            resolver.env.len() == nenv,
            resolver.symtable.function_table.len() == nf,
            n == all.len(),
            rest.len() <= n,
            params_view(rest@) == all.subrange(n - rest.len(), n as int),
            res_params(all, st0).0 == done_rs + res_params(all.subrange(n - rest.len(), n as int), resolver.rstate()).0,
            res_params(all, st0).1 == res_params(all.subrange(n - rest.len(), n as int), resolver.rstate()).1,
            param_types_view(out@) == oks(done_rs),
            ref_errors_view(failed@) == errs(done_rs),
        decreases rest.len(),
    {
        let ghost k = n - rest.len();
        let ghost tail = all.subrange(k, n as int);
        let ghost cur = resolver.rstate();
        let ghost rv = rest@;
        let p = rest.remove(0);
        proof {
            assert(params_view(rv)[0] == tail[0]);
            assert(tail[0] == (p.identifier@, p.param_type@));
            assert(tail.subrange(1, tail.len() as int) =~= all.subrange(k + 1, n as int));
            assert(params_view(rest@) =~= params_view(rv).subrange(1, rv.len() as int));
        }
        let ghost (r0, s1) = res_param(tail[0], cur);
        let r = match type_of_name(&p.param_type) {
            None => Err(ReferenceError::UndefinedTypeName(p.param_type)),
            Some(t) => {
                let _ = resolver.declare_variable(p.identifier.clone(), Some(t));
                Ok(ParamType { identifier: p.identifier, param_type: t })
            },
        };
        proof {
            assert(param_result_view(r) == r0);
            assert(resolver.rstate() == s1);
            let (rs2, s2) = res_params(all.subrange(k + 1, n as int), s1);
            assert(done_rs + (seq![r0] + rs2) =~= done_rs.push(r0) + rs2);
            assert(done_rs.push(r0).drop_last() =~= done_rs);
            done_rs = done_rs.push(r0);
        }
        match r {
            Ok(v) => {
                let ghost prev = out@;
                out.push(v);
                proof {
                    assert(param_types_view(out@) =~= param_types_view(prev).push(v@));
                }
            },
            Err(err) => {
                let ghost prev = failed@;
                failed.push(err);
                proof {
                    assert(ref_errors_view(failed@) =~= ref_errors_view(prev).push(err@));
                }
            },
        }
    }
    proof {
        assert(all.subrange(n as int, n as int) =~= Seq::<(Seq<char>, Seq<char>)>::empty());
        assert(done_rs + Seq::<Result<(Seq<char>, Type), SpecRefError>>::empty() =~= done_rs);
    }
    (out, failed)
}

/// Resolves one statement. A declaration becomes an assignment to the new
/// variable's number, a function declaration its definition by number, a
/// return names its function by number.
fn resolve_statement(s: Statement, resolver: &mut Resolver) -> (r: Option<Result<Statement, ReferenceError>>)
    requires
        old(resolver).wf(),
    ensures
        final(resolver).wf(),
        r is Some ==> final(resolver).env.len() == old(resolver).env.len(),
        r is Some ==> final(resolver).symtable.function_table.len() == old(resolver).symtable.function_table.len(),
        match res_stmt(s@, old(resolver).rstate()) {
            None => r is None,
            Some((x, st)) => r matches Some(v) && stmt_result_view(v) == x && final(resolver).rstate() == st,
        },
    decreases s,
{
    let ghost st = resolver.rstate();
    match s {
        Statement::Print { value } => match resolve_in(value, resolver) {
            Ok(v) => Some(Ok(Statement::Print { value: v })),
            Err(err) => Some(Err(err)),
        },
        Statement::Call { expression } => match resolve_in(expression, resolver) {
            Ok(v) => Some(Ok(Statement::Call { expression: v })),
            Err(err) => Some(Err(err)),
        },
        Statement::VariableDeclaration { value, identifier, variable_type } => {
            let v = match resolve_in(value, resolver) {
                Err(err) => return Some(Err(err)),
                Ok(v) => v,
            };
            let t = match resolve_type(variable_type) {
                Err(err) => return Some(Err(err)),
                Ok(t) => t,
            };
            let id = resolver.declare_variable(identifier, t);
            Some(Ok(Statement::VariableAssignment { value: v, identifier: id }))
        },
        Statement::ReturnStatement { return_value, function } => {
            let rv = match return_value {
                None => None,
                Some(v) => match resolve_in(v, resolver) {
                    Err(err) => return Some(Err(err)),
                    Ok(x) => Some(x),
                },
            };
            match resolve_function(&resolver.env, function) {
                Err(err) => Some(Err(err)),
                Ok(id) => Some(Ok(Statement::ResolvedReturn { return_value: rv, function: id })),
            }
        },
        Statement::FunctionDeclaration { identifier, param_list, return_type, block } => {
            proof {
                lemma_env_lookup_ok(st.env, identifier@, st.vars.len(), st.funcs.len());
            }
            let index = match resolve_function(&resolver.env, identifier) {
                Err(err) => return Some(Err(err)),
                Ok(i) => i,
            };
            let rt = match resolve_type(return_type) {
                Err(err) => return Some(Err(err)),
                Ok(t) => t,
            };
            resolver.open_scope();
            let (params, failed) = resolve_params(param_list, resolver);
            proof {
                assert(decreases_to!(s => *block));
            }
            let blk = match resolve_block(*block, resolver) {
                None => return None,
                Some(blk) => blk,
            };
            resolver.end_scope();
            resolver.report(failed);
            resolver.define_function(index, rt, params);
            Some(Ok(Statement::FunctionDefinition { identifier: index, block: Box::new(blk) }))
        },
        _ => None,
    }
}

/// Resolves the statements of a block in order, keeps those that resolve and
/// reports the errors of the others after all errors found inside them.
fn resolve_block(b: Vec<Statement>, resolver: &mut Resolver) -> (r: Option<Vec<Statement>>)
    requires
        old(resolver).wf(),
    ensures
        final(resolver).wf(),
        r is Some ==> final(resolver).env.len() == old(resolver).env.len(),
        r is Some ==> final(resolver).symtable.function_table.len() == old(resolver).symtable.function_table.len(),
        match res_block(stmts_view(b@), old(resolver).rstate()) {
            None => r is None,
            Some((x, st)) => r matches Some(v) && stmts_view(v@) == x && final(resolver).rstate() == st,
        },
    decreases b,
{
    let ghost orig = b;
    let ghost all = stmts_view(b@);
    let ghost st0 = resolver.rstate();
    let ghost nenv = resolver.env.len();
    let ghost nf = resolver.symtable.function_table.len();
    let n = b.len();
    let mut rest = b;
    let mut out: Vec<Statement> = Vec::new();
    let mut failed: Vec<ReferenceError> = Vec::new();
    let ghost mut done_rs: Seq<Result<SpecStmt, SpecRefError>> = Seq::empty();
    proof {
        lemma_stmts_view(orig@);
        assert(all.subrange(0, n as int) =~= all);
        assert(stmts_view(out@) =~= Seq::empty());
        assert(ref_errors_view(failed@) =~= Seq::empty());
    }
    while rest.len() > 0
        invariant
            orig == b,
            st0 == old(resolver).rstate(),
            resolver.wf(),
            resolver.env.len() == nenv,
            resolver.symtable.function_table.len() == nf,
            n == orig@.len(),
            rest.len() <= n,
            rest@ == orig@.subrange(n - rest.len(), n as int),
            all == stmts_view(orig@),
            all.len() == n,
            forall|i: int| 0 <= i < n ==> #[trigger] all[i] == stmt_view(orig@[i]),
            res_stmts(all, st0) == (match res_stmts(all.subrange(n - rest.len(), n as int), resolver.rstate()) {
                Some((rs, s)) => Some((done_rs + rs, s)),
                None => None,
            }),
            stmts_view(out@) == oks(done_rs),
            ref_errors_view(failed@) == errs(done_rs),
        decreases rest.len(),
    {
        let ghost k = n - rest.len();
        let ghost tail = all.subrange(k, n as int);
        let ghost cur = resolver.rstate();
        let a = rest.remove(0);
        proof {
            assert(a == orig@[k]);
            assert(decreases_to!(orig => orig@));
            assert(decreases_to!(orig@ => orig@[k]));
            assert(decreases_to!(b => a));
            assert(tail[0] == stmt_view(a));
            assert(tail.subrange(1, tail.len() as int) =~= all.subrange(k + 1, n as int));
            assert(rest@ =~= orig@.subrange(k + 1, n as int));
        }
        let res = match resolve_statement(a, resolver) {
            None => {
                proof {
                    assert(res_stmt(tail[0], cur) is None);
                    assert(res_stmts(tail, cur) is None);
                    assert(res_stmts(all, st0) is None);
                    assert(res_block(all, st0) is None);
                }
                return None;
            },
            Some(res) => res,
        };
        proof {
            let (r0, s1) = res_stmt(tail[0], cur)->Some_0;
            assert(stmt_result_view(res) == r0);
            let (rs2, s2) = res_stmts(all.subrange(k + 1, n as int), s1)->Some_0;
            assert(done_rs + (seq![r0] + rs2) =~= done_rs.push(r0) + rs2);
            assert(done_rs.push(r0).drop_last() =~= done_rs);
            done_rs = done_rs.push(r0);
        }
        match res {
            Ok(v) => {
                let ghost prev = out@;
                out.push(v);
                proof {
                    assert(out@.subrange(0, out@.len() - 1) =~= prev);
                }
            },
            Err(err) => {
                let ghost prev = failed@;
                failed.push(err);
                proof {
                    assert(ref_errors_view(failed@) =~= ref_errors_view(prev).push(err@));
                }
            },
        }
    }
    proof {
        assert(all.subrange(n as int, n as int) =~= Seq::<SpecStmt>::empty());
        assert(done_rs + Seq::<Result<SpecStmt, SpecRefError>>::empty() =~= done_rs);
    }
    resolver.report(failed);
    Some(out)
}

/// Enters every function declared at the top level, in order.
fn register_globals(ast: &Vec<Statement>, resolver: &mut Resolver)
    requires
        old(resolver).wf(),
    ensures
        final(resolver).wf(),
        final(resolver).rstate() == register_global(stmts_view(ast@), old(resolver).rstate()),
{
    let ghost all = stmts_view(ast@);
    let ghost st0 = resolver.rstate();
    let n = ast.len();
    let mut i: usize = 0;
    proof {
        lemma_stmts_view(ast@);
        assert(all.subrange(0, n as int) =~= all);
    }
    while i < n
        invariant
            resolver.wf(),
            n == ast.len(),
            i <= n,
            all == stmts_view(ast@),
            all.len() == n,
            forall|j: int| 0 <= j < n ==> #[trigger] all[j] == stmt_view(ast@[j]),
            register_global(all, st0) == register_global(all.subrange(i as int, n as int), resolver.rstate()),
        decreases n - i,
    {
        let ghost tail = all.subrange(i as int, n as int);
        proof {
            assert(tail[0] == stmt_view(ast@[i as int]));
            assert(tail.subrange(1, tail.len() as int) =~= all.subrange(i + 1, n as int));
        }
        if let Statement::FunctionDeclaration { identifier, .. } = &ast[i] {
            resolver.register_function(identifier.clone());
        }
        i = i + 1;
    }
}

/// Resolves a program and gives, beside it, the errors found, in the order
/// they were reported. The program is flagged as erroneous exactly when some
/// error was reported.
pub fn resolve_with_errors(ast: Vec<Statement>) -> (r: (ResolvedAst, Vec<ReferenceError>))
    requires
        resolve_model(stmts_view(ast@)) is Some,
    ensures
        resolve_model(stmts_view(ast@)) matches Some((prog, st)) && stmts_view(r.0.ast@) == prog
            && r.0.symtable@ == (SpecSymtable { variables: st.vars, functions: st.funcs })
            && ref_errors_view(r.1@) == st.errors,
        r.0.error_mode == (r.1.len() > 0),
{
    resolve_checked(ast).unwrap()
}

/// Resolves a program, or gives `None` where it holds an already resolved
/// statement that resolution reaches (resolution is not defined there).
pub fn resolve_checked(ast: Vec<Statement>) -> (r: Option<(ResolvedAst, Vec<ReferenceError>)>)
    ensures
        match resolve_model(stmts_view(ast@)) {
            None => r is None,
            Some((prog, st)) => r matches Some((res, errors)) && stmts_view(res.ast@) == prog
                && res.symtable@ == (SpecSymtable { variables: st.vars, functions: st.funcs })
                && ref_errors_view(errors@) == st.errors && res.error_mode == (errors.len() > 0),
        },
{
    let mut resolver = Resolver::new();
    register_globals(&ast, &mut resolver);
    let ast = match resolve_block(ast, &mut resolver) {
        None => return None,
        Some(ast) => ast,
    };
    let error_mode = resolver.error_stack.len() > 0;
    Some((ResolvedAst { ast, symtable: resolver.symtable, error_mode }, resolver.error_stack))
}

/// Resolves a program: names become numbers into the symbol table, and
/// statements that do not resolve are dropped and flag the result.
pub fn resolve(ast: Vec<Statement>) -> (r: ResolvedAst)
    requires
        resolve_model(stmts_view(ast@)) is Some,
    ensures
        resolve_model(stmts_view(ast@)) matches Some((prog, st)) && stmts_view(r.ast@) == prog
            && r.symtable@ == (SpecSymtable { variables: st.vars, functions: st.funcs })
            && r.error_mode == (st.errors.len() > 0),
{
    resolve_with_errors(ast).0
}

} // verus!

//! What resolution keeps: on a program as the parser gives it, resolution is
//! defined, and every number it writes refers to an entry of the symbol
//! table it builds.
use vstd::prelude::*;
use crate::common::{SpecExpr, SpecStmt};
use crate::analyzer::resolver::model::{
    RState, SpecScope, declare_variable, emit, empty_scope, end_scope, env_lookup, errs, lemma_env_lookup_ok, lookup_function,
    oks, open_scope, ref_ok, type_named, refs_ok, register_function, register_global, res_args, res_expr, res_param, res_params,
    res_stmt, res_stmts, resolve_model, wf_rstate, initial_rstate,
};
use crate::analyzer::resolver::error::SpecRefError;
use crate::parser::grammar::{lemma_wf_stmts_index, wf_args, wf_expr, wf_return, wf_stmt, wf_stmts, wf_tree};

verus! {

// ---------------------------------------------------------------------------
// Programs as the parser gives them
// ---------------------------------------------------------------------------

/// An expression that holds none of the constructs resolution writes.
pub open spec fn surface_expr(e: SpecExpr) -> bool
    decreases e,
{
    match e {
        SpecExpr::StringValue { .. } => true,
        SpecExpr::Number { .. } => true,
        SpecExpr::Boolean { .. } => true,
        SpecExpr::Variable { .. } => true,
        SpecExpr::BinaryOperation { lhs, rhs, .. } => surface_expr(*lhs) && surface_expr(*rhs),
        SpecExpr::Cast { operand, .. } => surface_expr(*operand),
        SpecExpr::FunctionCall { argument_list, .. } => surface_args(argument_list),
        _ => false,
    }
}

pub open spec fn surface_args(s: Seq<SpecExpr>) -> bool
    decreases s,
{
    if s.len() == 0 {
        true
    } else {
        surface_args(s.subrange(0, s.len() - 1)) && surface_expr(s[s.len() - 1])
    }
}

pub open spec fn surface_opt(v: Option<SpecExpr>) -> bool {
    match v {
        Some(x) => surface_expr(x),
        None => true,
    }
}

/// A statement that holds none of the constructs resolution writes.
pub open spec fn surface_stmt(s: SpecStmt) -> bool
    decreases s,
{
    match s {
        SpecStmt::Print { value } => surface_expr(value),
        SpecStmt::Call { expression } => surface_expr(expression),
        SpecStmt::VariableDeclaration { value, .. } => surface_expr(value),
        SpecStmt::ReturnStatement { return_value, .. } => match return_value {
            Some(x) => surface_expr(x),
            None => true,
        },
        SpecStmt::FunctionDeclaration { block, .. } => surface_stmts(block),
        _ => false,
    }
}

pub open spec fn surface_stmts(b: Seq<SpecStmt>) -> bool
    decreases b,
{
    if b.len() == 0 {
        true
    } else {
        surface_stmts(b.subrange(0, b.len() - 1)) && surface_stmt(b[b.len() - 1])
    }
}

// ---------------------------------------------------------------------------
// References into tables of given sizes
// ---------------------------------------------------------------------------

/// Every variable and function number in `e` is below the table sizes.
pub open spec fn refs_expr(e: SpecExpr, nv: nat, nf: nat) -> bool
    decreases e,
{
    match e {
        SpecExpr::LocalVar { id, .. } => id < nv,
        SpecExpr::ResolvedFunctionCall { id, argument_list } => id < nf && refs_args(argument_list, nv, nf),
        SpecExpr::FunctionCall { argument_list, .. } => refs_args(argument_list, nv, nf),
        SpecExpr::BinaryOperation { lhs, rhs, .. } => refs_expr(*lhs, nv, nf) && refs_expr(*rhs, nv, nf),
        SpecExpr::Cast { operand, .. } => refs_expr(*operand, nv, nf),
        SpecExpr::ResolvedCast { operand, .. } => refs_expr(*operand, nv, nf),
        SpecExpr::AnalyzedCast { operand, .. } => refs_expr(*operand, nv, nf),
        _ => true,
    }
}

pub open spec fn refs_args(s: Seq<SpecExpr>, nv: nat, nf: nat) -> bool
    decreases s,
{
    if s.len() == 0 {
        true
    } else {
        refs_args(s.subrange(0, s.len() - 1), nv, nf) && refs_expr(s[s.len() - 1], nv, nf)
    }
}

pub open spec fn refs_opt(v: Option<SpecExpr>, nv: nat, nf: nat) -> bool {
    match v {
        Some(x) => refs_expr(x, nv, nf),
        None => true,
    }
}

/// Every variable and function number in `s` is below the table sizes.
pub open spec fn refs_stmt(s: SpecStmt, nv: nat, nf: nat) -> bool
    decreases s,
{
    match s {
        SpecStmt::Print { value } => refs_expr(value, nv, nf),
        SpecStmt::Call { expression } => refs_expr(expression, nv, nf),
        SpecStmt::VariableDeclaration { value, .. } => refs_expr(value, nv, nf),
        SpecStmt::VariableAssignment { value, identifier } => identifier < nv && refs_expr(value, nv, nf),
        SpecStmt::ReturnStatement { return_value, .. } => match return_value {
            Some(x) => refs_expr(x, nv, nf),
            None => true,
        },
        SpecStmt::ResolvedReturn { return_value, function } => function < nf && match return_value {
            Some(x) => refs_expr(x, nv, nf),
            None => true,
        },
        SpecStmt::FunctionDeclaration { block, .. } => refs_stmts(block, nv, nf),
        SpecStmt::FunctionDefinition { identifier, block } => identifier < nf && refs_stmts(block, nv, nf),
    }
}

pub open spec fn refs_stmts(b: Seq<SpecStmt>, nv: nat, nf: nat) -> bool
    decreases b,
{
    if b.len() == 0 {
        true
    } else {
        refs_stmts(b.subrange(0, b.len() - 1), nv, nf) && refs_stmt(b[b.len() - 1], nv, nf)
    }
}

// ---------------------------------------------------------------------------
// Lists, element by element
// ---------------------------------------------------------------------------

proof fn lemma_surface_args_index(s: Seq<SpecExpr>)
    ensures
        surface_args(s) <==> forall|i: int| 0 <= i < s.len() ==> surface_expr(#[trigger] s[i]),
    decreases s.len(),
{
    if s.len() > 0 {
        let f = s.subrange(0, s.len() - 1);
        lemma_surface_args_index(f);
        assert forall|i: int| 0 <= i < f.len() implies f[i] == s[i] by {}
    }
}

proof fn lemma_surface_stmts_index(b: Seq<SpecStmt>)
    ensures
        surface_stmts(b) <==> forall|i: int| 0 <= i < b.len() ==> surface_stmt(#[trigger] b[i]),
    decreases b.len(),
{
    if b.len() > 0 {
        let f = b.subrange(0, b.len() - 1);
        lemma_surface_stmts_index(f);
        assert forall|i: int| 0 <= i < f.len() implies f[i] == b[i] by {}
    }
}

proof fn lemma_refs_args_index(s: Seq<SpecExpr>, nv: nat, nf: nat)
    ensures
        refs_args(s, nv, nf) <==> forall|i: int| 0 <= i < s.len() ==> refs_expr(#[trigger] s[i], nv, nf),
    decreases s.len(),
{
    if s.len() > 0 {
        let f = s.subrange(0, s.len() - 1);
        lemma_refs_args_index(f, nv, nf);
        assert forall|i: int| 0 <= i < f.len() implies f[i] == s[i] by {}
    }
}

proof fn lemma_refs_stmts_index(b: Seq<SpecStmt>, nv: nat, nf: nat)
    ensures
        refs_stmts(b, nv, nf) <==> forall|i: int| 0 <= i < b.len() ==> refs_stmt(#[trigger] b[i], nv, nf),
    decreases b.len(),
{
    if b.len() > 0 {
        let f = b.subrange(0, b.len() - 1);
        lemma_refs_stmts_index(f, nv, nf);
        assert forall|i: int| 0 <= i < f.len() implies f[i] == b[i] by {}
    }
}

/// The successes of a list of results are among its elements.
proof fn lemma_oks_members<T>(rs: Seq<Result<T, SpecRefError>>)
    ensures
        forall|j: int| 0 <= j < oks(rs).len() ==> exists|i: int| 0 <= i < rs.len() && #[trigger] rs[i] == Ok::<T, SpecRefError>(#[trigger] oks(rs)[j]),
    decreases rs.len(),
{
    if rs.len() > 0 {
        let f = rs.drop_last();
        lemma_oks_members(f);
        assert forall|j: int| 0 <= j < oks(rs).len() implies exists|i: int| 0 <= i < rs.len() && #[trigger] rs[i] == Ok::<T, SpecRefError>(#[trigger] oks(rs)[j]) by {
            if j < oks(f).len() {
                let i = choose|i: int| 0 <= i < f.len() && #[trigger] f[i] == Ok::<T, SpecRefError>(#[trigger] oks(f)[j]);
                assert(rs[i] == f[i]);
                match rs.last() {
                    Ok(v) => assert(oks(rs)[j] == oks(f)[j]),
                    Err(_) => {},
                }
            } else {
                assert(rs[rs.len() - 1] == Ok::<T, SpecRefError>(oks(rs)[j]));
            }
        }
    }
}

// ---------------------------------------------------------------------------
// Expressions
// ---------------------------------------------------------------------------

proof fn lemma_res_expr_refs(e: SpecExpr, env: Seq<SpecScope>, nv: nat, nf: nat)
    requires
        refs_ok(env, nv, nf),
        surface_expr(e),
    ensures
        res_expr(e, env).0 matches Ok(x) ==> refs_expr(x, nv, nf),
    decreases e,
{
    match e {
        SpecExpr::Variable { identifier } => {
            lemma_env_lookup_ok(env, identifier, nv, nf);
        },
        SpecExpr::FunctionCall { identifier, argument_list } => {
            lemma_env_lookup_ok(env, identifier, nv, nf);
            lemma_res_args_refs(argument_list, env, nv, nf);
            let rs = res_args(argument_list, env).0;
            lemma_oks_members(rs);
            lemma_refs_args_index(oks(rs), nv, nf);
            assert forall|j: int| 0 <= j < oks(rs).len() implies refs_expr(#[trigger] oks(rs)[j], nv, nf) by {
                let i = choose|i: int| 0 <= i < rs.len() && #[trigger] rs[i] == Ok::<SpecExpr, SpecRefError>(oks(rs)[j]);
            }
        },
        SpecExpr::BinaryOperation { lhs, rhs, .. } => {
            lemma_res_expr_refs(*lhs, env, nv, nf);
            lemma_res_expr_refs(*rhs, env, nv, nf);
        },
        SpecExpr::Cast { operand, .. } => {
            lemma_res_expr_refs(*operand, env, nv, nf);
        },
        _ => {},
    }
}

proof fn lemma_res_args_refs(args: Seq<SpecExpr>, env: Seq<SpecScope>, nv: nat, nf: nat)
    requires
        refs_ok(env, nv, nf),
        surface_args(args),
    ensures
        forall|i: int|
            0 <= i < res_args(args, env).0.len() ==> (#[trigger] res_args(args, env).0[i] matches Ok(x) ==> refs_expr(
                x,
                nv,
                nf,
            )),
    decreases args,
{
    if args.len() > 0 {
        let rest = args.subrange(1, args.len() as int);
        lemma_surface_args_index(args);
        lemma_surface_args_index(rest);
        assert forall|i: int| 0 <= i < rest.len() implies surface_expr(#[trigger] rest[i]) by {
            assert(rest[i] == args[i + 1]);
        }
        lemma_res_expr_refs(args[0], env, nv, nf);
        lemma_res_args_refs(rest, env, nv, nf);
        let rs = res_args(args, env).0;
        let rs2 = res_args(rest, env).0;
        assert forall|i: int| 0 <= i < rs.len() implies (#[trigger] rs[i] matches Ok(x) ==> refs_expr(x, nv, nf)) by {
            if i > 0 {
                assert(rs[i] == rs2[i - 1]);
            }
        }
    }
}

// ---------------------------------------------------------------------------
// Larger tables keep references valid
// ---------------------------------------------------------------------------

proof fn lemma_refs_expr_mono(e: SpecExpr, nv: nat, nv2: nat, nf: nat)
    requires
        refs_expr(e, nv, nf),
        nv <= nv2,
    ensures
        refs_expr(e, nv2, nf),
    decreases e,
{
    match e {
        SpecExpr::ResolvedFunctionCall { argument_list, .. } => lemma_refs_args_mono(argument_list, nv, nv2, nf),
        SpecExpr::FunctionCall { argument_list, .. } => lemma_refs_args_mono(argument_list, nv, nv2, nf),
        SpecExpr::BinaryOperation { lhs, rhs, .. } => {
            lemma_refs_expr_mono(*lhs, nv, nv2, nf);
            lemma_refs_expr_mono(*rhs, nv, nv2, nf);
        },
        SpecExpr::Cast { operand, .. } => lemma_refs_expr_mono(*operand, nv, nv2, nf),
        SpecExpr::ResolvedCast { operand, .. } => lemma_refs_expr_mono(*operand, nv, nv2, nf),
        SpecExpr::AnalyzedCast { operand, .. } => lemma_refs_expr_mono(*operand, nv, nv2, nf),
        _ => {},
    }
}

proof fn lemma_refs_args_mono(s: Seq<SpecExpr>, nv: nat, nv2: nat, nf: nat)
    requires
        refs_args(s, nv, nf),
        nv <= nv2,
    ensures
        refs_args(s, nv2, nf),
    decreases s,
{
    if s.len() > 0 {
        lemma_refs_args_mono(s.subrange(0, s.len() - 1), nv, nv2, nf);
        lemma_refs_expr_mono(s[s.len() - 1], nv, nv2, nf);
    }
}

proof fn lemma_refs_stmt_mono(s: SpecStmt, nv: nat, nv2: nat, nf: nat)
    requires
        refs_stmt(s, nv, nf),
        nv <= nv2,
    ensures
        refs_stmt(s, nv2, nf),
    decreases s,
{
    match s {
        SpecStmt::Print { value } => lemma_refs_expr_mono(value, nv, nv2, nf),
        SpecStmt::Call { expression } => lemma_refs_expr_mono(expression, nv, nv2, nf),
        SpecStmt::VariableDeclaration { value, .. } => lemma_refs_expr_mono(value, nv, nv2, nf),
        SpecStmt::VariableAssignment { value, .. } => lemma_refs_expr_mono(value, nv, nv2, nf),
        SpecStmt::ReturnStatement { return_value, .. } => {
            if let Some(x) = return_value {
                lemma_refs_expr_mono(x, nv, nv2, nf);
            }
        },
        SpecStmt::ResolvedReturn { return_value, .. } => {
            if let Some(x) = return_value {
                lemma_refs_expr_mono(x, nv, nv2, nf);
            }
        },
        SpecStmt::FunctionDeclaration { block, .. } => lemma_refs_stmts_mono(block, nv, nv2, nf),
        SpecStmt::FunctionDefinition { block, .. } => lemma_refs_stmts_mono(block, nv, nv2, nf),
    }
}

proof fn lemma_refs_stmts_mono(b: Seq<SpecStmt>, nv: nat, nv2: nat, nf: nat)
    requires
        refs_stmts(b, nv, nf),
        nv <= nv2,
    ensures
        refs_stmts(b, nv2, nf),
    decreases b,
{
    if b.len() > 0 {
        lemma_refs_stmts_mono(b.subrange(0, b.len() - 1), nv, nv2, nf);
        lemma_refs_stmt_mono(b[b.len() - 1], nv, nv2, nf);
    }
}

// ---------------------------------------------------------------------------
// The state operations keep the resolver's invariant
// ---------------------------------------------------------------------------

proof fn lemma_declare_wf(st: RState, name: Seq<char>, t: Option<crate::common::Type>)
    requires
        wf_rstate(st),
    ensures
        wf_rstate(declare_variable(st, name, t).1),
        declare_variable(st, name, t).1.env.len() == st.env.len(),
        declare_variable(st, name, t).1.funcs == st.funcs,
        declare_variable(st, name, t).1.vars.len() == st.vars.len() + 1,
        declare_variable(st, name, t).1.errors == st.errors,
{
    let st2 = declare_variable(st, name, t).1;
    let last = st.env.len() - 1;
    assert forall|k: int, j: int| 0 <= k < st2.env.len() && 0 <= j < st2.env[k].bindings.len() implies ref_ok(
        #[trigger] st2.env[k].bindings[j].1,
        st2.vars.len(),
        st2.funcs.len(),
    ) by {
        if k < last || j < st2.env[k].bindings.len() - 1 {
            assert(ref_ok(st.env[k].bindings[j].1, st.vars.len(), st.funcs.len()));
        }
    }
    assert forall|k: int| 0 <= k < st2.env.len() implies #[trigger] st2.env[k].local_count <= st2.vars.len() by {
        assert(st.env[k].local_count <= st.vars.len());
    }
}

proof fn lemma_register_wf(st: RState, name: Seq<char>)
    requires
        wf_rstate(st),
    ensures
        wf_rstate(register_function(st, name)),
{
    let st2 = register_function(st, name);
    let last = st.env.len() - 1;
    assert forall|k: int, j: int| 0 <= k < st2.env.len() && 0 <= j < st2.env[k].bindings.len() implies ref_ok(
        #[trigger] st2.env[k].bindings[j].1,
        st2.vars.len(),
        st2.funcs.len(),
    ) by {
        if k < last || j < st2.env[k].bindings.len() - 1 {
            assert(ref_ok(st.env[k].bindings[j].1, st.vars.len(), st.funcs.len()));
        }
    }
    assert forall|k: int| 0 <= k < st2.env.len() implies #[trigger] st2.env[k].local_count <= st2.vars.len() by {
        assert(st.env[k].local_count <= st.vars.len());
    }
}

proof fn lemma_open_wf(st: RState)
    requires
        wf_rstate(st),
    ensures
        wf_rstate(open_scope(st)),
{
    let st2 = open_scope(st);
    assert forall|k: int, j: int| 0 <= k < st2.env.len() && 0 <= j < st2.env[k].bindings.len() implies ref_ok(
        #[trigger] st2.env[k].bindings[j].1,
        st2.vars.len(),
        st2.funcs.len(),
    ) by {
        assert(ref_ok(st.env[k].bindings[j].1, st.vars.len(), st.funcs.len()));
    }
    assert forall|k: int| 0 <= k < st2.env.len() implies #[trigger] st2.env[k].local_count <= st2.vars.len() by {
        if k < st.env.len() {
            assert(st.env[k].local_count <= st.vars.len());
        }
    }
}

proof fn lemma_end_wf(st: RState)
    requires
        wf_rstate(st),
        st.env.len() >= 2,
    ensures
        wf_rstate(end_scope(st)),
{
    let st2 = end_scope(st);
    assert forall|k: int, j: int| 0 <= k < st2.env.len() && 0 <= j < st2.env[k].bindings.len() implies ref_ok(
        #[trigger] st2.env[k].bindings[j].1,
        st2.vars.len(),
        st2.funcs.len(),
    ) by {
        assert(ref_ok(st.env[k].bindings[j].1, st.vars.len(), st.funcs.len()));
    }
    assert forall|k: int| 0 <= k < st2.env.len() implies #[trigger] st2.env[k].local_count <= st2.vars.len() by {
        assert(st.env[k].local_count <= st.vars.len());
    }
}

proof fn lemma_res_params_wf(ps: Seq<(Seq<char>, Seq<char>)>, st: RState)
    requires
        wf_rstate(st),
    ensures
        wf_rstate(res_params(ps, st).1),
        res_params(ps, st).1.env.len() == st.env.len(),
        res_params(ps, st).1.funcs == st.funcs,
        res_params(ps, st).1.vars.len() >= st.vars.len(),
    decreases ps.len(),
{
    if ps.len() > 0 {
        let (r0, s1) = res_param(ps[0], st);
        if let Some(t) = crate::analyzer::resolver::model::type_named(ps[0].1) {
            lemma_declare_wf(st, ps[0].0, Some(t));
        }
        lemma_res_params_wf(ps.subrange(1, ps.len() as int), s1);
    }
}

// ---------------------------------------------------------------------------
// Statements
// ---------------------------------------------------------------------------

proof fn lemma_oks_refs_stmts(rs: Seq<Result<SpecStmt, SpecRefError>>, nv: nat, nf: nat)
    requires
        forall|i: int| 0 <= i < rs.len() ==> (#[trigger] rs[i] matches Ok(x) ==> refs_stmt(x, nv, nf)),
    ensures
        refs_stmts(oks(rs), nv, nf),
{
    lemma_oks_members(rs);
    lemma_refs_stmts_index(oks(rs), nv, nf);
    assert forall|j: int| 0 <= j < oks(rs).len() implies refs_stmt(#[trigger] oks(rs)[j], nv, nf) by {
        let i = choose|i: int| 0 <= i < rs.len() && #[trigger] rs[i] == Ok::<SpecStmt, SpecRefError>(oks(rs)[j]);
    }
}

proof fn lemma_res_stmt(s: SpecStmt, st: RState)
    requires
        wf_rstate(st),
        surface_stmt(s),
    ensures
        res_stmt(s, st) matches Some((r, st2)) && wf_rstate(st2) && st2.env.len() == st.env.len() && st2.funcs.len()
            == st.funcs.len() && st2.vars.len() >= st.vars.len() && (r matches Ok(x) ==> refs_stmt(
            x,
            st2.vars.len(),
            st2.funcs.len(),
        )),
    decreases s,
{
    let nv = st.vars.len();
    let nf = st.funcs.len();
    match s {
        SpecStmt::Print { value } => {
            lemma_res_expr_refs(value, st.env, nv, nf);
        },
        SpecStmt::Call { expression } => {
            lemma_res_expr_refs(expression, st.env, nv, nf);
        },
        SpecStmt::VariableDeclaration { value, identifier, variable_type } => {
            lemma_res_expr_refs(value, st.env, nv, nf);
            let (r, es) = res_expr(value, st.env);
            let s1 = emit(st, es);
            if let Ok(v) = r {
                if let Ok(t) = crate::analyzer::resolver::model::resolve_type_model(variable_type) {
                    lemma_declare_wf(s1, identifier, t);
                    lemma_refs_expr_mono(v, nv, nv + 1, nf);
                }
            }
        },
        SpecStmt::ReturnStatement { return_value, function } => {
            lemma_env_lookup_ok(st.env, function, nv, nf);
            if let Some(v) = return_value {
                lemma_res_expr_refs(v, st.env, nv, nf);
            }
        },
        SpecStmt::FunctionDeclaration { identifier, param_list, return_type, block } => {
            lemma_env_lookup_ok(st.env, identifier, nv, nf);
            if let Ok(index) = lookup_function(st.env, identifier) {
                if let Ok(rt) = crate::analyzer::resolver::model::resolve_type_model(return_type) {
                    let s1 = open_scope(st);
                    lemma_open_wf(st);
                    lemma_res_params_wf(param_list, s1);
                    let (prs, s2) = res_params(param_list, s1);
                    lemma_res_stmts(block, s2);
                    let (brs, s3) = res_stmts(block, s2)->Some_0;
                    lemma_end_wf(emit(s3, errs(brs)));
                    lemma_oks_refs_stmts(brs, s3.vars.len(), s3.funcs.len());
                }
            }
        },
        _ => {},
    }
}

proof fn lemma_res_stmts(b: Seq<SpecStmt>, st: RState)
    requires
        wf_rstate(st),
        surface_stmts(b),
    ensures
        res_stmts(b, st) matches Some((rs, st2)) && wf_rstate(st2) && st2.env.len() == st.env.len()
            && st2.funcs.len() == st.funcs.len() && st2.vars.len() >= st.vars.len() && (forall|i: int|
            0 <= i < rs.len() ==> (#[trigger] rs[i] matches Ok(x) ==> refs_stmt(x, st2.vars.len(), st2.funcs.len()))),
    decreases b,
{
    if b.len() > 0 {
        let rest = b.subrange(1, b.len() as int);
        lemma_surface_stmts_index(b);
        lemma_surface_stmts_index(rest);
        assert forall|i: int| 0 <= i < rest.len() implies surface_stmt(#[trigger] rest[i]) by {
            assert(rest[i] == b[i + 1]);
        }
        lemma_res_stmt(b[0], st);
        let (r0, s1) = res_stmt(b[0], st)->Some_0;
        lemma_res_stmts(rest, s1);
        let (rs2, s2) = res_stmts(rest, s1)->Some_0;
        if let Ok(x) = r0 {
            lemma_refs_stmt_mono(x, s1.vars.len(), s2.vars.len(), s1.funcs.len());
        }
        let rs = seq![r0] + rs2;
        assert forall|i: int| 0 <= i < rs.len() implies (#[trigger] rs[i] matches Ok(x) ==> refs_stmt(
            x,
            s2.vars.len(),
            s2.funcs.len(),
        )) by {
            if i > 0 {
                assert(rs[i] == rs2[i - 1]);
            }
        }
    }
}

proof fn lemma_register_global_wf(ast: Seq<SpecStmt>, st: RState)
    requires
        wf_rstate(st),
    ensures
        wf_rstate(register_global(ast, st)),
    decreases ast.len(),
{
    if ast.len() > 0 {
        if let SpecStmt::FunctionDeclaration { identifier, .. } = ast[0] {
            lemma_register_wf(st, identifier);
        }
        let s1 = match ast[0] {
            SpecStmt::FunctionDeclaration { identifier, .. } => register_function(st, identifier),
            _ => st,
        };
        lemma_register_global_wf(ast.subrange(1, ast.len() as int), s1);
    }
}

// ---------------------------------------------------------------------------
// Laws
// ---------------------------------------------------------------------------

/// Resolution is defined on every program that holds none of the
/// constructs it writes, and every variable and function number in the
/// resolved program refers to an entry of the symbol table that comes with
/// it.
pub proof fn lemma_resolution_refs(ast: Seq<SpecStmt>)
    requires
        surface_stmts(ast),
    ensures
        resolve_model(ast) matches Some((prog, st)) && refs_stmts(prog, st.vars.len(), st.funcs.len()),
{
    let s0 = register_global(ast, initial_rstate());
    assert(wf_rstate(initial_rstate())) by {
        assert(initial_rstate().env[0] == empty_scope());
    }
    lemma_register_global_wf(ast, initial_rstate());
    lemma_res_stmts(ast, s0);
    let (rs, s1) = res_stmts(ast, s0)->Some_0;
    lemma_oks_refs_stmts(rs, s1.vars.len(), s1.funcs.len());
}

proof fn lemma_wf_tree_surface(e: SpecExpr)
    requires
        wf_tree(e),
    ensures
        surface_expr(e),
    decreases e,
{
    match e {
        SpecExpr::FunctionCall { argument_list, .. } => {
            lemma_wf_args_surface(argument_list);
            lemma_surface_args_index(argument_list);
        },
        SpecExpr::BinaryOperation { lhs, rhs, .. } => {
            lemma_wf_tree_surface(*lhs);
            lemma_wf_tree_surface(*rhs);
        },
        SpecExpr::Cast { operand, .. } => lemma_wf_tree_surface(*operand),
        _ => {},
    }
}

proof fn lemma_wf_args_surface(s: Seq<SpecExpr>)
    requires
        wf_args(s),
    ensures
        forall|i: int| 0 <= i < s.len() ==> surface_expr(#[trigger] s[i]),
    decreases s,
{
    if s.len() > 0 {
        let rest = s.subrange(1, s.len() as int);
        lemma_wf_tree_surface(s[0]);
        lemma_wf_args_surface(rest);
        assert forall|i: int| 0 <= i < s.len() implies surface_expr(#[trigger] s[i]) by {
            if i > 0 {
                assert(s[i] == rest[i - 1]);
            }
        }
    }
}

proof fn lemma_wf_stmt_surface(s: SpecStmt)
    requires
        wf_stmt(s),
    ensures
        surface_stmt(s),
    decreases s,
{
    match s {
        SpecStmt::Print { value } => {
            assert(wf_expr(value, 0));
            lemma_wf_tree_surface(value);
        },
        SpecStmt::Call { expression } => {
            assert(wf_expr(expression, 0));
            lemma_wf_tree_surface(expression);
        },
        SpecStmt::VariableDeclaration { value, .. } => {
            assert(wf_expr(value, 0));
            lemma_wf_tree_surface(value);
        },
        SpecStmt::FunctionDeclaration { identifier, block, .. } => {
            let n = block.len() - 1;
            let body = block.subrange(0, n);
            lemma_wf_stmts_surface(body);
            let last = block[n];
            assert(wf_return(last, identifier));
            if let SpecStmt::ReturnStatement { return_value, .. } = last {
                if let Some(v) = return_value {
                    assert(wf_expr(v, 0));
                    lemma_wf_tree_surface(v);
                }
            }
            assert(surface_stmt(last));
            assert(block.subrange(0, block.len() - 1) == body);
            assert(surface_stmts(block));
        },
        _ => {},
    }
}

proof fn lemma_wf_stmts_surface(b: Seq<SpecStmt>)
    requires
        wf_stmts(b),
    ensures
        surface_stmts(b),
    decreases b,
{
    if b.len() > 0 {
        lemma_wf_stmts_surface(b.subrange(0, b.len() - 1));
        lemma_wf_stmts_index(b, b.len() - 1);
        lemma_wf_stmt_surface(b[b.len() - 1]);
    }
}

/// Every program the parser gives (a well-formed statement list) can be
/// resolved: resolution is defined on it, and every number in the resolved
/// program refers to an entry of the symbol table that comes with it.
pub proof fn lemma_parsed_programs_resolve(ast: Seq<SpecStmt>)
    requires
        wf_stmts(ast),
    ensures
        resolve_model(ast) matches Some((prog, st)) && refs_stmts(prog, st.vars.len(), st.funcs.len()),
{
    lemma_wf_stmts_surface(ast);
    lemma_resolution_refs(ast);
}


// ---------------------------------------------------------------------------
// Scopes
// ---------------------------------------------------------------------------

/// `b` has as many scopes as `a`, and the same scopes outside the innermost.
pub open spec fn keeps_outer(a: Seq<SpecScope>, b: Seq<SpecScope>) -> bool {
    &&& b.len() == a.len()
    &&& b.subrange(0, a.len() - 1) == a.subrange(0, a.len() - 1)
}

/// Closing a scope right after opening it gives back the resolver as it was.
pub proof fn lemma_scope_round_trip(st: RState)
    ensures
        end_scope(open_scope(st)) == st,
{
    assert(open_scope(st).env.drop_last() =~= st.env);
}

/// Closing a scope undoes opening it, whatever was resolved in between:
/// after any statements resolved in a freshly opened scope (declarations,
/// and function declarations with their own scopes opened and closed),
/// closing it gives back the scopes as they were before the opening, so
/// every name resolves as it did then and the names bound since no longer
/// resolve.
pub proof fn lemma_scope_restores(b: Seq<SpecStmt>, st: RState, name: Seq<char>)
    ensures
        res_stmts(b, open_scope(st)) matches Some((_, st2)) ==> end_scope(st2).env == st.env && env_lookup(
            end_scope(st2).env,
            name,
        ) == env_lookup(st.env, name),
{
    let s1 = open_scope(st);
    lemma_res_stmts_outer(b, s1);
    if let Some((_, st2)) = res_stmts(b, s1) {
        let n = st.env.len() as int;
        assert(s1.env.subrange(0, n) =~= st.env);
        assert(end_scope(st2).env =~= st2.env.subrange(0, n));
    }
}

proof fn lemma_res_params_slots(ps: Seq<(Seq<char>, Seq<char>)>, st: RState)
    requires
        st.env.len() >= 1,
        forall|j: int| 0 <= j < ps.len() ==> (#[trigger] type_named(ps[j].1)) is Some,
        st.env.last().local_count + ps.len() <= usize::MAX,
    ensures
        res_params(ps, st).1.env.len() == st.env.len(),
        res_params(ps, st).1.env.last().local_count == st.env.last().local_count + ps.len(),
        res_params(ps, st).1.vars.len() == st.vars.len() + ps.len(),
        res_params(ps, st).1.vars.subrange(0, st.vars.len() as int) == st.vars,
        forall|j: int|
            0 <= j < ps.len() ==> (#[trigger] res_params(ps, st).1.vars[st.vars.len() + j]).index == st.env.last().local_count
                + j && res_params(ps, st).1.vars[st.vars.len() + j].identifier == ps[j].0,
    decreases ps.len(),
{
    let s2 = res_params(ps, st).1;
    if ps.len() == 0 {
        assert(st.vars.subrange(0, st.vars.len() as int) =~= st.vars);
    } else {
        let t = type_named(ps[0].1);
        assert(t is Some);
        let s1 = declare_variable(st, ps[0].0, t).1;
        assert(res_param(ps[0], st).1 == s1);
        let rest = ps.subrange(1, ps.len() as int);
        assert forall|j: int| 0 <= j < rest.len() implies (#[trigger] type_named(rest[j].1)) is Some by {
            assert(rest[j] == ps[j + 1]);
        }
        lemma_res_params_slots(rest, s1);
        assert(s2 == res_params(rest, s1).1);
        assert(s1.vars == st.vars.push(s1.vars.last()));
        assert(s2.vars.subrange(0, st.vars.len() as int) =~= s1.vars.subrange(0, st.vars.len() as int));
        assert forall|j: int| 0 <= j < ps.len() implies (#[trigger] s2.vars[st.vars.len() + j]).index == st.env.last().local_count
            + j && s2.vars[st.vars.len() + j].identifier == ps[j].0 by {
            if j == 0 {
                assert(s2.vars[st.vars.len() as int] == s2.vars.subrange(0, s1.vars.len() as int)[st.vars.len() as int]);
            } else {
                assert(rest[j - 1] == ps[j]);
                assert(s2.vars[s1.vars.len() + (j - 1)] == s2.vars[st.vars.len() + j]);
            }
        }
    }
}

/// Entering a function gives its parameters the first slots of its frame:
/// from any resolver state, whatever variables were declared outside the
/// function, its parameters (each with a known type) are entered in the
/// variable table in order, the `j`-th with slot `j` and its own name.
pub proof fn lemma_parameters_take_first_slots(ps: Seq<(Seq<char>, Seq<char>)>, st: RState)
    requires
        forall|j: int| 0 <= j < ps.len() ==> (#[trigger] type_named(ps[j].1)) is Some,
        ps.len() <= usize::MAX,
    ensures
        res_params(ps, open_scope(st)).1.vars.len() == st.vars.len() + ps.len(),
        res_params(ps, open_scope(st)).1.vars.subrange(0, st.vars.len() as int) == st.vars,
        forall|j: int|
            0 <= j < ps.len() ==> (#[trigger] res_params(ps, open_scope(st)).1.vars[st.vars.len() + j]).index == j
                && res_params(ps, open_scope(st)).1.vars[st.vars.len() + j].identifier == ps[j].0,
{
    lemma_res_params_slots(ps, open_scope(st));
}

/// A declaration binds its name in the innermost scope: right after it, the
/// name resolves as a variable to the new entry of the variable table, zero
/// scopes out, and every other name resolves as before.
pub proof fn lemma_declared_name_resolves(st: RState, name: Seq<char>, t: Option<crate::common::Type>, other: Seq<char>)
    requires
        st.env.len() >= 1,
    ensures
        crate::analyzer::resolver::model::lookup_variable(declare_variable(st, name, t).1.env, name) == Ok::<
            (usize, usize),
            SpecRefError,
        >((st.vars.len() as usize, 0usize)),
        declare_variable(st, name, t).1.vars.len() == st.vars.len() + 1,
        other != name ==> env_lookup(declare_variable(st, name, t).1.env, other) == env_lookup(st.env, other),
{
    let e2 = declare_variable(st, name, t).1.env;
    let n = st.env.len();
    assert(e2.drop_last() =~= st.env.drop_last());
    let bs = e2.last().bindings;
    assert(bs.drop_last() =~= st.env.last().bindings);
}

proof fn lemma_declare_outer(st: RState, name: Seq<char>, t: Option<crate::common::Type>)
    requires
        st.env.len() >= 1,
    ensures
        keeps_outer(st.env, declare_variable(st, name, t).1.env),
{
    let e2 = declare_variable(st, name, t).1.env;
    assert(e2.subrange(0, st.env.len() - 1) =~= st.env.subrange(0, st.env.len() - 1));
}

proof fn lemma_res_params_outer(ps: Seq<(Seq<char>, Seq<char>)>, st: RState)
    requires
        st.env.len() >= 1,
    ensures
        keeps_outer(st.env, res_params(ps, st).1.env),
    decreases ps.len(),
{
    if ps.len() > 0 {
        let (r0, s1) = res_param(ps[0], st);
        if let Some(t) = crate::analyzer::resolver::model::type_named(ps[0].1) {
            lemma_declare_outer(st, ps[0].0, Some(t));
        }
        lemma_res_params_outer(ps.subrange(1, ps.len() as int), s1);
    }
}

proof fn lemma_res_stmt_outer(s: SpecStmt, st: RState)
    requires
        st.env.len() >= 1,
    ensures
        res_stmt(s, st) matches Some((_, st2)) ==> keeps_outer(st.env, st2.env) && (s is FunctionDeclaration
            ==> st2.env == st.env),
    decreases s,
{
    match s {
        SpecStmt::VariableDeclaration { value, identifier, variable_type } => {
            let (r, es) = res_expr(value, st.env);
            if let Ok(t) = crate::analyzer::resolver::model::resolve_type_model(variable_type) {
                lemma_declare_outer(emit(st, es), identifier, t);
            }
        },
        SpecStmt::FunctionDeclaration { identifier, param_list, return_type, block } => {
            let s1 = open_scope(st);
            lemma_res_params_outer(param_list, s1);
            let s2 = res_params(param_list, s1).1;
            lemma_res_stmts_outer(block, s2);
            if let Some((brs, s3)) = res_stmts(block, s2) {
                let n = st.env.len();
                assert(s2.env.subrange(0, n as int) == s1.env.subrange(0, n as int));
                assert(s1.env.subrange(0, n as int) =~= st.env);
                assert(s3.env.subrange(0, n as int) == s2.env.subrange(0, n as int));
                assert(s3.env.drop_last() =~= s3.env.subrange(0, n as int));
            }
        },
        _ => {},
    }
}

proof fn lemma_res_stmts_outer(b: Seq<SpecStmt>, st: RState)
    requires
        st.env.len() >= 1,
    ensures
        res_stmts(b, st) matches Some((_, st2)) ==> keeps_outer(st.env, st2.env),
    decreases b,
{
    if b.len() > 0 {
        lemma_res_stmt_outer(b[0], st);
        if let Some((r0, s1)) = res_stmt(b[0], st) {
            lemma_res_stmts_outer(b.subrange(1, b.len() as int), s1);
        }
    }
}

/// Resolving a function declaration gives back the scopes exactly as they
/// were: its scope is closed, so its parameters and the variables declared
/// in its body no longer resolve afterwards.
pub proof fn lemma_function_scope_closes(s: SpecStmt, st: RState, name: Seq<char>)
    requires
        st.env.len() >= 1,
        s is FunctionDeclaration,
    ensures
        res_stmt(s, st) matches Some((_, st2)) ==> st2.env == st.env && env_lookup(st2.env, name) == env_lookup(
            st.env,
            name,
        ),
{
    lemma_res_stmt_outer(s, st);
}

/// Statements leave every scope outside the innermost one as it was.
pub proof fn lemma_statements_keep_outer_scopes(b: Seq<SpecStmt>, st: RState)
    requires
        st.env.len() >= 1,
    ensures
        res_stmts(b, st) matches Some((_, st2)) ==> keeps_outer(st.env, st2.env),
{
    lemma_res_stmts_outer(b, st);
}

} // verus!

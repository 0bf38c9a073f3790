//! Semantic analysis: names are resolved first, then types are checked.
use vstd::prelude::*;
use crate::common::{AnalyzedAst, SpecStmt, SpecSymtable, Statement, stmts_view};

pub mod resolver;
pub mod type_checker;

use resolver::error::{ReferenceError, ref_errors_view};
use resolver::model::{RState, resolve_model};
use resolver::resolve_checked;
use type_checker::error::{TypeCheckError, check_errors_view};
use type_checker::model::{TState, type_check_model};
use type_checker::type_check_checked;

verus! {

/// Why a program was refused: the errors that resolution and type checking
/// reported, each in order.
#[derive(Debug)]
pub struct AnalysisError {
    pub reference_errors: Vec<ReferenceError>,
    pub type_errors: Vec<TypeCheckError>,
}

/// Resolution followed by type checking: `None` where either is not
/// defined, otherwise the checked program and both final states.
pub open spec fn analysis_model(ast: Seq<SpecStmt>) -> Option<(Seq<SpecStmt>, RState, TState)> {
    match resolve_model(ast) {
        None => None,
        Some((prog, rst)) => match type_check_model(prog, SpecSymtable { variables: rst.vars, functions: rst.funcs }) {
            None => None,
            Some((checked, tst)) => Some((checked, rst, tst)),
        },
    }
}

/// Analyzes a program on which resolution and type checking are defined and
/// report no error; it comes back resolved, with its casts annotated and its
/// symbol table complete. A program with errors is refused by
/// `analyze_checked`, which gives the errors found.
pub fn analyze(ast: Vec<Statement>) -> (r: AnalyzedAst)
    requires
        analysis_model(stmts_view(ast@)) matches Some((_, rst, tst)) && rst.errors.len() == 0 && tst.errors.len()
            == 0,
    ensures
        analysis_model(stmts_view(ast@)) matches Some((prog, _, tst)) && stmts_view(r.ast@) == prog && r.symtable@ == (
        SpecSymtable { variables: tst.vars, functions: tst.funcs }),
{
    analyze_checked(ast).unwrap().unwrap()
}

/// What `analyze` gives for a program whose analysis is defined.
pub open spec fn analysis_outcome(r: Result<AnalyzedAst, AnalysisError>, prog: Seq<SpecStmt>, rst: RState, tst: TState) -> bool {
    &&& (r is Ok <==> (rst.errors.len() == 0 && tst.errors.len() == 0))
    &&& (r matches Ok(a) ==> stmts_view(a.ast@) == prog && a.symtable@ == (SpecSymtable {
        variables: tst.vars,
        functions: tst.funcs,
    }))
    &&& (r matches Err(e) ==> ref_errors_view(e.reference_errors@) == rst.errors && check_errors_view(
        e.type_errors@,
    ) == tst.errors)
}

/// Analyzes a program where analysis is defined, and gives `None` where it
/// is not: where resolution meets a statement that is already resolved, or
/// type checking meets a construct it does not take (a boolean literal, a
/// variable whose type is not known yet).
pub fn analyze_checked(ast: Vec<Statement>) -> (r: Option<Result<AnalyzedAst, AnalysisError>>)
    ensures
        match analysis_model(stmts_view(ast@)) {
            None => r is None,
            Some((prog, rst, tst)) => r matches Some(x) && analysis_outcome(x, prog, rst, tst),
        },
{
    let (resolved, reference_errors) = match resolve_checked(ast) {
        None => return None,
        Some(x) => x,
    };
    let (checked, type_errors) = match type_check_checked(resolved) {
        None => return None,
        Some(x) => x,
    };
    if checked.error_mode {
        Some(Err(AnalysisError { reference_errors, type_errors }))
    } else {
        Some(Ok(AnalyzedAst { ast: checked.ast, symtable: checked.symtable }))
    }
}

} // verus!

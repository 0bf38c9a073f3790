//! Errors found while resolving names.
use vstd::prelude::*;

verus! {

#[derive(Debug, Clone, PartialEq)]
pub enum ReferenceError {
    UndefinedTypeName(String),
    UndefinedVariableName(String),
    UndefinedFunctionName(String),
    InvalidSymbolUseAsVariable(String),
    InvalidSymbolUseAsFunction(String),
}

/// The model of a reference error.
pub enum SpecRefError {
    UndefinedTypeName(Seq<char>),
    UndefinedVariableName(Seq<char>),
    UndefinedFunctionName(Seq<char>),
    InvalidSymbolUseAsVariable(Seq<char>),
    InvalidSymbolUseAsFunction(Seq<char>),
}

impl View for ReferenceError {
    type V = SpecRefError;

    open spec fn view(&self) -> SpecRefError {
        match self {
            ReferenceError::UndefinedTypeName(s) => SpecRefError::UndefinedTypeName(s@),
            ReferenceError::UndefinedVariableName(s) => SpecRefError::UndefinedVariableName(s@),
            ReferenceError::UndefinedFunctionName(s) => SpecRefError::UndefinedFunctionName(s@),
            ReferenceError::InvalidSymbolUseAsVariable(s) => SpecRefError::InvalidSymbolUseAsVariable(s@),
            ReferenceError::InvalidSymbolUseAsFunction(s) => SpecRefError::InvalidSymbolUseAsFunction(s@),
        }
    }
}

pub open spec fn ref_errors_view(s: Seq<ReferenceError>) -> Seq<SpecRefError> {
    s.map_values(|e: ReferenceError| e@)
}

} // verus!

//! Errors found while checking types.
use vstd::prelude::*;
use crate::common::{OperationType, Type};

verus! {

#[derive(Debug, Clone, PartialEq)]
pub enum TypeCheckError {
    MismatchedTypeError(TypeError),
    ReturnError(ReturnErr),
    /// The function, the number of its parameters and the number of
    /// arguments given.
    ArityError(String, usize, usize),
}

#[derive(Debug, Clone, PartialEq)]
pub enum ReturnErr {
    ValueReturnedOnNull(String),
    NullReturnedOnValue(String),
}

#[derive(Debug, Clone, PartialEq)]
pub enum TypeError {
    PrintValueError(Type),
    /// The variable, its type and the type of the value.
    VariableAssignmentError(String, Type, Type),
    /// The function, its return type and the type of the value.
    ReturnedValueError(String, Type, Type),
    /// The function, the parameter, its type and the type of the argument.
    ParameterArgumentError(String, String, Type, Type),
    /// The operation, the type it expects and the types of its operands.
    BinaryOperandError(OperationType, Type, Type, Type),
    ConditionError(Type),
}

pub enum SpecTypeError {
    PrintValueError(Type),
    VariableAssignmentError(Seq<char>, Type, Type),
    ReturnedValueError(Seq<char>, Type, Type),
    ParameterArgumentError(Seq<char>, Seq<char>, Type, Type),
    BinaryOperandError(OperationType, Type, Type, Type),
    ConditionError(Type),
}

pub enum SpecReturnErr {
    ValueReturnedOnNull(Seq<char>),
    NullReturnedOnValue(Seq<char>),
}

/// The model of a type checking error.
pub enum SpecCheckError {
    MismatchedTypeError(SpecTypeError),
    ReturnError(SpecReturnErr),
    ArityError(Seq<char>, usize, usize),
}

impl View for TypeError {
    type V = SpecTypeError;

    open spec fn view(&self) -> SpecTypeError {
        match self {
            TypeError::PrintValueError(t) => SpecTypeError::PrintValueError(*t),
            TypeError::VariableAssignmentError(n, a, b) => SpecTypeError::VariableAssignmentError(n@, *a, *b),
            TypeError::ReturnedValueError(n, a, b) => SpecTypeError::ReturnedValueError(n@, *a, *b),
            TypeError::ParameterArgumentError(f, p, a, b) => SpecTypeError::ParameterArgumentError(f@, p@, *a, *b),
            TypeError::BinaryOperandError(o, a, b, c) => SpecTypeError::BinaryOperandError(*o, *a, *b, *c),
            TypeError::ConditionError(t) => SpecTypeError::ConditionError(*t),
        }
    }
}

impl View for ReturnErr {
    type V = SpecReturnErr;

    open spec fn view(&self) -> SpecReturnErr {
        match self {
            ReturnErr::ValueReturnedOnNull(n) => SpecReturnErr::ValueReturnedOnNull(n@),
            ReturnErr::NullReturnedOnValue(n) => SpecReturnErr::NullReturnedOnValue(n@),
        }
    }
}

impl View for TypeCheckError {
    type V = SpecCheckError;

    open spec fn view(&self) -> SpecCheckError {
        match self {
            TypeCheckError::MismatchedTypeError(e) => SpecCheckError::MismatchedTypeError(e@),
            TypeCheckError::ReturnError(e) => SpecCheckError::ReturnError(e@),
            TypeCheckError::ArityError(n, a, b) => SpecCheckError::ArityError(n@, *a, *b),
        }
    }
}

pub open spec fn check_errors_view(s: Seq<TypeCheckError>) -> Seq<SpecCheckError> {
    s.map_values(|e: TypeCheckError| e@)
}

} // verus!

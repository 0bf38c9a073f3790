use tiro::analyzer::type_checker::error::{ReturnErr, TypeCheckError, TypeError};
use tiro::analyzer::type_checker::{type_check, type_check_checked, type_check_with_errors};
use tiro::common::{
    Expression, Function, LocalVariable, OperationType, ParamType, ResolvedAst, Statement, Symtable, Type,
};

fn type_check_error(ast: ResolvedAst) -> Option<TypeCheckError> {
    let (_, errors) = type_check_with_errors(ast);
    match errors.len() {
        0 => None,
        1 => Some(errors[0].clone()),
        _ => panic!("Unexpected number of error"),
    }
}

fn stri(s: &str) -> Expression {
    Expression::StringValue { value: s.to_string() }
}

fn num(v: u32) -> Expression {
    Expression::Number { value: v }
}

fn loc(id: usize, depth: usize) -> Expression {
    Expression::LocalVar { id, depth }
}

fn def(id: usize, body: Vec<Statement>, value: Option<Expression>) -> Statement {
    let mut block = body;
    block.push(Statement::ResolvedReturn { return_value: value, function: id });
    Statement::FunctionDefinition { identifier: id, block: Box::new(block) }
}

fn rescall(id: usize, args: Vec<Expression>) -> Expression {
    Expression::ResolvedFunctionCall { id, argument_list: Box::new(args) }
}

fn local(name: &str, index: usize, ty: Option<Type>) -> LocalVariable {
    LocalVariable { vartype: ty, identifier: name.to_string(), index }
}

fn function(name: &str, params: Vec<(&str, Type)>, ret: Option<Type>) -> Function {
    Function {
        return_type: ret,
        param_list: params.into_iter().map(|(i, t)| ParamType { identifier: i.to_string(), param_type: t }).collect(),
        identifier: name.to_string(),
    }
}

fn res_ast(ast: Vec<Statement>, vars: Vec<LocalVariable>, funcs: Vec<Function>) -> ResolvedAst {
    ResolvedAst { ast, symtable: Symtable { variable_table: vars, function_table: funcs }, error_mode: false }
}

#[test]
fn type_check_print() {
    assert_eq!(type_check_error(res_ast(vec![Statement::Print { value: stri("a") }], vec![], vec![])), None);
}

#[test]
fn variable_assignment() {
    assert_eq!(
        type_check_error(res_ast(
            vec![
                Statement::VariableAssignment { identifier: 0, value: stri("a") },
                Statement::Print { value: loc(0, 0) }
            ],
            vec![local("a", 0, Some(Type::StringType))],
            vec![]
        )),
        None
    );
}

#[test]
fn type_check_function_declaration() {
    assert_eq!(
        type_check_error(res_ast(
            vec![def(0, vec![], Some(loc(1, 0))), Statement::Call { expression: rescall(0, vec![stri("pff"), stri("aah")]) }],
            vec![local("a", 0, Some(Type::StringType)), local("b", 1, Some(Type::StringType))],
            vec![function("select", vec![("a", Type::StringType), ("b", Type::StringType)], Some(Type::StringType))]
        )),
        None
    );
}

#[test]
fn type_check_math_operation() {
    assert_eq!(
        type_check_error(res_ast(
            vec![Statement::Call { expression: Expression::binary(num(2), num(3), OperationType::Add) }],
            vec![],
            vec![]
        )),
        None
    );
}

#[test]
fn string_operation() {
    assert_eq!(
        type_check_error(res_ast(
            vec![Statement::Call { expression: Expression::binary(stri("a"), stri("b"), OperationType::Cat) }],
            vec![],
            vec![]
        )),
        None
    );
}

#[test]
fn type_inference() {
    assert_eq!(
        type_check_error(res_ast(
            vec![
                Statement::VariableAssignment { identifier: 0, value: stri("a") },
                Statement::Print { value: loc(0, 0) }
            ],
            vec![local("string", 0, None)],
            vec![]
        )),
        None
    );
}

#[test]
fn tests_cast() {
    assert_eq!(
        type_check_error(res_ast(
            vec![Statement::Call {
                expression: Expression::ResolvedCast { operand: Box::new(num(5)), output_type: Type::StringType }
            }],
            vec![],
            vec![]
        )),
        None
    );
}

#[test]
fn value_returned_on_null() {
    assert_eq!(
        type_check_error(res_ast(vec![def(0, vec![], Some(stri("error")))], vec![], vec![function("null", vec![], None)])),
        Some(TypeCheckError::ReturnError(ReturnErr::ValueReturnedOnNull("null".to_string())))
    );
}

#[test]
fn null_returned_on_value() {
    assert_eq!(
        type_check_error(res_ast(vec![def(0, vec![], None)], vec![], vec![function("str", vec![], Some(Type::StringType))])),
        Some(TypeCheckError::ReturnError(ReturnErr::NullReturnedOnValue("str".to_string())))
    );
}

#[test]
fn arity_error() {
    assert_eq!(
        type_check_error(res_ast(
            vec![def(0, vec![], None), Statement::Call { expression: rescall(0, vec![stri("pff"), stri("aah")]) }],
            vec![local("a", 0, Some(Type::StringType))],
            vec![function("id", vec![("a", Type::StringType)], None)]
        )),
        Some(TypeCheckError::ArityError("id".to_string(), 1, 2))
    );
}

#[test]
fn print_value_error() {
    assert_eq!(
        type_check_error(res_ast(vec![Statement::Print { value: num(2) }], vec![], vec![])),
        Some(TypeCheckError::MismatchedTypeError(TypeError::PrintValueError(Type::Integer)))
    );
}

#[test]
fn variable_assignment_error() {
    assert_eq!(
        type_check_error(res_ast(
            vec![Statement::VariableAssignment { identifier: 0, value: num(2) }],
            vec![local("error", 0, Some(Type::StringType))],
            vec![]
        )),
        Some(TypeCheckError::MismatchedTypeError(TypeError::VariableAssignmentError(
            "error".to_string(),
            Type::StringType,
            Type::Integer
        )))
    );
}

#[test]
fn returned_value_error() {
    assert_eq!(
        type_check_error(res_ast(
            vec![def(0, vec![], Some(stri("a")))],
            vec![],
            vec![function("error", vec![], Some(Type::Integer))]
        )),
        Some(TypeCheckError::MismatchedTypeError(TypeError::ReturnedValueError(
            "error".to_string(),
            Type::Integer,
            Type::StringType
        )))
    );
}

#[test]
fn parameter_argument_error() {
    assert_eq!(
        type_check_error(res_ast(
            vec![def(0, vec![], None), Statement::Call { expression: rescall(0, vec![stri("a")]) }],
            vec![local("error", 0, Some(Type::Integer))],
            vec![function("error", vec![("error", Type::Integer)], None)]
        )),
        Some(TypeCheckError::MismatchedTypeError(TypeError::ParameterArgumentError(
            "error".to_string(),
            "error".to_string(),
            Type::Integer,
            Type::StringType
        )))
    );
}

#[test]
fn binary_operand_error() {
    assert_eq!(
        type_check_error(res_ast(
            vec![Statement::Call { expression: Expression::binary(num(2), stri("a"), OperationType::Add) }],
            vec![],
            vec![]
        )),
        Some(TypeCheckError::MismatchedTypeError(TypeError::BinaryOperandError(
            OperationType::Add,
            Type::Integer,
            Type::Integer,
            Type::StringType
        )))
    );
}

#[test]
fn cast_is_annotated_with_its_input_type() {
    let r = type_check(res_ast(
        vec![Statement::Call {
            expression: Expression::ResolvedCast { operand: Box::new(num(5)), output_type: Type::StringType },
        }],
        vec![],
        vec![],
    ));
    assert!(!r.error_mode);
    assert_eq!(
        r.ast,
        vec![Statement::Call {
            expression: Expression::AnalyzedCast {
                operand: Box::new(num(5)),
                output_type: Type::StringType,
                input_type: Type::Integer
            }
        }]
    );
}

#[test]
fn untyped_variable_takes_the_type_of_its_value() {
    let r = type_check(res_ast(
        vec![Statement::VariableAssignment { identifier: 0, value: num(1) }],
        vec![local("n", 0, None)],
        vec![],
    ));
    assert_eq!(r.symtable.variable_table[0].vartype, Some(Type::Integer));
}

#[test]
fn earlier_errors_keep_the_flag() {
    let mut input = res_ast(vec![Statement::Print { value: stri("a") }], vec![], vec![]);
    input.error_mode = true;
    let (r, errors) = type_check_with_errors(input);
    assert!(errors.is_empty());
    assert!(r.error_mode);
}

#[test]
fn null_value_equals_no_type() {
    // A call to a function without a return type has the null type, which
    // is never equal to a parameter's type.
    let errors = type_check_with_errors(res_ast(
        vec![def(0, vec![], None), Statement::Call { expression: rescall(0, vec![]) }, Statement::Print { value: rescall(0, vec![]) }],
        vec![],
        vec![function("f", vec![], None)],
    ))
    .1;
    assert_eq!(errors.len(), 1);
    assert!(matches!(&errors[0], TypeCheckError::MismatchedTypeError(TypeError::PrintValueError(Type::Null(_)))));
}

#[test]
fn checking_is_not_defined_on_booleans_or_untyped_uses() {
    let with_bool = res_ast(vec![Statement::Call { expression: Expression::Boolean { value: true } }], vec![], vec![]);
    assert!(type_check_checked(with_bool).is_none());
    let untyped_use = res_ast(vec![Statement::Print { value: loc(0, 0) }], vec![local("x", 0, None)], vec![]);
    assert!(type_check_checked(untyped_use).is_none());
}

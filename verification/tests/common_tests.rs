use tiro::common::{Expression, OperationType, Type};

#[test]
fn null_type_is_null() {
    assert!(Type::null().is_null());
    assert!(!Type::Integer.is_null());
    assert_ne!(Type::null(), Type::null());
    let e = Expression::binary(Expression::Number { value: 1 }, Expression::Number { value: 2 }, OperationType::Add);
    assert_eq!(e, Expression::BinaryOperation {
        lhs: Box::new(Expression::Number { value: 1 }),
        rhs: Box::new(Expression::Number { value: 2 }),
        op_type: OperationType::Add,
    });
}

#[test]
fn copies_are_equal_to_what_they_copy() {
    let src = "sit a 1 fvnctio f(x:num)=>num reddi x + a echo f(a) :: cat";
    let ast = tiro::parser::parse(tiro::lexer::Lexer::new(src)).unwrap();
    let copy: Vec<tiro::common::Statement> = ast.iter().map(|s| s.clone()).collect();
    assert_eq!(copy, ast);
    let resolved = tiro::analyzer::resolver::resolve(ast);
    assert_eq!(resolved.clone(), resolved);
    let analyzed = tiro::analyzer::analyze(tiro::parser::parse(tiro::lexer::Lexer::new(src)).unwrap());
    assert_eq!(analyzed.clone(), analyzed);
    let e = Expression::FunctionCall { identifier: "g".to_string(), argument_list: Box::new(vec![Expression::Number { value: 3 }]) };
    assert_eq!(e.clone(), e);
}

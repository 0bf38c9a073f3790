use tiro::analyzer::resolver::error::ReferenceError;
use tiro::analyzer::resolver::{resolve, resolve_checked, resolve_with_errors};
use tiro::common::{
    Expression, Function, LocalVariable, OperationType, ParamType, Parameter, ResolvedAst, Statement, Symtable, Type,
};

fn resolve_error(ast: Vec<Statement>) -> Vec<ReferenceError> {
    resolve_with_errors(ast).1
}

fn stri(s: &str) -> Expression {
    Expression::StringValue { value: s.to_string() }
}

fn var(s: &str) -> Expression {
    Expression::Variable { identifier: s.to_string() }
}

fn loc(id: usize, depth: usize) -> Expression {
    Expression::LocalVar { id, depth }
}

fn decl(name: &str, ty: Option<&str>, value: Expression) -> Statement {
    Statement::VariableDeclaration { value, identifier: name.to_string(), variable_type: ty.map(|t| t.to_string()) }
}

fn func(name: &str, params: Vec<(&str, &str)>, ret: Option<&str>, body: Vec<Statement>, value: Option<Expression>) -> Statement {
    let mut block = body;
    block.push(Statement::ReturnStatement { return_value: value, function: name.to_string() });
    Statement::FunctionDeclaration {
        identifier: name.to_string(),
        param_list: params
            .into_iter()
            .map(|(i, t)| Parameter { identifier: i.to_string(), param_type: t.to_string() })
            .collect(),
        return_type: ret.map(|t| t.to_string()),
        block: Box::new(block),
    }
}

fn def(id: usize, body: Vec<Statement>, value: Option<Expression>) -> Statement {
    let mut block = body;
    block.push(Statement::ResolvedReturn { return_value: value, function: id });
    Statement::FunctionDefinition { identifier: id, block: Box::new(block) }
}

fn fncall(name: &str, args: Vec<Expression>) -> Expression {
    Expression::FunctionCall { identifier: name.to_string(), argument_list: Box::new(args) }
}

fn rescall(id: usize, args: Vec<Expression>) -> Expression {
    Expression::ResolvedFunctionCall { id, argument_list: Box::new(args) }
}

fn local(name: &str, index: usize, ty: Option<Type>) -> LocalVariable {
    LocalVariable { vartype: ty, identifier: name.to_string(), index }
}

fn function_entry(name: &str, params: Vec<(&str, Type)>, ret: Option<Type>) -> Function {
    Function {
        return_type: ret,
        param_list: params.into_iter().map(|(i, t)| ParamType { identifier: i.to_string(), param_type: t }).collect(),
        identifier: name.to_string(),
    }
}

fn res_ast(ast: Vec<Statement>, vars: Vec<LocalVariable>, funcs: Vec<Function>) -> ResolvedAst {
    ResolvedAst { ast, symtable: Symtable { variable_table: vars, function_table: funcs }, error_mode: false }
}

#[test]
fn variable() {
    assert_eq!(
        resolve(vec![decl("a", Some("cat"), stri("a")), Statement::Print { value: var("a") }]),
        res_ast(
            vec![
                Statement::VariableAssignment { identifier: 0, value: stri("a") },
                Statement::Print { value: loc(0, 0) }
            ],
            vec![local("a", 0, Some(Type::StringType))],
            vec![]
        )
    );
}

#[test]
fn function() {
    assert_eq!(
        resolve(vec![
            func("select", vec![("a", "cat"), ("b", "cat")], Some("cat"), vec![], Some(var("b"))),
            Statement::Call { expression: fncall("select", vec![stri("pff"), stri("aah")]) }
        ]),
        res_ast(
            vec![def(0, vec![], Some(loc(1, 0))), Statement::Call { expression: rescall(0, vec![stri("pff"), stri("aah")]) }],
            vec![local("a", 0, Some(Type::StringType)), local("b", 1, Some(Type::StringType))],
            vec![function_entry("select", vec![("a", Type::StringType), ("b", Type::StringType)], Some(Type::StringType))]
        )
    );
}

#[test]
fn recursive_function() {
    assert_eq!(
        resolve(vec![
            func("recur", vec![], None, vec![], Some(fncall("recur", vec![]))),
            Statement::Call { expression: fncall("recur", vec![]) }
        ]),
        res_ast(
            vec![def(0, vec![], Some(rescall(0, vec![]))), Statement::Call { expression: rescall(0, vec![]) }],
            vec![],
            vec![function_entry("recur", vec![], None)]
        )
    );
}

#[test]
fn binary_operation() {
    assert_eq!(
        resolve(vec![
            decl("a", None, Expression::Number { value: 2 }),
            decl("b", None, Expression::Number { value: 3 }),
            Statement::Call { expression: Expression::binary(var("a"), var("b"), OperationType::Add) }
        ]),
        res_ast(
            vec![
                Statement::VariableAssignment { identifier: 0, value: Expression::Number { value: 2 } },
                Statement::VariableAssignment { identifier: 1, value: Expression::Number { value: 3 } },
                Statement::Call { expression: Expression::binary(loc(0, 0), loc(1, 0), OperationType::Add) }
            ],
            vec![local("a", 0, None), local("b", 1, None)],
            vec![]
        )
    );
}

#[test]
fn variable_error() {
    assert_eq!(
        resolve_error(vec![Statement::Print { value: var("a") }]),
        vec![ReferenceError::UndefinedVariableName("a".to_string())]
    );
}

#[test]
fn symbol_as_variable_error() {
    assert_eq!(
        resolve_error(vec![func("error", vec![], None, vec![], None), Statement::Call { expression: var("error") }]),
        vec![ReferenceError::InvalidSymbolUseAsVariable("error".to_string())]
    );
}

#[test]
fn function_error() {
    assert_eq!(
        resolve_error(vec![Statement::Call { expression: fncall("error", vec![]) }]),
        vec![ReferenceError::UndefinedFunctionName("error".to_string())]
    );
}

#[test]
fn symbol_as_function_error() {
    assert_eq!(
        resolve_error(vec![decl("a", Some("cat"), stri("a")), Statement::Call { expression: fncall("a", vec![]) }]),
        vec![ReferenceError::InvalidSymbolUseAsFunction("a".to_string())]
    );
}

#[test]
fn type_error() {
    assert_eq!(
        resolve_error(vec![decl("a", Some("ouh"), stri("a"))]),
        vec![ReferenceError::UndefinedTypeName("ouh".to_string())]
    );
}

#[test]
fn error_mode_is_set_exactly_when_errors_are_reported() {
    let (ok, errors) = resolve_with_errors(vec![decl("a", None, stri("a"))]);
    assert!(!ok.error_mode);
    assert!(errors.is_empty());
    let (bad, errors) = resolve_with_errors(vec![Statement::Print { value: var("nope") }, decl("a", None, stri("a"))]);
    assert!(bad.error_mode);
    assert_eq!(errors.len(), 1);
    // The failed statement is dropped; the rest is kept.
    assert_eq!(bad.ast, vec![Statement::VariableAssignment { identifier: 0, value: stri("a") }]);
}

#[test]
fn later_binding_hides_earlier_one() {
    let r = resolve(vec![
        decl("a", None, stri("x")),
        decl("a", None, stri("y")),
        Statement::Print { value: var("a") },
    ]);
    assert_eq!(r.ast[2], Statement::Print { value: loc(1, 0) });
}

#[test]
fn outer_variable_has_depth_one() {
    let r = resolve(vec![
        decl("g", None, stri("x")),
        func("f", vec![], None, vec![Statement::Print { value: var("g") }], None),
    ]);
    assert_eq!(r.ast[1], def(0, vec![Statement::Print { value: loc(0, 1) }], None));
}

#[test]
fn errors_inside_arguments_come_first() {
    let errors = resolve_error(vec![
        func("f", vec![("x", "num")], None, vec![], None),
        Statement::Call { expression: fncall("f", vec![var("missing")]) },
        Statement::Print { value: var("other") },
    ]);
    assert_eq!(
        errors,
        vec![
            ReferenceError::UndefinedVariableName("missing".to_string()),
            ReferenceError::UndefinedVariableName("other".to_string())
        ]
    );
}

#[test]
fn cast_type_is_resolved() {
    let r = resolve(vec![Statement::Call {
        expression: Expression::Cast { operand: Box::new(Expression::Number { value: 1 }), output_type: "bin".to_string() },
    }]);
    assert_eq!(
        r.ast,
        vec![Statement::Call {
            expression: Expression::ResolvedCast {
                operand: Box::new(Expression::Number { value: 1 }),
                output_type: Type::Boolean
            }
        }]
    );
}

#[test]
fn resolution_is_not_defined_on_resolved_statements() {
    assert!(resolve_checked(vec![Statement::Call { expression: stri("a") }]).is_some());
    assert!(resolve_checked(vec![Statement::VariableAssignment { identifier: 0, value: stri("a") }]).is_none());
}

fn refs_in_expr(e: &Expression, nv: usize, nf: usize) {
    match e {
        Expression::LocalVar { id, .. } => assert!(*id < nv),
        Expression::ResolvedFunctionCall { id, argument_list } => {
            assert!(*id < nf);
            argument_list.iter().for_each(|a| refs_in_expr(a, nv, nf));
        }
        Expression::BinaryOperation { lhs, rhs, .. } => {
            refs_in_expr(lhs, nv, nf);
            refs_in_expr(rhs, nv, nf);
        }
        _ => {}
    }
}

fn refs_in_stmt(s: &Statement, nv: usize, nf: usize) {
    match s {
        Statement::VariableAssignment { value, identifier } => {
            assert!(*identifier < nv);
            refs_in_expr(value, nv, nf);
        }
        Statement::Call { expression } => refs_in_expr(expression, nv, nf),
        Statement::Print { value } => refs_in_expr(value, nv, nf),
        Statement::FunctionDefinition { identifier, block } => {
            assert!(*identifier < nf);
            block.iter().for_each(|s| refs_in_stmt(s, nv, nf));
        }
        Statement::ResolvedReturn { return_value, function } => {
            assert!(*function < nf);
            if let Some(v) = return_value {
                refs_in_expr(v, nv, nf);
            }
        }
        other => panic!("unexpected statement {:?}", other),
    }
}

#[test]
fn parsed_program_references_stay_in_the_table() {
    let src = "sit a 1 fvnctio f(x:num)=>num reddi x + a voc f(a) fvnctio g() voc f(2) reddi";
    let ast = tiro::parser::parse(tiro::lexer::Lexer::new(src)).unwrap();
    let r = resolve(ast);
    assert!(!r.error_mode);
    let nv = r.symtable.variable_table.len();
    let nf = r.symtable.function_table.len();
    for s in &r.ast {
        refs_in_stmt(s, nv, nf);
    }
    assert_eq!(nf, 2);
    assert_eq!(nv, 2);
}

#[test]
fn names_bound_in_a_function_do_not_outlive_it() {
    let errors = resolve_error(vec![
        func("f", vec![("x", "num")], None, vec![decl("y", None, stri("in"))], None),
        Statement::Print { value: var("x") },
        Statement::Print { value: var("y") },
    ]);
    assert_eq!(
        errors,
        vec![
            ReferenceError::UndefinedVariableName("x".to_string()),
            ReferenceError::UndefinedVariableName("y".to_string())
        ]
    );
}

#[test]
fn closing_a_function_scope_restores_the_outer_binding() {
    // The parameter `a` hides the outer `a` inside `f` only; after `f` the
    // outer one is found again, in the innermost scope.
    let r = resolve(vec![
        decl("a", None, stri("out")),
        func("f", vec![("a", "cat")], None, vec![Statement::Print { value: var("a") }], None),
        Statement::Print { value: var("a") },
    ]);
    assert_eq!(r.ast[1], def(0, vec![Statement::Print { value: loc(1, 0) }], None));
    assert_eq!(r.ast[2], Statement::Print { value: loc(0, 0) });
}

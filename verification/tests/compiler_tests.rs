use tiro::bytecode::{NumSize, Op};
use tiro::common::{
    AnalyzedAst, Expression, Function, LocalVariable, OperationType, ParamType, Statement, Symtable, Type,
};
use tiro::compiler::{compile, CompiledProgram};

/// Bytes of code: an instruction, or a one-byte operand.
enum B {
    O(Op),
    V(u8),
}

fn code(items: Vec<B>) -> Vec<u8> {
    let mut out = Vec::new();
    for item in items {
        match item {
            B::O(op) => out.push(op.code()),
            B::V(v) => {
                out.push(NumSize::_8.code());
                out.push(v);
            }
        }
    }
    out
}

fn program(main: Vec<B>, strings: Vec<&str>, functions: Vec<Vec<B>>) -> CompiledProgram {
    CompiledProgram {
        main_program: code(main),
        function_pool: functions.into_iter().map(code).collect(),
        string_pool: strings.into_iter().map(|s| s.to_string()).collect(),
    }
}

fn an_ast(ast: Vec<Statement>, vars: Vec<LocalVariable>, funcs: Vec<Function>) -> AnalyzedAst {
    AnalyzedAst { symtable: Symtable { variable_table: vars, function_table: funcs }, ast }
}

fn stri(s: &str) -> Expression {
    Expression::StringValue { value: s.to_string() }
}

fn num(v: u32) -> Expression {
    Expression::Number { value: v }
}

fn bin(op: OperationType, lhs: Expression, rhs: Expression) -> Expression {
    Expression::binary(lhs, rhs, op)
}

fn local(name: &str, index: usize, ty: Option<Type>) -> LocalVariable {
    LocalVariable { vartype: ty, identifier: name.to_string(), index }
}

#[test]
fn print() {
    assert_eq!(
        compile(an_ast(vec![Statement::Print { value: stri("a") }], vec![], vec![])),
        program(vec![B::O(Op::Push), B::V(0), B::O(Op::Write)], vec!["a"], vec![])
    );
}

#[test]
fn compiler_variable_declaration() {
    assert_eq!(
        compile(an_ast(
            vec![
                Statement::VariableAssignment { identifier: 0, value: stri("a") },
                Statement::Print { value: Expression::LocalVar { id: 0, depth: 0 } }
            ],
            vec![local("a", 0, Some(Type::StringType))],
            vec![]
        )),
        program(
            vec![B::O(Op::Push), B::V(0), B::O(Op::Load), B::V(0), B::V(0), B::O(Op::Write)],
            vec!["a"],
            vec![]
        )
    );
}

#[test]
fn compiler_function_declaration() {
    let def = Statement::FunctionDefinition {
        identifier: 0,
        block: Box::new(vec![Statement::ResolvedReturn {
            return_value: Some(Expression::LocalVar { id: 0, depth: 0 }),
            function: 0,
        }]),
    };
    let call = Statement::Call {
        expression: Expression::ResolvedFunctionCall { id: 0, argument_list: Box::new(vec![stri("a")]) },
    };
    assert_eq!(
        compile(an_ast(
            vec![def, call],
            vec![local("a", 0, Some(Type::StringType))],
            vec![Function {
                return_type: Some(Type::StringType),
                param_list: vec![ParamType { identifier: "a".to_string(), param_type: Type::StringType }],
                identifier: "id".to_string()
            }]
        )),
        program(
            vec![B::O(Op::Push), B::V(0), B::O(Op::Call), B::V(0), B::V(1), B::O(Op::Pop)],
            vec!["a"],
            vec![vec![B::O(Op::Load), B::V(0), B::V(0), B::O(Op::Return)]]
        )
    );
}

#[test]
fn tests_math_operation() {
    let e = bin(
        OperationType::Add,
        bin(OperationType::Sub, bin(OperationType::Mul, num(2), num(3)), num(5)),
        bin(OperationType::Div, bin(OperationType::Pow, num(2), num(4)), num(6)),
    );
    assert_eq!(
        compile(an_ast(vec![Statement::Call { expression: e }], vec![], vec![])),
        program(
            vec![
                B::O(Op::Push), B::V(6), B::O(Op::Push), B::V(4), B::O(Op::Push), B::V(2),
                B::O(Op::Pow), B::O(Op::Div), B::O(Op::Push), B::V(5), B::O(Op::Push), B::V(3), B::O(Op::Push), B::V(2),
                B::O(Op::Mul), B::O(Op::Sub), B::O(Op::Add), B::O(Op::Pop)
            ],
            vec![],
            vec![]
        )
    );
}

#[test]
fn tests_concat() {
    assert_eq!(
        compile(an_ast(vec![Statement::Call { expression: bin(OperationType::Cat, stri("a"), stri("b")) }], vec![], vec![])),
        program(vec![B::O(Op::Push), B::V(0), B::O(Op::Push), B::V(1), B::O(Op::Cat), B::O(Op::Pop)], vec!["b", "a"], vec![])
    );
}

#[test]
fn cast() {
    assert_eq!(
        compile(an_ast(
            vec![Statement::Call {
                expression: Expression::AnalyzedCast {
                    operand: Box::new(num(5)),
                    output_type: Type::StringType,
                    input_type: Type::Integer
                }
            }],
            vec![],
            vec![]
        )),
        program(vec![B::O(Op::Push), B::V(5), B::O(Op::Int2Str), B::O(Op::Pop)], vec![], vec![])
    );
}

#[test]
fn wide_operands() {
    let p = compile(an_ast(vec![Statement::Call { expression: num(300) }, Statement::Call { expression: num(4294967295) }], vec![], vec![]));
    assert_eq!(
        p.main_program,
        vec![
            Op::Push.code(), NumSize::_32.code(), 44, 1, 0, 0, Op::Pop.code(),
            Op::Push.code(), NumSize::_64.code(), 255, 255, 255, 255, 0, 0, 0, 0, Op::Pop.code()
        ]
    );
}

#[test]
fn operand_254_is_short_and_255_is_wide() {
    let p = compile(an_ast(vec![Statement::Call { expression: num(254) }, Statement::Call { expression: num(255) }], vec![], vec![]));
    assert_eq!(
        p.main_program,
        vec![Op::Push.code(), 0, 254, Op::Pop.code(), Op::Push.code(), 1, 255, 0, 0, 0, Op::Pop.code()]
    );
}

#[test]
fn empty_return_pushes_a_zero_tag() {
    let def = Statement::FunctionDefinition {
        identifier: 0,
        block: Box::new(vec![Statement::ResolvedReturn { return_value: None, function: 0 }]),
    };
    let p = compile(an_ast(vec![def], vec![], vec![]));
    assert_eq!(p.main_program, Vec::<u8>::new());
    assert_eq!(p.function_pool, vec![vec![Op::Push.code(), 0, Op::Return.code()]]);
}

#[test]
fn nested_definitions_take_later_slots() {
    let inner = Statement::FunctionDefinition {
        identifier: 1,
        block: Box::new(vec![Statement::Print { value: stri("in") }]),
    };
    let outer = Statement::FunctionDefinition {
        identifier: 0,
        block: Box::new(vec![Statement::Print { value: stri("out") }, inner, Statement::Print { value: stri("after") }]),
    };
    let p = compile(an_ast(vec![outer], vec![], vec![]));
    assert_eq!(p.string_pool, vec!["out".to_string(), "in".to_string(), "after".to_string()]);
    assert_eq!(
        p.function_pool,
        vec![
            vec![Op::Push.code(), 0, 0, Op::Write.code(), Op::Push.code(), 0, 2, Op::Write.code()],
            vec![Op::Push.code(), 0, 1, Op::Write.code()]
        ]
    );
}

#[test]
fn boolean_to_integer_cast_emits_nothing() {
    let p = compile(an_ast(
        vec![Statement::Call {
            expression: Expression::AnalyzedCast {
                operand: Box::new(Expression::Boolean { value: true }),
                output_type: Type::Integer,
                input_type: Type::Boolean,
            },
        }],
        vec![],
        vec![],
    ));
    assert_eq!(p.main_program, vec![Op::Push.code(), 0, 1, Op::Pop.code()]);
}

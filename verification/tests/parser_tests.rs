use tiro::common::{Expression, OperationType, Parameter, Statement};
use tiro::lexer::error::LexingError;
use tiro::lexer::token::Token;
use tiro::lexer::{tokenize, Lexer};
use tiro::parser::{parse, parse_block, parse_expression, ParseError};

fn parse_test(src: &str) -> Vec<Statement> {
    match parse(Lexer::new(src)) {
        Ok(ast) => ast,
        Err(e) => panic!("Parsing error: {:?}", e),
    }
}

fn stri(s: &str) -> Expression {
    Expression::StringValue { value: s.to_string() }
}

fn num(v: u32) -> Expression {
    Expression::Number { value: v }
}

fn var(s: &str) -> Expression {
    Expression::Variable { identifier: s.to_string() }
}

fn bin(op: OperationType, lhs: Expression, rhs: Expression) -> Expression {
    Expression::binary(lhs, rhs, op)
}

fn func(name: &str, params: Vec<(&str, &str)>, ret: Option<&str>, body: Vec<Statement>, value: Option<Expression>) -> Statement {
    let mut block = body;
    block.push(Statement::ReturnStatement { return_value: value, function: name.to_string() });
    Statement::FunctionDeclaration {
        identifier: name.to_string(),
        param_list: params
            .into_iter()
            .map(|(i, t)| Parameter { identifier: i.to_string(), param_type: t.to_string() })
            .collect(),
        return_type: ret.map(|t| t.to_string()),
        block: Box::new(block),
    }
}

#[test]
fn print_string() {
    assert_eq!(parse_test("echo \"a\""), vec![Statement::Print { value: stri("a") }]);
}

#[test]
fn tests_variable_declaration() {
    assert_eq!(
        parse_test("sit _a1:cat \"a\""),
        vec![Statement::VariableDeclaration {
            value: stri("a"),
            identifier: "_a1".to_string(),
            variable_type: Some("cat".to_string())
        }]
    );
}

#[test]
fn print_variable() {
    assert_eq!(parse_test("echo a"), vec![Statement::Print { value: var("a") }]);
}

#[test]
fn tests_function_declaration() {
    assert_eq!(
        parse_test("fvnctio greet() echo \"Hello\" reddi"),
        vec![func("greet", vec![], None, vec![Statement::Print { value: stri("Hello") }], None)]
    );
}

#[test]
fn str_id_declaration() {
    assert_eq!(
        parse_test("fvnctio str_id(a:cat, b:cat)=>cat reddi a"),
        vec![func("str_id", vec![("a", "cat"), ("b", "cat")], Some("cat"), vec![], Some(var("a")))]
    );
}

#[test]
fn tests_function_call() {
    assert_eq!(
        parse_test("voc a(\"a\")"),
        vec![Statement::Call {
            expression: Expression::FunctionCall { identifier: "a".to_string(), argument_list: Box::new(vec![stri("a")]) }
        }]
    );
}

#[test]
fn math_operation() {
    assert_eq!(
        parse_test("voc 3 + 2 * 4 / 6 - 1"),
        vec![Statement::Call {
            expression: bin(
                OperationType::Sub,
                bin(
                    OperationType::Add,
                    num(3),
                    bin(OperationType::Div, bin(OperationType::Mul, num(2), num(4)), num(6))
                ),
                num(1)
            )
        }]
    );
}

#[test]
fn concat() {
    assert_eq!(
        parse_test("voc \"a\" ~ \"b\""),
        vec![Statement::Call { expression: bin(OperationType::Cat, stri("a"), stri("b")) }]
    );
}

#[test]
fn power() {
    assert_eq!(
        parse_test("voc 2^4^5 + 2"),
        vec![Statement::Call {
            expression: bin(
                OperationType::Add,
                bin(OperationType::Pow, num(2), bin(OperationType::Pow, num(4), num(5))),
                num(2)
            )
        }]
    );
}

#[test]
#[should_panic(expected = "Parsing error: UnrecognizedToken")]
fn parser_error() {
    parse_test("echo echo");
}

#[test]
#[should_panic(expected = "Parsing error: User { error: InvalidToken")]
fn lexer_error() {
    parse_test("§");
}

#[test]
fn parse_errors_are_returned() {
    assert_eq!(parse(Lexer::new("echo echo")), Err(ParseError::UnrecognizedToken { token: Token::Echo }));
    assert_eq!(parse(Lexer::new("echo")), Err(ParseError::UnrecognizedEof));
    assert_eq!(parse(Lexer::new("§")), Err(ParseError::User { error: LexingError::InvalidToken('§') }));
}

#[test]
fn cast_binds_tighter_than_operators() {
    assert_eq!(
        parse_test("voc a + b :: num"),
        vec![Statement::Call {
            expression: bin(
                OperationType::Add,
                var("a"),
                Expression::Cast { operand: Box::new(var("b")), output_type: "num".to_string() }
            )
        }]
    );
}

#[test]
fn concat_binds_loosest() {
    assert_eq!(
        parse_test("voc 1 + 2 ~ \"x\""),
        vec![Statement::Call {
            expression: bin(OperationType::Cat, bin(OperationType::Add, num(1), num(2)), stri("x"))
        }]
    );
}

#[test]
fn expression_and_block_entry_points() {
    let ts = tokenize("1 - 2 - 3 echo").unwrap();
    let (e, end) = parse_expression(&ts, 0).unwrap();
    assert_eq!(e, bin(OperationType::Sub, bin(OperationType::Sub, num(1), num(2)), num(3)));
    assert_eq!(end, 5);
    let ts = tokenize("echo \"a\" voc f()").unwrap();
    let (b, end) = parse_block(&ts, 0).unwrap();
    assert_eq!(end, ts.len());
    assert_eq!(b.len(), 2);
}

#[test]
fn empty_program() {
    assert_eq!(parse_test(""), vec![]);
}

#[test]
fn refused_token_is_one_of_the_input() {
    assert_eq!(parse(Lexer::new("voc f(1 2)")), Err(ParseError::UnrecognizedToken { token: Token::Number(2) }));
    assert_eq!(parse(Lexer::new("voc f(1,")), Err(ParseError::UnrecognizedEof));
}

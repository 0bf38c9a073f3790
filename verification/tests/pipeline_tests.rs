use tiro::analyzer::{analyze, analyze_checked};
use tiro::analyzer::resolver::error::ReferenceError;
use tiro::analyzer::type_checker::error::{TypeCheckError, TypeError};
use tiro::common::Type;
use tiro::compiler::{compile, compile_checked};
use tiro::interpreter::{interpret, RuntimeError};
use tiro::lexer::Lexer;
use tiro::parser::parse;

fn run_source(src: &str) -> Vec<String> {
    let ast = parse(Lexer::new(src)).expect("parses");
    let analyzed = analyze(ast);
    interpret(compile(analyzed)).expect("runs")
}

#[test]
fn hello() {
    assert_eq!(run_source("echo \"Hello,\"\necho \"world!\""), vec!["Hello,", "world!"]);
}

#[test]
fn variables() {
    assert_eq!(run_source("sit a \"x\" echo a"), vec!["x"]);
    assert_eq!(run_source("sit x 3 + 2 echo x :: cat"), vec!["5"]);
    assert_eq!(run_source("sit x 7 - 2 * 3 echo x :: cat"), vec!["1"]);
}

#[test]
fn functions() {
    assert_eq!(run_source("fvnctio id(a:cat)=>cat reddi a echo id(\"z\")"), vec!["z"]);
    assert_eq!(run_source("fvnctio two(a:cat, b:cat)=>cat reddi a ~ b echo two(\"x\", \"y\")"), vec!["xy"]);
}

#[test]
fn bare_return_stops_at_the_end_of_the_function() {
    // `reddi` without a value compiles to a `Push` whose operand byte is the
    // `Return` that follows, so the run ends with the function's code.
    assert_eq!(run_source("fvnctio greet(n:cat) echo n reddi voc greet(\"hi\") echo \"after\""), vec!["hi"]);
}

#[test]
fn analysis_errors() {
    let ast = parse(Lexer::new("echo missing")).unwrap();
    let e = analyze_checked(ast).unwrap().unwrap_err();
    assert_eq!(e.reference_errors, vec![ReferenceError::UndefinedVariableName("missing".to_string())]);
    assert!(e.type_errors.is_empty());
    let ast = parse(Lexer::new("echo 3")).unwrap();
    let e = analyze_checked(ast).unwrap().unwrap_err();
    assert!(e.reference_errors.is_empty());
    assert_eq!(e.type_errors, vec![TypeCheckError::MismatchedTypeError(TypeError::PrintValueError(Type::Integer))]);
}

#[test]
fn short_operands_read_back_and_wide_ones_do_not() {
    // An operand below 255 takes one byte and is read back as written.
    assert_eq!(run_source("echo 254 :: cat"), vec!["254"]);
    // A wider operand takes four bytes but is read back from three, so the
    // fourth is taken for an instruction.
    let ast = parse(Lexer::new("echo 300 :: cat")).unwrap();
    let program = compile(analyze(ast));
    assert_eq!(interpret(program), Err(RuntimeError::InvalidNumSize(13)));
}

#[test]
fn unsupported_programs_are_refused_not_run() {
    // Boolean literals are not taken by type checking.
    let ast = parse(Lexer::new("echo vervm :: cat")).unwrap();
    assert!(analyze_checked(ast).is_none());
    // A conversion from a number to a number is not taken by the compiler.
    let ast = parse(Lexer::new("voc 5 :: num")).unwrap();
    let analyzed = analyze_checked(ast).unwrap().unwrap();
    assert!(compile_checked(analyzed).is_none());
}

#[test]
fn power_raises_and_groups_to_the_right() {
    assert_eq!(run_source("sit x 2^3 echo x :: cat"), vec!["8"]);
    assert_eq!(run_source("sit x 2^3^2 echo x :: cat"), vec!["512"]);
    assert_eq!(run_source("sit x 7^0 echo x :: cat"), vec!["1"]);
    assert_eq!(run_source("sit x 0^5 echo x :: cat"), vec!["0"]);
}

#[test]
fn power_past_a_word_overflows() {
    let ast = parse(Lexer::new("sit x 2^4^5 echo x :: cat")).unwrap();
    assert_eq!(interpret(compile(analyze(ast))), Err(RuntimeError::ArithmeticOverflow));
}

#[test]
fn a_call_statement_leaves_nothing_behind() {
    assert_eq!(run_source("fvnctio f()=>cat reddi \"y\" voc f() sit a:cat \"x\" echo a"), vec!["x"]);
    assert_eq!(run_source("fvnctio f()=>cat reddi \"y\" sit b f() sit a:cat \"x\" echo a ~ b"), vec!["xy"]);
}

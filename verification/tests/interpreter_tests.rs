use tiro::bytecode::{NumSize, Op};
use tiro::compiler::CompiledProgram;
use tiro::interpreter::{interpret, RuntimeError};

enum B {
    O(Op),
    V(u8),
}

fn code(items: Vec<B>) -> Vec<u8> {
    let mut out = Vec::new();
    for item in items {
        match item {
            B::O(op) => out.push(op.code()),
            B::V(v) => {
                out.push(NumSize::_8.code());
                out.push(v);
            }
        }
    }
    out
}

fn program(main: Vec<B>, strings: Vec<&str>, functions: Vec<Vec<B>>) -> CompiledProgram {
    CompiledProgram {
        main_program: code(main),
        function_pool: functions.into_iter().map(code).collect(),
        string_pool: strings.into_iter().map(|s| s.to_string()).collect(),
    }
}

fn run(p: CompiledProgram) -> Vec<String> {
    interpret(p).unwrap()
}

#[test]
fn tests_print() {
    assert_eq!(run(program(vec![B::O(Op::Push), B::V(0), B::O(Op::Write)], vec!["a"], vec![])), vec!["a"]);
}

#[test]
fn interpreter_variable_declaration() {
    assert_eq!(
        run(program(vec![B::O(Op::Push), B::V(0), B::O(Op::Load), B::V(0), B::V(0), B::O(Op::Write)], vec!["a"], vec![])),
        vec!["a"]
    );
}

#[test]
fn interpreter_function_declaration() {
    assert_eq!(
        run(program(
            vec![
                B::O(Op::Push), B::V(0), B::O(Op::Call), B::V(0), B::V(1),
                B::O(Op::Push), B::V(1), B::O(Op::Call), B::V(1), B::V(2), B::O(Op::Pop)
            ],
            vec!["pff", "aah"],
            vec![
                vec![B::O(Op::Load), B::V(0), B::V(0), B::O(Op::Write), B::O(Op::Load), B::V(0), B::V(0), B::O(Op::Return)],
                vec![
                    B::O(Op::Load), B::V(0), B::V(0), B::O(Op::Write),
                    B::O(Op::Load), B::V(1), B::V(0), B::O(Op::Write),
                    B::O(Op::Return)
                ]
            ]
        )),
        vec!["pff", "pff", "aah"]
    );
}

#[test]
fn concat_operation() {
    assert_eq!(
        run(program(vec![B::O(Op::Push), B::V(0), B::O(Op::Push), B::V(1), B::O(Op::Cat), B::O(Op::Write)], vec!["b", "a"], vec![])),
        vec!["ab"]
    );
}

#[test]
fn str_int_cast() {
    assert_eq!(
        run(program(
            vec![B::O(Op::Push), B::V(0), B::O(Op::Str2Int), B::O(Op::Push), B::V(2), B::O(Op::Add), B::O(Op::Int2Str), B::O(Op::Write)],
            vec!["3"],
            vec![]
        )),
        vec!["5"]
    );
}

#[test]
fn int_bool_cast() {
    assert_eq!(
        run(program(vec![B::O(Op::Push), B::V(5), B::O(Op::Int2Bool), B::O(Op::Int2Str), B::O(Op::Write)], vec![], vec![])),
        vec!["1"]
    );
}

#[test]
fn str_bool_cast() {
    assert_eq!(
        run(program(vec![B::O(Op::Push), B::V(0), B::O(Op::Str2Bool), B::O(Op::Bool2Str), B::O(Op::Write)], vec![""], vec![])),
        vec!["false"]
    );
}

#[test]
fn int_to_string_round_trip() {
    assert_eq!(
        run(program(vec![B::O(Op::Push), B::V(0), B::O(Op::Str2Int), B::O(Op::Int2Str), B::O(Op::Write)], vec!["1234567"], vec![])),
        vec!["1234567"]
    );
}

#[test]
fn nonempty_string_is_true() {
    assert_eq!(
        run(program(vec![B::O(Op::Push), B::V(0), B::O(Op::Str2Bool), B::O(Op::Bool2Str), B::O(Op::Write)], vec!["x"], vec![])),
        vec!["true"]
    );
}

#[test]
fn arithmetic_takes_the_top_word_as_left_operand() {
    // Push 2 then 7: the top word 7 is the left operand, so 7 - 2 = 5 and
    // 7 / 2 = 3; `Pow` raises 7 to the power 2 = 49.
    let sub = vec![B::O(Op::Push), B::V(2), B::O(Op::Push), B::V(7), B::O(Op::Sub), B::O(Op::Int2Str), B::O(Op::Write)];
    assert_eq!(run(program(sub, vec![], vec![])), vec!["5"]);
    let div = vec![B::O(Op::Push), B::V(2), B::O(Op::Push), B::V(7), B::O(Op::Div), B::O(Op::Int2Str), B::O(Op::Write)];
    assert_eq!(run(program(div, vec![], vec![])), vec!["3"]);
    let pow = vec![B::O(Op::Push), B::V(2), B::O(Op::Push), B::V(7), B::O(Op::Pow), B::O(Op::Int2Str), B::O(Op::Write)];
    assert_eq!(run(program(pow, vec![], vec![])), vec!["49"]);
}

#[test]
fn runtime_errors() {
    assert_eq!(interpret(program(vec![B::O(Op::Pop)], vec![], vec![])), Err(RuntimeError::EmptyStack));
    assert_eq!(interpret(program(vec![B::O(Op::Push), B::V(3), B::O(Op::Write)], vec![], vec![])), Err(RuntimeError::StringIndexOutOfBounds));
    assert_eq!(
        interpret(program(vec![B::O(Op::Push), B::V(0), B::O(Op::Push), B::V(1), B::O(Op::Div)], vec![], vec![])),
        Err(RuntimeError::DivisionByZero)
    );
    assert_eq!(
        interpret(program(vec![B::O(Op::Push), B::V(2), B::O(Op::Push), B::V(1), B::O(Op::Sub)], vec![], vec![])),
        Err(RuntimeError::ArithmeticOverflow)
    );
    assert_eq!(
        interpret(CompiledProgram { main_program: vec![0x11], function_pool: vec![], string_pool: vec![] }),
        Err(RuntimeError::InvalidOpcode(0x11))
    );
    assert_eq!(
        interpret(CompiledProgram { main_program: vec![Op::Push.code(), 3, 0], function_pool: vec![], string_pool: vec![] }),
        Err(RuntimeError::InvalidNumSize(3))
    );
    assert_eq!(
        interpret(CompiledProgram { main_program: vec![Op::Push.code(), 0], function_pool: vec![], string_pool: vec![] }),
        Err(RuntimeError::UnexpectedEnd)
    );
    assert_eq!(
        interpret(program(vec![B::O(Op::Push), B::V(0), B::O(Op::Str2Int)], vec!["12a"], vec![])),
        Err(RuntimeError::InvalidNumber)
    );
    assert_eq!(
        interpret(program(vec![B::O(Op::Load), B::V(0), B::V(0)], vec![], vec![])),
        Err(RuntimeError::StackIndexOutOfBounds)
    );
    assert_eq!(
        interpret(program(vec![B::O(Op::Call), B::V(0), B::V(0)], vec![], vec![])),
        Err(RuntimeError::FunctionIndexOutOfBounds)
    );
    // The main program has no frame header to return through.
    assert_eq!(
        interpret(program(vec![B::O(Op::Push), B::V(0), B::O(Op::Return)], vec![], vec![])),
        Err(RuntimeError::StackIndexOutOfBounds)
    );
}

#[test]
fn return_restores_the_caller() {
    // The function writes its argument and returns it; the caller writes the
    // returned index again.
    let p = program(
        vec![B::O(Op::Push), B::V(0), B::O(Op::Call), B::V(0), B::V(1), B::O(Op::Write)],
        vec!["x"],
        vec![vec![B::O(Op::Load), B::V(0), B::V(0), B::O(Op::Write), B::O(Op::Load), B::V(0), B::V(0), B::O(Op::Return)]],
    );
    assert_eq!(run(p), vec!["x", "x"]);
}

#[test]
fn broken_frame_headers() {
    // The function pops the frame header and pushes words of its own in
    // its place: returning then finds no valid frame tag.
    let p = program(
        vec![B::O(Op::Call), B::V(0), B::V(0)],
        vec![],
        vec![vec![
            B::O(Op::Pop), B::O(Op::Pop), B::O(Op::Pop),
            B::O(Op::Push), B::V(7), B::O(Op::Push), B::V(7), B::O(Op::Push), B::V(7),
            B::O(Op::Push), B::V(9), B::O(Op::Return)
        ]],
    );
    assert_eq!(interpret(p), Err(RuntimeError::InvalidFrame(7)));
    // A block frame that links to itself never reaches a function frame.
    let p = program(
        vec![B::O(Op::Call), B::V(0), B::V(0)],
        vec![],
        vec![vec![
            B::O(Op::Pop), B::O(Op::Pop), B::O(Op::Pop),
            B::O(Op::Push), B::V(5), B::O(Op::Push), B::V(0), B::O(Op::Push), B::V(3),
            B::O(Op::Push), B::V(9), B::O(Op::Return)
        ]],
    );
    assert_eq!(interpret(p), Err(RuntimeError::FrameCycle));
}

#[test]
fn outer_frame_is_reached_by_depth() {
    // Main holds "g" at base 0; the called function loads it at depth 1.
    let p = program(
        vec![B::O(Op::Push), B::V(0), B::O(Op::Call), B::V(0), B::V(0)],
        vec!["g"],
        vec![vec![B::O(Op::Load), B::V(0), B::V(1), B::O(Op::Write)]],
    );
    assert_eq!(run(p), vec!["g"]);
}

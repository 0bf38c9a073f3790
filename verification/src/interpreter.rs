//! A stack machine that runs compiled programs.
//!
//! The stack holds words. A function call pushes a frame header of three
//! words (the caller's function, the tag `Frame::Func` and the caller's frame
//! base) and then the arguments; a frame's base is the position of its first
//! local, and the main program's base is 0. Every code block is read once,
//! from where it was last left.
use vstd::prelude::*;
use crate::bytecode::{Frame, NumSize, Op, frame_of_word, lemma_op_code_roundtrip, num_size_of_code, op_of_code};
use crate::compiler::{CompiledProgram, SpecProgram, code_pool_view, string_pool_view};
use crate::compiler::model::{binary_op, cast_code, value_bytes};
use crate::common::OperationType;
use crate::common::Type;
use crate::lexer::{chars_of, lemma_value_from};
use crate::lexer::push_char;
use crate::lexer::spec::{digit_value, is_digit, is_number_char, number_value};

verus! {

/// Why a program stopped before its end.
#[derive(Debug, Clone, Copy, PartialEq, Eq, Structural)]
pub enum RuntimeError {
    /// A byte where an instruction was expected that is none.
    InvalidOpcode(u8),
    /// A byte where an operand width was expected that is none.
    InvalidNumSize(u8),
    /// A stack word where a frame tag was expected that is none.
    InvalidFrame(usize),
    /// The code ended in the middle of an operand.
    UnexpectedEnd,
    EmptyStack,
    StackIndexOutOfBounds,
    StringIndexOutOfBounds,
    FunctionIndexOutOfBounds,
    ArithmeticOverflow,
    DivisionByZero,
    /// A string converted to a number is not a decimal number.
    InvalidNumber,
    /// The chain of frames loops and never reaches a function frame.
    FrameCycle,
}

/// The model of the machine: the main code and how far it has been read,
/// the function codes and how far each has been read, the string pool, the
/// stack, the lines written, the current frame base and the code being run
/// (0 for the main program, `i + 1` for function `i`).
pub struct VmState {
    pub main: Seq<u8>,
    pub main_pos: int,
    pub functions: Seq<Seq<u8>>,
    pub positions: Seq<int>,
    pub strings: Seq<Seq<char>>,
    pub stack: Seq<usize>,
    pub output: Seq<Seq<char>>,
    pub frame: usize,
    pub function: usize,
}

pub open spec fn wf_state(st: VmState) -> bool {
    &&& 0 <= st.main_pos <= st.main.len()
    &&& st.positions.len() == st.functions.len()
    &&& forall|i: int| 0 <= i < st.functions.len() ==> 0 <= #[trigger] st.positions[i] <= st.functions[i].len()
}

/// The machine about to run a program.
pub open spec fn initial_state(p: SpecProgram) -> VmState {
    VmState {
        main: p.main,
        main_pos: 0,
        functions: p.functions,
        positions: Seq::new(p.functions.len(), |i: int| 0int),
        strings: p.strings,
        stack: Seq::empty(),
        output: Seq::empty(),
        frame: 0,
        function: 0,
    }
}

/// The next byte of the code being run (the main program when `function`
/// is 0, otherwise function `function - 1`), or `None` at its end.
pub open spec fn fetch(st: VmState) -> Result<Option<(u8, VmState)>, RuntimeError> {
    if st.function == 0 {
        if 0 <= st.main_pos < st.main.len() {
            Ok(Some((st.main[st.main_pos], VmState { main_pos: st.main_pos + 1, ..st })))
        } else {
            Ok(None)
        }
    } else {
        let id = st.function - 1;
        if id >= st.functions.len() || id >= st.positions.len() {
            Err(RuntimeError::FunctionIndexOutOfBounds)
        } else if 0 <= st.positions[id] < st.functions[id].len() {
            Ok(Some((st.functions[id][st.positions[id]], VmState { positions: st.positions.update(id, st.positions[id] + 1), ..st })))
        } else {
            Ok(None)
        }
    }
}

/// The next `n` bytes.
pub open spec fn read_bytes(st: VmState, n: nat) -> Result<(Seq<u8>, VmState), RuntimeError>
    decreases n,
{
    if n == 0 {
        Ok((Seq::empty(), st))
    } else {
        match fetch(st) {
            Err(e) => Err(e),
            Ok(None) => Err(RuntimeError::UnexpectedEnd),
            Ok(Some((b, s1))) => match read_bytes(s1, (n - 1) as nat) {
                Err(e) => Err(e),
                Ok((rest, s2)) => Ok((seq![b] + rest, s2)),
            },
        }
    }
}

/// The little-endian value of some bytes.
pub open spec fn le_value(bs: Seq<u8>) -> nat
    decreases bs.len(),
{
    if bs.len() == 0 {
        0
    } else {
        (bs[0] + 256 * le_value(bs.subrange(1, bs.len() as int))) as nat
    }
}

/// An operand: a width tag, then one byte, or three (little-endian, the
/// fourth taken as zero), or seven (the eighth taken as zero).
pub open spec fn read_value(st: VmState) -> Result<(usize, VmState), RuntimeError> {
    match fetch(st) {
        Err(e) => Err(e),
        Ok(None) => Err(RuntimeError::UnexpectedEnd),
        Ok(Some((tag, s1))) => match num_size_of_code(tag) {
            None => Err(RuntimeError::InvalidNumSize(tag)),
            Some(size) => {
                let n: nat = match size {
                    NumSize::_8 => 1,
                    NumSize::_32 => 3,
                    NumSize::_64 => 7,
                };
                match read_bytes(s1, n) {
                    Err(e) => Err(e),
                    Ok((bs, s2)) => if le_value(bs) <= usize::MAX {
                        Ok((le_value(bs) as usize, s2))
                    } else {
                        Err(RuntimeError::ArithmeticOverflow)
                    },
                }
            },
        },
    }
}

pub open spec fn push(st: VmState, v: usize) -> VmState {
    VmState { stack: st.stack.push(v), ..st }
}

pub open spec fn pop(st: VmState) -> Result<(usize, VmState), RuntimeError> {
    if st.stack.len() == 0 {
        Err(RuntimeError::EmptyStack)
    } else {
        Ok((st.stack[st.stack.len() - 1], VmState { stack: st.stack.subrange(0, st.stack.len() - 1), ..st }))
    }
}

/// Calls function `id` with the top `n` words as its arguments: the frame
/// header goes below them and the new frame begins at the first argument.
pub open spec fn call(st: VmState, id: usize, n: usize) -> Result<VmState, RuntimeError> {
    if n > st.stack.len() {
        Err(RuntimeError::EmptyStack)
    } else if id == usize::MAX {
        Err(RuntimeError::ArithmeticOverflow)
    } else {
        let k = st.stack.len() - n;
        Ok(VmState {
            stack: st.stack.subrange(0, k) + seq![st.function, 1usize, st.frame] + st.stack.subrange(k, st.stack.len() as int),
            frame: (k + 3) as usize,
            function: (id + 1) as usize,
            ..st
        })
    }
}

/// Follows frame headers from base `b` to the nearest function frame, and
/// gives the function and base to return to and the stack height to cut
/// back to (below the frame's header). More than `fuel` block frames in a row means the chain loops.
pub open spec fn unwind_walk(stack: Seq<usize>, b: usize, fuel: nat) -> Result<(usize, usize, int), RuntimeError>
    decreases fuel,
{
    if fuel == 0 {
        Err(RuntimeError::FrameCycle)
    } else if b < 2 || b - 2 >= stack.len() {
        Err(RuntimeError::StackIndexOutOfBounds)
    } else {
        match frame_of_word(stack[b - 2]) {
            None => Err(RuntimeError::InvalidFrame(stack[b - 2])),
            Some(Frame::Func) => if b < 3 || b - 1 >= stack.len() {
                Err(RuntimeError::StackIndexOutOfBounds)
            } else {
                Ok((stack[b - 3], stack[b - 1], b - 3))
            },
            Some(Frame::Block) => if b - 1 >= stack.len() {
                Err(RuntimeError::StackIndexOutOfBounds)
            } else {
                unwind_walk(stack, stack[b - 1], (fuel - 1) as nat)
            },
        }
    }
}

/// Leaves the current function frame.
pub open spec fn unwind(st: VmState) -> Result<VmState, RuntimeError> {
    match unwind_walk(st.stack, st.frame, st.stack.len() + 1) {
        Err(e) => Err(e),
        Ok((f, fr, cut)) => Ok(VmState { function: f, frame: fr, stack: st.stack.subrange(0, cut), ..st }),
    }
}

/// The base of the frame `depth` levels out from base `b`.
pub open spec fn frame_base(stack: Seq<usize>, b: usize, depth: usize) -> Option<usize>
    decreases depth,
{
    if depth == 0 {
        Some(b)
    } else if b == 0 || b - 1 >= stack.len() {
        None
    } else {
        frame_base(stack, stack[b - 1], (depth - 1) as usize)
    }
}

pub open spec fn load(st: VmState, index: usize, depth: usize) -> Result<VmState, RuntimeError> {
    match frame_base(st.stack, st.frame, depth) {
        None => Err(RuntimeError::StackIndexOutOfBounds),
        Some(b) => if b + index < st.stack.len() {
            Ok(push(st, st.stack[b + index]))
        } else {
            Err(RuntimeError::StackIndexOutOfBounds)
        },
    }
}

/// `b` raised to the power `e`.
pub open spec fn power(b: nat, e: nat) -> nat
    decreases e,
{
    if e == 0 {
        1
    } else {
        b * power(b, (e - 1) as nat)
    }
}

/// Arithmetic on the two top words: the top one is the left operand.
/// `Pow` raises the left operand to the power of the right one.
pub open spec fn arith(op: Op, lhs: usize, rhs: usize) -> Result<usize, RuntimeError> {
    match op {
        Op::Add => if lhs + rhs <= usize::MAX {
            Ok((lhs + rhs) as usize)
        } else {
            Err(RuntimeError::ArithmeticOverflow)
        },
        Op::Sub => if lhs >= rhs {
            Ok((lhs - rhs) as usize)
        } else {
            Err(RuntimeError::ArithmeticOverflow)
        },
        Op::Mul => if lhs * rhs <= usize::MAX {
            Ok((lhs * rhs) as usize)
        } else {
            Err(RuntimeError::ArithmeticOverflow)
        },
        Op::Div => if rhs == 0 {
            Err(RuntimeError::DivisionByZero)
        } else {
            Ok((lhs / rhs) as usize)
        },
        _ => if power(lhs as nat, rhs as nat) <= usize::MAX {
            Ok(power(lhs as nat, rhs as nat) as usize)
        } else {
            Err(RuntimeError::ArithmeticOverflow)
        },
    }
}

pub open spec fn digit_char(d: nat) -> char {
    if d == 0 { '0' } else if d == 1 { '1' } else if d == 2 { '2' } else if d == 3 { '3' }
    else if d == 4 { '4' } else if d == 5 { '5' } else if d == 6 { '6' } else if d == 7 { '7' }
    else if d == 8 { '8' } else { '9' }
}

/// The decimal numeral of `n`.
pub open spec fn decimal(n: nat) -> Seq<char>
    decreases n,
{
    if n < 10 {
        seq![digit_char(n)]
    } else {
        decimal(n / 10).push(digit_char(n % 10))
    }
}

/// The number a string of decimal digits denotes, if it is one.
pub open spec fn parse_decimal(s: Seq<char>) -> Option<nat> {
    if s.len() > 0 && forall|i: int| 0 <= i < s.len() ==> is_digit(#[trigger] s[i]) {
        Some(number_value(s))
    } else {
        None
    }
}

pub open spec fn true_text() -> Seq<char> {
    seq!['t', 'r', 'u', 'e']
}

pub open spec fn false_text() -> Seq<char> {
    seq!['f', 'a', 'l', 's', 'e']
}

/// Adds a string to the pool and pushes its index.
pub open spec fn push_new_string(st: VmState, s: Seq<char>) -> VmState {
    VmState { strings: st.strings.push(s), stack: st.stack.push(st.strings.len() as usize), ..st }
}

/// The effect of one instruction, whose byte has just been read.
pub open spec fn exec_op(op: Op, st: VmState) -> Result<VmState, RuntimeError> {
    match op {
        Op::Push => match read_value(st) {
            Ok((v, s)) => Ok(push(s, v)),
            Err(e) => Err(e),
        },
        Op::Pop => match pop(st) {
            Ok((_, s)) => Ok(s),
            Err(e) => Err(e),
        },
        Op::Call => match read_value(st) {
            Err(e) => Err(e),
            Ok((id, s1)) => match read_value(s1) {
                Err(e) => Err(e),
                Ok((n, s2)) => call(s2, id, n),
            },
        },
        Op::Return => match pop(st) {
            Err(e) => Err(e),
            Ok((rv, s1)) => match unwind(s1) {
                Err(e) => Err(e),
                Ok(s2) => Ok(push(s2, rv)),
            },
        },
        Op::Write => match pop(st) {
            Err(e) => Err(e),
            Ok((i, s1)) => if i < s1.strings.len() {
                Ok(VmState { output: s1.output.push(s1.strings[i as int]), ..s1 })
            } else {
                Err(RuntimeError::StringIndexOutOfBounds)
            },
        },
        Op::Load => match read_value(st) {
            Err(e) => Err(e),
            Ok((index, s1)) => match read_value(s1) {
                Err(e) => Err(e),
                Ok((depth, s2)) => load(s2, index, depth),
            },
        },
        Op::Cat => match pop(st) {
            Err(e) => Err(e),
            Ok((li, s1)) => if li >= s1.strings.len() {
                Err(RuntimeError::StringIndexOutOfBounds)
            } else {
                match pop(s1) {
                    Err(e) => Err(e),
                    Ok((ri, s2)) => if ri >= s2.strings.len() {
                        Err(RuntimeError::StringIndexOutOfBounds)
                    } else {
                        Ok(push_new_string(s2, s2.strings[li as int] + s2.strings[ri as int]))
                    },
                }
            },
        },
        Op::Str2Int => match pop(st) {
            Err(e) => Err(e),
            Ok((i, s1)) => if i >= s1.strings.len() {
                Err(RuntimeError::StringIndexOutOfBounds)
            } else {
                match parse_decimal(s1.strings[i as int]) {
                    Some(v) => if v <= usize::MAX {
                        Ok(push(s1, v as usize))
                    } else {
                        Err(RuntimeError::InvalidNumber)
                    },
                    None => Err(RuntimeError::InvalidNumber),
                }
            },
        },
        Op::Int2Str => match pop(st) {
            Err(e) => Err(e),
            Ok((v, s1)) => Ok(push_new_string(s1, decimal(v as nat))),
        },
        Op::Bool2Str => match pop(st) {
            Err(e) => Err(e),
            Ok((v, s1)) => Ok(push_new_string(s1, if v != 0 { true_text() } else { false_text() })),
        },
        Op::Int2Bool => match pop(st) {
            Err(e) => Err(e),
            Ok((v, s1)) => Ok(push(s1, if v != 0 { 1usize } else { 0usize })),
        },
        Op::Str2Bool => match pop(st) {
            Err(e) => Err(e),
            Ok((i, s1)) => if i >= s1.strings.len() {
                Err(RuntimeError::StringIndexOutOfBounds)
            } else {
                Ok(push(s1, if s1.strings[i as int].len() > 0 { 1usize } else { 0usize }))
            },
        },
        _ => match pop(st) {
            Err(e) => Err(e),
            Ok((lhs, s1)) => match pop(s1) {
                Err(e) => Err(e),
                Ok((rhs, s2)) => match arith(op, lhs, rhs) {
                    Err(e) => Err(e),
                    Ok(v) => Ok(push(s2, v)),
                },
            },
        },
    }
}

/// What one step of the machine leads to: the end of the run, the next
/// state, or a fault.
pub enum Step {
    Halt,
    Next(VmState),
    Fault(RuntimeError),
}

/// One step: read an instruction and carry it out; at the end of the
/// current code the machine halts.
pub open spec fn step(st: VmState) -> Step {
    match fetch(st) {
        Err(e) => Step::Fault(e),
        Ok(None) => Step::Halt,
        Ok(Some((b, s1))) => match op_of_code(b) {
            None => Step::Fault(RuntimeError::InvalidOpcode(b)),
            Some(op) => match exec_op(op, s1) {
                Err(e) => Step::Fault(e),
                Ok(s2) => Step::Next(s2),
            },
        },
    }
}

pub open spec fn pool_budget(fs: Seq<Seq<u8>>, ps: Seq<int>) -> int
    decreases fs.len(),
{
    if fs.len() == 0 || ps.len() != fs.len() {
        0
    } else {
        pool_budget(fs.subrange(0, fs.len() - 1), ps.subrange(0, ps.len() - 1)) + (fs[fs.len() - 1].len()
            - ps[ps.len() - 1])
    }
}

/// The bytes that remain to be read; every step reads at least one.
pub open spec fn budget(st: VmState) -> int {
    (st.main.len() - st.main_pos) + pool_budget(st.functions, st.positions)
}

/// The output of running the machine to its halt, or the fault that stops it.
pub open spec fn run(st: VmState) -> Result<Seq<Seq<char>>, RuntimeError>
    decreases budget(st),
{
    match step(st) {
        Step::Halt => Ok(st.output),
        Step::Fault(e) => Err(e),
        Step::Next(s2) => if 0 <= budget(s2) < budget(st) {
            run(s2)
        } else {
            Err(RuntimeError::UnexpectedEnd)
        },
    }
}

// ---------------------------------------------------------------------------
// Lemmas
// ---------------------------------------------------------------------------

pub open spec fn same_code(a: VmState, b: VmState) -> bool {
    &&& a.main == b.main
    &&& a.functions == b.functions
}

/// States that share their code, with the second no further back in it.
pub open spec fn advanced(a: VmState, b: VmState) -> bool {
    &&& same_code(a, b)
    &&& wf_state(b)
    &&& budget(b) <= budget(a)
}

proof fn lemma_pool_budget_nonneg(fs: Seq<Seq<u8>>, ps: Seq<int>)
    requires
        ps.len() == fs.len(),
        forall|i: int| 0 <= i < fs.len() ==> 0 <= #[trigger] ps[i] <= fs[i].len(),
    ensures
        pool_budget(fs, ps) >= 0,
    decreases fs.len(),
{
    if fs.len() > 0 {
        let n = fs.len() - 1;
        assert forall|i: int| 0 <= i < n implies 0 <= #[trigger] ps.subrange(0, n)[i] <= fs.subrange(0, n)[i].len() by {
            assert(ps.subrange(0, n)[i] == ps[i]);
        }
        lemma_pool_budget_nonneg(fs.subrange(0, n), ps.subrange(0, n));
    }
}

proof fn lemma_pool_budget_step(fs: Seq<Seq<u8>>, ps: Seq<int>, id: int)
    requires
        ps.len() == fs.len(),
        0 <= id < fs.len(),
    ensures
        pool_budget(fs, ps.update(id, ps[id] + 1)) == pool_budget(fs, ps) - 1,
    decreases fs.len(),
{
    let n = fs.len() - 1;
    let qs = ps.update(id, ps[id] + 1);
    if id == n {
        assert(qs.subrange(0, n) =~= ps.subrange(0, n));
    } else {
        assert(qs.subrange(0, n) =~= ps.subrange(0, n).update(id, ps[id] + 1));
        lemma_pool_budget_step(fs.subrange(0, n), ps.subrange(0, n), id);
    }
}

/// Reading a byte reads exactly one.
proof fn lemma_fetch(st: VmState)
    requires
        wf_state(st),
    ensures
        fetch(st) matches Ok(Some((_, s1))) ==> same_code(st, s1) && wf_state(s1) && budget(s1) == budget(st) - 1
            && s1.stack == st.stack && s1.strings == st.strings && s1.output == st.output && s1.frame == st.frame
            && s1.function == st.function,
        budget(st) >= 0,
{
    lemma_pool_budget_nonneg(st.functions, st.positions);
    if st.function != 0 {
        let id = st.function - 1;
        if id < st.functions.len() && st.positions[id] < st.functions[id].len() {
            lemma_pool_budget_step(st.functions, st.positions, id);
            let s1 = VmState { positions: st.positions.update(id, st.positions[id] + 1), ..st };
            assert forall|i: int| 0 <= i < s1.functions.len() implies 0 <= #[trigger] s1.positions[i] <= s1.functions[i].len() by {
                if i != id {
                    assert(s1.positions[i] == st.positions[i]);
                }
            }
        }
    }
}

proof fn lemma_read_bytes(st: VmState, n: nat)
    requires
        wf_state(st),
    ensures
        read_bytes(st, n) matches Ok((bs, s1)) ==> advanced(st, s1) && bs.len() == n && s1.stack == st.stack
            && s1.strings == st.strings && s1.output == st.output && s1.frame == st.frame && s1.function == st.function,
    decreases n,
{
    if n > 0 {
        lemma_fetch(st);
        if let Ok(Some((b, s1))) = fetch(st) {
            lemma_read_bytes(s1, (n - 1) as nat);
        }
    }
}

proof fn lemma_read_value(st: VmState)
    requires
        wf_state(st),
    ensures
        read_value(st) matches Ok((_, s1)) ==> advanced(st, s1) && s1.stack == st.stack && s1.strings
            == st.strings && s1.output == st.output && s1.frame == st.frame && s1.function == st.function,
{
    lemma_fetch(st);
    if let Ok(Some((tag, s1))) = fetch(st) {
        lemma_read_bytes(s1, 1);
        lemma_read_bytes(s1, 3);
        lemma_read_bytes(s1, 7);
    }
}

/// Carrying out an instruction never moves back in the code.
proof fn lemma_exec_op(op: Op, st: VmState)
    requires
        wf_state(st),
    ensures
        exec_op(op, st) matches Ok(s2) ==> advanced(st, s2),
{
    lemma_fetch(st);
    lemma_read_value(st);
    if let Ok((_, s1)) = read_value(st) {
        lemma_read_value(s1);
    }
}

/// Every step reads at least one byte.
pub proof fn lemma_step_progress(st: VmState)
    requires
        wf_state(st),
    ensures
        step(st) matches Step::Next(s2) ==> wf_state(s2) && 0 <= budget(s2) < budget(st),
{
    lemma_fetch(st);
    if let Ok(Some((b, s1))) = fetch(st) {
        if let Some(op) = op_of_code(b) {
            lemma_exec_op(op, s1);
            lemma_fetch(s1);
            if let Ok(s2) = exec_op(op, s1) {
                lemma_fetch(s2);
            }
        }
    }
}

pub open spec fn pow256(k: nat) -> nat
    decreases k,
{
    if k == 0 {
        1
    } else {
        256 * pow256((k - 1) as nat)
    }
}

proof fn lemma_pow256_mono(k: nat, j: nat)
    requires
        k <= j,
    ensures
        pow256(k) <= pow256(j),
    decreases j,
{
    if k < j {
        lemma_pow256_mono(k, (j - 1) as nat);
    }
}

// ---------------------------------------------------------------------------
// The machine
// ---------------------------------------------------------------------------

pub open spec fn positions_view(ps: Seq<usize>) -> Seq<int> {
    ps.map_values(|p: usize| p as int)
}

struct Interpreter {
    main_program: Vec<u8>,
    main_pos: usize,
    function_pool: Vec<Vec<u8>>,
    function_pos: Vec<usize>,
    string_pool: Vec<String>,
    stack: Vec<usize>,
    output: Vec<String>,
    current_frame: usize,
    current_function: usize,
}

/// The value of at most seven little-endian bytes, if it fits in a word.
fn le_number(bs: &Vec<u8>) -> (r: Option<usize>)
    requires
        bs.len() <= 7,
    ensures
        le_value(bs@) <= usize::MAX ==> r == Some(le_value(bs@) as usize),
        le_value(bs@) > usize::MAX ==> r is None,
{
    let mut acc: u64 = 0;
    let mut i = bs.len();
    proof {
        assert(bs@.subrange(i as int, bs.len() as int) =~= Seq::<u8>::empty());
    }
    while i > 0
        invariant
            i <= bs.len() <= 7,
            acc == le_value(bs@.subrange(i as int, bs.len() as int)),
            acc < pow256((bs.len() - i) as nat),
        decreases i,
    {
        i = i - 1;
        proof {
            let t = bs@.subrange(i as int, bs.len() as int);
            assert(t.subrange(1, t.len() as int) =~= bs@.subrange(i + 1, bs.len() as int));
            lemma_pow256_mono((bs.len() - i) as nat, 7);
            reveal_with_fuel(pow256, 8);
            assert(pow256((bs.len() - i) as nat) == 256 * pow256((bs.len() - i - 1) as nat));
        }
        acc = bs[i] as u64 + 256 * acc;
    }
    proof {
        assert(bs@.subrange(0, bs.len() as int) =~= bs@);
    }
    if acc <= usize::MAX as u64 {
        Some(acc as usize)
    } else {
        None
    }
}

impl Interpreter {
    spec fn state(&self) -> VmState {
        VmState {
            main: self.main_program@,
            main_pos: self.main_pos as int,
            functions: code_pool_view(self.function_pool@),
            positions: positions_view(self.function_pos@),
            strings: string_pool_view(self.string_pool@),
            stack: self.stack@,
            output: string_pool_view(self.output@),
            frame: self.current_frame,
            function: self.current_function,
        }
    }

    spec fn wf(&self) -> bool {
        wf_state(self.state())
    }

    fn new(program: CompiledProgram) -> (m: Self)
        ensures
            m.wf(),
            m.state() == initial_state(program@),
    {
        let n = program.function_pool.len();
        let mut function_pos: Vec<usize> = Vec::new();
        let mut i: usize = 0;
        while i < n
            invariant
                i <= n,
                n == program.function_pool.len(),
                function_pos@ =~= Seq::new(i as nat, |k: int| 0usize),
            decreases n - i,
        {
            function_pos.push(0);
            i = i + 1;
        }
        let m = Interpreter {
            main_program: program.main_program,
            main_pos: 0,
            function_pool: program.function_pool,
            function_pos,
            string_pool: program.string_pool,
            stack: Vec::new(),
            output: Vec::new(),
            current_frame: 0,
            current_function: 0,
        };
        proof {
            assert(positions_view(m.function_pos@) =~= Seq::new(n as nat, |k: int| 0int));
            assert(string_pool_view(m.output@) =~= Seq::<Seq<char>>::empty());
        }
        m
    }

    fn next_byte(&mut self) -> (r: Result<Option<u8>, RuntimeError>)
        requires
            old(self).wf(),
        ensures
            final(self).wf(),
            match fetch(old(self).state()) {
                Err(e) => r == Err::<Option<u8>, RuntimeError>(e),
                Ok(None) => r == Ok::<Option<u8>, RuntimeError>(None) && final(self).state() == old(self).state(),
                Ok(Some((b, s1))) => r == Ok::<Option<u8>, RuntimeError>(Some(b)) && final(self).state() == s1,
            },
    {
        proof {
            lemma_fetch(self.state());
        }
        if self.current_function == 0 {
            if self.main_pos < self.main_program.len() {
                let b = self.main_program[self.main_pos];
                self.main_pos = self.main_pos + 1;
                Ok(Some(b))
            } else {
                Ok(None)
            }
        } else {
            let id = self.current_function - 1;
            if id >= self.function_pool.len() {
                return Err(RuntimeError::FunctionIndexOutOfBounds);
            }
            let p = self.function_pos[id];
            if p < self.function_pool[id].len() {
                let b = self.function_pool[id][p];
                let ghost before = self.function_pos@;
                self.function_pos.set(id, p + 1);
                proof {
                    assert(positions_view(self.function_pos@) =~= positions_view(before).update(id as int, p + 1));
                }
                Ok(Some(b))
            } else {
                Ok(None)
            }
        }
    }

    fn take_bytes(&mut self, n: usize) -> (r: Result<Vec<u8>, RuntimeError>)
        requires
            old(self).wf(),
        ensures
            final(self).wf(),
            match read_bytes(old(self).state(), n as nat) {
                Ok((bs, s)) => r matches Ok(v) && v@ == bs && final(self).state() == s,
                Err(e) => r == Err::<Vec<u8>, RuntimeError>(e),
            },
        decreases n,
    {
        if n == 0 {
            return Ok(Vec::new());
        }
        match self.next_byte() {
            Err(e) => Err(e),
            Ok(None) => Err(RuntimeError::UnexpectedEnd),
            Ok(Some(b)) => match self.take_bytes(n - 1) {
                Err(e) => Err(e),
                Ok(rest) => {
                    let mut rest = rest;
                    let ghost tail = rest@;
                    rest.insert(0, b);
                    proof {
                        assert(rest@ =~= seq![b] + tail);
                    }
                    Ok(rest)
                },
            },
        }
    }

    fn take_value(&mut self) -> (r: Result<usize, RuntimeError>)
        requires
            old(self).wf(),
        ensures
            final(self).wf(),
            match read_value(old(self).state()) {
                Ok((v, s)) => r == Ok::<usize, RuntimeError>(v) && final(self).state() == s,
                Err(e) => r == Err::<usize, RuntimeError>(e),
            },
    {
        let tag = match self.next_byte() {
            Err(e) => return Err(e),
            Ok(None) => return Err(RuntimeError::UnexpectedEnd),
            Ok(Some(t)) => t,
        };
        let n: usize = match NumSize::from_code(tag) {
            None => return Err(RuntimeError::InvalidNumSize(tag)),
            Some(NumSize::_8) => 1,
            Some(NumSize::_32) => 3,
            Some(NumSize::_64) => 7,
        };
        let ghost s1 = self.state();
        proof {
            lemma_read_bytes(s1, n as nat);
        }
        let bs = match self.take_bytes(n) {
            Err(e) => return Err(e),
            Ok(bs) => bs,
        };
        match le_number(&bs) {
            Some(v) => Ok(v),
            None => Err(RuntimeError::ArithmeticOverflow),
        }
    }
}

/// What running one piece of the machine left behind, against what the
/// model says: on success the new state, on failure the same error.
pub open spec fn outcome(r: Result<(), RuntimeError>, after: VmState, expected: Result<VmState, RuntimeError>) -> bool {
    match expected {
        Ok(s) => r is Ok && after == s,
        Err(e) => r == Err::<(), RuntimeError>(e),
    }
}

/// A string's value as a word, if it is a decimal numeral that fits.
pub open spec fn decimal_word(s: Seq<char>) -> Option<usize> {
    match parse_decimal(s) {
        Some(v) => if v <= usize::MAX {
            Some(v as usize)
        } else {
            None
        },
        None => None,
    }
}

fn arith_exec(op: Op, lhs: usize, rhs: usize) -> (r: Result<usize, RuntimeError>)
    ensures
        r == arith(op, lhs, rhs),
{
    match op {
        Op::Add => match lhs.checked_add(rhs) {
            Some(v) => Ok(v),
            None => Err(RuntimeError::ArithmeticOverflow),
        },
        Op::Sub => if lhs >= rhs {
            Ok(lhs - rhs)
        } else {
            Err(RuntimeError::ArithmeticOverflow)
        },
        Op::Mul => match lhs.checked_mul(rhs) {
            Some(v) => Ok(v),
            None => Err(RuntimeError::ArithmeticOverflow),
        },
        Op::Div => if rhs == 0 {
            Err(RuntimeError::DivisionByZero)
        } else {
            Ok(lhs / rhs)
        },
        _ => power_exec(lhs, rhs),
    }
}

proof fn lemma_power_grows(b: nat, e: nat, f: nat)
    requires
        b >= 1,
        e <= f,
    ensures
        power(b, e) <= power(b, f),
        power(b, e) >= 1,
    decreases f,
{
    if e < f {
        lemma_power_grows(b, e, (f - 1) as nat);
        let p = power(b, (f - 1) as nat);
        assert(b * p >= p) by (nonlinear_arith)
            requires
                b >= 1,
                p >= 1,
        ;
    } else if e > 0 {
        lemma_power_grows(b, (e - 1) as nat, (e - 1) as nat);
        let p = power(b, (e - 1) as nat);
        assert(b * p >= 1) by (nonlinear_arith)
            requires
                b >= 1,
                p >= 1,
        ;
    }
}

/// `b` raised to `e`, if it fits in a word.
fn power_exec(b: usize, e: usize) -> (r: Result<usize, RuntimeError>)
    ensures
        r == arith(Op::Pow, b, e),
{
    if b == 0 {
        proof {
            if e > 0 {
                assert(power(0, e as nat) == 0 * power(0, (e - 1) as nat));
            }
        }
        return if e == 0 { Ok(1) } else { Ok(0) };
    }
    let mut acc: usize = 1;
    let mut i: usize = 0;
    while i < e
        invariant
            b >= 1,
            i <= e,
            acc == power(b as nat, i as nat),
        decreases e - i,
    {
        match acc.checked_mul(b) {
            None => {
                proof {
                    assert(power(b as nat, (i + 1) as nat) == b * power(b as nat, i as nat));
                    lemma_power_grows(b as nat, (i + 1) as nat, e as nat);
                }
                return Err(RuntimeError::ArithmeticOverflow);
            },
            Some(v) => {
                proof {
                    assert(power(b as nat, (i + 1) as nat) == b * power(b as nat, i as nat));
                    assert(acc * b == b * acc) by (nonlinear_arith);
                }
                acc = v;
            },
        }
        i = i + 1;
    }
    Ok(acc)
}

fn digit_of(d: usize) -> (c: char)
    requires
        d < 10,
    ensures
        c == digit_char(d as nat),
{
    if d == 0 { '0' } else if d == 1 { '1' } else if d == 2 { '2' } else if d == 3 { '3' }
    else if d == 4 { '4' } else if d == 5 { '5' } else if d == 6 { '6' } else if d == 7 { '7' }
    else if d == 8 { '8' } else { '9' }
}

/// Appends the decimal numeral of `n`.
fn push_decimal(s: &mut String, n: usize)
    ensures
        final(s)@ == old(s)@ + decimal(n as nat),
    decreases n,
{
    if n >= 10 {
        push_decimal(s, n / 10);
    }
    push_char(s, digit_of(n % 10));
    proof {
        if n >= 10 {
            assert(final(s)@ =~= old(s)@ + decimal(n as nat));
        } else {
            assert(final(s)@ =~= old(s)@ + decimal(n as nat));
        }
    }
}

/// The value of a decimal numeral, if it is one and fits in a word.
fn decimal_number(s: &String) -> (r: Option<usize>)
    ensures
        r == decimal_word(s@),
{
    let cs = chars_of(s.as_str());
    if cs.len() == 0 {
        return None;
    }
    let mut i: usize = 0;
    while i < cs.len()
        invariant
            i <= cs.len(),
            cs@ == s@,
            forall|k: int| 0 <= k < i ==> is_digit(#[trigger] cs@[k]),
        decreases cs.len() - i,
    {
        let c = cs[i];
        if !('0' <= c && c <= '9') {
            return None;
        }
        i = i + 1;
    }
    let mut acc: usize = 0;
    let mut k: usize = 0;
    proof {
        assert(cs@.subrange(0, 0) =~= Seq::<char>::empty());
    }
    while k < cs.len()
        invariant
            k <= cs.len(),
            cs@ == s@,
            forall|m: int| 0 <= m < cs.len() ==> is_digit(#[trigger] cs@[m]),
            acc == number_value(cs@.subrange(0, k as int)),
        decreases cs.len() - k,
    {
        let c = cs[k];
        let d: usize = (c as u32 - '0' as u32) as usize;
        let ghost before = cs@.subrange(0, k as int);
        proof {
            assert(cs@.subrange(0, k + 1) =~= before.push(c));
            assert(before.push(c).subrange(0, before.len() as int) =~= before);
            assert(d == digit_value(c));
            assert forall|m: int| 0 <= m < cs.len() implies is_number_char(#[trigger] cs@[m]) by {
                assert(is_digit(cs@[m]));
            }
        }
        match acc.checked_mul(10) {
            None => {
                proof {
                    lemma_value_from(cs@, 0, k + 1, cs.len() as int);
                    assert(cs@.subrange(0, cs.len() as int) =~= cs@);
                }
                return None;
            },
            Some(m) => match m.checked_add(d) {
                None => {
                    proof {
                        lemma_value_from(cs@, 0, k + 1, cs.len() as int);
                        assert(cs@.subrange(0, cs.len() as int) =~= cs@);
                    }
                    return None;
                },
                Some(v) => {
                    acc = v;
                },
            },
        }
        k = k + 1;
    }
    proof {
        assert(cs@.subrange(0, cs.len() as int) =~= cs@);
    }
    Some(acc)
}

fn concat_strings(a: &String, b: &String) -> (r: String)
    ensures
        r@ == a@ + b@,
{
    let mut r = a.clone();
    let cs = chars_of(b.as_str());
    let mut i: usize = 0;
    while i < cs.len()
        invariant
            i <= cs.len(),
            cs@ == b@,
            r@ == a@ + cs@.subrange(0, i as int),
        decreases cs.len() - i,
    {
        push_char(&mut r, cs[i]);
        i = i + 1;
        proof {
            assert(r@ =~= a@ + cs@.subrange(0, i as int));
        }
    }
    proof {
        assert(cs@.subrange(0, cs.len() as int) =~= cs@);
    }
    r
}

fn bool_text(v: bool) -> (r: String)
    ensures
        r@ == (if v { true_text() } else { false_text() }),
{
    let mut r = String::new();
    if v {
        push_char(&mut r, 't');
        push_char(&mut r, 'r');
        push_char(&mut r, 'u');
        push_char(&mut r, 'e');
    } else {
        push_char(&mut r, 'f');
        push_char(&mut r, 'a');
        push_char(&mut r, 'l');
        push_char(&mut r, 's');
        push_char(&mut r, 'e');
    }
    proof {
        assert(r@ =~= (if v { true_text() } else { false_text() }));
    }
    r
}

impl Interpreter {
    fn push_word(&mut self, v: usize)
        requires
            old(self).wf(),
        ensures
            final(self).wf(),
            final(self).state() == push(old(self).state(), v),
    {
        self.stack.push(v);
    }

    fn pop_word(&mut self) -> (r: Result<usize, RuntimeError>)
        requires
            old(self).wf(),
        ensures
            final(self).wf(),
            match pop(old(self).state()) {
                Ok((v, s)) => r == Ok::<usize, RuntimeError>(v) && final(self).state() == s,
                Err(e) => r == Err::<usize, RuntimeError>(e),
            },
    {
        match self.stack.pop() {
            Some(v) => Ok(v),
            None => Err(RuntimeError::EmptyStack),
        }
    }

    /// Adds a string to the pool and pushes its index.
    fn push_string(&mut self, s: String)
        requires
            old(self).wf(),
        ensures
            final(self).wf(),
            final(self).state() == push_new_string(old(self).state(), s@),
    {
        let index = self.string_pool.len();
        self.string_pool.push(s);
        self.stack.push(index);
        proof {
            assert(string_pool_view(self.string_pool@) =~= string_pool_view(old(self).string_pool@).push(s@));
        }
    }

    fn do_call(&mut self, id: usize, n: usize) -> (r: Result<(), RuntimeError>)
        requires
            old(self).wf(),
        ensures
            final(self).wf(),
            outcome(r, final(self).state(), call(old(self).state(), id, n)),
    {
        if n > self.stack.len() {
            return Err(RuntimeError::EmptyStack);
        }
        if id == usize::MAX {
            return Err(RuntimeError::ArithmeticOverflow);
        }
        let k = self.stack.len() - n;
        let mut args = self.stack.split_off(k);
        let caller = self.current_function;
        let frame = self.current_frame;
        self.stack.push(caller);
        self.stack.push(Frame::Func.word());
        self.stack.push(frame);
        let base = self.stack.len();
        self.stack.append(&mut args);
        self.current_frame = base;
        self.current_function = id + 1;
        proof {
            let old_stack = old(self).stack@;
            assert(self.stack@ =~= old_stack.subrange(0, k as int) + seq![caller, 1usize, frame]
                + old_stack.subrange(k as int, old_stack.len() as int));
        }
        Ok(())
    }

    fn do_unwind(&mut self) -> (r: Result<(), RuntimeError>)
        requires
            old(self).wf(),
        ensures
            final(self).wf(),
            outcome(r, final(self).state(), unwind(old(self).state())),
    {
        let len = self.stack.len();
        let mut b = self.current_frame;
        // The walk may follow `left` more block frames.
        let mut left: usize = len;
        loop
            invariant
                self.wf(),
                self.state() == old(self).state(),
                len == self.stack.len(),
                left <= len,
                unwind_walk(self.stack@, self.current_frame, (len + 1) as nat) == unwind_walk(
                    self.stack@,
                    b,
                    (left + 1) as nat,
                ),
            decreases left,
        {
            if b < 2 || b - 2 >= len {
                return Err(RuntimeError::StackIndexOutOfBounds);
            }
            let tag = self.stack[b - 2];
            match Frame::from_word(tag) {
                None => {
                    return Err(RuntimeError::InvalidFrame(tag));
                },
                Some(Frame::Func) => {
                    if b < 3 || b - 1 >= len {
                        return Err(RuntimeError::StackIndexOutOfBounds);
                    }
                    let f = self.stack[b - 3];
                    let fr = self.stack[b - 1];
                    self.stack.truncate(b - 3);
                    self.current_function = f;
                    self.current_frame = fr;
                    return Ok(());
                },
                Some(Frame::Block) => {
                    if b - 1 >= len {
                        return Err(RuntimeError::StackIndexOutOfBounds);
                    }
                    let ghost b0 = b;
                    b = self.stack[b - 1];
                    proof {
                        assert(unwind_walk(self.stack@, b0, (left + 1) as nat) == unwind_walk(self.stack@, b, left as nat));
                    }
                    if left == 0 {
                        return Err(RuntimeError::FrameCycle);
                    }
                    left = left - 1;
                },
            }
        }
    }

    fn do_load(&mut self, index: usize, depth: usize) -> (r: Result<(), RuntimeError>)
        requires
            old(self).wf(),
        ensures
            final(self).wf(),
            outcome(r, final(self).state(), load(old(self).state(), index, depth)),
    {
        let mut b = self.current_frame;
        let mut d = depth;
        while d > 0
            invariant
                self.wf(),
                self.state() == old(self).state(),
                frame_base(self.stack@, self.current_frame, depth) == frame_base(self.stack@, b, d),
            decreases d,
        {
            if b == 0 || b - 1 >= self.stack.len() {
                return Err(RuntimeError::StackIndexOutOfBounds);
            }
            b = self.stack[b - 1];
            d = d - 1;
        }
        if b < self.stack.len() && index < self.stack.len() - b {
            let v = self.stack[b + index];
            self.stack.push(v);
            Ok(())
        } else {
            Err(RuntimeError::StackIndexOutOfBounds)
        }
    }
}

pub open spec fn output_result_view(r: Result<Vec<String>, RuntimeError>) -> Result<Seq<Seq<char>>, RuntimeError> {
    match r {
        Ok(v) => Ok(string_pool_view(v@)),
        Err(e) => Err(e),
    }
}

impl Interpreter {
    fn string_at(&self, i: usize) -> (r: Option<String>)
        ensures
            i < self.string_pool.len() ==> (r matches Some(s) && s@ == self.state().strings[i as int]),
            i >= self.string_pool.len() ==> r is None,
    {
        if i < self.string_pool.len() {
            Some(self.string_pool[i].clone())
        } else {
            None
        }
    }

    fn op_write(&mut self) -> (r: Result<(), RuntimeError>)
        requires
            old(self).wf(),
        ensures
            final(self).wf(),
            outcome(r, final(self).state(), exec_op(Op::Write, old(self).state())),
    {
        let i = match self.pop_word() {
            Err(e) => return Err(e),
            Ok(i) => i,
        };
        match self.string_at(i) {
            None => Err(RuntimeError::StringIndexOutOfBounds),
            Some(text) => {
                let ghost before = self.output@;
                self.output.push(text);
                proof {
                    assert(string_pool_view(self.output@) =~= string_pool_view(before).push(text@));
                }
                Ok(())
            },
        }
    }

    fn op_cat(&mut self) -> (r: Result<(), RuntimeError>)
        requires
            old(self).wf(),
        ensures
            final(self).wf(),
            outcome(r, final(self).state(), exec_op(Op::Cat, old(self).state())),
    {
        let li = match self.pop_word() {
            Err(e) => return Err(e),
            Ok(i) => i,
        };
        let lhs = match self.string_at(li) {
            None => return Err(RuntimeError::StringIndexOutOfBounds),
            Some(t) => t,
        };
        let ri = match self.pop_word() {
            Err(e) => return Err(e),
            Ok(i) => i,
        };
        let rhs = match self.string_at(ri) {
            None => return Err(RuntimeError::StringIndexOutOfBounds),
            Some(t) => t,
        };
        let joined = concat_strings(&lhs, &rhs);
        self.push_string(joined);
        Ok(())
    }

    /// The casts: each takes the top word and leaves its converted value.
    fn op_cast(&mut self, op: Op) -> (r: Result<(), RuntimeError>)
        requires
            old(self).wf(),
            op is Str2Int || op is Int2Str || op is Bool2Str || op is Int2Bool || op is Str2Bool,
        ensures
            final(self).wf(),
            outcome(r, final(self).state(), exec_op(op, old(self).state())),
    {
        let v = match self.pop_word() {
            Err(e) => return Err(e),
            Ok(v) => v,
        };
        match op {
            Op::Str2Int => {
                let text = match self.string_at(v) {
                    None => return Err(RuntimeError::StringIndexOutOfBounds),
                    Some(t) => t,
                };
                match decimal_number(&text) {
                    None => Err(RuntimeError::InvalidNumber),
                    Some(n) => {
                        self.push_word(n);
                        Ok(())
                    },
                }
            },
            Op::Int2Str => {
                let mut text = String::new();
                push_decimal(&mut text, v);
                proof {
                    assert(text@ =~= decimal(v as nat));
                }
                self.push_string(text);
                Ok(())
            },
            Op::Bool2Str => {
                self.push_string(bool_text(v != 0));
                Ok(())
            },
            Op::Int2Bool => {
                self.push_word(if v != 0 { 1 } else { 0 });
                Ok(())
            },
            _ => {
                let text = match self.string_at(v) {
                    None => return Err(RuntimeError::StringIndexOutOfBounds),
                    Some(t) => t,
                };
                let nonempty = !text.as_str().is_empty();
                self.push_word(if nonempty { 1 } else { 0 });
                Ok(())
            },
        }
    }
}

impl Interpreter {
    /// Carries out one instruction, whose byte has just been read.
    fn interpret_code(&mut self, op: Op) -> (r: Result<(), RuntimeError>)
        requires
            old(self).wf(),
        ensures
            final(self).wf(),
            outcome(r, final(self).state(), exec_op(op, old(self).state())),
    {
        match op {
            Op::Push => {
                let v = match self.take_value() {
                    Err(e) => return Err(e),
                    Ok(v) => v,
                };
                self.push_word(v);
                Ok(())
            },
            Op::Pop => match self.pop_word() {
                Err(e) => Err(e),
                Ok(_) => Ok(()),
            },
            Op::Call => {
                let id = match self.take_value() {
                    Err(e) => return Err(e),
                    Ok(v) => v,
                };
                let arity = match self.take_value() {
                    Err(e) => return Err(e),
                    Ok(v) => v,
                };
                self.do_call(id, arity)
            },
            Op::Return => {
                let return_value = match self.pop_word() {
                    Err(e) => return Err(e),
                    Ok(v) => v,
                };
                match self.do_unwind() {
                    Err(e) => return Err(e),
                    Ok(()) => {},
                }
                self.push_word(return_value);
                Ok(())
            },
            Op::Write => self.op_write(),
            Op::Load => {
                let index = match self.take_value() {
                    Err(e) => return Err(e),
                    Ok(v) => v,
                };
                let depth = match self.take_value() {
                    Err(e) => return Err(e),
                    Ok(v) => v,
                };
                self.do_load(index, depth)
            },
            Op::Cat => self.op_cat(),
            Op::Str2Int | Op::Int2Str | Op::Bool2Str | Op::Int2Bool | Op::Str2Bool => self.op_cast(op),
            _ => {
                let lhs = match self.pop_word() {
                    Err(e) => return Err(e),
                    Ok(v) => v,
                };
                let rhs = match self.pop_word() {
                    Err(e) => return Err(e),
                    Ok(v) => v,
                };
                match arith_exec(op, lhs, rhs) {
                    Err(e) => Err(e),
                    Ok(v) => {
                        self.push_word(v);
                        Ok(())
                    },
                }
            },
        }
    }
}

/// Runs a compiled program from the start of its main code to the end of
/// whatever code is running then, and gives the lines it wrote, or the
/// fault that stopped it.
pub fn interpret(program: CompiledProgram) -> (r: Result<Vec<String>, RuntimeError>)
    ensures
        output_result_view(r) == run(initial_state(program@)),
{
    let ghost start = initial_state(program@);
    let mut m = Interpreter::new(program);
    loop
        invariant
            m.wf(),
            start == initial_state(program@),
            run(m.state()) == run(start),
        decreases budget(m.state()),
    {
        let ghost st = m.state();
        proof {
            lemma_step_progress(st);
            lemma_fetch(st);
        }
        let b = match m.next_byte() {
            Err(e) => {
                proof {
                    assert(step(st) == Step::Fault(e));
                    assert(run(st) == Err::<Seq<Seq<char>>, RuntimeError>(e));
                }
                return Err(e);
            },
            Ok(None) => {
                proof {
                    assert(step(st) == Step::Halt);
                    assert(run(st) == Ok::<Seq<Seq<char>>, RuntimeError>(st.output));
                }
                return Ok(m.output);
            },
            Ok(Some(b)) => b,
        };
        let op = match Op::from_code(b) {
            None => return Err(RuntimeError::InvalidOpcode(b)),
            Some(op) => op,
        };
        match m.interpret_code(op) {
            Err(e) => return Err(e),
            Ok(()) => {},
        }
    }
}

// ---------------------------------------------------------------------------
// Laws
// ---------------------------------------------------------------------------

proof fn lemma_decimal_digits(n: nat)
    ensures
        decimal(n).len() > 0,
        forall|i: int| 0 <= i < decimal(n).len() ==> is_digit(#[trigger] decimal(n)[i]),
        number_value(decimal(n)) == n,
    decreases n,
{
    let d = n % 10;
    assert(digit_value(digit_char(d)) == d);
    assert(is_digit(digit_char(d)));
    if n >= 10 {
        lemma_decimal_digits(n / 10);
        let w = decimal(n / 10);
        assert(decimal(n).subrange(0, w.len() as int) =~= w);
        assert(decimal(n)[decimal(n).len() - 1] == digit_char(d));
        assert(digit_char(d) != '_');
        assert(number_value(decimal(n)) == number_value(w) * 10 + digit_value(digit_char(d)));
        assert((n / 10) * 10 + d == n);
        assert forall|i: int| 0 <= i < decimal(n).len() implies is_digit(#[trigger] decimal(n)[i]) by {
            if i < w.len() {
                assert(decimal(n)[i] == w[i]);
            }
        }
    } else {
        assert(decimal(n).subrange(0, 0) =~= Seq::<char>::empty());
        assert(d == n);
        assert(number_value(decimal(n)) == number_value(Seq::<char>::empty()) * 10 + digit_value(digit_char(d)));
    }
}

/// Reading back the numeral that `Int2Str` writes gives the number again:
/// `Str2Int` undoes `Int2Str`.
pub proof fn lemma_decimal_roundtrip(n: usize)
    ensures
        decimal_word(decimal(n as nat)) == Some(n),
{
    lemma_decimal_digits(n as nat);
}

/// A return undoes a call: whatever the called function pushed on top of
/// its frame, leaving it restores the caller's function and frame base and
/// cuts the stack back to what lay below the arguments.
pub proof fn lemma_return_undoes_call(st: VmState, id: usize, n: usize, pushed: Seq<usize>)
    requires
        n <= st.stack.len(),
        id < usize::MAX,
        st.stack.len() + 3 <= usize::MAX,
    ensures
        call(st, id, n) matches Ok(s1) && unwind(VmState { stack: s1.stack + pushed, ..s1 }) == Ok::<
            VmState,
            RuntimeError,
        >(
            VmState {
                stack: st.stack.subrange(0, st.stack.len() - n),
                function: st.function,
                frame: st.frame,
                ..st
            },
        ),
{
    let k = st.stack.len() - n;
    let s1 = call(st, id, n)->Ok_0;
    let stack2 = s1.stack + pushed;
    assert(stack2[k] == st.function);
    assert(stack2[k + 1] == 1usize);
    assert(stack2[k + 2] == st.frame);
    assert(frame_of_word(1usize) == Some(Frame::Func));
    assert(stack2.subrange(0, k) =~= st.stack.subrange(0, k));
}

/// What a step has written stays written: the output only grows.
pub proof fn lemma_step_keeps_output(st: VmState)
    requires
        wf_state(st),
    ensures
        step(st) matches Step::Next(s2) ==> st.output.is_prefix_of(s2.output),
{
    if let Ok(Some((b, s1))) = fetch(st) {
        if let Some(op) = op_of_code(b) {
            lemma_fetch(st);
            if let Ok(s2) = exec_op(op, s1) {
                if op == Op::Write {
                    assert(s1.output.is_prefix_of(s2.output));
                } else {
                    assert(s1.output =~= s2.output) by {
                        lemma_exec_op_output(op, s1);
                    }
                }
            }
        }
    }
}

proof fn lemma_exec_op_output(op: Op, st: VmState)
    requires
        wf_state(st),
        op != Op::Write,
    ensures
        exec_op(op, st) matches Ok(s2) ==> s2.output == st.output,
{
    lemma_read_value(st);
    if let Ok((_, s1)) = read_value(st) {
        lemma_read_value(s1);
    }
}

/// An operand below 255, written as the compiler writes it, is read back by
/// the machine as the same word, and the machine goes on just after it.
pub proof fn lemma_short_operand_roundtrip(st: VmState, v: usize)
    requires
        v < 255,
        st.function == 0,
        0 <= st.main_pos,
        st.main_pos + 2 <= st.main.len(),
        st.main.subrange(st.main_pos, st.main_pos + 2) == value_bytes(v),
    ensures
        read_value(st) == Ok::<(usize, VmState), RuntimeError>((v, VmState { main_pos: st.main_pos + 2, ..st })),
{
    let p = st.main_pos;
    assert(st.main[p] == st.main.subrange(p, p + 2)[0]);
    assert(st.main[p + 1] == st.main.subrange(p, p + 2)[1]);
    assert(st.main[p] == 0u8);
    assert(st.main[p + 1] == v as u8);
    let s1 = VmState { main_pos: p + 1, ..st };
    let s2 = VmState { main_pos: p + 2, ..st };
    assert(fetch(st) == Ok::<Option<(u8, VmState)>, RuntimeError>(Some((0u8, s1))));
    assert(num_size_of_code(0u8) == Some(NumSize::_8));
    assert(fetch(s1) == Ok::<Option<(u8, VmState)>, RuntimeError>(Some((v as u8, s2))));
    assert(read_bytes(s2, 0) == Ok::<(Seq<u8>, VmState), RuntimeError>((Seq::empty(), s2)));
    assert(seq![v as u8] + Seq::<u8>::empty() =~= seq![v as u8]);
    assert(read_bytes(s1, 1) == Ok::<(Seq<u8>, VmState), RuntimeError>((seq![v as u8], s2)));
    assert(seq![v as u8].subrange(1, 1) =~= Seq::<u8>::empty());
    assert(le_value(Seq::<u8>::empty()) == 0);
    assert(v as u8 == v) by (bit_vector)
        requires
            v < 255,
    ;
    assert(le_value(seq![v as u8]) == v);
}

/// Powers multiply: `b` to the power 0 is 1, and one more power is one more
/// factor `b`.
pub proof fn lemma_power_steps(b: nat, e: nat)
    ensures
        power(b, 0) == 1,
        power(b, e + 1) == b * power(b, e),
{
    assert(power(b, (e + 1) as nat) == b * power(b, ((e + 1) - 1) as nat));
}

/// Arithmetic on the machine: with `l` on top of the stack and `r` below
/// it, `Add`, `Sub`, `Mul`, `Div` and `Pow` replace the two words by
/// `l + r`, `l - r`, `l * r`, `l / r` (rounded down) and `l` to the power
/// `r`, and stop with `ArithmeticOverflow` when that is not a word (below
/// zero or above the largest word), or with `DivisionByZero` for `r == 0`.
pub proof fn lemma_arithmetic(st: VmState, below: Seq<usize>, l: usize, r: usize)
    requires
        st.stack == below.push(r).push(l),
    ensures
        exec_op(Op::Add, st) == if l + r <= usize::MAX {
            Ok::<VmState, RuntimeError>(VmState { stack: below.push((l + r) as usize), ..st })
        } else {
            Err(RuntimeError::ArithmeticOverflow)
        },
        exec_op(Op::Sub, st) == if l >= r {
            Ok::<VmState, RuntimeError>(VmState { stack: below.push((l - r) as usize), ..st })
        } else {
            Err(RuntimeError::ArithmeticOverflow)
        },
        exec_op(Op::Mul, st) == if l * r <= usize::MAX {
            Ok::<VmState, RuntimeError>(VmState { stack: below.push((l * r) as usize), ..st })
        } else {
            Err(RuntimeError::ArithmeticOverflow)
        },
        exec_op(Op::Div, st) == if r == 0 {
            Err::<VmState, RuntimeError>(RuntimeError::DivisionByZero)
        } else {
            Ok(VmState { stack: below.push((l / r) as usize), ..st })
        },
        exec_op(Op::Pow, st) == if power(l as nat, r as nat) <= usize::MAX {
            Ok::<VmState, RuntimeError>(VmState { stack: below.push(power(l as nat, r as nat) as usize), ..st })
        } else {
            Err(RuntimeError::ArithmeticOverflow)
        },
{
    let s1 = VmState { stack: below.push(r), ..st };
    let s2 = VmState { stack: below, ..st };
    assert(pop(st) == Ok::<(usize, VmState), RuntimeError>((l, s1))) by {
        assert(st.stack.subrange(0, st.stack.len() - 1) =~= below.push(r));
    }
    assert(pop(s1) == Ok::<(usize, VmState), RuntimeError>((r, s2))) by {
        assert(s1.stack.subrange(0, s1.stack.len() - 1) =~= below);
    }
}

/// What the code the compiler writes for a conversion does to the machine:
/// nothing for empty code, the effect of its instruction for code of one
/// instruction, and `None` where there is no such code or it is longer.
pub open spec fn cast_effect(input: Type, output: Type, st: VmState) -> Option<Result<VmState, RuntimeError>> {
    match cast_code(input, output) {
        Some(c) => if c.len() == 0 {
            Some(Ok(st))
        } else if c.len() == 1 {
            match op_of_code(c[0]) {
                Some(op) => Some(exec_op(op, st)),
                None => None,
            }
        } else {
            None
        },
        None => None,
    }
}

/// Conversions convert: with the value `v` on top of the stack, the
/// compiled conversion
/// - from a string (`v` its index) to a boolean leaves 1 for a non-empty
///   string and 0 for the empty one;
/// - from an integer to a boolean leaves 1 for a non-zero `v` and 0 for 0;
/// - from a boolean (0 or 1) to an integer leaves it as it is;
/// - from a boolean to a string adds `true` or `false` to the pool and
///   leaves its index;
/// - from an integer to a string adds its decimal numeral and leaves its
///   index;
/// - from a string holding the numeral of a word `n` to an integer leaves
///   `n`.
pub proof fn lemma_conversions(st: VmState, below: Seq<usize>, v: usize, n: usize)
    requires
        st.stack == below.push(v),
    ensures
        v < st.strings.len() ==> cast_effect(Type::StringType, Type::Boolean, st) == Some(
            Ok::<VmState, RuntimeError>(
                VmState { stack: below.push(if st.strings[v as int].len() > 0 { 1usize } else { 0usize }), ..st },
            ),
        ),
        cast_effect(Type::Integer, Type::Boolean, st) == Some(
            Ok::<VmState, RuntimeError>(VmState { stack: below.push(if v != 0 { 1usize } else { 0usize }), ..st }),
        ),
        v <= 1 ==> cast_effect(Type::Boolean, Type::Integer, st) == Some(Ok::<VmState, RuntimeError>(st)),
        v <= 1 ==> cast_effect(Type::Boolean, Type::StringType, st) == Some(
            Ok::<VmState, RuntimeError>(
                VmState {
                    strings: st.strings.push(
                        if v == 1 { seq!['t', 'r', 'u', 'e'] } else { seq!['f', 'a', 'l', 's', 'e'] },
                    ),
                    stack: below.push(st.strings.len() as usize),
                    ..st
                },
            ),
        ),
        cast_effect(Type::Integer, Type::StringType, st) == Some(
            Ok::<VmState, RuntimeError>(
                VmState { strings: st.strings.push(decimal(v as nat)), stack: below.push(st.strings.len() as usize), ..st },
            ),
        ),
        v < st.strings.len() && st.strings[v as int] == decimal(n as nat) ==> cast_effect(
            Type::StringType,
            Type::Integer,
            st,
        ) == Some(Ok::<VmState, RuntimeError>(VmState { stack: below.push(n), ..st })),
{
    let s1 = VmState { stack: below, ..st };
    assert(pop(st) == Ok::<(usize, VmState), RuntimeError>((v, s1))) by {
        assert(st.stack.subrange(0, st.stack.len() - 1) =~= below);
    }
    lemma_op_code_roundtrip(Op::Str2Bool, 0);
    lemma_op_code_roundtrip(Op::Int2Bool, 0);
    lemma_op_code_roundtrip(Op::Bool2Str, 0);
    lemma_op_code_roundtrip(Op::Int2Str, 0);
    lemma_op_code_roundtrip(Op::Str2Int, 0);
    lemma_decimal_digits(n as nat);
}

/// Each operator of the language compiles to the instruction that computes
/// it: with the left operand `l` on top of the stack and the right one `r`
/// below, `+ - * /` give `l + r`, `l - r`, `l * r` and `l / r`, `^` gives
/// `l` to the power `r`, and `~` (with `l` and `r` string indices) adds the
/// left string followed by the right one to the pool and leaves its index.
pub proof fn lemma_operators(st: VmState, below: Seq<usize>, l: usize, r: usize)
    requires
        st.stack == below.push(r).push(l),
    ensures
        l + r <= usize::MAX ==> exec_op(binary_op(OperationType::Add), st) == Ok::<VmState, RuntimeError>(
            VmState { stack: below.push((l + r) as usize), ..st },
        ),
        l >= r ==> exec_op(binary_op(OperationType::Sub), st) == Ok::<VmState, RuntimeError>(
            VmState { stack: below.push((l - r) as usize), ..st },
        ),
        l * r <= usize::MAX ==> exec_op(binary_op(OperationType::Mul), st) == Ok::<VmState, RuntimeError>(
            VmState { stack: below.push((l * r) as usize), ..st },
        ),
        r != 0 ==> exec_op(binary_op(OperationType::Div), st) == Ok::<VmState, RuntimeError>(
            VmState { stack: below.push((l / r) as usize), ..st },
        ),
        power(l as nat, r as nat) <= usize::MAX ==> exec_op(binary_op(OperationType::Pow), st) == Ok::<
            VmState,
            RuntimeError,
        >(VmState { stack: below.push(power(l as nat, r as nat) as usize), ..st }),
        l < st.strings.len() && r < st.strings.len() ==> exec_op(binary_op(OperationType::Cat), st) == Ok::<
            VmState,
            RuntimeError,
        >(
            VmState {
                strings: st.strings.push(st.strings[l as int] + st.strings[r as int]),
                stack: below.push(st.strings.len() as usize),
                ..st
            },
        ),
{
    lemma_arithmetic(st, below, l, r);
    let s1 = VmState { stack: below.push(r), ..st };
    let s2 = VmState { stack: below, ..st };
    assert(pop(st) == Ok::<(usize, VmState), RuntimeError>((l, s1))) by {
        assert(st.stack.subrange(0, st.stack.len() - 1) =~= below.push(r));
    }
    assert(pop(s1) == Ok::<(usize, VmState), RuntimeError>((r, s2))) by {
        assert(s1.stack.subrange(0, s1.stack.len() - 1) =~= below);
    }
}

/// Writing prints: with a string index on top of the stack, `Write`
/// removes it and adds that string to the output as a new line.
pub proof fn lemma_write_prints(st: VmState, below: Seq<usize>, i: usize)
    requires
        st.stack == below.push(i),
        i < st.strings.len(),
    ensures
        exec_op(Op::Write, st) == Ok::<VmState, RuntimeError>(
            VmState { output: st.output.push(st.strings[i as int]), stack: below, ..st },
        ),
{
    assert(st.stack.subrange(0, st.stack.len() - 1) =~= below);
}

} // verus!

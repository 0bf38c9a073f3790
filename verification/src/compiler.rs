//! Compiles an analyzed program to bytecode for the virtual machine.
use vstd::prelude::*;
use crate::bytecode::{NumSize, Op, op_code};
use crate::common::{
    AnalyzedAst, Expression, LocalVariable, OperationType, SpecExpr, SpecStmt, SpecSymtable, Statement, Type,
    expr_view, exprs_view, lemma_exprs_view, lemma_stmts_view, stmt_view, stmts_view, variables_view,
};

pub mod model;

use model::{binary_op, cast_code, comp_args, comp_expr, comp_stmt, comp_stmts, le_bytes, value_bytes};

verus! {

/// A compiled program: the code of the main program, the code of every
/// function (in the order their definitions were compiled) and the string
/// constants that `Push` refers to by index.
#[derive(Debug, Clone, PartialEq)]
pub struct CompiledProgram {
    pub main_program: Vec<u8>,
    pub function_pool: Vec<Vec<u8>>,
    pub string_pool: Vec<String>,
}

/// The model of a compiled program.
pub struct SpecProgram {
    pub main: Seq<u8>,
    pub functions: Seq<Seq<u8>>,
    pub strings: Seq<Seq<char>>,
}

pub open spec fn code_pool_view(p: Seq<Vec<u8>>) -> Seq<Seq<u8>> {
    p.map_values(|f: Vec<u8>| f@)
}

pub open spec fn string_pool_view(p: Seq<String>) -> Seq<Seq<char>> {
    p.map_values(|s: String| s@)
}

impl View for CompiledProgram {
    type V = SpecProgram;

    open spec fn view(&self) -> SpecProgram {
        SpecProgram {
            main: self.main_program@,
            functions: code_pool_view(self.function_pool@),
            strings: string_pool_view(self.string_pool@),
        }
    }
}

/// Compiling a program: `None` where some statement or expression it holds
/// is not taken by the compiler.
pub open spec fn compile_model(ast: Seq<SpecStmt>, table: SpecSymtable) -> Option<SpecProgram> {
    match comp_stmts(ast, table.variables, Seq::empty(), Seq::empty()) {
        None => None,
        Some((main, functions, strings)) => Some(SpecProgram { main, functions, strings }),
    }
}

/// Appends the `n` low bytes of `v`, least significant first.
fn push_le(code: &mut Vec<u8>, v: u64, n: usize)
    ensures
        final(code)@ == old(code)@ + le_bytes(v as nat, n as nat),
{
    let mut x = v;
    let mut i: usize = 0;
    proof {
        assert(code@ + le_bytes(v as nat, n as nat) =~= old(code)@ + le_bytes(v as nat, n as nat));
    }
    while i < n
        invariant
            i <= n,
            code@ + le_bytes(x as nat, (n - i) as nat) == old(code)@ + le_bytes(v as nat, n as nat),
        decreases n - i,
    {
        let ghost prev = code@;
        let b = (x % 256) as u8;
        code.push(b);
        proof {
            assert(le_bytes(x as nat, (n - i) as nat) == seq![(x as nat % 256) as u8] + le_bytes(x as nat / 256, (n - i - 1) as nat));
            assert(code@ + le_bytes(x as nat / 256, (n - i - 1) as nat) =~= prev + le_bytes(x as nat, (n - i) as nat));
        }
        x = x / 256;
        i = i + 1;
    }
}

/// Appends an operand.
fn push_value(code: &mut Vec<u8>, v: usize)
    ensures
        final(code)@ == old(code)@ + value_bytes(v),
{
    let ghost prev = code@;
    if v < 255 {
        code.push(NumSize::_8.code());
        code.push(v as u8);
        proof {
            assert(code@ =~= prev + value_bytes(v));
        }
    } else if v < 4294967295 {
        code.push(NumSize::_32.code());
        let ghost mid = code@;
        push_le(code, v as u64, 4);
        proof {
            assert(code@ =~= prev + value_bytes(v));
        }
    } else {
        code.push(NumSize::_64.code());
        push_le(code, v as u64, 8);
        proof {
            assert(code@ =~= prev + value_bytes(v));
        }
    }
}

fn push_op(code: &mut Vec<u8>, op: Op)
    ensures
        final(code)@ == old(code)@ + seq![op_code(op)],
{
    let ghost prev = code@;
    code.push(op.code());
    proof {
        assert(code@ =~= prev + seq![op_code(op)]);
    }
}

fn binary_op_of(op: OperationType) -> (r: Op)
    ensures
        r == binary_op(op),
{
    match op {
        OperationType::Add => Op::Add,
        OperationType::Sub => Op::Sub,
        OperationType::Mul => Op::Mul,
        OperationType::Div => Op::Div,
        OperationType::Pow => Op::Pow,
        OperationType::Cat => Op::Cat,
    }
}

/// Appends the code of a conversion.
fn emit_cast(code: &mut Vec<u8>, input: Type, output: Type) -> (r: bool)
    ensures
        match cast_code(input, output) {
            None => !r,
            Some(c) => r && final(code)@ == old(code)@ + c,
        },
{
    match (input, output) {
        (Type::Boolean, Type::Integer) => {
            proof {
                assert(code@ + Seq::<u8>::empty() =~= code@);
            }
            true
        },
        (Type::StringType, Type::Integer) => {
            push_op(code, Op::Str2Int);
            true
        },
        (Type::Integer, Type::StringType) => {
            push_op(code, Op::Int2Str);
            true
        },
        (Type::Boolean, Type::StringType) => {
            push_op(code, Op::Bool2Str);
            true
        },
        (Type::Integer, Type::Boolean) => {
            push_op(code, Op::Int2Bool);
            true
        },
        (Type::StringType, Type::Boolean) => {
            push_op(code, Op::Str2Bool);
            true
        },
        _ => false,
    }
}

/// Appends the code of an expression; its string constants join the pool.
fn compile_expression(e: Expression, vars: &Vec<LocalVariable>, strings: &mut Vec<String>, code: &mut Vec<u8>) -> (r: bool)
    ensures
        match comp_expr(e@, variables_view(vars@), string_pool_view(old(strings)@)) {
            None => !r,
            Some((c, s1)) => r && final(code)@ == old(code)@ + c && string_pool_view(final(strings)@) == s1,
        },
    decreases e,
{
    let ghost vv = variables_view(vars@);
    let ghost sv = string_pool_view(strings@);
    let ghost c0 = code@;
    match e {
        Expression::StringValue { value } => {
            let index = strings.len();
            let ghost val = value@;
            strings.push(value);
            push_op(code, Op::Push);
            push_value(code, index);
            proof {
                assert(string_pool_view(strings@) =~= sv.push(val));
                assert(code@ =~= c0 + (seq![op_code(Op::Push)] + value_bytes(index)));
            }
            true
        },
        Expression::Number { value } => {
            push_op(code, Op::Push);
            push_value(code, value as usize);
            proof {
                assert(code@ =~= c0 + (seq![op_code(Op::Push)] + value_bytes(value as usize)));
            }
            true
        },
        Expression::Boolean { value } => {
            let v: usize = if value { 1 } else { 0 };
            push_op(code, Op::Push);
            push_value(code, v);
            proof {
                assert(code@ =~= c0 + (seq![op_code(Op::Push)] + value_bytes(v)));
            }
            true
        },
        Expression::LocalVar { id, depth } => {
            if id >= vars.len() {
                return false;
            }
            let index = vars[id].index;
            push_op(code, Op::Load);
            push_value(code, index);
            push_value(code, depth);
            proof {
                assert(vv[id as int].index == index);
                assert(code@ =~= c0 + (seq![op_code(Op::Load)] + value_bytes(index) + value_bytes(depth)));
            }
            true
        },
        Expression::ResolvedFunctionCall { id, argument_list } => {
            let arity = argument_list.len();
            proof {
                lemma_exprs_view((*argument_list)@);
            }
            if !compile_arguments(*argument_list, vars, strings, code) {
                return false;
            }
            let ghost c1 = code@;
            push_op(code, Op::Call);
            push_value(code, id);
            push_value(code, arity);
            proof {
                let ac = comp_args(exprs_view((*argument_list)@), vv, sv)->Some_0.0;
                assert(code@ =~= c0 + (ac + seq![op_code(Op::Call)] + value_bytes(id) + value_bytes(arity)));
            }
            true
        },
        Expression::BinaryOperation { lhs, rhs, op_type } => {
            if !compile_expression(*rhs, vars, strings, code) {
                return false;
            }
            if !compile_expression(*lhs, vars, strings, code) {
                return false;
            }
            push_op(code, binary_op_of(op_type));
            proof {
                let (rc, s1) = comp_expr(expr_view(*rhs), vv, sv)->Some_0;
                let (lc, s2) = comp_expr(expr_view(*lhs), vv, s1)->Some_0;
                assert(code@ =~= c0 + (rc + lc + seq![op_code(binary_op(op_type))]));
            }
            true
        },
        Expression::AnalyzedCast { operand, output_type, input_type } => {
            if !compile_expression(*operand, vars, strings, code) {
                return false;
            }
            if !emit_cast(code, input_type, output_type) {
                return false;
            }
            proof {
                let (oc, s1) = comp_expr(expr_view(*operand), vv, sv)->Some_0;
                assert(code@ =~= c0 + (oc + cast_code(input_type, output_type)->Some_0));
            }
            true
        },
        _ => false,
    }
}

/// Appends the code of the arguments of a call, in order.
fn compile_arguments(args: Vec<Expression>, vars: &Vec<LocalVariable>, strings: &mut Vec<String>, code: &mut Vec<u8>) -> (r: bool)
    ensures
        match comp_args(exprs_view(args@), variables_view(vars@), string_pool_view(old(strings)@)) {
            None => !r,
            Some((c, s1)) => r && final(code)@ == old(code)@ + c && string_pool_view(final(strings)@) == s1,
        },
    decreases args,
{
    let ghost orig = args;
    let ghost vv = variables_view(vars@);
    let ghost all = exprs_view(args@);
    let ghost s0 = string_pool_view(strings@);
    let ghost c0 = code@;
    let n = args.len();
    let mut rest = args;
    proof {
        lemma_exprs_view(orig@);
        assert(all.subrange(0, n as int) =~= all);
        assert(c0 + Seq::<u8>::empty() =~= c0);
    }
    let ghost mut done: Seq<u8> = Seq::empty();
    while rest.len() > 0
        invariant
            orig == args,
            n == orig@.len(),
            rest.len() <= n,
            rest@ == orig@.subrange(n - rest.len(), n as int),
            all == exprs_view(orig@),
            all.len() == n,
            vv == variables_view(vars@),
            forall|i: int| 0 <= i < n ==> #[trigger] all[i] == expr_view(orig@[i]),
            comp_args(all, vv, s0) == (match comp_args(all.subrange(n - rest.len(), n as int), vv, string_pool_view(strings@)) {
                Some((cs, s2)) => Some((done + cs, s2)),
                None => None,
            }),
            s0 == string_pool_view(old(strings)@),
            c0 == old(code)@,
            code@ == c0 + done,
        decreases rest.len(),
    {
        let ghost k = n - rest.len();
        let ghost tail = all.subrange(k, n as int);
        let ghost cur = string_pool_view(strings@);
        let a = rest.remove(0);
        proof {
            assert(a == orig@[k]);
            assert(decreases_to!(orig => orig@));
            assert(decreases_to!(orig@ => orig@[k]));
            assert(decreases_to!(args => a));
            assert(tail[0] == expr_view(a));
            assert(tail.subrange(1, tail.len() as int) =~= all.subrange(k + 1, n as int));
            assert(rest@ =~= orig@.subrange(k + 1, n as int));
        }
        if !compile_expression(a, vars, strings, code) {
            proof {
                assert(comp_args(tail, vv, cur) is None);
            }
            return false;
        }
        proof {
            let (c1, s1) = comp_expr(tail[0], vv, cur)->Some_0;
            let (cs2, s2) = comp_args(all.subrange(k + 1, n as int), vv, s1)->Some_0;
            assert(done + (c1 + cs2) =~= (done + c1) + cs2);
            assert(c0 + done + c1 =~= c0 + (done + c1));
            done = done + c1;
        }
    }
    proof {
        assert(all.subrange(n as int, n as int) =~= Seq::<SpecExpr>::empty());
        assert(done + Seq::<u8>::empty() =~= done);
    }
    true
}

/// Appends the code of a statement; a function definition fills the next
/// slot of the function pool with its body instead.
fn compile_statement(
    s: Statement,
    vars: &Vec<LocalVariable>,
    pool: &mut Vec<Vec<u8>>,
    strings: &mut Vec<String>,
    code: &mut Vec<u8>,
) -> (r: bool)
    ensures
        match comp_stmt(s@, variables_view(vars@), code_pool_view(old(pool)@), string_pool_view(old(strings)@)) {
            None => !r,
            Some((c, p1, s1)) => r && final(code)@ == old(code)@ + c && code_pool_view(final(pool)@) == p1
                && string_pool_view(final(strings)@) == s1,
        },
        final(pool).len() >= old(pool).len(),
    decreases s,
{
    let ghost vv = variables_view(vars@);
    let ghost pv = code_pool_view(pool@);
    let ghost sv = string_pool_view(strings@);
    let ghost c0 = code@;
    match s {
        Statement::Print { value } => {
            if !compile_expression(value, vars, strings, code) {
                return false;
            }
            push_op(code, Op::Write);
            proof {
                let (c, s1) = comp_expr(expr_view(value), vv, sv)->Some_0;
                assert(code@ =~= c0 + (c + seq![op_code(Op::Write)]));
            }
            true
        },
        Statement::VariableAssignment { value, .. } => compile_expression(value, vars, strings, code),
        Statement::Call { expression } => {
            if !compile_expression(expression, vars, strings, code) {
                return false;
            }
            push_op(code, Op::Pop);
            proof {
                let (c, s1) = comp_expr(expr_view(expression), vv, sv)->Some_0;
                assert(code@ =~= c0 + (c + seq![op_code(Op::Pop)]));
            }
            true
        },
        Statement::ResolvedReturn { return_value, .. } => {
            match return_value {
                None => {
                    push_op(code, Op::Push);
                    code.push(0x00);
                    push_op(code, Op::Return);
                    proof {
                        assert(code@ =~= c0 + seq![op_code(Op::Push), 0u8, op_code(Op::Return)]);
                    }
                    true
                },
                Some(v) => {
                    if !compile_expression(v, vars, strings, code) {
                        return false;
                    }
                    push_op(code, Op::Return);
                    proof {
                        let (c, s1) = comp_expr(expr_view(v), vv, sv)->Some_0;
                        assert(code@ =~= c0 + (c + seq![op_code(Op::Return)]));
                    }
                    true
                },
            }
        },
        Statement::FunctionDefinition { block, .. } => {
            let slot = pool.len();
            pool.push(Vec::new());
            proof {
                assert(code_pool_view(pool@) =~= pv.push(Seq::empty()));
                assert(decreases_to!(s => *block));
            }
            let mut body: Vec<u8> = Vec::new();
            if !compile_block(*block, vars, pool, strings, &mut body) {
                return false;
            }
            let ghost p1 = code_pool_view(pool@);
            pool.set(slot, body);
            proof {
                assert(code_pool_view(pool@) =~= p1.update(slot as int, body@));
                assert(code@ =~= c0 + Seq::<u8>::empty());
            }
            true
        },
        _ => false,
    }
}

/// Appends the code of the statements of a block, in order.
fn compile_block(
    b: Vec<Statement>,
    vars: &Vec<LocalVariable>,
    pool: &mut Vec<Vec<u8>>,
    strings: &mut Vec<String>,
    code: &mut Vec<u8>,
) -> (r: bool)
    ensures
        match comp_stmts(stmts_view(b@), variables_view(vars@), code_pool_view(old(pool)@), string_pool_view(old(strings)@)) {
            None => !r,
            Some((c, p1, s1)) => r && final(code)@ == old(code)@ + c && code_pool_view(final(pool)@) == p1
                && string_pool_view(final(strings)@) == s1,
        },
        final(pool).len() >= old(pool).len(),
    decreases b,
{
    let ghost orig = b;
    let ghost vv = variables_view(vars@);
    let ghost all = stmts_view(b@);
    let ghost p0 = code_pool_view(pool@);
    let ghost s0 = string_pool_view(strings@);
    let ghost c0 = code@;
    let ghost n0 = pool.len();
    let n = b.len();
    let mut rest = b;
    proof {
        lemma_stmts_view(orig@);
        assert(all.subrange(0, n as int) =~= all);
        assert(c0 + Seq::<u8>::empty() =~= c0);
    }
    let ghost mut done: Seq<u8> = Seq::empty();
    while rest.len() > 0
        invariant
            orig == b,
            n == orig@.len(),
            rest.len() <= n,
            rest@ == orig@.subrange(n - rest.len(), n as int),
            all == stmts_view(orig@),
            all.len() == n,
            vv == variables_view(vars@),
            forall|i: int| 0 <= i < n ==> #[trigger] all[i] == stmt_view(orig@[i]),
            comp_stmts(all, vv, p0, s0) == (match comp_stmts(
                all.subrange(n - rest.len(), n as int),
                vv,
                code_pool_view(pool@),
                string_pool_view(strings@),
            ) {
                Some((cs, p2, s2)) => Some((done + cs, p2, s2)),
                None => None,
            }),
            p0 == code_pool_view(old(pool)@),
            s0 == string_pool_view(old(strings)@),
            c0 == old(code)@,
            n0 == old(pool).len(),
            code@ == c0 + done,
            pool.len() >= n0,
        decreases rest.len(),
    {
        let ghost k = n - rest.len();
        let ghost tail = all.subrange(k, n as int);
        let ghost pcur = code_pool_view(pool@);
        let ghost scur = string_pool_view(strings@);
        let a = rest.remove(0);
        proof {
            assert(a == orig@[k]);
            assert(decreases_to!(orig => orig@));
            assert(decreases_to!(orig@ => orig@[k]));
            assert(decreases_to!(b => a));
            assert(tail[0] == stmt_view(a));
            assert(tail.subrange(1, tail.len() as int) =~= all.subrange(k + 1, n as int));
            assert(rest@ =~= orig@.subrange(k + 1, n as int));
        }
        if !compile_statement(a, vars, pool, strings, code) {
            proof {
                assert(comp_stmts(tail, vv, pcur, scur) is None);
            }
            return false;
        }
        proof {
            let (c1, p1, s1) = comp_stmt(tail[0], vv, pcur, scur)->Some_0;
            let (cs2, p2, s2) = comp_stmts(all.subrange(k + 1, n as int), vv, p1, s1)->Some_0;
            assert(done + (c1 + cs2) =~= (done + c1) + cs2);
            assert(c0 + done + c1 =~= c0 + (done + c1));
            done = done + c1;
        }
    }
    proof {
        assert(all.subrange(n as int, n as int) =~= Seq::<SpecStmt>::empty());
        assert(done + Seq::<u8>::empty() =~= done);
    }
    true
}

/// Compiles an analyzed program: its top-level statements make the main
/// program, each function definition the next entry of the function pool,
/// and string constants the string pool, in the order they are met.
pub fn compile(analyzed_ast: AnalyzedAst) -> (r: CompiledProgram)
    requires
        compile_model(stmts_view(analyzed_ast.ast@), analyzed_ast.symtable@) is Some,
    ensures
        compile_model(stmts_view(analyzed_ast.ast@), analyzed_ast.symtable@) == Some(r@),
{
    compile_checked(analyzed_ast).unwrap()
}

/// Compiles an analyzed program, or gives `None` where it holds a statement
/// or expression the compiler does not take (one that is not resolved or
/// analyzed, a variable out of the table, an unsupported conversion).
pub fn compile_checked(analyzed_ast: AnalyzedAst) -> (r: Option<CompiledProgram>)
    ensures
        match compile_model(stmts_view(analyzed_ast.ast@), analyzed_ast.symtable@) {
            None => r is None,
            Some(p) => r matches Some(c) && c@ == p,
        },
{
    let mut main_program: Vec<u8> = Vec::new();
    let mut function_pool: Vec<Vec<u8>> = Vec::new();
    let mut string_pool: Vec<String> = Vec::new();
    proof {
        assert(code_pool_view(function_pool@) =~= Seq::<Seq<u8>>::empty());
        assert(string_pool_view(string_pool@) =~= Seq::<Seq<char>>::empty());
    }
    if !compile_block(
        analyzed_ast.ast,
        &analyzed_ast.symtable.variable_table,
        &mut function_pool,
        &mut string_pool,
        &mut main_program,
    ) {
        return None;
    }
    proof {
        assert(main_program@ =~= Seq::<u8>::empty() + main_program@);
    }
    Some(CompiledProgram { main_program, function_pool, string_pool })
}

} // verus!

//! What the compiler emits, over the models of the syntax tree.
//!
//! Code goes to the block being compiled: the main program, or the body of
//! the function being defined. A function definition takes the next slot of
//! the function pool and fills it with its body; it emits nothing where it
//! stands. String constants are added to the pool as they are met.
use vstd::prelude::*;
use crate::bytecode::{NumSize, Op, num_size_code, op_code};
use crate::common::{OperationType, SpecExpr, SpecLocal, SpecStmt, Type};

verus! {

/// `n` bytes of `v`, least significant first.
pub open spec fn le_bytes(v: nat, n: nat) -> Seq<u8>
    decreases n,
{
    if n == 0 {
        Seq::empty()
    } else {
        seq![(v % 256) as u8] + le_bytes(v / 256, (n - 1) as nat)
    }
}

/// An operand: below 255 a width tag and one byte; below `u32::MAX` a tag
/// and four bytes; otherwise a tag and eight bytes.
pub open spec fn value_bytes(v: usize) -> Seq<u8> {
    if v < 255 {
        seq![num_size_code(NumSize::_8), v as u8]
    } else if v < 4294967295 {
        seq![num_size_code(NumSize::_32)] + le_bytes(v as nat, 4)
    } else {
        seq![num_size_code(NumSize::_64)] + le_bytes(v as nat, 8)
    }
}

pub open spec fn binary_op(op: OperationType) -> Op {
    match op {
        OperationType::Add => Op::Add,
        OperationType::Sub => Op::Sub,
        OperationType::Mul => Op::Mul,
        OperationType::Div => Op::Div,
        OperationType::Pow => Op::Pow,
        OperationType::Cat => Op::Cat,
    }
}

/// The code of a conversion: none from booleans to integers (they already
/// are 0 or 1), one instruction for the other supported pairs, and `None`
/// for a pair that is not supported.
pub open spec fn cast_code(input: Type, output: Type) -> Option<Seq<u8>> {
    match (input, output) {
        (Type::Boolean, Type::Integer) => Some(Seq::empty()),
        (Type::StringType, Type::Integer) => Some(seq![op_code(Op::Str2Int)]),
        (Type::Integer, Type::StringType) => Some(seq![op_code(Op::Int2Str)]),
        (Type::Boolean, Type::StringType) => Some(seq![op_code(Op::Bool2Str)]),
        (Type::Integer, Type::Boolean) => Some(seq![op_code(Op::Int2Bool)]),
        (Type::StringType, Type::Boolean) => Some(seq![op_code(Op::Str2Bool)]),
        _ => None,
    }
}

/// The code of an expression and the string pool after it: `None` for an
/// expression the compiler does not take (one not yet resolved or analyzed,
/// a variable out of the table, a conversion it does not support). The
/// right operand of a binary operation is compiled first.
pub open spec fn comp_expr(e: SpecExpr, vars: Seq<SpecLocal>, strings: Seq<Seq<char>>) -> Option<(Seq<u8>, Seq<Seq<char>>)>
    decreases e,
{
    match e {
        SpecExpr::StringValue { value } => Some((
            seq![op_code(Op::Push)] + value_bytes(strings.len() as usize),
            strings.push(value),
        )),
        SpecExpr::Number { value } => Some((seq![op_code(Op::Push)] + value_bytes(value as usize), strings)),
        SpecExpr::Boolean { value } => Some((
            seq![op_code(Op::Push)] + value_bytes(if value { 1usize } else { 0usize }),
            strings,
        )),
        SpecExpr::LocalVar { id, depth } => if id < vars.len() {
            Some((
                seq![op_code(Op::Load)] + value_bytes(vars[id as int].index) + value_bytes(depth),
                strings,
            ))
        } else {
            None
        },
        SpecExpr::ResolvedFunctionCall { id, argument_list } => match comp_args(argument_list, vars, strings) {
            None => None,
            Some((code, s1)) => Some((
                code + seq![op_code(Op::Call)] + value_bytes(id) + value_bytes(argument_list.len() as usize),
                s1,
            )),
        },
        SpecExpr::BinaryOperation { lhs, rhs, op_type } => match comp_expr(*rhs, vars, strings) {
            None => None,
            Some((rc, s1)) => match comp_expr(*lhs, vars, s1) {
                None => None,
                Some((lc, s2)) => Some((rc + lc + seq![op_code(binary_op(op_type))], s2)),
            },
        },
        SpecExpr::AnalyzedCast { operand, output_type, input_type } => match comp_expr(*operand, vars, strings) {
            None => None,
            Some((oc, s1)) => match cast_code(input_type, output_type) {
                None => None,
                Some(cc) => Some((oc + cc, s1)),
            },
        },
        _ => None,
    }
}

pub open spec fn comp_args(args: Seq<SpecExpr>, vars: Seq<SpecLocal>, strings: Seq<Seq<char>>) -> Option<(Seq<u8>, Seq<Seq<char>>)>
    decreases args,
{
    if args.len() == 0 {
        Some((Seq::empty(), strings))
    } else {
        match comp_expr(args[0], vars, strings) {
            None => None,
            Some((c0, s1)) => match comp_args(args.subrange(1, args.len() as int), vars, s1) {
                None => None,
                Some((cs, s2)) => Some((c0 + cs, s2)),
            },
        }
    }
}

/// The code a statement emits where it stands, with the function pool and
/// string pool after it; `None` for a statement the compiler does not take.
pub open spec fn comp_stmt(s: SpecStmt, vars: Seq<SpecLocal>, pool: Seq<Seq<u8>>, strings: Seq<Seq<char>>) -> Option<
    (Seq<u8>, Seq<Seq<u8>>, Seq<Seq<char>>),
>
    decreases s,
{
    match s {
        SpecStmt::Print { value } => match comp_expr(value, vars, strings) {
            None => None,
            Some((c, s1)) => Some((c + seq![op_code(Op::Write)], pool, s1)),
        },
        SpecStmt::VariableAssignment { value, .. } => match comp_expr(value, vars, strings) {
            None => None,
            Some((c, s1)) => Some((c, pool, s1)),
        },
        SpecStmt::Call { expression } => match comp_expr(expression, vars, strings) {
            None => None,
            Some((c, s1)) => Some((c + seq![op_code(Op::Pop)], pool, s1)),
        },
        SpecStmt::ResolvedReturn { return_value, .. } => match return_value {
            None => Some((seq![op_code(Op::Push), 0u8, op_code(Op::Return)], pool, strings)),
            Some(v) => match comp_expr(v, vars, strings) {
                None => None,
                Some((c, s1)) => Some((c + seq![op_code(Op::Return)], pool, s1)),
            },
        },
        SpecStmt::FunctionDefinition { block, .. } => match comp_stmts(block, vars, pool.push(Seq::empty()), strings) {
            None => None,
            Some((body, p1, s1)) => Some((Seq::empty(), p1.update(pool.len() as int, body), s1)),
        },
        _ => None,
    }
}

pub open spec fn comp_stmts(b: Seq<SpecStmt>, vars: Seq<SpecLocal>, pool: Seq<Seq<u8>>, strings: Seq<Seq<char>>) -> Option<
    (Seq<u8>, Seq<Seq<u8>>, Seq<Seq<char>>),
>
    decreases b,
{
    if b.len() == 0 {
        Some((Seq::empty(), pool, strings))
    } else {
        match comp_stmt(b[0], vars, pool, strings) {
            None => None,
            Some((c0, p1, s1)) => match comp_stmts(b.subrange(1, b.len() as int), vars, p1, s1) {
                None => None,
                Some((cs, p2, s2)) => Some((c0 + cs, p2, s2)),
            },
        }
    }
}


proof fn lemma_comp_stmt_keeps_pool(s: SpecStmt, vars: Seq<SpecLocal>, pool: Seq<Seq<u8>>, strings: Seq<Seq<char>>)
    ensures
        comp_stmt(s, vars, pool, strings) matches Some((_, p1, _)) ==> p1.len() >= pool.len() && p1.subrange(
            0,
            pool.len() as int,
        ) == pool,
    decreases s,
{
    if let SpecStmt::FunctionDefinition { block, .. } = s {
        let n = pool.len();
        lemma_comp_stmts_keeps_pool(block, vars, pool.push(Seq::empty()), strings);
        if let Some((body, p1, s1)) = comp_stmts(block, vars, pool.push(Seq::empty()), strings) {
            assert(p1.subrange(0, n as int + 1) == pool.push(Seq::empty()));
            assert(p1.update(n as int, body).subrange(0, n as int) =~= pool) by {
                assert forall|i: int| 0 <= i < n implies #[trigger] p1.update(n as int, body)[i] == pool[i] by {
                    assert(p1[i] == p1.subrange(0, n as int + 1)[i]);
                }
            }
        }
    }
}

/// Compiling statements never changes the slots already in the function
/// pool: definitions only add slots after them.
pub proof fn lemma_comp_stmts_keeps_pool(b: Seq<SpecStmt>, vars: Seq<SpecLocal>, pool: Seq<Seq<u8>>, strings: Seq<Seq<char>>)
    ensures
        comp_stmts(b, vars, pool, strings) matches Some((_, p1, _)) ==> p1.len() >= pool.len() && p1.subrange(
            0,
            pool.len() as int,
        ) == pool,
    decreases b,
{
    if b.len() > 0 {
        lemma_comp_stmt_keeps_pool(b[0], vars, pool, strings);
        if let Some((c0, p1, s1)) = comp_stmt(b[0], vars, pool, strings) {
            lemma_comp_stmts_keeps_pool(b.subrange(1, b.len() as int), vars, p1, s1);
            if let Some((cs, p2, s2)) = comp_stmts(b.subrange(1, b.len() as int), vars, p1, s1) {
                assert(p2.subrange(0, pool.len() as int) =~= pool) by {
                    assert forall|i: int| 0 <= i < pool.len() implies #[trigger] p2[i] == pool[i] by {
                        assert(p2[i] == p2.subrange(0, p1.len() as int)[i]);
                        assert(p1[i] == p1.subrange(0, pool.len() as int)[i]);
                    }
                }
            }
        }
    }
}

/// Compiling a function definition emits nothing where it stands, leaves
/// the slots already in the pool as they were, and fills the next slot with
/// exactly the code of its body, compiled with that slot reserved; the
/// functions defined inside it take the slots after it.
pub proof fn lemma_definition_fills_next_slot(
    id: usize,
    block: Seq<SpecStmt>,
    vars: Seq<SpecLocal>,
    pool: Seq<Seq<u8>>,
    strings: Seq<Seq<char>>,
)
    ensures
        comp_stmt(SpecStmt::FunctionDefinition { identifier: id, block }, vars, pool, strings) matches Some((c, p1, s1))
            ==> c.len() == 0 && p1.len() > pool.len() && p1.subrange(0, pool.len() as int) == pool && (comp_stmts(
            block,
            vars,
            pool.push(Seq::empty()),
            strings,
        ) matches Some((body, p2, s2)) && p1[pool.len() as int] == body && p1 == p2.update(pool.len() as int, body)
            && s1 == s2),
{
    lemma_comp_stmt_keeps_pool(SpecStmt::FunctionDefinition { identifier: id, block }, vars, pool, strings);
    lemma_comp_stmts_keeps_pool(block, vars, pool.push(Seq::empty()), strings);
}

} // verus!

//! The instruction set of the virtual machine and the tags that it stores
//! next to operands and on its stack.
use vstd::prelude::*;

verus! {

/// An instruction; its byte is its position in this list (`Push` is 0x00,
/// `Str2Bool` is 0x10).
#[derive(Debug, Clone, Copy, PartialEq, Eq, Structural)]
pub enum Op {
    Push,
    Pop,
    Load,
    Call,
    Return,
    Write,
    Add,
    Sub,
    Mul,
    Div,
    Pow,
    Cat,
    Str2Int,
    Int2Str,
    Bool2Str,
    Int2Bool,
    Str2Bool,
}

pub open spec fn op_code(op: Op) -> u8 {
    match op {
        Op::Push => 0x00,
        Op::Pop => 0x01,
        Op::Load => 0x02,
        Op::Call => 0x03,
        Op::Return => 0x04,
        Op::Write => 0x05,
        Op::Add => 0x06,
        Op::Sub => 0x07,
        Op::Mul => 0x08,
        Op::Div => 0x09,
        Op::Pow => 0x0A,
        Op::Cat => 0x0B,
        Op::Str2Int => 0x0C,
        Op::Int2Str => 0x0D,
        Op::Bool2Str => 0x0E,
        Op::Int2Bool => 0x0F,
        Op::Str2Bool => 0x10,
    }
}

/// The instruction a byte stands for; bytes above 0x10 stand for none.
pub open spec fn op_of_code(b: u8) -> Option<Op> {
    if b == 0x00 {
        Some(Op::Push)
    } else if b == 0x01 {
        Some(Op::Pop)
    } else if b == 0x02 {
        Some(Op::Load)
    } else if b == 0x03 {
        Some(Op::Call)
    } else if b == 0x04 {
        Some(Op::Return)
    } else if b == 0x05 {
        Some(Op::Write)
    } else if b == 0x06 {
        Some(Op::Add)
    } else if b == 0x07 {
        Some(Op::Sub)
    } else if b == 0x08 {
        Some(Op::Mul)
    } else if b == 0x09 {
        Some(Op::Div)
    } else if b == 0x0A {
        Some(Op::Pow)
    } else if b == 0x0B {
        Some(Op::Cat)
    } else if b == 0x0C {
        Some(Op::Str2Int)
    } else if b == 0x0D {
        Some(Op::Int2Str)
    } else if b == 0x0E {
        Some(Op::Bool2Str)
    } else if b == 0x0F {
        Some(Op::Int2Bool)
    } else if b == 0x10 {
        Some(Op::Str2Bool)
    } else {
        None
    }
}

impl Op {
    /// The byte of this instruction.
    pub fn code(self) -> (b: u8)
        ensures
            b == op_code(self),
    {
        match self {
            Op::Push => 0x00,
            Op::Pop => 0x01,
            Op::Load => 0x02,
            Op::Call => 0x03,
            Op::Return => 0x04,
            Op::Write => 0x05,
            Op::Add => 0x06,
            Op::Sub => 0x07,
            Op::Mul => 0x08,
            Op::Div => 0x09,
            Op::Pow => 0x0A,
            Op::Cat => 0x0B,
            Op::Str2Int => 0x0C,
            Op::Int2Str => 0x0D,
            Op::Bool2Str => 0x0E,
            Op::Int2Bool => 0x0F,
            Op::Str2Bool => 0x10,
        }
    }

    /// The instruction of a byte, if it is one (0x00 to 0x10).
    pub fn from_code(b: u8) -> (r: Option<Op>)
        ensures
            r == op_of_code(b),
    {
        if b == 0x00 {
            Some(Op::Push)
        } else if b == 0x01 {
            Some(Op::Pop)
        } else if b == 0x02 {
            Some(Op::Load)
        } else if b == 0x03 {
            Some(Op::Call)
        } else if b == 0x04 {
            Some(Op::Return)
        } else if b == 0x05 {
            Some(Op::Write)
        } else if b == 0x06 {
            Some(Op::Add)
        } else if b == 0x07 {
            Some(Op::Sub)
        } else if b == 0x08 {
            Some(Op::Mul)
        } else if b == 0x09 {
            Some(Op::Div)
        } else if b == 0x0A {
            Some(Op::Pow)
        } else if b == 0x0B {
            Some(Op::Cat)
        } else if b == 0x0C {
            Some(Op::Str2Int)
        } else if b == 0x0D {
            Some(Op::Int2Str)
        } else if b == 0x0E {
            Some(Op::Bool2Str)
        } else if b == 0x0F {
            Some(Op::Int2Bool)
        } else if b == 0x10 {
            Some(Op::Str2Bool)
        } else {
            None
        }
    }
}

/// Decoding inverts encoding: every instruction's byte decodes back to it,
/// and exactly the bytes 0x00 to 0x10 are instructions, each the byte of
/// the instruction it decodes to.
pub proof fn lemma_op_code_roundtrip(op: Op, b: u8)
    ensures
        op_of_code(op_code(op)) == Some(op),
        op_of_code(b) is Some <==> b <= 0x10,
        op_of_code(b) matches Some(o) ==> op_code(o) == b,
{
}

/// What a stack word tags a frame as.
#[derive(Debug, Clone, Copy, PartialEq, Eq, Structural)]
pub enum Frame {
    Block,
    Func,
}

pub open spec fn frame_of_word(w: usize) -> Option<Frame> {
    if w == 0 {
        Some(Frame::Block)
    } else if w == 1 {
        Some(Frame::Func)
    } else {
        None
    }
}

pub open spec fn frame_word(f: Frame) -> usize {
    match f {
        Frame::Block => 0,
        Frame::Func => 1,
    }
}

impl Frame {
    pub fn word(self) -> (w: usize)
        ensures
            w == frame_word(self),
    {
        match self {
            Frame::Block => 0,
            Frame::Func => 1,
        }
    }

    /// The frame tag of a stack word, if it is one (0 or 1).
    pub fn from_word(w: usize) -> (r: Option<Frame>)
        ensures
            r == frame_of_word(w),
    {
        if w == 0 {
            Some(Frame::Block)
        } else if w == 1 {
            Some(Frame::Func)
        } else {
            None
        }
    }
}

/// Frame tags and their words correspond one to one.
pub proof fn lemma_frame_word_roundtrip(f: Frame, w: usize)
    ensures
        frame_of_word(frame_word(f)) == Some(f),
        frame_of_word(w) matches Some(g) ==> frame_word(g) == w,
        frame_of_word(w) is Some <==> w <= 1,
{
}

/// The width of an operand that follows: one, four or eight bytes.
#[derive(Debug, Clone, Copy, PartialEq, Eq, Structural)]
pub enum NumSize {
    _8,
    _32,
    _64,
}

pub open spec fn num_size_of_code(b: u8) -> Option<NumSize> {
    if b == 0 {
        Some(NumSize::_8)
    } else if b == 1 {
        Some(NumSize::_32)
    } else if b == 2 {
        Some(NumSize::_64)
    } else {
        None
    }
}

pub open spec fn num_size_code(n: NumSize) -> u8 {
    match n {
        NumSize::_8 => 0,
        NumSize::_32 => 1,
        NumSize::_64 => 2,
    }
}

impl NumSize {
    pub fn code(self) -> (b: u8)
        ensures
            b == num_size_code(self),
    {
        match self {
            NumSize::_8 => 0,
            NumSize::_32 => 1,
            NumSize::_64 => 2,
        }
    }

    /// The width tagged by a byte, if it is one (0, 1 or 2).
    pub fn from_code(b: u8) -> (r: Option<NumSize>)
        ensures
            r == num_size_of_code(b),
    {
        if b == 0 {
            Some(NumSize::_8)
        } else if b == 1 {
            Some(NumSize::_32)
        } else if b == 2 {
            Some(NumSize::_64)
        } else {
            None
        }
    }
}

/// Width tags and their bytes correspond one to one.
pub proof fn lemma_num_size_roundtrip(n: NumSize, b: u8)
    ensures
        num_size_of_code(num_size_code(n)) == Some(n),
        num_size_of_code(b) matches Some(m) ==> num_size_code(m) == b,
        num_size_of_code(b) is Some <==> b <= 2,
{
}

} // verus!

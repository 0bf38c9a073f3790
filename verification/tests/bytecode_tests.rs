use tiro::bytecode::{Frame, NumSize, Op};

#[test]
fn instruction_bytes_round_trip() {
    let ops = [
        Op::Push, Op::Pop, Op::Load, Op::Call, Op::Return, Op::Write, Op::Add, Op::Sub, Op::Mul, Op::Div, Op::Pow,
        Op::Cat, Op::Str2Int, Op::Int2Str, Op::Bool2Str, Op::Int2Bool, Op::Str2Bool,
    ];
    for (i, op) in ops.iter().enumerate() {
        assert_eq!(op.code() as usize, i);
        assert_eq!(Op::from_code(op.code()), Some(*op));
    }
    assert_eq!(Op::from_code(0x11), None);
    assert_eq!(Op::from_code(0xFF), None);
}

#[test]
fn frame_words_round_trip() {
    assert_eq!(Frame::from_word(Frame::Block.word()), Some(Frame::Block));
    assert_eq!(Frame::from_word(Frame::Func.word()), Some(Frame::Func));
    assert_eq!(Frame::Func.word(), 1);
    assert_eq!(Frame::from_word(2), None);
}

#[test]
fn operand_width_tags_round_trip() {
    for n in [NumSize::_8, NumSize::_32, NumSize::_64] {
        assert_eq!(NumSize::from_code(n.code()), Some(n));
    }
    assert_eq!(NumSize::_64.code(), 2);
    assert_eq!(NumSize::from_code(3), None);
}

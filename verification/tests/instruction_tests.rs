use obfuscation::error::Error;
use obfuscation::instruction::{
    Ids, BinCondOp, BinOp, Instr, Instruction, Kst, Opcode, Opmode, Reg, RegKst, UnOp,
};

fn abc(op: u32, a: u32, b: u32, c: u32) -> u32 {
    op | (a << 6) | (c << 14) | (b << 23)
}

fn abx(op: u32, a: u32, bx: u32) -> u32 {
    op | (a << 6) | (bx << 14)
}

fn asbx(op: u32, a: u32, sbx: i32) -> u32 {
    op | (a << 6) | (((sbx + 0x1ffff) as u32) << 14)
}

#[test]
fn opcode_numbers_follow_the_wire_order() {
    assert_eq!(Opcode::Move.to_instr(), 0);
    assert_eq!(Opcode::LoadK.to_instr(), 1);
    assert_eq!(Opcode::Jump.to_instr(), 22);
    assert_eq!(Opcode::Eq.to_instr(), 23);
    assert_eq!(Opcode::Return.to_instr(), 30);
    assert_eq!(Opcode::ForLoop.to_instr(), 31);
    assert_eq!(Opcode::ForPrep.to_instr(), 32);
    assert_eq!(Opcode::TForLoop.to_instr(), 33);
    assert_eq!(Opcode::VarArg.to_instr(), 37);
    assert_eq!(Opcode::NOP.to_instr(), 38);
}

#[test]
fn opcode_is_read_from_the_low_six_bits() {
    assert_eq!(Opcode::from_instr(0), Some(Opcode::Move));
    assert_eq!(Opcode::from_instr(0xffff_ffc0 | 30), Some(Opcode::Return));
    assert_eq!(Opcode::from_instr(37), Some(Opcode::VarArg));
    assert_eq!(Opcode::from_instr(38), Some(Opcode::NOP));
    assert_eq!(Opcode::from_instr(39), None);
    assert_eq!(Opcode::from_instr(63), None);
}

#[test]
fn every_opcode_comes_back_from_its_number() {
    for n in 0..39u32 {
        let op = Opcode::from_instr(n).unwrap();
        assert_eq!(op.to_instr(), n);
    }
}

#[test]
fn decodes_register_moves() {
    assert_eq!(Instr::from_instr(abc(0, 3, 7, 0), None), Ok(Instr::Move(Reg(3), Reg(7))));
    assert_eq!(Instr::from_instr(abc(3, 1, 4, 0), None), Ok(Instr::LoadNil(Reg(1), Reg(4))));
    assert_eq!(
        Instr::from_instr(abc(2, 5, 1, 0), None),
        Ok(Instr::LoadBool(Reg(5), true, false))
    );
    assert_eq!(
        Instr::from_instr(abc(2, 5, 0, 1), None),
        Ok(Instr::LoadBool(Reg(5), false, true))
    );
}

#[test]
fn decodes_constant_loads() {
    assert_eq!(Instr::from_instr(abx(1, 2, 9), None), Ok(Instr::LoadK(Reg(2), Kst(9))));
    assert_eq!(Instr::from_instr(abx(5, 0, 1), None), Ok(Instr::GetGlobal(Reg(0), Kst(1))));
    assert_eq!(Instr::from_instr(abx(7, 4, 0x3ffff), None), Ok(Instr::SetGlobal(Reg(4), Kst(0x3ffff))));
    assert_eq!(Instr::from_instr(abx(36, 1, 3), None), Ok(Instr::Closure(Reg(1), 3)));
}

#[test]
fn a_field_above_0xff_is_a_constant() {
    assert_eq!(
        Instr::from_instr(abc(12, 0, 0x100, 0x1ff), None),
        Ok(Instr::BinOp(Reg(0), RegKst::K(Kst(0x100)), BinOp::Add, RegKst::K(Kst(0x1ff))))
    );
    assert_eq!(
        Instr::from_instr(abc(13, 0, 0xff, 0x100), None),
        Ok(Instr::BinOp(Reg(0), RegKst::R(Reg(0xff)), BinOp::Sub, RegKst::K(Kst(0x100))))
    );
    assert_eq!(
        Instr::from_instr(abc(6, 1, 2, 0x101), None),
        Ok(Instr::GetTable(Reg(1), Reg(2), RegKst::K(Kst(0x101))))
    );
    assert_eq!(
        Instr::from_instr(abc(9, 1, 0x102, 3), None),
        Ok(Instr::SetTable(Reg(1), RegKst::K(Kst(0x102)), RegKst::R(Reg(3))))
    );
}

#[test]
fn decodes_arithmetic_and_logic() {
    let ops = [
        (12, BinOp::Add),
        (13, BinOp::Sub),
        (14, BinOp::Mul),
        (15, BinOp::Div),
        (16, BinOp::Mod),
        (17, BinOp::Pow),
    ];
    for (n, op) in ops {
        assert_eq!(
            Instr::from_instr(abc(n, 1, 2, 3), None),
            Ok(Instr::BinOp(Reg(1), RegKst::R(Reg(2)), op, RegKst::R(Reg(3))))
        );
    }
    assert_eq!(Instr::from_instr(abc(18, 1, 2, 0), None), Ok(Instr::UnOp(Reg(1), UnOp::Unm, Reg(2))));
    assert_eq!(Instr::from_instr(abc(19, 1, 2, 0), None), Ok(Instr::UnOp(Reg(1), UnOp::Not, Reg(2))));
    assert_eq!(Instr::from_instr(abc(20, 1, 2, 0), None), Ok(Instr::UnOp(Reg(1), UnOp::Len, Reg(2))));
    assert_eq!(Instr::from_instr(abc(21, 1, 2, 3), None), Ok(Instr::Concat(Reg(1), Reg(2), Reg(3))));
}

#[test]
fn decodes_conditionals() {
    assert_eq!(
        Instr::from_instr(abc(23, 1, 2, 0x100), None),
        Ok(Instr::BinCondOp(true, RegKst::R(Reg(2)), BinCondOp::Eq, RegKst::K(Kst(0x100))))
    );
    assert_eq!(
        Instr::from_instr(abc(24, 0, 0x100, 0x101), None),
        Ok(Instr::BinCondOp(false, RegKst::K(Kst(0x100)), BinCondOp::Lt, RegKst::K(Kst(0x101))))
    );
    assert_eq!(
        Instr::from_instr(abc(25, 0, 1, 2), None),
        Ok(Instr::BinCondOp(false, RegKst::R(Reg(1)), BinCondOp::Le, RegKst::R(Reg(2))))
    );
    assert_eq!(Instr::from_instr(abc(26, 4, 0, 1), None), Ok(Instr::Test(Reg(4), true)));
    assert_eq!(Instr::from_instr(abc(27, 4, 5, 0), None), Ok(Instr::TestSet(Reg(4), Reg(5), false)));
}

#[test]
fn decodes_signed_offsets_with_their_bias() {
    assert_eq!(Instr::from_instr(asbx(22, 0, 0), None), Ok(Instr::Jump(Reg(0), 0)));
    assert_eq!(Instr::from_instr(asbx(22, 0, 4), None), Ok(Instr::Jump(Reg(0), 4)));
    assert_eq!(Instr::from_instr(asbx(22, 0, -7), None), Ok(Instr::Jump(Reg(0), -7)));
    assert_eq!(Instr::from_instr(asbx(31, 1, -2), None), Ok(Instr::ForLoop(Reg(1), -2)));
    assert_eq!(Instr::from_instr(asbx(32, 1, 1), None), Ok(Instr::ForPrep(Reg(1), 1)));
    assert_eq!(Instr::from_instr(22, None), Ok(Instr::Jump(Reg(0), -0x1ffff)));
    assert_eq!(Instr::from_instr(22 | (0x3ffff << 14), None), Ok(Instr::Jump(Reg(0), 0x20000)));
}

#[test]
fn decodes_calls_and_the_rest() {
    assert_eq!(Instr::from_instr(abc(28, 0, 2, 1), None), Ok(Instr::Call(Reg(0), 2, 1)));
    assert_eq!(Instr::from_instr(abc(29, 0, 2, 0), None), Ok(Instr::TailCall(Reg(0), 2, 0)));
    assert_eq!(Instr::from_instr(abc(30, 0, 1, 0), None), Ok(Instr::Return(Reg(0), 1)));
    assert_eq!(Instr::from_instr(abc(33, 0, 0, 2), None), Ok(Instr::TForLoop(Reg(0), 2)));
    assert_eq!(Instr::from_instr(abc(35, 3, 0, 0), None), Ok(Instr::Close(Reg(3))));
    assert_eq!(Instr::from_instr(abc(37, 3, 2, 0), None), Ok(Instr::VarArg(Reg(3), 2)));
    assert_eq!(Instr::from_instr(abc(4, 1, 2, 0), None), Ok(Instr::GetUpval(Reg(1), 2)));
    assert_eq!(Instr::from_instr(abc(8, 1, 2, 0), None), Ok(Instr::SetUpval(Reg(1), 2)));
    assert_eq!(Instr::from_instr(abc(10, 1, 3, 0), None), Ok(Instr::NewTable(Reg(1), Reg(3), Reg(0))));
    assert_eq!(
        Instr::from_instr(abc(11, 1, 2, 0x100), None),
        Ok(Instr::Self_(Reg(1), Reg(2), RegKst::K(Kst(0x100))))
    );
    assert_eq!(Instr::from_instr(38, None), Ok(Instr::NOP));
}

#[test]
fn list_store_takes_its_count_from_the_field_or_from_the_next_word() {
    assert_eq!(Instr::from_instr(abc(34, 1, 3, 1), None), Ok(Instr::SetList(Reg(1), 3, 1)));
    assert_eq!(Instr::from_instr(abc(34, 1, 3, 1), Some(&77)), Ok(Instr::SetList(Reg(1), 3, 1)));
    assert_eq!(Instr::from_instr(abc(34, 1, 0, 0), Some(&600)), Ok(Instr::SetList(Reg(1), 0, 600)));
    assert_eq!(Instr::from_instr(abc(34, 1, 0, 0), None), Err(Error::FormatError));
}

#[test]
fn unknown_opcodes_are_refused() {
    for n in 39..64u32 {
        assert_eq!(Instr::from_instr(n, None), Err(Error::FormatError));
        assert_eq!(Instruction::from_instr(n | 0xabc0, None, &mut Ids::new()), Err(Error::FormatError));
    }
}

#[test]
fn a_stack_slot_above_0xff_is_refused() {
    assert_eq!(Instr::from_instr(abc(0, 0, 0x100, 0), None), Err(Error::FormatError));
    assert_eq!(Instr::from_instr(abc(3, 0, 0x1ff, 0), None), Err(Error::FormatError));
    assert_eq!(Instr::from_instr(abc(6, 0, 0x100, 0), None), Err(Error::FormatError));
    assert_eq!(Instr::from_instr(abc(10, 0, 0x100, 0), None), Err(Error::FormatError));
    assert_eq!(Instr::from_instr(abc(10, 0, 0, 0x100), None), Err(Error::FormatError));
    assert_eq!(Instr::from_instr(abc(21, 0, 1, 0x100), None), Err(Error::FormatError));
    assert_eq!(Instr::from_instr(abc(18, 0, 0x100, 0), None), Err(Error::FormatError));
    assert_eq!(Instr::from_instr(abc(27, 0, 0x100, 0), None), Err(Error::FormatError));
}

#[test]
fn packed_fields_of_each_layout() {
    assert_eq!(Instr::Move(Reg(3), Reg(7)).get_opmode(), Opmode::iABC(3, 7, 0));
    assert_eq!(Instr::LoadK(Reg(2), Kst(9)).get_opmode(), Opmode::iABx(2, 9));
    assert_eq!(Instr::Jump(Reg(0), -7).get_opmode(), Opmode::iAsBx(0, -7));
    assert_eq!(Instr::LoadBool(Reg(1), true, false).get_opmode(), Opmode::iABC(1, 1, 0));
    assert_eq!(Instr::Test(Reg(1), true).get_opmode(), Opmode::iABC(1, 0, 1));
    assert_eq!(Instr::TForLoop(Reg(1), 2).get_opmode(), Opmode::iABC(1, 0, 2));
    assert_eq!(
        Instr::BinCondOp(true, RegKst::R(Reg(2)), BinCondOp::Eq, RegKst::K(Kst(0x100))).get_opmode(),
        Opmode::iABC(1, 2, 0x100)
    );
    assert_eq!(Instr::SetList(Reg(1), 3, 1).get_opmode(), Opmode::iABC(1, 3, 1));
    assert_eq!(Instr::SetList(Reg(1), 0, 600).get_opmode(), Opmode::iABC(1, 0, 0));
    assert_eq!(Instr::NOP.get_opmode(), Opmode::NOP);
}

#[test]
fn words_of_instructions() {
    let cases = [
        (Instr::Move(Reg(3), Reg(7)), abc(0, 3, 7, 0)),
        (Instr::LoadK(Reg(1), Kst(1)), abx(1, 1, 1)),
        (Instr::GetGlobal(Reg(0), Kst(0)), abx(5, 0, 0)),
        (Instr::Call(Reg(0), 2, 1), abc(28, 0, 2, 1)),
        (Instr::Return(Reg(0), 1), abc(30, 0, 1, 0)),
        (Instr::Jump(Reg(0), -7), asbx(22, 0, -7)),
        (Instr::ForPrep(Reg(1), 1), asbx(32, 1, 1)),
        (
            Instr::BinCondOp(false, RegKst::K(Kst(0x100)), BinCondOp::Lt, RegKst::K(Kst(0x101))),
            abc(24, 0, 0x100, 0x101),
        ),
    ];
    for (instr, word) in cases {
        let instruction = Instruction::new(instr.opcode(), instr, &mut Ids::new());
        assert_eq!(instruction.serialize(), word);
        assert_eq!(Instr::from_instr(word, None), Ok(instr));
    }
}

#[test]
fn a_known_word_of_the_reference_compiler() {
    // GETGLOBAL 0 -1; LOADK 1 -2; CALL 0 2 1; RETURN 0 1
    let words = [0x0000_0005u32, 0x0000_4041, 0x0100_401c, 0x0080_001e];
    let want = [
        Instr::GetGlobal(Reg(0), Kst(0)),
        Instr::LoadK(Reg(1), Kst(1)),
        Instr::Call(Reg(0), 2, 1),
        Instr::Return(Reg(0), 1),
    ];
    for (word, instr) in words.iter().zip(want) {
        assert_eq!(Instr::from_instr(*word, None), Ok(instr));
        assert_eq!(Instruction::new(instr.opcode(), instr, &mut Ids::new()).serialize(), *word);
    }
}

#[test]
fn instruction_from_word_sets_all_four_parts() {
    let got = Instruction::from_instr(abc(28, 0, 2, 1), None, &mut Ids::new()).unwrap();
    assert_eq!(got, Instruction(Opcode::Call, Instr::Call(Reg(0), 2, 1), Opmode::iABC(0, 2, 1), 1));
    let made = Instruction::new(Opcode::Call, Instr::Call(Reg(0), 2, 1), &mut Ids::new());
    assert_eq!(made, got);
}

#[test]
fn numbers_are_issued_once_and_grow() {
    let mut ids = Ids::new();
    assert_eq!(ids.get_id(), 1);
    assert_eq!(ids.get_id(), 2);
    let first = Instruction::new(Opcode::Move, Instr::Move(Reg(0), Reg(1)), &mut ids);
    let second = Instruction::new(Opcode::Move, Instr::Move(Reg(0), Reg(1)), &mut ids);
    let third = Instruction::from_instr(abc(28, 0, 2, 1), None, &mut ids).unwrap();
    assert_eq!((first.3, second.3, third.3), (3, 4, 5));
    assert_ne!(first, second);
    assert_eq!((first.0, first.1, first.2), (second.0, second.1, second.2));
    assert_eq!(ids.get_id(), 6);
}

#[test]
fn a_word_that_is_no_instruction_takes_no_number() {
    let mut ids = Ids::new();
    assert_eq!(Instruction::from_instr(0xabc0 | 39, None, &mut ids), Err(Error::FormatError));
    assert_eq!(Instruction::from_instr(abc(28, 0, 2, 1), None, &mut ids).unwrap().3, 1);
    assert_eq!(ids.get_id(), 2);
}

#[test]
fn fields_wider_than_their_place_are_cut() {
    let wide = Instruction(Opcode::Move, Instr::NOP, Opmode::iABC(0x1ff, 0x3ff, 0x200), 0);
    assert_eq!(wide.serialize(), abc(0, 0xff, 0x1ff, 0));
    let wide = Instruction(Opcode::LoadK, Instr::NOP, Opmode::iABx(0, 0x4_0001), 0);
    assert_eq!(wide.serialize(), abx(1, 0, 1));
}

#[test]
fn from_opmode_decodes_under_the_opcode() {
    assert_eq!(
        Instr::from_opmode(Opcode::Move, Opmode::iABC(3, 7, 0)),
        Ok(Instr::Move(Reg(3), Reg(7)))
    );
    assert_eq!(
        Instr::from_opmode(Opcode::Jump, Opmode::iAsBx(0, 12)),
        Ok(Instr::Jump(Reg(0), 12))
    );
    assert_eq!(Instr::from_opmode(Opcode::Move, Opmode::NOP), Ok(Instr::NOP));
    assert_eq!(
        Instr::from_opmode(Opcode::Move, Opmode::iABC(0, 0x100, 0)),
        Err(Error::FormatError)
    );
    assert_eq!(
        Instr::from_opmode(Opcode::SetList, Opmode::iABC(0, 1, 0)),
        Err(Error::FormatError)
    );
}

#[test]
fn operand_get_and_set() {
    let mut r = RegKst::R(Reg(4));
    assert_eq!(r.get(), 4);
    r.set(9);
    assert_eq!(r, RegKst::R(Reg(9)));
    r.set(0x105);
    assert_eq!(r, RegKst::R(Reg(5)));
    let mut k = RegKst::K(Kst(0x100));
    assert_eq!(k.get(), 0x100);
    k.set(0x1ff);
    assert_eq!(k, RegKst::K(Kst(0x1ff)));
}

#[test]
fn decoding_a_word_and_packing_it_again_gives_the_word() {
    let words = [
        abc(0, 1, 2, 0),
        abx(1, 255, 0x3ffff),
        abc(9, 255, 0x1ff, 0x1ff),
        abc(12, 0, 0x100, 0xff),
        asbx(22, 0, 0x20000),
        asbx(31, 200, -0x1ffff),
        abc(28, 4, 0x1ff, 0),
        abc(34, 4, 0x1ff, 0x1ff),
        abc(37, 4, 0x1ff, 0),
    ];
    for w in words {
        let got = Instruction::from_instr(w, None, &mut Ids::new()).unwrap();
        assert_eq!(got.serialize(), w);
    }
}

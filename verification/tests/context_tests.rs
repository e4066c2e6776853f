use obfuscation::context::{Context, Op};
use obfuscation::error::Error;
use obfuscation::instruction::{
    Ids, BinCondOp, BinOp, Instr, Instruction, Kst, Opcode, Opmode, Reg, RegKst,
};
use obfuscation::proto::{Constants, Proto};

fn number(n: f64) -> Constants {
    Constants::Number(n.to_bits())
}

fn text(s: &str) -> Constants {
    Constants::String(s.to_string())
}

fn ins(instr: Instr) -> Instruction {
    Instruction::new(instr.opcode(), instr, &mut Ids::new())
}

fn made(instr: Instr, ids: &mut Ids) -> Instruction {
    Instruction::new(instr.opcode(), instr, ids)
}

fn sample_under(ids: &mut Ids) -> Context {
    let mut proto = Proto::default();
    proto.constants = vec![text("print"), number(1.0), number(2.0), text("x")];
    proto.instructions = vec![
        made(Instr::GetGlobal(Reg(0), Kst(0)), ids),
        made(Instr::LoadK(Reg(1), Kst(1)), ids),
        made(Instr::BinOp(Reg(1), RegKst::R(Reg(1)), BinOp::Add, RegKst::K(Kst(0x102))), ids),
        made(Instr::SetTable(Reg(2), RegKst::K(Kst(0x103)), RegKst::K(Kst(0x101))), ids),
        made(Instr::GetTable(Reg(2), Reg(2), RegKst::K(Kst(0x103))), ids),
        made(Instr::Call(Reg(0), 2, 1), ids),
        made(Instr::Return(Reg(0), 1), ids),
    ];
    let mut ctx = Context::new((4, 4, 4, 8), proto);
    ctx.map();
    ctx
}

fn sample() -> Context {
    sample_under(&mut Ids::new())
}

fn decoded(ctx: &Context) -> Vec<Instr> {
    ctx.chunk.instructions.iter().map(|i| i.1).collect()
}

fn table(ctx: &Context) -> Vec<(u32, Op, usize)> {
    ctx.constant_refs.clone()
}

/// Every entry of the table is true of the code and the pool.
fn table_is_true(ctx: &Context) -> bool {
    ctx.constant_refs.iter().all(|&(k, op, ip)| {
        let instr = match ctx.chunk.instructions.get(ip) {
            Some(i) => i.1,
            None => return false,
        };
        let rk = |x: RegKst| match x {
            RegKst::K(Kst(v)) if v >= 0x100 => Some(v - 0x100),
            _ => None,
        };
        let found = match (instr, op) {
            (Instr::LoadK(_, Kst(v)), Op::Bx)
            | (Instr::GetGlobal(_, Kst(v)), Op::Bx)
            | (Instr::SetGlobal(_, Kst(v)), Op::Bx) => Some(v),
            (Instr::SetTable(_, b, _), Op::B)
            | (Instr::BinOp(_, b, _, _), Op::B)
            | (Instr::BinCondOp(_, b, _, _), Op::B) => rk(b),
            (Instr::GetTable(_, _, c), Op::C)
            | (Instr::Self_(_, _, c), Op::C)
            | (Instr::SetTable(_, _, c), Op::C)
            | (Instr::BinOp(_, _, _, c), Op::C)
            | (Instr::BinCondOp(_, _, _, c), Op::C) => rk(c),
            _ => None,
        };
        found == Some(k) && (k as usize) < ctx.chunk.constants.len()
    })
}

fn packed_fields_agree(ctx: &Context) -> bool {
    ctx.chunk.instructions.iter().all(|i| i.0 == i.1.opcode() && i.2 == i.1.get_opmode())
}

#[test]
fn a_new_context_keeps_the_numbers_and_drops_debug_information() {
    let mut proto = Proto::default();
    proto.instructions = vec![
        Instruction(Opcode::Move, Instr::Return(Reg(0), 1), Opmode::NOP, 77),
        Instruction(Opcode::Return, Instr::Move(Reg(1), Reg(2)), Opmode::iABx(0, 0), 12),
    ];
    proto.source_lines = Some(vec![1, 2]);
    let ctx = Context::new((4, 4, 4, 8), proto);
    assert_eq!(ctx.header, (4, 4, 4, 8));
    assert_eq!(
        ctx.chunk.instructions,
        vec![
            Instruction(Opcode::Return, Instr::Return(Reg(0), 1), Opmode::iABC(0, 1, 0), 77),
            Instruction(Opcode::Move, Instr::Move(Reg(1), Reg(2)), Opmode::iABC(1, 2, 0), 12),
        ]
    );
    assert!(ctx.chunk.source_lines.is_none());
    assert!(ctx.chunk.locals.is_none());
    assert!(ctx.chunk.upvals.is_none());
    assert!(ctx.constant_refs.is_empty());
    assert_eq!(ctx.get_max_ip(), 2);
}

#[test]
fn get_constant_by_index() {
    let ctx = sample();
    assert!(ctx.get_constant(0).unwrap().equals(&text("print")));
    assert!(ctx.get_constant(3).unwrap().equals(&text("x")));
    assert!(ctx.get_constant(4).is_none());
    assert!(ctx.get_constant(u32::MAX).is_none());
}

#[test]
fn the_table_lists_every_constant_an_instruction_names() {
    let ctx = sample();
    assert_eq!(
        table(&ctx),
        vec![
            (0, Op::Bx, 0),
            (1, Op::Bx, 1),
            (2, Op::C, 2),
            (3, Op::B, 3),
            (1, Op::C, 3),
            (3, Op::C, 4),
        ]
    );
    assert!(table_is_true(&ctx));
}

#[test]
fn map_instr_skips_constants_outside_the_pool() {
    let ctx = sample();
    let far = ins(Instr::LoadK(Reg(0), Kst(4)));
    assert_eq!(ctx.map_instr(9, &far), vec![]);
    let near = ins(Instr::LoadK(Reg(0), Kst(3)));
    assert_eq!(ctx.map_instr(9, &near), vec![(9, 3, Op::Bx)]);
    let both = ins(Instr::BinCondOp(
        true,
        RegKst::K(Kst(0x100)),
        BinCondOp::Lt,
        RegKst::K(Kst(0x104)),
    ));
    assert_eq!(ctx.map_instr(2, &both), vec![(2, 0, Op::B)]);
    let slots = ins(Instr::BinOp(Reg(0), RegKst::R(Reg(1)), BinOp::Mul, RegKst::R(Reg(2))));
    assert_eq!(ctx.map_instr(2, &slots), vec![]);
}

#[test]
fn inserting_a_constant_moves_the_entries_and_the_operands() {
    let mut ctx = sample();
    assert_eq!(ctx.add_constant(1, Constants::Nil), Ok(()));
    assert_eq!(ctx.chunk.constants.len(), 5);
    assert!(matches!(ctx.chunk.constants[1], Constants::Nil));
    assert!(ctx.chunk.constants[2].equals(&number(1.0)));
    assert_eq!(
        decoded(&ctx),
        vec![
            Instr::GetGlobal(Reg(0), Kst(0)),
            Instr::LoadK(Reg(1), Kst(2)),
            Instr::BinOp(Reg(1), RegKst::R(Reg(1)), BinOp::Add, RegKst::K(Kst(0x103))),
            Instr::SetTable(Reg(2), RegKst::K(Kst(0x104)), RegKst::K(Kst(0x102))),
            Instr::GetTable(Reg(2), Reg(2), RegKst::K(Kst(0x104))),
            Instr::Call(Reg(0), 2, 1),
            Instr::Return(Reg(0), 1),
        ]
    );
    assert_eq!(
        table(&ctx),
        vec![
            (0, Op::Bx, 0),
            (2, Op::Bx, 1),
            (3, Op::C, 2),
            (4, Op::B, 3),
            (2, Op::C, 3),
            (4, Op::C, 4),
        ]
    );
    assert!(table_is_true(&ctx));
    assert!(packed_fields_agree(&ctx));
    assert_eq!(ctx.chunk.instructions[1].2, Opmode::iABx(1, 2));
}

#[test]
fn inserting_a_constant_at_the_front_and_at_the_end() {
    let mut ctx = sample();
    ctx.add_constant(0, number(9.0)).unwrap();
    assert_eq!(decoded(&ctx)[0], Instr::GetGlobal(Reg(0), Kst(1)));
    assert!(table_is_true(&ctx));
    let before = decoded(&ctx);
    let len = ctx.chunk.constants.len();
    ctx.add_constant(len, number(8.0)).unwrap();
    assert_eq!(decoded(&ctx), before);
    assert!(table_is_true(&ctx));
}

#[test]
fn operands_that_the_table_does_not_list_stay() {
    let mut proto = Proto::default();
    proto.constants = vec![number(1.0), number(2.0)];
    proto.instructions = vec![ins(Instr::LoadK(Reg(0), Kst(1)))];
    let mut ctx = Context::new((4, 4, 4, 8), proto);
    ctx.add_constant(0, Constants::Nil).unwrap();
    assert_eq!(decoded(&ctx), vec![Instr::LoadK(Reg(0), Kst(1))]);
}

#[test]
fn asking_twice_for_a_constant_gives_one_index() {
    let mut ctx = sample();
    let first = ctx.get_or_add_constant(number(7.0)).unwrap();
    assert_eq!(first, 4);
    assert_eq!(ctx.chunk.constants.len(), 5);
    let second = ctx.get_or_add_constant(number(7.0)).unwrap();
    assert_eq!(second, first);
    assert_eq!(ctx.chunk.constants.len(), 5);
    assert_eq!(ctx.get_or_add_constant(text("print")), Ok(0));
    assert_eq!(ctx.get_or_add_constant(number(2.0)), Ok(2));
    assert_eq!(ctx.get_or_add_constant(text("y")), Ok(5));
    assert_eq!(ctx.get_or_add_constant(text("y")), Ok(5));
    assert_eq!(ctx.get_or_add_constant(Constants::Nil), Ok(6));
    assert_eq!(ctx.get_or_add_constant(Constants::Boolean(false)), Ok(7));
    assert_eq!(ctx.get_or_add_constant(Constants::Boolean(true)), Ok(8));
    assert_eq!(ctx.get_or_add_constant(Constants::Boolean(false)), Ok(7));
    assert_eq!(ctx.chunk.constants.len(), 9);
    assert!(table_is_true(&ctx));
}

#[test]
fn the_first_of_several_equal_constants_is_found() {
    let mut proto = Proto::default();
    proto.constants = vec![number(5.0), number(3.0), number(3.0)];
    let mut ctx = Context::new((4, 4, 4, 8), proto);
    assert_eq!(ctx.get_or_add_constant(number(3.0)), Ok(1));
}

#[test]
fn the_two_zeros_are_one_constant_and_nan_is_always_new() {
    let mut ctx = sample();
    let zero = ctx.get_or_add_constant(number(0.0)).unwrap();
    assert_eq!(ctx.get_or_add_constant(number(-0.0)), Ok(zero));
    let nan = ctx.get_or_add_constant(number(f64::NAN)).unwrap();
    let again = ctx.get_or_add_constant(number(f64::NAN)).unwrap();
    assert_eq!(again, nan + 1);
}

#[test]
fn a_full_pool_takes_no_more() {
    let mut proto = Proto::default();
    proto.constants = (0..0x4_0000).map(|n| number(n as f64)).collect();
    let mut ctx = Context::new((4, 4, 4, 8), proto);
    assert_eq!(ctx.get_or_add_constant(number(5.0)), Ok(5));
    assert_eq!(ctx.get_or_add_constant(number(0.5)), Err(Error::ResourceExhausted));
    assert_eq!(ctx.add_constant(0, Constants::Nil), Err(Error::ResourceExhausted));
    assert_eq!(ctx.chunk.constants.len(), 0x4_0000);
}

#[test]
fn inserting_an_instruction_moves_the_entries() {
    let mut ids = Ids::new();
    let mut ctx = sample_under(&mut ids);
    let id = ctx.add_instruction(1, made(Instr::LoadK(Reg(5), Kst(2)), &mut ids));
    assert_eq!(id, 8);
    assert_eq!(ctx.get_max_ip(), 8);
    assert_eq!(
        ctx.chunk.instructions[1],
        Instruction(Opcode::LoadK, Instr::LoadK(Reg(5), Kst(2)), Opmode::iABx(5, 2), 8)
    );
    assert_eq!(decoded(&ctx)[2], Instr::LoadK(Reg(1), Kst(1)));
    assert_eq!(
        table(&ctx),
        vec![
            (0, Op::Bx, 0),
            (1, Op::Bx, 2),
            (2, Op::C, 3),
            (3, Op::B, 4),
            (1, Op::C, 4),
            (3, Op::C, 5),
            (2, Op::Bx, 1),
        ]
    );
    assert!(table_is_true(&ctx));
    assert!(packed_fields_agree(&ctx));
}

#[test]
fn an_inserted_instruction_gets_its_opcode_from_its_operands() {
    let mut ctx = sample();
    let odd = Instruction(Opcode::Lt, Instr::Move(Reg(1), Reg(2)), Opmode::NOP, 500);
    let at = ctx.get_max_ip();
    let id = ctx.add_instruction(at, odd);
    assert_eq!(id, 500);
    assert_eq!(
        ctx.chunk.instructions[at],
        Instruction(Opcode::Move, Instr::Move(Reg(1), Reg(2)), Opmode::iABC(1, 2, 0), 500)
    );
}

#[test]
fn numbers_stay_with_their_instructions() {
    let mut ids = Ids::new();
    let mut ctx = sample_under(&mut ids);
    let call = ctx.chunk.instructions[5].3;
    assert_eq!(ctx.find_instruction_pt(call), Some(5));
    let a = ctx.add_instruction(0, made(Instr::Move(Reg(0), Reg(0)), &mut ids));
    let b = ctx.add_instruction(3, made(Instr::Move(Reg(1), Reg(1)), &mut ids));
    let c = ctx.add_instruction(9, made(Instr::Move(Reg(2), Reg(2)), &mut ids));
    assert_eq!((a, b, c), (8, 9, 10));
    assert_eq!(ctx.find_instruction_pt(call), Some(7));
    assert_eq!(ctx.find_instruction_pt(a), Some(0));
    assert_eq!(ctx.find_instruction_pt(b), Some(3));
    assert_eq!(ctx.find_instruction_pt(c), Some(9));
    assert_eq!(ctx.find_instruction_pt(0), None);
    assert_eq!(ctx.find_instruction_pt(11), None);
    let mut numbers: Vec<usize> = ctx.chunk.instructions.iter().map(|i| i.3).collect();
    assert_eq!(numbers, vec![8, 1, 2, 9, 3, 4, 5, 6, 7, 10]);
    numbers.sort();
    assert_eq!(numbers, (1..=10).collect::<Vec<usize>>());
}

#[test]
fn the_table_stays_true_through_many_changes() {
    let mut ctx = sample();
    for round in 0..20usize {
        let at = (round * 3) % (ctx.get_max_ip() + 1);
        let k = (round % ctx.chunk.constants.len()) as u32;
        ctx.add_instruction(
            at,
            ins(Instr::BinCondOp(true, RegKst::K(Kst(0x100 + k)), BinCondOp::Eq, RegKst::R(Reg(1)))),
        );
        let pos = (round * 5) % (ctx.chunk.constants.len() + 1);
        ctx.add_constant(pos, number(100.0 + round as f64)).unwrap();
        assert!(table_is_true(&ctx), "round {}", round);
        assert!(packed_fields_agree(&ctx), "round {}", round);
    }
    assert_eq!(ctx.constant_refs.len(), 6 + 20);
}

#[test]
fn an_entry_that_is_not_true_is_refused() {
    let mut ctx = sample();
    let before = table(&ctx);
    assert_eq!(ctx.add_constant_ref(1, 0, Op::Bx), Err(Error::InternalInvariant));
    assert_eq!(ctx.add_constant_ref(1, 1, Op::B), Err(Error::InternalInvariant));
    assert_eq!(ctx.add_constant_ref(99, 1, Op::Bx), Err(Error::InternalInvariant));
    assert_eq!(ctx.add_constant_ref(5, 0, Op::A), Err(Error::InternalInvariant));
    assert_eq!(table(&ctx), before);
    assert_eq!(ctx.add_constant_ref(1, 1, Op::Bx), Ok(()));
    assert_eq!(table(&ctx).len(), before.len() + 1);
}

#[test]
fn applying_a_true_table_changes_nothing() {
    let mut ctx = sample();
    let code = ctx.chunk.instructions.clone();
    let refs = table(&ctx);
    ctx.apply_constant_ref();
    assert_eq!(ctx.chunk.instructions, code);
    assert_eq!(table(&ctx), refs);
}

#[test]
fn applying_a_table_that_is_ahead_rewrites_the_instructions() {
    let mut ctx = sample();
    ctx.constant_refs =
        vec![(3, Op::Bx, 1), (0, Op::C, 2), (2, Op::B, 3), (7, Op::A, 5), (1, Op::B, 0)];
    ctx.chunk.instructions[5].2 = Opmode::NOP;
    ctx.apply_constant_ref();
    assert_eq!(
        decoded(&ctx),
        vec![
            Instr::GetGlobal(Reg(0), Kst(0)),
            Instr::LoadK(Reg(1), Kst(3)),
            Instr::BinOp(Reg(1), RegKst::R(Reg(1)), BinOp::Add, RegKst::K(Kst(0x100))),
            Instr::SetTable(Reg(2), RegKst::K(Kst(0x102)), RegKst::K(Kst(0x101))),
            Instr::GetTable(Reg(2), Reg(2), RegKst::K(Kst(0x103))),
            Instr::Call(Reg(0), 2, 1),
            Instr::Return(Reg(0), 1),
        ]
    );
    assert_eq!(ctx.chunk.instructions[1].2, Opmode::iABx(1, 3));
    assert_eq!(ctx.chunk.instructions[5].2, Opmode::iABC(0, 2, 1));
    assert_eq!(ctx.chunk.instructions[6].2, Opmode::iABC(0, 1, 0));
    assert_eq!(
        table(&ctx),
        vec![(3, Op::Bx, 1), (0, Op::C, 2), (2, Op::B, 3), (7, Op::A, 5), (1, Op::B, 0)]
    );
    let ids: Vec<usize> = ctx.chunk.instructions.iter().map(|i| i.3).collect();
    assert_eq!(ids, vec![1, 2, 3, 4, 5, 6, 7]);
}

#[test]
fn applying_entries_for_one_field_leaves_the_constant_of_the_last() {
    let mut ctx = sample();
    ctx.constant_refs = vec![(2, Op::Bx, 1), (3, Op::Bx, 1), (0, Op::Bx, 1)];
    ctx.apply_constant_ref();
    assert_eq!(decoded(&ctx)[1], Instr::LoadK(Reg(1), Kst(0)));
}

#[test]
fn assemble_writes_the_chunk_of_the_context() {
    let ctx = sample();
    let bytes = ctx.assemble().unwrap();
    assert_eq!(&bytes[..12], &[0x1b, 0x4c, 0x75, 0x61, 0x51, 0, 1, 4, 4, 4, 8, 0]);
    let (_, back) = obfuscation::deserialize::deserialize_bytecode(&bytes, &mut Ids::new()).unwrap();
    assert_eq!(
        back.instructions.iter().map(|i| i.1).collect::<Vec<_>>(),
        decoded(&ctx)
    );
    assert_eq!(back.source_lines, Some(vec![]));
}

#[test]
fn blocks_of_the_context() {
    let ctx = sample();
    let blocks = ctx.map_control_flow();
    assert_eq!(blocks.len(), 1);
    assert_eq!(blocks[0].code, vec![0, 1, 2, 3, 4, 5, 6]);
    assert_eq!(blocks[0].target, obfuscation::control_flow::Target::Undefined(0));
    let mut ctx = ctx;
    ctx.add_instruction(2, ins(Instr::Jump(Reg(0), -3)));
    let blocks = ctx.map_control_flow();
    let shape: Vec<(Vec<usize>, obfuscation::control_flow::Target)> =
        blocks.iter().map(|b| (b.code.clone(), b.target)).collect();
    assert_eq!(
        shape,
        vec![
            (vec![0, 1], obfuscation::control_flow::Target::Label(1)),
            (vec![2], obfuscation::control_flow::Target::Label(0)),
            (vec![3, 4, 5, 6, 7], obfuscation::control_flow::Target::Undefined(0)),
        ]
    );
}

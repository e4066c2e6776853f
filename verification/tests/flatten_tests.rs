use obfuscation::context::Context;
use obfuscation::control_flow::{cut, Block, Target};
use obfuscation::error::Error;
use obfuscation::flatten::{flatten, get_block_from_jump, update_register_offsets};
use obfuscation::instruction::{
    Ids, BinCondOp, BinOp, Instr, Instruction, Kst, Opcode, Opmode, Reg, RegKst, UnOp,
};
use obfuscation::options::{Options, VM};
use obfuscation::proto::{Constants, Proto};
use obfuscation::registers::Registers;

fn options() -> Options {
    Options { flatten_control_flow: true, scramble_opcodes: false, target_vm: VM::Lua51 }
}

fn number(n: f64) -> Constants {
    Constants::Number(n.to_bits())
}

fn text(s: &str) -> Constants {
    Constants::String(s.to_string())
}

fn proto(params: u8, constants: Vec<Constants>, code: Vec<Instr>) -> Proto {
    let mut p = Proto::default();
    p.source = "@test.lua".to_string();
    p.nparams = params;
    p.constants = constants;
    let mut ids = Ids::new();
    p.instructions = code.into_iter().map(|i| Instruction::new(i.opcode(), i, &mut ids)).collect();
    p
}

fn run(p: &Proto) -> Result<Context, Error> {
    let outer = Context::new((4, 4, 4, 8), Proto::default());
    flatten(&outer, p, &options(), &mut Ids::new())
}

fn listing(ctx: &Context) -> Vec<Instr> {
    ctx.chunk.instructions.iter().map(|i| i.1).collect()
}

fn pool(ctx: &Context) -> Vec<String> {
    ctx.chunk
        .constants
        .iter()
        .map(|c| match c {
            Constants::Nil => "nil".to_string(),
            Constants::Boolean(b) => format!("{}", b),
            Constants::Number(n) => format!("{}", f64::from_bits(*n)),
            Constants::String(s) => format!("{:?}", s),
        })
        .collect()
}

fn k(n: u32) -> RegKst {
    RegKst::K(Kst(0x100 + n))
}

fn r(n: u8) -> RegKst {
    RegKst::R(Reg(n))
}

fn state_is(s: u8, n: u32) -> Instr {
    Instr::BinCondOp(false, r(s), BinCondOp::Eq, k(n))
}

fn hello() -> Proto {
    let mut p = proto(
        0,
        vec![text("print"), text("hi")],
        vec![
            Instr::GetGlobal(Reg(0), Kst(0)),
            Instr::LoadK(Reg(1), Kst(1)),
            Instr::Call(Reg(0), 2, 1),
            Instr::Return(Reg(0), 1),
        ],
    );
    p.is_vararg_flag = 2;
    p.nupvals = 0;
    p.line_defined = 7;
    p
}

#[test]
fn hello_world_flattened() {
    let ctx = run(&hello()).unwrap();
    assert_eq!(
        listing(&ctx),
        vec![
            Instr::LoadK(Reg(0), Kst(3)),
            Instr::BinCondOp(false, k(3), BinCondOp::Le, r(0)),
            Instr::Jump(Reg(0), 11),
            state_is(0, 3),
            Instr::Jump(Reg(0), 6),
            Instr::GetGlobal(Reg(1), Kst(0)),
            Instr::LoadK(Reg(2), Kst(1)),
            Instr::Call(Reg(1), 2, 1),
            Instr::Return(Reg(1), 1),
            Instr::LoadK(Reg(0), Kst(2)),
            state_is(0, 2),
            Instr::Jump(Reg(0), 1),
            Instr::LoadK(Reg(0), Kst(4)),
            Instr::Jump(Reg(0), -13),
            Instr::Return(Reg(0), 1),
        ]
    );
    assert_eq!(pool(&ctx), vec!["\"print\"", "\"hi\"", "1", "0", "-1"]);
}

#[test]
fn the_flattened_function_keeps_what_describes_it() {
    let mut p = hello();
    p.nupvals = 3;
    p.is_vararg_flag = 5;
    let ctx = run(&p).unwrap();
    assert_eq!(ctx.header, (4, 4, 4, 8));
    assert_eq!(ctx.chunk.source, "@test.lua");
    assert_eq!(ctx.chunk.nparams, 0);
    assert_eq!(ctx.chunk.nupvals, 3);
    assert_eq!(ctx.chunk.is_vararg_flag, 5);
    assert_eq!(ctx.chunk.max_stack_size, 250);
    assert_eq!((ctx.chunk.line_defined, ctx.chunk.last_line_defined), (0, 0));
    assert!(ctx.chunk.source_lines.is_none());
    assert!(ctx.chunk.locals.is_none());
    assert!(ctx.chunk.upvals.is_none());
}

#[test]
fn flattened_instructions_are_numbered_and_packed() {
    let ctx = run(&hello()).unwrap();
    let ids: Vec<usize> = ctx.chunk.instructions.iter().map(|i| i.3).collect();
    assert_eq!(ids, vec![11, 12, 13, 1, 2, 3, 4, 5, 6, 7, 8, 9, 10, 14, 15]);
    for i in &ctx.chunk.instructions {
        assert_eq!(i.0, i.1.opcode());
        assert_eq!(i.2, i.1.get_opmode());
    }
    assert_eq!(ctx.chunk.instructions[1].0, Opcode::Le);
    assert_eq!(ctx.chunk.instructions[2].2, Opmode::iAsBx(0, 11));
}

#[test]
fn the_numbers_of_flattened_instructions_follow_those_issued_before() {
    let mut ids = Ids::new();
    for _ in 0..100 {
        ids.get_id();
    }
    let mut p = hello();
    p.prototypes = vec![hello()];
    let outer = Context::new((4, 4, 4, 8), Proto::default());
    let ctx = flatten(&outer, &p, &options(), &mut ids).unwrap();
    let numbers = |p: &Proto| -> Vec<usize> { p.instructions.iter().map(|i| i.3).collect() };
    // the nested function first: its arms, then the loop around them
    assert_eq!(
        numbers(&ctx.chunk.prototypes[0]),
        vec![111, 112, 113, 101, 102, 103, 104, 105, 106, 107, 108, 109, 110, 114, 115]
    );
    assert_eq!(
        numbers(&ctx.chunk),
        vec![126, 127, 128, 116, 117, 118, 119, 120, 121, 122, 123, 124, 125, 129, 130]
    );
    assert_eq!(ids.get_id(), 131);
    // the numbers of the given instructions are not those of the result
    assert_eq!(numbers(&p), vec![1, 2, 3, 4]);
}

#[test]
fn instructions_that_no_block_holds_are_left_out() {
    let p = proto(0, vec![], vec![Instr::Move(Reg(0), Reg(1)), Instr::Move(Reg(1), Reg(0))]);
    assert_eq!(listing(&run(&p).unwrap()), listing(&run(&proto(0, vec![], vec![])).unwrap()));
    let p = proto(
        0,
        vec![],
        vec![Instr::Return(Reg(0), 1), Instr::Move(Reg(0), Reg(1)), Instr::Move(Reg(1), Reg(0))],
    );
    let code = listing(&run(&p).unwrap());
    assert_eq!(code.len(), 8 + 2 + 2);
    assert_eq!(code[4], Instr::Jump(Reg(0), 3));
    assert_eq!(code[5], Instr::Return(Reg(1), 1));
}

#[test]
fn the_flattened_chunk_can_be_written_and_read() {
    let ctx = run(&hello()).unwrap();
    let bytes = ctx.assemble().unwrap();
    let (_, back) = obfuscation::deserialize::deserialize_bytecode(&bytes, &mut Ids::new()).unwrap();
    assert_eq!(back.instructions.iter().map(|i| i.1).collect::<Vec<_>>(), listing(&ctx));
    assert_eq!(back.max_stack_size, 250);
    assert_eq!(back.constants.len(), 5);
}

#[test]
fn no_code_gives_the_bare_loop() {
    let ctx = run(&proto(0, vec![], vec![])).unwrap();
    assert_eq!(
        listing(&ctx),
        vec![
            Instr::LoadK(Reg(0), Kst(0)),
            Instr::BinCondOp(false, k(0), BinCondOp::Le, r(0)),
            Instr::Jump(Reg(0), 4),
            state_is(0, 0),
            Instr::Jump(Reg(0), 1),
            Instr::LoadK(Reg(0), Kst(1)),
            Instr::Jump(Reg(0), -6),
            Instr::Return(Reg(0), 1),
        ]
    );
    assert_eq!(pool(&ctx), vec!["0", "-1"]);
}

/// `local s=0; for i=1,5 do s=s+i end; print(s)`
fn numeric_loop() -> Proto {
    proto(
        0,
        vec![number(0.0), number(1.0), number(5.0), text("print")],
        vec![
            Instr::LoadK(Reg(0), Kst(0)),
            Instr::LoadK(Reg(1), Kst(1)),
            Instr::LoadK(Reg(2), Kst(2)),
            Instr::LoadK(Reg(3), Kst(1)),
            Instr::ForPrep(Reg(1), 1),
            Instr::BinOp(Reg(0), r(0), BinOp::Add, r(4)),
            Instr::ForLoop(Reg(1), -2),
            Instr::GetGlobal(Reg(1), Kst(3)),
            Instr::Move(Reg(2), Reg(0)),
            Instr::Call(Reg(1), 2, 1),
            Instr::Return(Reg(0), 1),
        ],
    )
}

#[test]
fn a_numeric_loop_flattened() {
    let ctx = run(&numeric_loop()).unwrap();
    assert_eq!(pool(&ctx), vec!["0", "1", "5", "\"print\"", "3", "2", "4", "-1"]);
    let code = listing(&ctx);
    let want_arms = vec![
        // the code before the loop
        state_is(0, 0),
        Instr::Jump(Reg(0), 6),
        Instr::LoadK(Reg(1), Kst(0)),
        Instr::LoadK(Reg(2), Kst(1)),
        Instr::LoadK(Reg(3), Kst(2)),
        Instr::LoadK(Reg(4), Kst(1)),
        Instr::LoadK(Reg(0), Kst(1)),
        // the start of the loop
        state_is(0, 1),
        Instr::Jump(Reg(0), 3),
        Instr::BinOp(Reg(2), r(2), BinOp::Sub, r(4)),
        Instr::LoadK(Reg(0), Kst(4)),
        // the body
        state_is(0, 5),
        Instr::Jump(Reg(0), 3),
        Instr::BinOp(Reg(1), r(1), BinOp::Add, r(5)),
        Instr::LoadK(Reg(0), Kst(4)),
        // the end of the loop
        state_is(0, 4),
        Instr::Jump(Reg(0), 17),
        Instr::BinOp(Reg(2), r(2), BinOp::Add, r(4)),
        Instr::BinCondOp(true, r(4), BinCondOp::Lt, k(0)),
        Instr::Jump(Reg(0), 7),
        Instr::BinCondOp(false, r(2), BinCondOp::Le, r(3)),
        Instr::Jump(Reg(0), 3),
        Instr::Move(Reg(5), Reg(2)),
        Instr::LoadK(Reg(0), Kst(5)),
        Instr::Jump(Reg(0), 8),
        Instr::LoadK(Reg(0), Kst(6)),
        Instr::Jump(Reg(0), 7),
        Instr::BinCondOp(false, r(3), BinCondOp::Le, r(2)),
        Instr::Jump(Reg(0), 3),
        Instr::Move(Reg(5), Reg(2)),
        Instr::LoadK(Reg(0), Kst(5)),
        Instr::Jump(Reg(0), 1),
        Instr::LoadK(Reg(0), Kst(6)),
        // the code after the loop
        state_is(0, 6),
        Instr::Jump(Reg(0), 6),
        Instr::GetGlobal(Reg(2), Kst(3)),
        Instr::Move(Reg(3), Reg(1)),
        Instr::Call(Reg(2), 2, 1),
        Instr::Return(Reg(1), 1),
        Instr::LoadK(Reg(0), Kst(2)),
        // the end of the run
        state_is(0, 2),
        Instr::Jump(Reg(0), 1),
        Instr::LoadK(Reg(0), Kst(7)),
    ];
    assert_eq!(code.len(), 5 + 43);
    assert_eq!(&code[3..46], &want_arms[..]);
    assert_eq!(
        &code[..3],
        &[
            Instr::LoadK(Reg(0), Kst(0)),
            Instr::BinCondOp(false, k(0), BinCondOp::Le, r(0)),
            Instr::Jump(Reg(0), 44),
        ]
    );
    assert_eq!(&code[46..], &[Instr::Jump(Reg(0), -46), Instr::Return(Reg(0), 1)]);
}

/// The five instructions around the dispatcher stand where they must.
fn has_the_shape(ctx: &Context, state: u8) -> bool {
    let code = listing(ctx);
    let n = code.len();
    if n < 8 {
        return false;
    }
    let entry = match code[0] {
        Instr::LoadK(Reg(s), Kst(e)) if s == state => e,
        _ => return false,
    };
    let zero = match ctx.chunk.constants.get(entry as usize) {
        Some(Constants::Number(bits)) => f64::from_bits(*bits) == 0.0,
        _ => false,
    };
    zero
        && code[1] == Instr::BinCondOp(false, k(entry), BinCondOp::Le, r(state))
        && code[2] == Instr::Jump(Reg(state), n as i32 - 4)
        && code[n - 2] == Instr::Jump(Reg(state), 2 - n as i32)
        && code[n - 1] == Instr::Return(Reg(state), 1)
}

#[test]
fn flattened_code_has_the_shape_of_a_loop() {
    assert!(has_the_shape(&run(&hello()).unwrap(), 0));
    assert!(has_the_shape(&run(&numeric_loop()).unwrap(), 0));
    assert!(has_the_shape(&run(&proto(0, vec![], vec![])).unwrap(), 0));
    let mut with_params = hello();
    with_params.nparams = 3;
    assert!(has_the_shape(&run(&with_params).unwrap(), 3));
}

#[test]
fn the_jumps_of_the_loop_lead_to_the_test_and_to_the_return() {
    for p in [hello(), numeric_loop()] {
        let code = listing(&run(&p).unwrap());
        let n = code.len() as i32;
        match code[2] {
            Instr::Jump(_, off) => assert_eq!(2 + 1 + off, n - 1),
            _ => panic!(),
        }
        match code[code.len() - 2] {
            Instr::Jump(_, off) => assert_eq!(n - 2 + 1 + off, 1),
            _ => panic!(),
        }
    }
}

#[test]
fn the_jump_of_every_arm_counts_one_more_than_its_block() {
    let code = listing(&run(&numeric_loop()).unwrap());
    let bodies = [5usize, 2, 2, 16, 5];
    let mut at = 3;
    for body in bodies {
        assert!(matches!(
            code[at],
            Instr::BinCondOp(false, RegKst::R(Reg(0)), BinCondOp::Eq, RegKst::K(_))
        ));
        assert_eq!(code[at + 1], Instr::Jump(Reg(0), body as i32 + 1));
        at += 2 + body;
    }
    assert!(matches!(
        code[at],
        Instr::BinCondOp(false, RegKst::R(Reg(0)), BinCondOp::Eq, RegKst::K(_))
    ));
    assert_eq!(code[at + 1], Instr::Jump(Reg(0), 1));
    assert_eq!(at + 3, code.len() - 2);
}

#[test]
fn parameters_keep_their_slots_and_the_others_move_past_the_state() {
    let p = proto(
        2,
        vec![number(1.0)],
        vec![
            Instr::BinOp(Reg(2), r(0), BinOp::Add, r(1)),
            Instr::BinOp(Reg(3), r(2), BinOp::Mul, k(0)),
            Instr::UnOp(Reg(4), UnOp::Unm, Reg(3)),
            Instr::Move(Reg(0), Reg(4)),
            Instr::Return(Reg(0), 2),
        ],
    );
    let ctx = run(&p).unwrap();
    let code = listing(&ctx);
    assert_eq!(
        &code[5..10],
        &[
            Instr::BinOp(Reg(3), r(0), BinOp::Add, r(1)),
            Instr::BinOp(Reg(4), r(3), BinOp::Mul, k(0)),
            Instr::UnOp(Reg(5), UnOp::Unm, Reg(4)),
            Instr::Move(Reg(0), Reg(5)),
            Instr::Return(Reg(0), 2),
        ]
    );
    assert_eq!(code[0], Instr::LoadK(Reg(2), Kst(1)));
    assert_eq!(ctx.chunk.nparams, 2);
}

#[test]
fn a_value_that_the_pool_holds_twice_is_named_at_its_first_place() {
    let p = proto(
        0,
        vec![number(4.0), text("x"), number(4.0), text("x"), number(-0.0), number(0.0)],
        vec![
            Instr::LoadK(Reg(0), Kst(2)),
            Instr::GetGlobal(Reg(1), Kst(3)),
            Instr::SetGlobal(Reg(1), Kst(1)),
            Instr::BinOp(Reg(2), k(2), BinOp::Add, k(5)),
            Instr::BinCondOp(true, k(3), BinCondOp::Eq, r(0)),
            Instr::Jump(Reg(0), 0),
            Instr::GetTable(Reg(2), Reg(2), k(3)),
            Instr::SetTable(Reg(2), k(5), k(2)),
            Instr::Self_(Reg(2), Reg(2), k(0)),
            Instr::LoadK(Reg(0), Kst(6)),
            Instr::BinOp(Reg(2), k(6), BinOp::Add, r(1)),
            Instr::Closure(Reg(0), 2),
            Instr::Return(Reg(0), 1),
        ],
    );
    let ctx = run(&p).unwrap();
    let code = listing(&ctx);
    assert_eq!(&pool(&ctx)[..6], &["4", "\"x\"", "4", "\"x\"", "-0", "0"]);
    let kept: Vec<Instr> = code
        .iter()
        .copied()
        .filter(|i| !matches!(i, Instr::Jump(..)) && !mentions(*i).contains(&0))
        .collect();
    assert_eq!(
        kept,
        vec![
            Instr::LoadK(Reg(1), Kst(0)),
            Instr::GetGlobal(Reg(2), Kst(1)),
            Instr::SetGlobal(Reg(2), Kst(1)),
            Instr::BinOp(Reg(3), k(0), BinOp::Add, k(4)),
            Instr::BinCondOp(true, k(1), BinCondOp::Eq, r(1)),
            Instr::GetTable(Reg(3), Reg(3), k(1)),
            Instr::SetTable(Reg(3), k(4), k(0)),
            Instr::Self_(Reg(3), Reg(3), k(0)),
            Instr::LoadK(Reg(1), Kst(6)),
            Instr::BinOp(Reg(3), k(6), BinOp::Add, r(2)),
            Instr::Closure(Reg(1), 2),
            Instr::Return(Reg(1), 1),
        ]
    );
}

#[test]
fn a_constant_that_is_not_a_number_is_added_for_each_field_that_names_it() {
    let p = proto(
        0,
        vec![number(f64::NAN), text("x")],
        vec![
            Instr::LoadK(Reg(0), Kst(0)),
            Instr::BinOp(Reg(1), k(0), BinOp::Add, k(0)),
            Instr::LoadK(Reg(0), Kst(1)),
            Instr::Return(Reg(0), 1),
        ],
    );
    let ctx = run(&p).unwrap();
    let names = pool(&ctx);
    assert_eq!(&names[..5], &["NaN", "\"x\"", "NaN", "NaN", "NaN"]);
    let code = listing(&ctx);
    assert_eq!(
        &code[5..9],
        &[
            Instr::LoadK(Reg(1), Kst(2)),
            Instr::BinOp(Reg(2), k(3), BinOp::Add, k(4)),
            Instr::LoadK(Reg(1), Kst(1)),
            Instr::Return(Reg(1), 1),
        ]
    );
}

#[test]
fn a_renamed_constant_that_no_operand_can_name_is_refused() {
    let mut constants: Vec<Constants> = (0..240).map(|n| text(&format!("s{}", n))).collect();
    constants.push(number(f64::NAN));
    let p = proto(
        0,
        constants.clone(),
        vec![Instr::LoadK(Reg(0), Kst(240)), Instr::Return(Reg(0), 1)],
    );
    let ctx = run(&p).unwrap();
    assert_eq!(listing(&ctx)[5], Instr::LoadK(Reg(1), Kst(241)));
    let mut code = vec![Instr::BinOp(Reg(0), k(240), BinOp::Add, r(0)); 12];
    code.push(Instr::Return(Reg(0), 1));
    let ctx = run(&proto(0, constants.clone(), code.clone())).unwrap();
    assert_eq!(listing(&ctx)[16], Instr::BinOp(Reg(1), k(252), BinOp::Add, r(1)));
    assert_eq!(ctx.chunk.constants.len(), 256);
    let mut code = vec![Instr::BinOp(Reg(0), k(240), BinOp::Add, r(0)); 16];
    code.push(Instr::Return(Reg(0), 1));
    assert!(matches!(run(&proto(0, constants, code)), Err(Error::ResourceExhausted)));
}

#[test]
fn the_sizes_of_a_new_table_are_no_slots() {
    let p = proto(0, vec![], vec![Instr::NewTable(Reg(0), Reg(3), Reg(200)), Instr::Return(Reg(0), 1)]);
    let code = listing(&run(&p).unwrap());
    assert_eq!(code[5], Instr::NewTable(Reg(1), Reg(3), Reg(200)));
}

fn mentions(instr: Instr) -> Vec<u8> {
    let rk = |x: RegKst| match x {
        RegKst::R(Reg(n)) => vec![n],
        RegKst::K(_) => vec![],
    };
    match instr {
        Instr::Move(a, b) | Instr::LoadNil(a, b) | Instr::UnOp(a, _, b) | Instr::TestSet(a, b, _) => {
            vec![a.0, b.0]
        }
        Instr::GetTable(a, b, c) | Instr::Self_(a, b, c) => [vec![a.0, b.0], rk(c)].concat(),
        Instr::SetTable(a, b, c) | Instr::BinOp(a, b, _, c) => [vec![a.0], rk(b), rk(c)].concat(),
        Instr::BinCondOp(_, b, _, c) => [rk(b), rk(c)].concat(),
        Instr::Concat(a, b, c) => vec![a.0, b.0, c.0],
        Instr::LoadK(a, _)
        | Instr::LoadBool(a, _, _)
        | Instr::GetUpval(a, _)
        | Instr::GetGlobal(a, _)
        | Instr::SetGlobal(a, _)
        | Instr::SetUpval(a, _)
        | Instr::NewTable(a, _, _)
        | Instr::Jump(a, _)
        | Instr::Test(a, _)
        | Instr::Call(a, _, _)
        | Instr::TailCall(a, _, _)
        | Instr::Return(a, _)
        | Instr::ForLoop(a, _)
        | Instr::ForPrep(a, _)
        | Instr::TForLoop(a, _)
        | Instr::SetList(a, _, _)
        | Instr::Close(a)
        | Instr::Closure(a, _)
        | Instr::VarArg(a, _) => vec![a.0],
        Instr::NOP => vec![],
    }
}

#[test]
fn moved_code_names_neither_the_state_nor_scratch() {
    let mut registers = Registers::from_size(250);
    registers.offset(2).unwrap();
    assert_eq!(registers.new(), Ok(2));
    for want in 3..11 {
        assert_eq!(registers.new(), Ok(want));
    }
    let mut p = numeric_loop();
    p.nparams = 2;
    p.instructions.push(Instruction::new(
        Opcode::SetTable,
        Instr::SetTable(Reg(9), r(1), r(240)), &mut Ids::new(),
    ));
    update_register_offsets(&mut p, &mut registers).unwrap();
    for i in &p.instructions {
        for slot in mentions(i.1) {
            assert!(slot < 2 || slot >= 11, "{:?}", i.1);
        }
        assert_eq!(i.2, i.1.get_opmode());
    }
    assert_eq!(p.instructions[0].1, Instr::LoadK(Reg(0), Kst(0)));
    assert_eq!(p.instructions[2].1, Instr::LoadK(Reg(11), Kst(2)));
    assert_eq!(p.instructions[11].1, Instr::SetTable(Reg(18), r(1), r(249)));
}

#[test]
fn a_slot_for_which_no_register_is_left_stops_the_moving() {
    let mut registers = Registers::from_size(250);
    assert_eq!(registers.new(), Ok(0));
    let mut p = proto(
        0,
        vec![],
        vec![
            Instr::Move(Reg(0), Reg(248)),
            Instr::Move(Reg(0), Reg(249)),
            Instr::Move(Reg(5), Reg(6)),
        ],
    );
    assert_eq!(update_register_offsets(&mut p, &mut registers), Err(Error::ResourceExhausted));
    assert_eq!(p.instructions[0].1, Instr::Move(Reg(1), Reg(249)));
    assert_eq!(p.instructions[1].1, Instr::Move(Reg(0), Reg(249)));
    assert_eq!(p.instructions[2].1, Instr::Move(Reg(5), Reg(6)));
    assert_eq!(registers.new(), Ok(1));
}

#[test]
fn too_many_slots_for_the_machine() {
    let fits = proto(0, vec![], vec![Instr::Move(Reg(248), Reg(0)), Instr::Return(Reg(0), 1)]);
    assert!(run(&fits).is_ok());
    let over = proto(0, vec![], vec![Instr::Move(Reg(249), Reg(0)), Instr::Return(Reg(0), 1)]);
    assert!(matches!(run(&over), Err(Error::ResourceExhausted)));
    let mut many_params = hello();
    many_params.nparams = 251;
    assert!(matches!(run(&many_params), Err(Error::ResourceExhausted)));
    many_params.nparams = 250;
    assert!(matches!(run(&many_params), Err(Error::ResourceExhausted)));
    let mut just = proto(249, vec![], vec![Instr::Return(Reg(0), 1)]);
    assert!(run(&just).is_ok());
    just.instructions.push(Instruction::new(Opcode::TForLoop, Instr::TForLoop(Reg(0), 1), &mut Ids::new()));
    assert!(matches!(run(&just), Err(Error::ResourceExhausted)));
}

#[test]
fn the_placeholder_is_refused() {
    let p = proto(0, vec![], vec![Instr::Move(Reg(0), Reg(1)), Instr::NOP, Instr::Return(Reg(0), 1)]);
    assert!(matches!(run(&p), Err(Error::FormatError)));
}

/// `if 1<2 then print("a") else print("b") end`
fn branch() -> Proto {
    proto(
        0,
        vec![number(1.0), number(2.0), text("print"), text("a"), text("b")],
        vec![
            Instr::BinCondOp(false, k(0), BinCondOp::Lt, k(1)),
            Instr::Jump(Reg(0), 4),
            Instr::GetGlobal(Reg(0), Kst(2)),
            Instr::LoadK(Reg(1), Kst(3)),
            Instr::Call(Reg(0), 2, 1),
            Instr::Jump(Reg(0), 3),
            Instr::GetGlobal(Reg(0), Kst(2)),
            Instr::LoadK(Reg(1), Kst(4)),
            Instr::Call(Reg(0), 2, 1),
            Instr::Return(Reg(0), 1),
        ],
    )
}

#[test]
fn a_jump_into_the_middle_of_a_block_is_refused() {
    assert!(matches!(run(&branch()), Err(Error::MalformedCFG)));
    let back = proto(
        0,
        vec![],
        vec![Instr::Move(Reg(0), Reg(1)), Instr::Move(Reg(0), Reg(1)), Instr::Jump(Reg(0), -2), Instr::Return(Reg(0), 1)],
    );
    assert!(matches!(run(&back), Err(Error::MalformedCFG)));
    let out = proto(0, vec![], vec![Instr::Jump(Reg(0), 7), Instr::Return(Reg(0), 1)]);
    assert!(matches!(run(&out), Err(Error::MalformedCFG)));
    let before = proto(0, vec![], vec![Instr::Jump(Reg(0), -9), Instr::Return(Reg(0), 1)]);
    assert!(matches!(run(&before), Err(Error::MalformedCFG)));
}

#[test]
fn a_conditional_without_its_jump_is_refused() {
    for cond in [
        Instr::Test(Reg(0), true),
        Instr::TestSet(Reg(0), Reg(1), false),
        Instr::BinCondOp(true, r(0), BinCondOp::Eq, r(1)),
    ] {
        let p = proto(0, vec![], vec![cond, Instr::Move(Reg(0), Reg(1)), Instr::Return(Reg(0), 1)]);
        assert!(matches!(run(&p), Err(Error::MalformedCFG)));
        let last = proto(0, vec![], vec![Instr::Return(Reg(0), 1), cond]);
        assert!(matches!(run(&last), Err(Error::MalformedCFG)));
    }
    let generic = proto(0, vec![], vec![Instr::TForLoop(Reg(0), 2), Instr::Return(Reg(0), 1)]);
    assert!(matches!(run(&generic), Err(Error::MalformedCFG)));
}

/// A conditional in a numeric loop: its jump leads to the end of the loop,
/// where a block starts.
fn guarded_loop() -> Proto {
    proto(
        0,
        vec![number(1.0), number(3.0), number(2.0), text("print")],
        vec![
            Instr::LoadK(Reg(0), Kst(0)),
            Instr::LoadK(Reg(1), Kst(1)),
            Instr::LoadK(Reg(2), Kst(0)),
            Instr::ForPrep(Reg(0), 5),
            Instr::BinCondOp(false, r(3), BinCondOp::Lt, k(2)),
            Instr::Jump(Reg(0), 3),
            Instr::GetGlobal(Reg(4), Kst(3)),
            Instr::Move(Reg(5), Reg(3)),
            Instr::Call(Reg(4), 2, 1),
            Instr::ForLoop(Reg(0), -6),
            Instr::Return(Reg(0), 1),
        ],
    )
}

#[test]
fn a_conditional_sets_the_state_to_one_of_two_labels() {
    let ctx = run(&guarded_loop()).unwrap();
    let code = listing(&ctx);
    let names = pool(&ctx);
    // the arm of the conditional, which takes in the block of its jump
    let at = code
        .iter()
        .position(|i| matches!(i, Instr::BinCondOp(false, _, BinCondOp::Lt, _)))
        .unwrap();
    assert_eq!(code[at], Instr::BinCondOp(false, r(4), BinCondOp::Lt, k(2)));
    assert_eq!(code[at - 1], Instr::Jump(Reg(0), 6));
    let label = |i: Instr| match i {
        Instr::LoadK(Reg(0), Kst(n)) => names[n as usize].clone(),
        _ => panic!("{:?}", i),
    };
    // first the label of the block to which the jump leads, then the label
    // of the block after the jump
    assert_eq!(code[at + 1], Instr::Jump(Reg(0), 2));
    assert_eq!(label(code[at + 2]), "5");
    assert_eq!(code[at + 3], Instr::Jump(Reg(0), 1));
    assert_eq!(label(code[at + 4]), "4");
    // no arm for the block of the jump
    let tests: Vec<String> = code
        .iter()
        .filter_map(|i| match i {
            Instr::BinCondOp(false, RegKst::R(Reg(0)), BinCondOp::Eq, RegKst::K(Kst(n))) => {
                Some(names[*n as usize - 0x100].clone())
            }
            _ => None,
        })
        .collect();
    assert_eq!(tests, vec!["0", "1", "2", "4", "5", "6", "7"]);
}

/// A generic loop whose jumps lead to starts of blocks.
fn generic_loop() -> Proto {
    proto(
        0,
        vec![],
        vec![
            Instr::Jump(Reg(0), 1),
            Instr::Return(Reg(0), 1),
            Instr::TForLoop(Reg(0), 2),
            Instr::Jump(Reg(0), -3),
            Instr::Return(Reg(0), 1),
        ],
    )
}

#[test]
fn a_generic_loop_is_spelled_out_on_scratch_slots() {
    let ctx = run(&generic_loop()).unwrap();
    let code = listing(&ctx);
    assert_eq!(pool(&ctx), vec!["2", "1", "nil", "4", "5", "0", "-1"]);
    let at = code.iter().position(|i| matches!(i, Instr::NewTable(..))).unwrap();
    assert_eq!(code[at - 2], state_is(0, 0));
    assert_eq!(code[at - 1], Instr::Jump(Reg(0), 20));
    assert_eq!(
        &code[at..at + 19],
        &[
            Instr::NewTable(Reg(1), Reg(0), Reg(0)),
            Instr::Move(Reg(2), Reg(9)),
            Instr::Move(Reg(3), Reg(10)),
            Instr::Move(Reg(4), Reg(11)),
            Instr::Call(Reg(2), 3, 0),
            Instr::SetList(Reg(1), 0, 1),
            Instr::LoadK(Reg(6), Kst(1)),
            Instr::GetTable(Reg(5), Reg(1), r(6)),
            Instr::Move(Reg(12), Reg(5)),
            Instr::LoadK(Reg(6), Kst(0)),
            Instr::GetTable(Reg(5), Reg(1), r(6)),
            Instr::Move(Reg(13), Reg(5)),
            Instr::LoadK(Reg(5), Kst(2)),
            Instr::BinCondOp(true, r(12), BinCondOp::Eq, r(5)),
            Instr::Jump(Reg(0), 3),
            Instr::Move(Reg(11), Reg(12)),
            Instr::LoadK(Reg(0), Kst(1)),
            Instr::Jump(Reg(0), 1),
            Instr::LoadK(Reg(0), Kst(3)),
        ]
    );
    assert!(has_the_shape(&ctx, 0));
}

#[test]
fn nested_functions_are_flattened_each_for_itself() {
    let inner = proto(
        1,
        vec![],
        vec![
            Instr::GetUpval(Reg(1), 0),
            Instr::BinOp(Reg(1), r(1), BinOp::Add, r(0)),
            Instr::Return(Reg(1), 2),
            Instr::Return(Reg(0), 1),
        ],
    );
    let mut middle = proto(
        1,
        vec![],
        vec![
            Instr::Closure(Reg(1), 0),
            Instr::Move(Reg(0), Reg(0)),
            Instr::Return(Reg(1), 2),
            Instr::Return(Reg(0), 1),
        ],
    );
    middle.prototypes = vec![inner];
    let mut outer = hello();
    outer.prototypes = vec![middle, hello()];
    let ctx = run(&outer).unwrap();
    assert_eq!(ctx.chunk.prototypes.len(), 2);
    assert_eq!(
        ctx.chunk.prototypes[1].instructions.iter().map(|i| i.1).collect::<Vec<_>>(),
        listing(&run(&hello()).unwrap())
    );
    let middle = &ctx.chunk.prototypes[0];
    assert_eq!(middle.nparams, 1);
    assert_eq!(middle.max_stack_size, 250);
    let code: Vec<Instr> = middle.instructions.iter().map(|i| i.1).collect();
    assert_eq!(code[0], Instr::LoadK(Reg(1), Kst(2)));
    assert_eq!(code[5], Instr::Closure(Reg(2), 0));
    assert_eq!(code[6], Instr::Move(Reg(0), Reg(0)));
    assert_eq!(code[7], Instr::Return(Reg(2), 2));
    let inner = &middle.prototypes[0];
    let code: Vec<Instr> = inner.instructions.iter().map(|i| i.1).collect();
    assert_eq!(code[5], Instr::GetUpval(Reg(2), 0));
    assert_eq!(code[6], Instr::BinOp(Reg(2), r(2), BinOp::Add, r(0)));
    assert_eq!(listing(&ctx), listing(&run(&hello()).unwrap()));
}

#[test]
fn an_error_in_a_nested_function_is_that_of_the_whole() {
    let mut outer = hello();
    outer.prototypes = vec![hello(), branch(), proto(0, vec![], vec![Instr::NOP])];
    assert!(matches!(run(&outer), Err(Error::MalformedCFG)));
    outer.prototypes = vec![proto(0, vec![], vec![Instr::NOP, Instr::Return(Reg(0), 1)]), branch()];
    assert!(matches!(run(&outer), Err(Error::FormatError)));
}

#[test]
fn labels_that_no_operand_can_name_are_refused() {
    let constants: Vec<Constants> = (0..255).map(|n| text(&format!("s{}", n))).collect();
    let p = proto(0, constants.clone(), vec![Instr::Return(Reg(0), 1)]);
    assert!(matches!(run(&p), Err(Error::ResourceExhausted)));
    let p = proto(0, constants[..253].to_vec(), vec![Instr::Return(Reg(0), 1)]);
    let ctx = run(&p).unwrap();
    assert_eq!(ctx.chunk.constants.len(), 256);
    let full: Vec<Constants> = (0..0x4_0001).map(|n| number(n as f64 + 0.5)).collect();
    let p = proto(0, full, vec![Instr::Return(Reg(0), 1)]);
    assert!(matches!(run(&p), Err(Error::ResourceExhausted)));
}

fn block(code: Vec<usize>) -> Block {
    Block { code, target: Target::Undefined(0) }
}

#[test]
fn the_block_of_a_jump() {
    let blocks = vec![block(vec![0, 1]), block(vec![2]), block(vec![3, 4, 5]), block(vec![6])];
    assert_eq!(get_block_from_jump(&blocks, 2, 1, 1), Ok(Some(2)));
    assert_eq!(get_block_from_jump(&blocks, 2, 4, 1), Ok(Some(3)));
    assert_eq!(get_block_from_jump(&blocks, 2, 0, 1), Ok(Some(1)));
    assert_eq!(get_block_from_jump(&blocks, 6, -6, 3), Ok(Some(0)));
    assert_eq!(get_block_from_jump(&blocks, 6, -3, 3), Ok(Some(2)));
    assert_eq!(get_block_from_jump(&blocks, 5, -2, 9), Ok(Some(2)));
}

#[test]
fn a_place_that_no_block_holds_has_no_block() {
    let blocks = vec![block(vec![0, 1]), block(vec![2]), block(vec![3, 4, 5]), block(vec![6])];
    assert_eq!(get_block_from_jump(&blocks, 2, 5, 1), Ok(None));
    assert_eq!(get_block_from_jump(&blocks, 6, -3, 2), Ok(None));
    assert_eq!(get_block_from_jump(&blocks, 5, -2, 2), Ok(None));
    assert_eq!(get_block_from_jump(&blocks, 0, i32::MAX, 0), Ok(None));
    assert_eq!(get_block_from_jump(&blocks, usize::MAX, 1, 0), Ok(None));
    assert_eq!(get_block_from_jump(&vec![], 0, 0, 0), Ok(None));
}

#[test]
fn a_place_inside_a_block_or_before_the_code_is_an_error() {
    let blocks = vec![block(vec![0, 1]), block(vec![2]), block(vec![3, 4, 5]), block(vec![6])];
    assert_eq!(get_block_from_jump(&blocks, 2, 2, 1), Err(Error::MalformedCFG));
    assert_eq!(get_block_from_jump(&blocks, 6, -5, 3), Err(Error::MalformedCFG));
    assert_eq!(get_block_from_jump(&blocks, 6, -7, 3), Err(Error::MalformedCFG));
    assert_eq!(get_block_from_jump(&blocks, 0, i32::MIN, 0), Err(Error::MalformedCFG));
    assert_eq!(get_block_from_jump(&vec![], 0, -1, 0), Err(Error::MalformedCFG));
    let three = vec![
        Block { code: vec![0], target: Target::Label(1) },
        Block { code: vec![1], target: Target::Label(2) },
        Block { code: vec![2, 3], target: Target::Label(3) },
    ];
    assert_eq!(get_block_from_jump(&three, 1, 2, 1), Err(Error::MalformedCFG));
    assert_eq!(get_block_from_jump(&three, 1, 1, 1), Ok(Some(2)));
}

#[test]
fn the_first_block_that_holds_the_place_decides() {
    let blocks = vec![block(vec![7, 3]), block(vec![3, 4])];
    assert_eq!(get_block_from_jump(&blocks, 0, 3, 0), Err(Error::MalformedCFG));
    assert_eq!(get_block_from_jump(&blocks, 0, 7, 0), Ok(Some(0)));
    assert_eq!(get_block_from_jump(&blocks, 0, 4, 0), Err(Error::MalformedCFG));
}

#[test]
fn blocks_of_the_moved_code_are_those_of_the_code() {
    let p = numeric_loop();
    let starts: Vec<usize> = cut(&p.instructions).iter().map(|b| b.code[0]).collect();
    assert_eq!(starts, vec![0, 4, 5, 6, 7]);
}

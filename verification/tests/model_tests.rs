use obfuscation::debug::DebugValue;
use obfuscation::instruction::{Ids, BinCondOp, Instr, Instruction, Kst, Reg, RegKst};
use obfuscation::proto::{copy_constants, copy_instructions, Constants, Local, Proto};

fn number(n: f64) -> Constants {
    Constants::Number(n.to_bits())
}

#[test]
fn the_record_keeps_the_order_of_what_was_done() {
    let mut debug = obfuscation::debug::Debug::new();
    assert!(debug.entries().is_empty());
    debug.create_closure(1);
    debug.create_block(2);
    debug.goto_block(2, 5);
    debug.if_statement(RegKst::R(Reg(1)), BinCondOp::Lt, RegKst::K(Kst(0x100)));
    debug.for_prep(3);
    debug.for_loop(4);
    assert_eq!(
        debug.entries(),
        &vec![
            DebugValue::Closure(1),
            DebugValue::Block(2),
            DebugValue::GotoBlock(2, 5),
            DebugValue::IfStatement(RegKst::R(Reg(1)), BinCondOp::Lt, RegKst::K(Kst(0x100))),
            DebugValue::ForPrep(3),
            DebugValue::ForLoop(4),
        ]
    );
}

#[test]
fn constants_are_compared_by_value() {
    assert!(Constants::Nil == Constants::Nil);
    assert!(Constants::Boolean(true) == Constants::Boolean(true));
    assert!(Constants::Boolean(true) != Constants::Boolean(false));
    assert!(Constants::Nil != Constants::Boolean(false));
    assert!(number(1.5) == number(1.5));
    assert!(number(1.5) != number(2.5));
    assert!(number(0.0) == number(-0.0));
    assert!(number(f64::NAN) != number(f64::NAN));
    assert!(Constants::String("a".to_string()) == Constants::String("a".to_string()));
    assert!(Constants::String("a".to_string()) != Constants::String("b".to_string()));
    assert!(Constants::String("1".to_string()) != number(1.0));
    assert!(number(1.0).equals(&number(1.0)));
    assert!(!number(1.0).equals(&Constants::Nil));
}

#[test]
fn a_copy_of_a_constant_is_the_same_value() {
    for c in [
        Constants::Nil,
        Constants::Boolean(false),
        number(-7.25),
        Constants::String("héllo".to_string()),
    ] {
        assert!(c.clone() == c);
    }
    let nan = number(f64::NAN);
    assert!(matches!((nan.clone(), nan), (Constants::Number(a), Constants::Number(b)) if a == b));
}

#[test]
fn copies_of_lists() {
    let constants = vec![Constants::Nil, number(2.0), Constants::String("x".to_string())];
    let copy = copy_constants(&constants);
    assert_eq!(copy.len(), 3);
    assert!(copy.iter().zip(&constants).all(|(a, b)| a == b));
    let code = vec![
        Instruction::new(Instr::Move(Reg(0), Reg(1)).opcode(), Instr::Move(Reg(0), Reg(1)), &mut Ids::new()),
        Instruction::new(Instr::Return(Reg(0), 1).opcode(), Instr::Return(Reg(0), 1), &mut Ids::new()),
    ];
    assert_eq!(copy_instructions(&code), code);
    assert_eq!(copy_instructions(&vec![]), vec![]);
}

#[test]
fn a_copy_of_a_prototype_holds_all_of_it() {
    let mut inner = Proto::default();
    inner.source = "@inner.lua".to_string();
    inner.nparams = 2;
    inner.constants = vec![number(3.0)];
    inner.locals = Some(vec![Local("x".to_string(), 1, 4)]);
    inner.upvals = Some(vec!["up".to_string()]);
    inner.source_lines = None;
    let mut outer = Proto::default();
    outer.line_defined = 3;
    outer.last_line_defined = 9;
    outer.nupvals = 1;
    outer.is_vararg_flag = 7;
    outer.max_stack_size = 40;
    outer.instructions =
        vec![Instruction::new(Instr::Closure(Reg(0), 0).opcode(), Instr::Closure(Reg(0), 0), &mut Ids::new())];
    outer.source_lines = Some(vec![5, 6]);
    outer.prototypes = vec![inner, Proto::default()];
    let copy = outer.clone();
    assert_eq!(format!("{:?}", copy), format!("{:?}", outer));
    assert_eq!(copy.prototypes.len(), 2);
    assert_eq!(copy.prototypes[0].source, "@inner.lua");
    assert!(copy.prototypes[0].source_lines.is_none());
    let local = &copy.prototypes[0].locals.as_ref().unwrap()[0];
    assert_eq!((local.0.as_str(), local.1, local.2), ("x", 1, 4));
    let again = local.clone();
    assert_eq!((again.0.as_str(), again.1, again.2), ("x", 1, 4));
}

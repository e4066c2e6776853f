use obfuscation::context::Context;
use obfuscation::error::Error;
use obfuscation::flatten::flatten;
use obfuscation::instruction::{Ids, Instr, Instruction, Kst, Reg};
use obfuscation::obfuscate::Obfuscate;
use obfuscation::options::{Options, VMConfig, VM};
use obfuscation::proto::{Constants, Proto};
use obfuscation::serialize::serialize_bytecode;

fn options(flatten: bool) -> Options {
    Options { flatten_control_flow: flatten, scramble_opcodes: false, target_vm: VM::Lua51 }
}

fn program(word: &str) -> Proto {
    let mut p = Proto::default();
    p.constants = vec![
        Constants::String("print".to_string()),
        Constants::String(word.to_string()),
    ];
    p.instructions = vec![
        Instr::GetGlobal(Reg(0), Kst(0)),
        Instr::LoadK(Reg(1), Kst(1)),
        Instr::Call(Reg(0), 2, 1),
        Instr::Return(Reg(0), 1),
    ]
    .into_iter()
    .map(|i| Instruction::new(i.opcode(), i, &mut Ids::new()))
    .collect();
    p
}

fn numbers(p: &Proto) -> Vec<usize> {
    p.instructions.iter().map(|i| i.3).collect()
}

fn context(word: &str) -> Context {
    let mut ctx = Context::new((4, 4, 4, 8), program(word));
    ctx.map();
    ctx
}

fn listing(p: &Proto) -> Vec<Instr> {
    p.instructions.iter().map(|i| i.1).collect()
}

#[test]
fn the_machine_has_250_registers() {
    assert_eq!(VM::Lua51.get(), VMConfig { max_stack_size: 250 });
}

#[test]
fn a_run_starts_without_a_result() {
    let run = Obfuscate::new(options(true));
    assert!(run.included().is_empty());
    assert!(run.get().is_none());
}

#[test]
fn without_flattening_there_is_no_result() {
    let mut run = Obfuscate::new(options(false));
    assert_eq!(run.obfuscate(context("hi"), &vec![], &mut Ids::new()), Ok(()));
    assert!(run.get().is_none());
}

#[test]
fn the_result_is_the_flattened_function() {
    let mut run = Obfuscate::new(options(true));
    assert_eq!(run.obfuscate(context("hi"), &vec![], &mut Ids::new()), Ok(()));
    let got = run.get().unwrap();
    let want = flatten(&context("x"), &program("hi"), &options(true), &mut Ids::new()).unwrap();
    assert_eq!(got.header, (4, 4, 4, 8));
    assert_eq!(listing(&got.chunk), listing(&want.chunk));
    assert_eq!(got.chunk.constants.len(), want.chunk.constants.len());
    assert_eq!(got.chunk.prototypes.len(), 0);
}

#[test]
fn added_chunks_follow_the_nested_functions() {
    let mut main = program("hi");
    main.prototypes = vec![program("nested")];
    let mut ctx = Context::new((4, 4, 4, 8), main);
    ctx.map();
    let mut run = Obfuscate::new(options(true));
    run.add_include("first");
    run.add_include("second");
    assert_eq!(run.included(), &vec!["first".to_string(), "second".to_string()]);
    let compiled = vec![
        serialize_bytecode(&(4, 4, 4, 8), &program("one")).unwrap(),
        serialize_bytecode(&(4, 4, 4, 8), &program("two")).unwrap(),
    ];
    assert_eq!(run.obfuscate(ctx, &compiled, &mut Ids::new()), Ok(()));
    let got = run.get().unwrap();
    assert_eq!(got.chunk.prototypes.len(), 3);
    assert_eq!(got.chunk.prototypes[0].instructions.len(), 15);
    assert_eq!(listing(&got.chunk.prototypes[1]), listing(&program("one")));
    assert!(got.chunk.prototypes[1].constants[1].equals(&Constants::String("one".to_string())));
    assert!(got.chunk.prototypes[2].constants[1].equals(&Constants::String("two".to_string())));
    assert!(got.assemble().is_ok());
}

#[test]
fn the_instructions_of_a_result_are_numbered_in_the_order_of_their_making() {
    let mut main = program("hi");
    main.prototypes = vec![program("nested")];
    let mut ctx = Context::new((4, 4, 4, 8), main);
    ctx.map();
    let mut run = Obfuscate::new(options(true));
    run.add_include("first");
    run.add_include("second");
    let compiled = vec![
        serialize_bytecode(&(4, 4, 4, 8), &program("one")).unwrap(),
        serialize_bytecode(&(4, 4, 4, 8), &program("two")).unwrap(),
    ];
    let mut ids = Ids::new();
    assert_eq!(run.obfuscate(ctx, &compiled, &mut ids), Ok(()));
    let got = run.get().unwrap();
    assert_eq!(
        numbers(&got.chunk.prototypes[0]),
        vec![11, 12, 13, 1, 2, 3, 4, 5, 6, 7, 8, 9, 10, 14, 15]
    );
    assert_eq!(
        numbers(&got.chunk),
        vec![26, 27, 28, 16, 17, 18, 19, 20, 21, 22, 23, 24, 25, 29, 30]
    );
    assert_eq!(numbers(&got.chunk.prototypes[1]), vec![31, 32, 33, 34]);
    assert_eq!(numbers(&got.chunk.prototypes[2]), vec![35, 36, 37, 38]);
    assert_eq!(ids.get_id(), 39);
}

#[test]
fn a_chunk_for_each_name_is_asked_for() {
    let mut run = Obfuscate::new(options(true));
    run.add_include("first");
    assert_eq!(run.obfuscate(context("hi"), &vec![], &mut Ids::new()), Err(Error::FormatError));
    assert!(run.get().is_none());
    let mut run = Obfuscate::new(options(true));
    let compiled = vec![serialize_bytecode(&(4, 4, 4, 8), &program("one")).unwrap()];
    assert_eq!(run.obfuscate(context("hi"), &compiled, &mut Ids::new()), Err(Error::FormatError));
}

#[test]
fn what_is_no_chunk_is_refused() {
    let mut run = Obfuscate::new(options(true));
    run.add_include("first");
    run.add_include("second");
    let good = serialize_bytecode(&(4, 4, 4, 8), &program("one")).unwrap();
    let bad = good[..good.len() - 1].to_vec();
    assert_eq!(run.obfuscate(context("hi"), &vec![good, bad], &mut Ids::new()), Err(Error::FormatError));
    assert!(run.get().is_none());
}

#[test]
fn an_error_of_the_flattener_is_that_of_the_run() {
    let mut p = program("hi");
    p.instructions.insert(0, Instruction::new(Instr::NOP.opcode(), Instr::NOP, &mut Ids::new()));
    let mut run = Obfuscate::new(options(true));
    assert_eq!(run.obfuscate(Context::new((4, 4, 4, 8), p), &vec![], &mut Ids::new()), Err(Error::FormatError));
    assert!(run.get().is_none());
    let mut p = program("hi");
    p.nparams = 255;
    let mut run = Obfuscate::new(options(true));
    assert_eq!(
        run.obfuscate(Context::new((4, 4, 4, 8), p), &vec![], &mut Ids::new()),
        Err(Error::ResourceExhausted)
    );
}

#[test]
fn a_second_run_replaces_the_result() {
    let mut run = Obfuscate::new(options(true));
    assert_eq!(run.obfuscate(context("hi"), &vec![], &mut Ids::new()), Ok(()));
    let mut p = program("hi");
    p.nparams = 255;
    assert!(run.obfuscate(Context::new((4, 4, 4, 8), p), &vec![], &mut Ids::new()).is_err());
    assert!(run.get().is_none());
}

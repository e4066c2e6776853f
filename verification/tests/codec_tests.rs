use obfuscation::deserialize::deserialize_bytecode;
use obfuscation::error::Error;
use obfuscation::instruction::{Ids, Instr, Instruction, Kst, Opcode, Opmode, Reg};
use obfuscation::proto::{Constants, Local, Proto};
use obfuscation::reader::Reader;
use obfuscation::serialize::serialize_bytecode;
use obfuscation::writer::Writer;

const HEADER: [u8; 12] = [0x1b, 0x4c, 0x75, 0x61, 0x51, 0, 1, 4, 4, 4, 8, 0];

fn le32(out: &mut Vec<u8>, v: u32) {
    out.extend_from_slice(&v.to_le_bytes());
}

fn text(out: &mut Vec<u8>, s: &str) {
    if s.is_empty() {
        le32(out, 0);
    } else {
        le32(out, s.len() as u32 + 1);
        out.extend_from_slice(s.as_bytes());
        out.push(0);
    }
}

/// The chunk of `print("hi")` with its debug information.
fn hello_chunk() -> Vec<u8> {
    let mut b = HEADER.to_vec();
    text(&mut b, "@hi.lua");
    le32(&mut b, 0);
    le32(&mut b, 0);
    b.extend_from_slice(&[0, 0, 2, 2]);
    le32(&mut b, 4);
    for w in [0x0000_0005u32, 0x0000_4041, 0x0100_401c, 0x0080_001e] {
        le32(&mut b, w);
    }
    le32(&mut b, 2);
    b.push(4);
    text(&mut b, "print");
    b.push(4);
    text(&mut b, "hi");
    le32(&mut b, 0);
    le32(&mut b, 4);
    for _ in 0..4 {
        le32(&mut b, 1);
    }
    le32(&mut b, 0);
    le32(&mut b, 0);
    b
}

fn empty_proto(name: &str) -> Proto {
    Proto {
        source: name.to_string(),
        line_defined: 0,
        last_line_defined: 0,
        nupvals: 0,
        nparams: 0,
        is_vararg_flag: 0,
        max_stack_size: 2,
        instructions: vec![],
        constants: vec![],
        prototypes: vec![],
        source_lines: Some(vec![]),
        locals: Some(vec![]),
        upvals: Some(vec![]),
    }
}

#[test]
fn reads_the_hello_chunk() {
    let (header, proto) = deserialize_bytecode(&hello_chunk(), &mut Ids::new()).unwrap();
    assert_eq!(header, (4, 4, 4, 8));
    assert_eq!(proto.source, "@hi.lua");
    assert_eq!(proto.line_defined, 0);
    assert_eq!(proto.last_line_defined, 0);
    assert_eq!(proto.nupvals, 0);
    assert_eq!(proto.nparams, 0);
    assert_eq!(proto.is_vararg_flag, 2);
    assert_eq!(proto.max_stack_size, 2);
    let code: Vec<Instr> = proto.instructions.iter().map(|i| i.1).collect();
    assert_eq!(
        code,
        vec![
            Instr::GetGlobal(Reg(0), Kst(0)),
            Instr::LoadK(Reg(1), Kst(1)),
            Instr::Call(Reg(0), 2, 1),
            Instr::Return(Reg(0), 1),
        ]
    );
    assert_eq!(
        proto.instructions[2],
        Instruction(Opcode::Call, Instr::Call(Reg(0), 2, 1), Opmode::iABC(0, 2, 1), 3)
    );
    let numbers: Vec<usize> = proto.instructions.iter().map(|i| i.3).collect();
    assert_eq!(numbers, vec![1, 2, 3, 4]);
    assert_eq!(proto.constants.len(), 2);
    assert!(proto.constants[0].equals(&Constants::String("print".to_string())));
    assert!(proto.constants[1].equals(&Constants::String("hi".to_string())));
    assert_eq!(proto.prototypes.len(), 0);
    assert_eq!(proto.source_lines, Some(vec![1, 1, 1, 1]));
    assert_eq!(proto.locals.as_ref().map(|l| l.len()), Some(0));
    assert_eq!(proto.upvals, Some(vec![]));
}

#[test]
fn what_is_read_is_written_as_the_same_bytes() {
    let bytes = hello_chunk();
    let (header, proto) = deserialize_bytecode(&bytes, &mut Ids::new()).unwrap();
    assert_eq!(serialize_bytecode(&header, &proto), Ok(bytes));
}

#[test]
fn bytes_after_the_chunk_are_not_looked_at() {
    let mut bytes = hello_chunk();
    let plain = bytes.clone();
    bytes.extend_from_slice(&[1, 2, 3]);
    let (header, proto) = deserialize_bytecode(&bytes, &mut Ids::new()).unwrap();
    assert_eq!(serialize_bytecode(&header, &proto), Ok(plain));
}

#[test]
fn every_cut_of_the_chunk_is_refused() {
    let bytes = hello_chunk();
    for n in 0..bytes.len() {
        assert!(
            matches!(deserialize_bytecode(&bytes[..n], &mut Ids::new()), Err(Error::FormatError)),
            "a chunk cut to {} bytes",
            n
        );
    }
}

#[test]
fn every_change_of_the_header_is_refused() {
    let bytes = hello_chunk();
    for i in 0..12 {
        let mut changed = bytes.clone();
        changed[i] ^= 0x40;
        assert!(matches!(deserialize_bytecode(&changed, &mut Ids::new()), Err(Error::FormatError)), "byte {}", i);
    }
}

#[test]
fn other_sizes_and_byte_orders_are_refused() {
    let mut big = hello_chunk();
    big[6] = 0;
    assert!(matches!(deserialize_bytecode(&big, &mut Ids::new()), Err(Error::FormatError)));
    let mut wide = hello_chunk();
    wide[8] = 8;
    assert!(matches!(deserialize_bytecode(&wide, &mut Ids::new()), Err(Error::FormatError)));
    let mut integral = hello_chunk();
    integral[11] = 1;
    assert!(matches!(deserialize_bytecode(&integral, &mut Ids::new()), Err(Error::FormatError)));
}

#[test]
fn an_unknown_opcode_in_the_code_is_refused() {
    let mut bytes = hello_chunk();
    let at = 12 + 4 + 8 + 8 + 4 + 4;
    assert_eq!(bytes[at], 0x05);
    bytes[at] = 39;
    assert!(matches!(deserialize_bytecode(&bytes, &mut Ids::new()), Err(Error::FormatError)));
}

#[test]
fn an_unknown_kind_of_constant_is_refused() {
    let mut bytes = hello_chunk();
    let at = 12 + 4 + 8 + 8 + 4 + 4 + 16 + 4;
    assert_eq!(bytes[at], 4);
    bytes[at] = 2;
    assert!(matches!(deserialize_bytecode(&bytes, &mut Ids::new()), Err(Error::FormatError)));
}

#[test]
fn a_string_that_is_not_utf8_is_refused() {
    let mut bytes = hello_chunk();
    let at = 12 + 4;
    assert_eq!(bytes[at], b'@');
    bytes[at] = 0xff;
    assert!(matches!(deserialize_bytecode(&bytes, &mut Ids::new()), Err(Error::FormatError)));
}

#[test]
fn constants_of_every_kind_are_written_and_read() {
    let mut proto = empty_proto("@k.lua");
    proto.constants = vec![
        Constants::Nil,
        Constants::Boolean(true),
        Constants::Boolean(false),
        Constants::Number(3.5f64.to_bits()),
        Constants::Number((-0.0f64).to_bits()),
        Constants::String("héllo".to_string()),
        Constants::String(String::new()),
    ];
    let bytes = serialize_bytecode(&(4, 4, 4, 8), &proto).unwrap();
    let mut want = HEADER.to_vec();
    text(&mut want, "@k.lua");
    le32(&mut want, 0);
    le32(&mut want, 0);
    want.extend_from_slice(&[0, 0, 0, 2]);
    le32(&mut want, 0);
    le32(&mut want, 7);
    want.push(0);
    want.extend_from_slice(&[1, 1]);
    want.extend_from_slice(&[1, 0]);
    want.push(3);
    want.extend_from_slice(&3.5f64.to_le_bytes());
    want.push(3);
    want.extend_from_slice(&(-0.0f64).to_le_bytes());
    want.push(4);
    text(&mut want, "héllo");
    want.push(4);
    le32(&mut want, 0);
    le32(&mut want, 0);
    le32(&mut want, 0);
    le32(&mut want, 0);
    le32(&mut want, 0);
    assert_eq!(bytes, want);
    let (_, back) = deserialize_bytecode(&bytes, &mut Ids::new()).unwrap();
    assert_eq!(back.constants.len(), 7);
    assert!(matches!(back.constants[0], Constants::Nil));
    assert!(matches!(back.constants[1], Constants::Boolean(true)));
    assert!(matches!(back.constants[2], Constants::Boolean(false)));
    assert!(matches!(back.constants[3], Constants::Number(n) if n == 3.5f64.to_bits()));
    assert!(matches!(back.constants[4], Constants::Number(n) if n == (-0.0f64).to_bits()));
    assert!(matches!(&back.constants[5], Constants::String(s) if s == "héllo"));
    assert!(matches!(&back.constants[6], Constants::String(s) if s.is_empty()));
}

#[test]
fn a_boolean_is_true_for_any_byte_but_zero() {
    let mut proto = empty_proto("");
    proto.constants = vec![Constants::Boolean(true)];
    let mut bytes = serialize_bytecode(&(4, 4, 4, 8), &proto).unwrap();
    let at = 12 + 4 + 8 + 4 + 4 + 4 + 1;
    assert_eq!(bytes[at], 1);
    bytes[at] = 7;
    let (_, back) = deserialize_bytecode(&bytes, &mut Ids::new()).unwrap();
    assert!(matches!(back.constants[0], Constants::Boolean(true)));
}

#[test]
fn a_string_of_one_zero_byte_is_read_as_empty() {
    let mut bytes = HEADER.to_vec();
    le32(&mut bytes, 1);
    bytes.push(0);
    le32(&mut bytes, 0);
    le32(&mut bytes, 0);
    bytes.extend_from_slice(&[0, 0, 0, 2]);
    for _ in 0..6 {
        le32(&mut bytes, 0);
    }
    let (header, proto) = deserialize_bytecode(&bytes, &mut Ids::new()).unwrap();
    assert_eq!(proto.source, "");
    let again = serialize_bytecode(&header, &proto).unwrap();
    assert_eq!(again.len(), bytes.len() - 1);
    assert_eq!(&again[12..16], &[0, 0, 0, 0]);
}

#[test]
fn nested_prototypes_and_debug_information_come_back() {
    let mut inner = empty_proto("@in.lua");
    inner.nparams = 1;
    inner.nupvals = 1;
    inner.line_defined = 3;
    inner.last_line_defined = 5;
    inner.instructions = vec![
        Instruction::new(Opcode::GetUpval, Instr::GetUpval(Reg(1), 0), &mut Ids::new()),
        Instruction::new(Opcode::Return, Instr::Return(Reg(1), 2), &mut Ids::new()),
    ];
    inner.source_lines = Some(vec![4, 4]);
    inner.locals = Some(vec![Local("y".to_string(), 0, 1)]);
    inner.upvals = Some(vec!["x".to_string()]);
    let mut middle = empty_proto("@mid.lua");
    middle.prototypes = vec![inner];
    let mut outer = empty_proto("@out.lua");
    outer.prototypes = vec![middle, empty_proto("@side.lua")];
    outer.instructions = vec![Instruction::new(Opcode::Closure, Instr::Closure(Reg(0), 1), &mut Ids::new())];
    let bytes = serialize_bytecode(&(4, 4, 4, 8), &outer).unwrap();
    let (header, back) = deserialize_bytecode(&bytes, &mut Ids::new()).unwrap();
    assert_eq!(back.prototypes.len(), 2);
    assert_eq!(back.prototypes[1].source, "@side.lua");
    let middle = &back.prototypes[0];
    assert_eq!(middle.source, "@mid.lua");
    let inner = &middle.prototypes[0];
    assert_eq!(inner.source, "@in.lua");
    assert_eq!((inner.nparams, inner.nupvals), (1, 1));
    assert_eq!((inner.line_defined, inner.last_line_defined), (3, 5));
    assert_eq!(inner.instructions[0].1, Instr::GetUpval(Reg(1), 0));
    assert_eq!(inner.source_lines, Some(vec![4, 4]));
    let locals = inner.locals.as_ref().unwrap();
    assert_eq!((locals[0].0.as_str(), locals[0].1, locals[0].2), ("y", 0, 1));
    assert_eq!(inner.upvals, Some(vec!["x".to_string()]));
    assert_eq!(serialize_bytecode(&header, &back), Ok(bytes));
}

#[test]
fn instructions_are_numbered_in_the_order_in_which_they_are_read() {
    let mut ids = Ids::new();
    let mut inner = empty_proto("@in.lua");
    inner.instructions = vec![
        Instruction::new(Opcode::GetUpval, Instr::GetUpval(Reg(1), 0), &mut ids),
        Instruction::new(Opcode::Return, Instr::Return(Reg(1), 2), &mut ids),
    ];
    let mut outer = empty_proto("@out.lua");
    outer.instructions = vec![
        Instruction::new(Opcode::Closure, Instr::Closure(Reg(0), 0), &mut ids),
        Instruction::new(Opcode::Return, Instr::Return(Reg(0), 1), &mut ids),
    ];
    outer.prototypes = vec![inner];
    let bytes = serialize_bytecode(&(4, 4, 4, 8), &outer).unwrap();
    let (_, first) = deserialize_bytecode(&bytes, &mut ids).unwrap();
    let (_, second) = deserialize_bytecode(&bytes, &mut ids).unwrap();
    let numbers = |p: &Proto| -> Vec<usize> { p.instructions.iter().map(|i| i.3).collect() };
    assert_eq!(numbers(&outer), vec![3, 4]);
    assert_eq!(numbers(&first), vec![5, 6]);
    assert_eq!(numbers(&first.prototypes[0]), vec![7, 8]);
    assert_eq!(numbers(&second), vec![9, 10]);
    assert_eq!(numbers(&second.prototypes[0]), vec![11, 12]);
    assert_eq!(ids.get_id(), 13);
}

#[test]
fn dropped_debug_information_is_written_as_empty_lists() {
    let mut with = empty_proto("@d.lua");
    with.source_lines = Some(vec![]);
    let mut without = empty_proto("@d.lua");
    without.source_lines = None;
    without.locals = None;
    without.upvals = None;
    assert_eq!(
        serialize_bytecode(&(4, 4, 4, 8), &with),
        serialize_bytecode(&(4, 4, 4, 8), &without)
    );
}

#[test]
fn the_placeholder_is_not_written() {
    let mut proto = empty_proto("@n.lua");
    proto.instructions = vec![
        Instruction::new(Opcode::Return, Instr::Return(Reg(0), 1), &mut Ids::new()),
        Instruction::new(Opcode::NOP, Instr::NOP, &mut Ids::new()),
    ];
    assert_eq!(serialize_bytecode(&(4, 4, 4, 8), &proto), Err(Error::FormatError));
    let mut outer = empty_proto("@o.lua");
    outer.prototypes = vec![proto];
    assert_eq!(serialize_bytecode(&(4, 4, 4, 8), &outer), Err(Error::FormatError));
}

#[test]
fn the_opcode_of_the_placeholder_is_not_written() {
    let mut proto = empty_proto("@n.lua");
    proto.instructions = vec![
        Instruction::new(Opcode::NOP, Instr::Move(Reg(0), Reg(0)), &mut Ids::new()),
        Instruction::new(Opcode::Return, Instr::Return(Reg(0), 1), &mut Ids::new()),
    ];
    assert_eq!(serialize_bytecode(&(4, 4, 4, 8), &proto), Err(Error::FormatError));
    proto.instructions[0] = Instruction(Opcode::Move, Instr::Move(Reg(0), Reg(0)), Opmode::NOP, 0);
    assert_eq!(serialize_bytecode(&(4, 4, 4, 8), &proto), Err(Error::FormatError));
    proto.instructions[0] = Instruction::new(Opcode::Move, Instr::NOP, &mut Ids::new());
    assert_eq!(serialize_bytecode(&(4, 4, 4, 8), &proto), Err(Error::FormatError));
    proto.instructions[0] = Instruction::new(Opcode::Move, Instr::Move(Reg(0), Reg(0)), &mut Ids::new());
    assert!(serialize_bytecode(&(4, 4, 4, 8), &proto).is_ok());
    let mut outer = empty_proto("@o.lua");
    proto.instructions[1] = Instruction::new(Opcode::NOP, Instr::Return(Reg(0), 1), &mut Ids::new());
    outer.prototypes = vec![empty_proto("@a.lua"), proto];
    assert_eq!(serialize_bytecode(&(4, 4, 4, 8), &outer), Err(Error::FormatError));
    let ctx = obfuscation::context::Context::new((4, 4, 4, 8), outer);
    assert_eq!(ctx.assemble(), Err(Error::FormatError));
}

#[test]
fn the_placeholder_word_is_read_as_the_placeholder() {
    let mut bytes = hello_chunk();
    let at = 12 + 4 + 8 + 8 + 4 + 4;
    bytes[at] = 38;
    let (header, proto) = deserialize_bytecode(&bytes, &mut Ids::new()).unwrap();
    assert_eq!(proto.instructions[0].1, Instr::NOP);
    assert_eq!(serialize_bytecode(&header, &proto), Err(Error::FormatError));
}

#[test]
fn a_list_store_reads_the_word_after_it() {
    let mut proto = empty_proto("@s.lua");
    proto.instructions = vec![
        Instruction::new(Opcode::SetList, Instr::SetList(Reg(0), 0, 512), &mut Ids::new()),
        Instruction::new(Opcode::Move, Instr::Move(Reg(8), Reg(0)), &mut Ids::new()),
        Instruction::new(Opcode::Return, Instr::Return(Reg(0), 1), &mut Ids::new()),
    ];
    let bytes = serialize_bytecode(&(4, 4, 4, 8), &proto).unwrap();
    let (header, back) = deserialize_bytecode(&bytes, &mut Ids::new()).unwrap();
    assert_eq!(back.instructions[0].1, Instr::SetList(Reg(0), 0, 512));
    assert_eq!(back.instructions[1].1, Instr::Move(Reg(8), Reg(0)));
    assert_eq!(serialize_bytecode(&header, &back), Ok(bytes));
}

#[test]
fn reader_takes_values_in_turn() {
    let bytes = [7u8, 0x78, 0x56, 0x34, 0x12, 3, 0, 0, 0, b'h', b'i', 0, 9];
    let mut reader = Reader::new(&bytes);
    assert_eq!(reader.as_bytes(), &bytes);
    assert_eq!(reader.byte(), Ok(7));
    assert_eq!(reader.integer(4), Ok(0x1234_5678));
    assert_eq!(reader.string(4), Ok("hi".to_string()));
    assert_eq!(reader.bytes(1).map(|b| b.to_vec()), Ok(vec![9]));
    assert_eq!(reader.byte(), Err(Error::FormatError));
    assert_eq!(reader.bytes(1).map(|b| b.to_vec()), Err(Error::FormatError));
    assert_eq!(reader.integer(1), Err(Error::FormatError));
    assert_eq!(reader.bytes(0).map(|b| b.to_vec()), Ok(vec![]));
}

#[test]
fn reader_integers_of_other_widths() {
    let bytes = [1u8, 2, 3, 4, 5, 6, 7, 8];
    assert_eq!(Reader::new(&bytes).integer(0), Ok(0));
    assert_eq!(Reader::new(&bytes).integer(1), Ok(1));
    assert_eq!(Reader::new(&bytes).integer(2), Ok(0x0201));
    assert_eq!(Reader::new(&bytes).integer(3), Ok(0x03_0201));
    assert_eq!(Reader::new(&bytes).integer(8), Ok(0x0403_0201));
    assert_eq!(Reader::new(&bytes).integer(9), Err(Error::FormatError));
}

#[test]
fn reader_numbers_are_two_halves() {
    let bytes = 3.5f64.to_le_bytes();
    assert_eq!(Reader::new(&bytes).number(4), Ok(3.5f64.to_bits()));
    assert_eq!(Reader::new(&bytes[..7]).number(4), Err(Error::FormatError));
    let bytes = (-1e300f64).to_le_bytes();
    assert_eq!(Reader::new(&bytes).number(4), Ok((-1e300f64).to_bits()));
}

#[test]
fn reader_failure_leaves_the_place() {
    let bytes = [1u8, 2, 3];
    let mut reader = Reader::new(&bytes);
    assert_eq!(reader.integer(4), Err(Error::FormatError));
    assert_eq!(reader.byte(), Ok(1));
    assert_eq!(reader.bytes(3).map(|b| b.to_vec()), Err(Error::FormatError));
    assert_eq!(reader.integer(2), Ok(0x0302));
}

#[test]
fn writer_grows_at_its_end() {
    let mut writer = Writer::new();
    assert_eq!(writer.as_bytes(), &[] as &[u8]);
    writer.byte(7);
    writer.bytes(vec![1, 2]);
    writer.integer(0x1234_5678, 4);
    writer.integer(0x1234_5678, 2);
    writer.integer(0x12, 6);
    writer.integer(5, 0);
    writer.string("hi", 4);
    writer.string("", 4);
    writer.number(3.5f64.to_bits(), 4);
    let mut want = vec![7u8, 1, 2, 0x78, 0x56, 0x34, 0x12, 0x78, 0x56, 0x12, 0, 0, 0, 0, 0];
    want.extend_from_slice(&[3, 0, 0, 0, b'h', b'i', 0]);
    want.extend_from_slice(&[0, 0, 0, 0]);
    want.extend_from_slice(&3.5f64.to_le_bytes());
    assert_eq!(writer.as_bytes(), &want[..]);
}

#[test]
fn default_prototype() {
    let proto = Proto::default();
    assert_eq!(proto.source, "@default.lua");
    assert_eq!(proto.is_vararg_flag, 2);
    assert_eq!(proto.max_stack_size, 2);
    assert_eq!((proto.nparams, proto.nupvals), (0, 0));
    assert!(proto.instructions.is_empty() && proto.constants.is_empty());
    assert_eq!(proto.source_lines, Some(vec![]));
}

//! Control-flow flattening: the blocks of a function become the arms of a
//! dispatcher that runs in a loop on a state.

use vstd::prelude::*;
use crate::context::{
    Context, Op, same_frame, interned, placed, constant_in, set_constant, MAX_CONSTANTS,
};
use crate::control_flow::{Block, blocks_of, block_codes, cut};
use crate::error::Error;
use crate::instruction::{
    BinCondOp, BinOp, Ids, Instr, Instruction, Kst, Reg, RegKst, advanced, following,
    lemma_advanced_on, lemma_numbers_distinct, unnumbered_code, MAX_OFFSET, MIN_OFFSET,
};
use crate::number::{number_bits, number_from_int};
use crate::options::Options;
use crate::proto::{
    Constants, ConstantsView, Proto, ProtoView, constants_view, prototypes_view,
    lemma_prototypes_view, copy_constants, count_of, count_all, numbered_from,
    lemma_first_prototypes,
};
use crate::registers::{Registers, identity};

verus! {

/// The first of the first `limit` blocks that holds the place `dest`.
pub open spec fn block_holding(blocks: Seq<Seq<usize>>, limit: int, dest: int) -> Option<int>
    decreases limit,
{
    if limit <= 0 {
        None
    } else {
        match block_holding(blocks, limit - 1, dest) {
            Some(b) => Some(b),
            None => if limit <= blocks.len() && blocks[limit - 1].contains(dest as usize) {
                Some(limit - 1)
            } else {
                None
            },
        }
    }
}

/// The block to which the instruction at `ip`, in the block `current`,
/// leads by `offset`: the first block that holds the place `ip + offset`,
/// looked for among the blocks before `current` where the place lies before
/// `ip`, and among all of them else. No block is found where none of these
/// holds the place. It is an error of the control flow where the place
/// lies before the code, and where the block that holds it does not start
/// at it.
pub open spec fn jump_block(blocks: Seq<Seq<usize>>, ip: int, offset: int, current: int) -> Result<
    Option<usize>,
    Error,
> {
    let dest = ip + offset;
    if dest < 0 {
        Err(Error::MalformedCFG)
    } else if dest > usize::MAX {
        Ok(None)
    } else {
        let limit = if dest < ip && current < blocks.len() {
            current
        } else {
            blocks.len() as int
        };
        match block_holding(blocks, limit, dest) {
            Some(b) => if blocks[b][0] == dest {
                Ok(Some(b as usize))
            } else {
                Err(Error::MalformedCFG)
            },
            None => Ok(None),
        }
    }
}

/// Whether the place `dest` is among `code`.
fn holds(code: &Vec<usize>, dest: usize) -> (r: bool)
    ensures
        r == code@.contains(dest),
{
    let mut i: usize = 0;
    while i < code.len()
        invariant
            i <= code.len(),
            forall|j: int| 0 <= j < i ==> code[j] != dest,
        decreases code.len() - i,
    {
        if code[i] == dest {
            return true;
        }
        i += 1;
    }
    false
}

/// The block that starts where the instruction at `ip` leads by `offset`,
/// if a block holds that place. Fails where the place lies before the
/// code or inside a block.
pub fn get_block_from_jump(
    blocks: &Vec<Block>,
    ip: usize,
    offset: i32,
    current_block: usize,
) -> (r: Result<Option<usize>, Error>)
    ensures
        r == jump_block(block_codes(blocks@), ip as int, offset as int, current_block as int),
{
    let dest: usize = if offset >= 0 {
        if ip > usize::MAX - offset as usize {
            return Ok(None);
        }
        ip + offset as usize
    } else {
        let back: usize = (-(offset as i64)) as usize;
        if back > ip {
            return Err(Error::MalformedCFG);
        }
        ip - back
    };
    let limit = if dest < ip && current_block < blocks.len() {
        current_block
    } else {
        blocks.len()
    };
    let mut b: usize = 0;
    while b < limit
        invariant
            b <= limit <= blocks.len(),
            dest == ip + offset,
            limit == if dest < ip && current_block < blocks.len() {
                current_block
            } else {
                blocks.len()
            },
            block_holding(block_codes(blocks@), b as int, dest as int) is None,
        decreases limit - b,
    {
        if holds(&blocks[b].code, dest) {
            assert(block_holding(block_codes(blocks@), b + 1, dest as int) == Some(b as int));
            proof {
                lemma_block_holding_stays(block_codes(blocks@), b + 1, limit as int, dest as int);
            }
            if blocks[b].code[0] == dest {
                return Ok(Some(b));
            } else {
                return Err(Error::MalformedCFG);
            }
        }
        b += 1;
    }
    Ok(None)
}

/// A block that is the first to hold a place among some blocks is so among
/// more of them.
proof fn lemma_block_holding_stays(blocks: Seq<Seq<usize>>, n: int, limit: int, dest: int)
    requires
        0 <= n <= limit,
        block_holding(blocks, n, dest) is Some,
    ensures
        block_holding(blocks, limit, dest) == block_holding(blocks, n, dest),
    decreases limit - n,
{
    if n < limit {
        lemma_block_holding_stays(blocks, n, limit - 1, dest);
    }
}

impl Instr {
    /// The stack slot `r` is an operand of this instruction. The two sizes
    /// of a new table are no stack slots.
    pub open spec fn mentions(self, r: Reg) -> bool {
        match self {
            Instr::Move(a, b) => a == r || b == r,
            Instr::LoadK(a, _) => a == r,
            Instr::LoadBool(a, _, _) => a == r,
            Instr::LoadNil(a, b) => a == r || b == r,
            Instr::GetUpval(a, _) => a == r,
            Instr::GetGlobal(a, _) => a == r,
            Instr::GetTable(a, b, c) => a == r || b == r || c == RegKst::R(r),
            Instr::SetGlobal(a, _) => a == r,
            Instr::SetUpval(a, _) => a == r,
            Instr::SetTable(a, b, c) => a == r || b == RegKst::R(r) || c == RegKst::R(r),
            Instr::NewTable(a, _, _) => a == r,
            Instr::Self_(a, b, c) => a == r || b == r || c == RegKst::R(r),
            Instr::BinOp(a, b, _, d) => a == r || b == RegKst::R(r) || d == RegKst::R(r),
            Instr::UnOp(a, _, c) => a == r || c == r,
            Instr::Concat(a, b, c) => a == r || b == r || c == r,
            Instr::Jump(a, _) => a == r,
            Instr::BinCondOp(_, b, _, d) => b == RegKst::R(r) || d == RegKst::R(r),
            Instr::Test(a, _) => a == r,
            Instr::TestSet(a, b, _) => a == r || b == r,
            Instr::Call(a, _, _) => a == r,
            Instr::TailCall(a, _, _) => a == r,
            Instr::Return(a, _) => a == r,
            Instr::ForLoop(a, _) => a == r,
            Instr::ForPrep(a, _) => a == r,
            Instr::TForLoop(a, _) => a == r,
            Instr::SetList(a, _, _) => a == r,
            Instr::Close(a) => a == r,
            Instr::Closure(a, _) => a == r,
            Instr::VarArg(a, _) => a == r,
            Instr::NOP => false,
        }
    }
}

/// The place that the registers `table` and `possible` give to the stack
/// slot `r` of a function with `bias` parameters: its own for a parameter;
/// for another the place of the register as far into those left to the code
/// as `r` lies above the parameters. There is none where so many registers
/// are not left, or where the place is none that an instruction can name.
pub open spec fn moved_register(table: Seq<usize>, possible: Seq<usize>, bias: u8, r: Reg) -> Option<
    Reg,
> {
    if r.0 < bias {
        Some(r)
    } else if r.0 - bias < possible.len() && possible[r.0 - bias] < table.len() && table[possible[r.0
        - bias] as int] <= u8::MAX {
        Some(Reg(table[possible[r.0 - bias] as int] as u8))
    } else {
        None
    }
}

/// The places that the registers `table` and `possible` give to the stack
/// slots of a function with `bias` parameters.
pub open spec fn slot_map(table: Seq<usize>, possible: Seq<usize>, bias: u8) -> spec_fn(Reg) -> Option<
    Reg,
> {
    |r: Reg| moved_register(table, possible, bias, r)
}

/// The operand `x` with its stack slot moved by `rho`; a constant stays.
pub open spec fn moved_operand(x: RegKst, rho: spec_fn(Reg) -> Option<Reg>) -> Option<RegKst> {
    match x {
        RegKst::R(r) => match rho(r) {
            Some(m) => Some(RegKst::R(m)),
            None => None,
        },
        RegKst::K(k) => Some(RegKst::K(k)),
    }
}

/// The instruction `instr` with each stack slot among its operands moved
/// by `rho`; none where `rho` has no place for one of them.
pub open spec fn moved_instr(instr: Instr, rho: spec_fn(Reg) -> Option<Reg>) -> Option<Instr> {
    match instr {
        Instr::Move(a, b) => if rho(a) is Some && rho(b) is Some {
            Some(Instr::Move(rho(a)->0, rho(b)->0))
        } else {
            None
        },
        Instr::LoadK(a, b) => if rho(a) is Some {
            Some(Instr::LoadK(rho(a)->0, b))
        } else {
            None
        },
        Instr::LoadBool(a, b, c) => if rho(a) is Some {
            Some(Instr::LoadBool(rho(a)->0, b, c))
        } else {
            None
        },
        Instr::LoadNil(a, b) => if rho(a) is Some && rho(b) is Some {
            Some(Instr::LoadNil(rho(a)->0, rho(b)->0))
        } else {
            None
        },
        Instr::GetUpval(a, b) => if rho(a) is Some {
            Some(Instr::GetUpval(rho(a)->0, b))
        } else {
            None
        },
        Instr::GetGlobal(a, b) => if rho(a) is Some {
            Some(Instr::GetGlobal(rho(a)->0, b))
        } else {
            None
        },
        Instr::GetTable(a, b, c) => if rho(a) is Some
            && rho(b) is Some
            && moved_operand(c, rho) is Some {
            Some(Instr::GetTable(rho(a)->0, rho(b)->0, moved_operand(c, rho)->0))
        } else {
            None
        },
        Instr::SetGlobal(a, b) => if rho(a) is Some {
            Some(Instr::SetGlobal(rho(a)->0, b))
        } else {
            None
        },
        Instr::SetUpval(a, b) => if rho(a) is Some {
            Some(Instr::SetUpval(rho(a)->0, b))
        } else {
            None
        },
        Instr::SetTable(a, b, c) => if rho(a) is Some
            && moved_operand(b, rho) is Some
            && moved_operand(c, rho) is Some {
            Some(Instr::SetTable(rho(a)->0, moved_operand(b, rho)->0, moved_operand(c, rho)->0))
        } else {
            None
        },
        Instr::NewTable(a, b, c) => if rho(a) is Some {
            Some(Instr::NewTable(rho(a)->0, b, c))
        } else {
            None
        },
        Instr::Self_(a, b, c) => if rho(a) is Some
            && rho(b) is Some
            && moved_operand(c, rho) is Some {
            Some(Instr::Self_(rho(a)->0, rho(b)->0, moved_operand(c, rho)->0))
        } else {
            None
        },
        Instr::BinOp(a, b, c, d) => if rho(a) is Some
            && moved_operand(b, rho) is Some
            && moved_operand(d, rho) is Some {
            Some(Instr::BinOp(rho(a)->0, moved_operand(b, rho)->0, c, moved_operand(d, rho)->0))
        } else {
            None
        },
        Instr::UnOp(a, b, c) => if rho(a) is Some && rho(c) is Some {
            Some(Instr::UnOp(rho(a)->0, b, rho(c)->0))
        } else {
            None
        },
        Instr::Concat(a, b, c) => if rho(a) is Some && rho(b) is Some && rho(c) is Some {
            Some(Instr::Concat(rho(a)->0, rho(b)->0, rho(c)->0))
        } else {
            None
        },
        Instr::Jump(a, b) => if rho(a) is Some {
            Some(Instr::Jump(rho(a)->0, b))
        } else {
            None
        },
        Instr::BinCondOp(a, b, c, d) => if moved_operand(b, rho) is Some
            && moved_operand(d, rho) is Some {
            Some(Instr::BinCondOp(a, moved_operand(b, rho)->0, c, moved_operand(d, rho)->0))
        } else {
            None
        },
        Instr::Test(a, b) => if rho(a) is Some {
            Some(Instr::Test(rho(a)->0, b))
        } else {
            None
        },
        Instr::TestSet(a, b, c) => if rho(a) is Some && rho(b) is Some {
            Some(Instr::TestSet(rho(a)->0, rho(b)->0, c))
        } else {
            None
        },
        Instr::Call(a, b, c) => if rho(a) is Some {
            Some(Instr::Call(rho(a)->0, b, c))
        } else {
            None
        },
        Instr::TailCall(a, b, c) => if rho(a) is Some {
            Some(Instr::TailCall(rho(a)->0, b, c))
        } else {
            None
        },
        Instr::Return(a, b) => if rho(a) is Some {
            Some(Instr::Return(rho(a)->0, b))
        } else {
            None
        },
        Instr::ForLoop(a, b) => if rho(a) is Some {
            Some(Instr::ForLoop(rho(a)->0, b))
        } else {
            None
        },
        Instr::ForPrep(a, b) => if rho(a) is Some {
            Some(Instr::ForPrep(rho(a)->0, b))
        } else {
            None
        },
        Instr::TForLoop(a, b) => if rho(a) is Some {
            Some(Instr::TForLoop(rho(a)->0, b))
        } else {
            None
        },
        Instr::SetList(a, b, c) => if rho(a) is Some {
            Some(Instr::SetList(rho(a)->0, b, c))
        } else {
            None
        },
        Instr::Close(a) => if rho(a) is Some {
            Some(Instr::Close(rho(a)->0))
        } else {
            None
        },
        Instr::Closure(a, b) => if rho(a) is Some {
            Some(Instr::Closure(rho(a)->0, b))
        } else {
            None
        },
        Instr::VarArg(a, b) => if rho(a) is Some {
            Some(Instr::VarArg(rho(a)->0, b))
        } else {
            None
        },
        Instr::NOP => Some(Instr::NOP),
    }
}

/// Every instruction of `code` can be moved by `rho`.
pub open spec fn movable(code: Seq<Instruction>, rho: spec_fn(Reg) -> Option<Reg>) -> bool {
    forall|i: int| 0 <= i < code.len() ==> moved_instr((#[trigger] code[i]).1, rho) is Some
}

/// The code `code` with each instruction moved by `rho`, its packed fields
/// set anew.
pub open spec fn moved_code(code: Seq<Instruction>, rho: spec_fn(Reg) -> Option<Reg>) -> Seq<
    Instruction,
> {
    Seq::new(
        code.len(),
        |i: int|
            {
                let m = moved_instr(code[i].1, rho)->0;
                Instruction(code[i].0, m, m.spec_opmode(), code[i].3)
            },
    )
}

/// A stack slot that a moved instruction names is the place of one that
/// the instruction named before.
pub proof fn lemma_moved_mentions(instr: Instr, rho: spec_fn(Reg) -> Option<Reg>, r: Reg)
    requires
        moved_instr(instr, rho) is Some,
        moved_instr(instr, rho)->0.mentions(r),
    ensures
        exists|from: Reg| instr.mentions(from) && #[trigger] rho(from) == Some(r),
{
    let regs = operand_slots(instr);
    assert forall|i: int| 0 <= i < regs.len() implies instr.mentions(#[trigger] regs[i]) by {}
    if regs.len() > 0 && rho(regs[0]) == Some(r) {
        assert(instr.mentions(regs[0]) && rho(regs[0]) == Some(r));
    } else if regs.len() > 1 && rho(regs[1]) == Some(r) {
        assert(instr.mentions(regs[1]) && rho(regs[1]) == Some(r));
    } else if regs.len() > 2 && rho(regs[2]) == Some(r) {
        assert(instr.mentions(regs[2]) && rho(regs[2]) == Some(r));
    } else {
        assert(false);
    }
}

/// The stack slots among the operands of `instr`, in their order.
pub open spec fn operand_slots(instr: Instr) -> Seq<Reg> {
    match instr {
        Instr::Move(a, b) | Instr::LoadNil(a, b) | Instr::UnOp(a, _, b) | Instr::TestSet(a, b, _) => {
            seq![a, b]
        },
        Instr::GetTable(a, b, c) | Instr::Self_(a, b, c) => seq![a, b] + slot_of(c),
        Instr::SetTable(a, b, c) | Instr::BinOp(a, b, _, c) => seq![a] + slot_of(b) + slot_of(c),
        Instr::BinCondOp(_, b, _, c) => slot_of(b) + slot_of(c),
        Instr::Concat(a, b, c) => seq![a, b, c],
        Instr::LoadK(a, _)
        | Instr::LoadBool(a, _, _)
        | Instr::GetUpval(a, _)
        | Instr::GetGlobal(a, _)
        | Instr::SetGlobal(a, _)
        | Instr::SetUpval(a, _)
        | Instr::NewTable(a, _, _)
        | Instr::Jump(a, _)
        | Instr::Test(a, _)
        | Instr::Call(a, _, _)
        | Instr::TailCall(a, _, _)
        | Instr::Return(a, _)
        | Instr::ForLoop(a, _)
        | Instr::ForPrep(a, _)
        | Instr::TForLoop(a, _)
        | Instr::SetList(a, _, _)
        | Instr::Close(a)
        | Instr::Closure(a, _)
        | Instr::VarArg(a, _) => seq![a],
        Instr::NOP => Seq::empty(),
    }
}

/// The stack slot of an operand that names one.
pub open spec fn slot_of(x: RegKst) -> Seq<Reg> {
    match x {
        RegKst::R(r) => seq![r],
        RegKst::K(_) => Seq::empty(),
    }
}

fn move_register(r: Reg, registers: &mut Registers, bias: u8) -> (m: Result<Reg, Error>)
    requires
        old(registers).wf(),
    ensures
        final(registers).wf(),
        final(registers).table() == old(registers).table(),
        final(registers).unused() == old(registers).unused(),
        final(registers).possible() == old(registers).possible(),
        match moved_register(old(registers).table(), old(registers).possible(), bias, r) {
            Some(to) => m == Ok::<Reg, Error>(to),
            None => m == Err::<Reg, Error>(Error::ResourceExhausted),
        },
{
    if r.0 < bias {
        return Ok(r);
    }
    let place = registers.get((r.0 - bias) as usize)?;
    if place <= 255 {
        Ok(Reg(place as u8))
    } else {
        Err(Error::ResourceExhausted)
    }
}

fn move_operand(x: &RegKst, registers: &mut Registers, bias: u8) -> (m: Result<RegKst, Error>)
    requires
        old(registers).wf(),
    ensures
        final(registers).wf(),
        final(registers).table() == old(registers).table(),
        final(registers).unused() == old(registers).unused(),
        final(registers).possible() == old(registers).possible(),
        match moved_operand(
            *x,
            slot_map(old(registers).table(), old(registers).possible(), bias),
        ) {
            Some(to) => m == Ok::<RegKst, Error>(to),
            None => m == Err::<RegKst, Error>(Error::ResourceExhausted),
        },
{
    match x {
        RegKst::R(r) => Ok(RegKst::R(move_register(*r, registers, bias)?)),
        RegKst::K(k) => Ok(RegKst::K(*k)),
    }
}

fn move_instr(instr: &Instr, registers: &mut Registers, bias: u8) -> (m: Result<Instr, Error>)
    requires
        old(registers).wf(),
    ensures
        final(registers).wf(),
        final(registers).table() == old(registers).table(),
        final(registers).unused() == old(registers).unused(),
        final(registers).possible() == old(registers).possible(),
        match moved_instr(
            *instr,
            slot_map(old(registers).table(), old(registers).possible(), bias),
        ) {
            Some(to) => m == Ok::<Instr, Error>(to),
            None => m == Err::<Instr, Error>(Error::ResourceExhausted),
        },
{
    let m = match instr {
        Instr::Move(a, b) => {
            let a2 = move_register(*a, registers, bias)?;
            let b2 = move_register(*b, registers, bias)?;
            Instr::Move(a2, b2)
        },
        Instr::LoadK(a, b) => {
            let a2 = move_register(*a, registers, bias)?;
            Instr::LoadK(a2, *b)
        },
        Instr::LoadBool(a, b, c) => {
            let a2 = move_register(*a, registers, bias)?;
            Instr::LoadBool(a2, *b, *c)
        },
        Instr::LoadNil(a, b) => {
            let a2 = move_register(*a, registers, bias)?;
            let b2 = move_register(*b, registers, bias)?;
            Instr::LoadNil(a2, b2)
        },
        Instr::GetUpval(a, b) => {
            let a2 = move_register(*a, registers, bias)?;
            Instr::GetUpval(a2, *b)
        },
        Instr::GetGlobal(a, b) => {
            let a2 = move_register(*a, registers, bias)?;
            Instr::GetGlobal(a2, *b)
        },
        Instr::GetTable(a, b, c) => {
            let a2 = move_register(*a, registers, bias)?;
            let b2 = move_register(*b, registers, bias)?;
            let c2 = move_operand(c, registers, bias)?;
            Instr::GetTable(a2, b2, c2)
        },
        Instr::SetGlobal(a, b) => {
            let a2 = move_register(*a, registers, bias)?;
            Instr::SetGlobal(a2, *b)
        },
        Instr::SetUpval(a, b) => {
            let a2 = move_register(*a, registers, bias)?;
            Instr::SetUpval(a2, *b)
        },
        Instr::SetTable(a, b, c) => {
            let a2 = move_register(*a, registers, bias)?;
            let b2 = move_operand(b, registers, bias)?;
            let c2 = move_operand(c, registers, bias)?;
            Instr::SetTable(a2, b2, c2)
        },
        Instr::NewTable(a, b, c) => {
            let a2 = move_register(*a, registers, bias)?;
            Instr::NewTable(a2, *b, *c)
        },
        Instr::Self_(a, b, c) => {
            let a2 = move_register(*a, registers, bias)?;
            let b2 = move_register(*b, registers, bias)?;
            let c2 = move_operand(c, registers, bias)?;
            Instr::Self_(a2, b2, c2)
        },
        Instr::BinOp(a, b, c, d) => {
            let a2 = move_register(*a, registers, bias)?;
            let b2 = move_operand(b, registers, bias)?;
            let d2 = move_operand(d, registers, bias)?;
            Instr::BinOp(a2, b2, *c, d2)
        },
        Instr::UnOp(a, b, c) => {
            let a2 = move_register(*a, registers, bias)?;
            let c2 = move_register(*c, registers, bias)?;
            Instr::UnOp(a2, *b, c2)
        },
        Instr::Concat(a, b, c) => {
            let a2 = move_register(*a, registers, bias)?;
            let b2 = move_register(*b, registers, bias)?;
            let c2 = move_register(*c, registers, bias)?;
            Instr::Concat(a2, b2, c2)
        },
        Instr::Jump(a, b) => {
            let a2 = move_register(*a, registers, bias)?;
            Instr::Jump(a2, *b)
        },
        Instr::BinCondOp(a, b, c, d) => {
            let b2 = move_operand(b, registers, bias)?;
            let d2 = move_operand(d, registers, bias)?;
            Instr::BinCondOp(*a, b2, *c, d2)
        },
        Instr::Test(a, b) => {
            let a2 = move_register(*a, registers, bias)?;
            Instr::Test(a2, *b)
        },
        Instr::TestSet(a, b, c) => {
            let a2 = move_register(*a, registers, bias)?;
            let b2 = move_register(*b, registers, bias)?;
            Instr::TestSet(a2, b2, *c)
        },
        Instr::Call(a, b, c) => {
            let a2 = move_register(*a, registers, bias)?;
            Instr::Call(a2, *b, *c)
        },
        Instr::TailCall(a, b, c) => {
            let a2 = move_register(*a, registers, bias)?;
            Instr::TailCall(a2, *b, *c)
        },
        Instr::Return(a, b) => {
            let a2 = move_register(*a, registers, bias)?;
            Instr::Return(a2, *b)
        },
        Instr::ForLoop(a, b) => {
            let a2 = move_register(*a, registers, bias)?;
            Instr::ForLoop(a2, *b)
        },
        Instr::ForPrep(a, b) => {
            let a2 = move_register(*a, registers, bias)?;
            Instr::ForPrep(a2, *b)
        },
        Instr::TForLoop(a, b) => {
            let a2 = move_register(*a, registers, bias)?;
            Instr::TForLoop(a2, *b)
        },
        Instr::SetList(a, b, c) => {
            let a2 = move_register(*a, registers, bias)?;
            Instr::SetList(a2, *b, *c)
        },
        Instr::Close(a) => {
            let a2 = move_register(*a, registers, bias)?;
            Instr::Close(a2)
        },
        Instr::Closure(a, b) => {
            let a2 = move_register(*a, registers, bias)?;
            Instr::Closure(a2, *b)
        },
        Instr::VarArg(a, b) => {
            let a2 = move_register(*a, registers, bias)?;
            Instr::VarArg(a2, *b)
        },
        Instr::NOP => Instr::NOP,
    };
    Ok(m)
}

/// The code `after` is `code` with the instructions before the first that
/// `rho` cannot move moved, and the others as they were.
pub open spec fn stopped_at(
    code: Seq<Instruction>,
    rho: spec_fn(Reg) -> Option<Reg>,
    after: Seq<Instruction>,
) -> bool {
    exists|i: int|
        {
            &&& 0 <= i < code.len()
            &&& after.len() == code.len()
            &&& moved_instr((#[trigger] code[i]).1, rho) is None
            &&& forall|j: int|
                0 <= j < i ==> moved_instr((#[trigger] code[j]).1, rho) is Some && after[j]
                    == moved_code(code, rho)[j]
            &&& forall|j: int| i <= j < code.len() ==> (#[trigger] after[j]) == code[j]
        }
}

/// Moves every stack slot that the instructions of `closure` name to the
/// place that `registers` give it, the parameters of `closure` keeping
/// theirs, and sets the packed fields of each instruction anew. Fails
/// where the registers have no place for a slot; the instructions before
/// the one that names it are then moved, the others not.
pub fn update_register_offsets(closure: &mut Proto, registers: &mut Registers) -> (r: Result<
    (),
    Error,
>)
    requires
        old(registers).wf(),
    ensures
        final(registers).wf(),
        final(registers).table() == old(registers).table(),
        final(registers).unused() == old(registers).unused(),
        final(registers).possible() == old(registers).possible(),
        same_frame(*final(closure), *old(closure)),
        final(closure).constants == old(closure).constants,
        ({
            let rho = slot_map(
                old(registers).table(),
                old(registers).possible(),
                old(closure).nparams,
            );
            let code = old(closure).instructions@;
            &&& movable(code, rho) ==> r is Ok && final(closure).instructions@ == moved_code(
                code,
                rho,
            )
            &&& !movable(code, rho) ==> r == Err::<(), Error>(Error::ResourceExhausted)
                && stopped_at(code, rho, final(closure).instructions@)
        }),
{
    let bias = closure.nparams;
    let ghost code = closure.instructions@;
    let ghost rho = slot_map(old(registers).table(), old(registers).possible(), bias);
    let mut i: usize = 0;
    while i < closure.instructions.len()
        invariant
            i <= closure.instructions.len(),
            closure.instructions.len() == code.len(),
            code == old(closure).instructions@,
            bias == old(closure).nparams,
            rho == slot_map(old(registers).table(), old(registers).possible(), bias),
            registers.wf(),
            registers.table() == old(registers).table(),
            registers.unused() == old(registers).unused(),
            registers.possible() == old(registers).possible(),
            same_frame(*closure, *old(closure)),
            closure.constants == old(closure).constants,
            forall|j: int| 0 <= j < i ==> moved_instr((#[trigger] code[j]).1, rho) is Some,
            forall|j: int|
                0 <= j < i ==> (#[trigger] closure.instructions[j]) == moved_code(code, rho)[j],
            forall|j: int| i <= j < code.len() ==> (#[trigger] closure.instructions[j]) == code[j],
        decreases closure.instructions.len() - i,
    {
        let current = closure.instructions[i];
        match move_instr(&current.1, registers, bias) {
            Ok(moved) => {
                let mode = moved.get_opmode();
                closure.instructions.set(i, Instruction(current.0, moved, mode, current.3));
            },
            Err(e) => {
                assert(moved_instr(code[i as int].1, rho) is None);
                assert(stopped_at(code, rho, closure.instructions@));
                return Err(e);
            },
        }
        i += 1;
    }
    assert(closure.instructions@ =~= moved_code(code, rho));
    Ok(())
}

/// The constant at `j` of `pool` is the first that is the same value as
/// `c`.
pub open spec fn found_at(pool: Seq<ConstantsView>, c: ConstantsView, j: int) -> bool {
    &&& 0 <= j < pool.len()
    &&& pool[j].same(c)
    &&& forall|i: int| 0 <= i < j ==> !(#[trigger] pool[i]).same(c)
}

/// Some constant of `pool` is the same value as `c`.
pub open spec fn known(pool: Seq<ConstantsView>, c: ConstantsView) -> bool {
    exists|j: int| 0 <= j < pool.len() && (#[trigger] pool[j]).same(c)
}

/// The index under which `c` is found in `pool`, or added to it.
pub open spec fn intern_index(pool: Seq<ConstantsView>, c: ConstantsView) -> int {
    if known(pool, c) {
        choose|j: int| found_at(pool, c, j)
    } else {
        pool.len() as int
    }
}

/// The pool `pool` after `c` was asked for.
pub open spec fn intern_pool(pool: Seq<ConstantsView>, c: ConstantsView) -> Seq<ConstantsView> {
    if known(pool, c) {
        pool
    } else {
        pool.push(c)
    }
}

/// What asking for a constant gives is a function of the pool and the
/// constant.
pub proof fn lemma_interned_is(
    before: Seq<ConstantsView>,
    c: ConstantsView,
    index: int,
    after: Seq<ConstantsView>,
)
    requires
        interned(before, c, index, after),
    ensures
        index == intern_index(before, c),
        after == intern_pool(before, c),
{
    if known(before, c) {
        assert(found_at(before, c, index));
        let j = choose|j: int| found_at(before, c, j);
        assert(j == index) by {
            if j < index {
                assert(!before[j].same(c));
            } else if index < j {
                assert(!before[index].same(c));
            }
        }
    }
}

/// A constant with the index under which it was found or added.
pub struct Interned {
    pub index: u32,
    pub pool: Seq<ConstantsView>,
}

/// Asks the pool `pool` for the number `n`. There is no room where the
/// number would have to be added to a full pool or is found beyond what an
/// instruction can name, and none for a number that a 32-bit integer does
/// not hold.
pub open spec fn intern_number(pool: Seq<ConstantsView>, n: int) -> Result<Interned, Error> {
    let c = ConstantsView::Number(number_bits(n));
    if n < i32::MIN || n > i32::MAX {
        Err(Error::ResourceExhausted)
    } else if !known(pool, c) && pool.len() >= MAX_CONSTANTS {
        Err(Error::ResourceExhausted)
    } else if !(0 <= intern_index(pool, c) < MAX_CONSTANTS) {
        Err(Error::ResourceExhausted)
    } else {
        Ok(Interned { index: intern_index(pool, c) as u32, pool: intern_pool(pool, c) })
    }
}

/// The context `after` is `before` but for its pool, which is `pool`.
pub open spec fn only_pool_changed(after: Context, before: Context, pool: Seq<ConstantsView>) -> bool {
    &&& after.wf()
    &&& after.header == before.header
    &&& same_frame(after.chunk, before.chunk)
    &&& after.code() == before.code()
    &&& after.refs() == before.refs()
    &&& after.pool() == pool
}

fn intern_constant(ctx: &mut Context, kst: Constants) -> (r: Result<u32, Error>)
    requires
        old(ctx).wf(),
    ensures
        ({
            let pool = old(ctx).pool();
            if !known(pool, kst@) && pool.len() >= MAX_CONSTANTS {
                r == Err::<u32, Error>(Error::ResourceExhausted) && only_pool_changed(
                    *final(ctx),
                    *old(ctx),
                    pool,
                )
            } else {
                r == Ok::<u32, Error>(intern_index(pool, kst@) as u32) && 0 <= intern_index(
                    pool,
                    kst@,
                ) < MAX_CONSTANTS && only_pool_changed(
                    *final(ctx),
                    *old(ctx),
                    intern_pool(pool, kst@),
                )
            }
        }),
{
    let ghost view = kst@;
    let r = ctx.get_or_add_constant(kst);
    proof {
        if let Ok(index) = r {
            lemma_interned_is(old(ctx).pool(), view, index as int, ctx.pool());
        }
    }
    r
}

fn intern_int(ctx: &mut Context, n: i32) -> (r: Result<u32, Error>)
    requires
        old(ctx).wf(),
    ensures
        match intern_number(old(ctx).pool(), n as int) {
            Ok(found) => r == Ok::<u32, Error>(found.index) && found.index < MAX_CONSTANTS
                && only_pool_changed(*final(ctx), *old(ctx), found.pool),
            Err(e) => r == Err::<u32, Error>(e) && only_pool_changed(
                *final(ctx),
                *old(ctx),
                old(ctx).pool(),
            ),
        },
{
    let kst = Constants::Number(number_from_int(n));
    assert(kst@ == ConstantsView::Number(number_bits(n as int)));
    intern_constant(ctx, kst)
}

/// Asks the pool for the number of the label `n`.
fn intern_label(ctx: &mut Context, n: usize) -> (r: Result<u32, Error>)
    requires
        old(ctx).wf(),
    ensures
        match intern_number(old(ctx).pool(), n as int) {
            Ok(found) => r == Ok::<u32, Error>(found.index) && found.index < MAX_CONSTANTS
                && only_pool_changed(*final(ctx), *old(ctx), found.pool),
            Err(e) => r == Err::<u32, Error>(e) && only_pool_changed(
                *final(ctx),
                *old(ctx),
                old(ctx).pool(),
            ),
        },
{
    if n > 0x7fff_ffff {
        return Err(Error::ResourceExhausted);
    }
    intern_int(ctx, n as i32)
}

/// The stack slot `n` above `a`.
pub open spec fn up(a: Reg, n: int) -> Reg {
    Reg((a.0 + n) as u8)
}

/// The operand that names the constant `k` of the pool.
pub open spec fn pool_operand(k: u32) -> RegKst {
    RegKst::K(Kst((k + 0x100) as u32))
}

/// The instruction that sets the state `s` to the number at `k` of the
/// pool.
pub open spec fn load_state(s: Reg, k: u32) -> Instr {
    Instr::LoadK(s, Kst(k))
}

/// What stands for the end of a numeric loop on the slots from `a` on:
/// the step is added to the index; then, for a step that is not negative,
/// an index up to the limit, and for a negative step an index down to the
/// limit, is copied to the loop's variable and the state becomes `body`;
/// otherwise the state becomes `next`. `zero` is where the pool holds 0.
pub open spec fn for_loop_arm(a: Reg, s: Reg, zero: u32, body: u32, next: u32) -> Seq<Instr> {
    seq![
        Instr::BinOp(a, RegKst::R(a), BinOp::Add, RegKst::R(up(a, 2))),
        Instr::BinCondOp(true, RegKst::R(up(a, 2)), BinCondOp::Lt, pool_operand(zero)),
        Instr::Jump(s, 7),
        Instr::BinCondOp(false, RegKst::R(a), BinCondOp::Le, RegKst::R(up(a, 1))),
        Instr::Jump(s, 3),
        Instr::Move(up(a, 3), a),
        load_state(s, body),
        Instr::Jump(s, 8),
        load_state(s, next),
        Instr::Jump(s, 7),
        Instr::BinCondOp(false, RegKst::R(up(a, 1)), BinCondOp::Le, RegKst::R(a)),
        Instr::Jump(s, 3),
        Instr::Move(up(a, 3), a),
        load_state(s, body),
        Instr::Jump(s, 1),
        load_state(s, next),
    ]
}

/// The call of the iterator of a generic loop on the slots from `a` on:
/// a table is made at the scratch slot `t`, the iterator and its two
/// arguments are copied to the three slots above `t` and called, and what
/// the call returns is stored in the table.
pub open spec fn generic_call(a: Reg, s: Reg, t: Reg) -> Seq<Instr> {
    seq![
        Instr::NewTable(t, s, s),
        Instr::Move(up(t, 1), a),
        Instr::Move(up(t, 2), up(a, 1)),
        Instr::Move(up(t, 3), up(a, 2)),
        Instr::Call(up(t, 1), 3, 0),
        Instr::SetList(t, 0, 1),
    ]
}

/// The `idx`-th value that the iterator returned is taken from the table
/// at `t` to the slot `idx` above the loop's control slots; `k` is where
/// the pool holds the number `idx`.
pub open spec fn generic_fetch(a: Reg, t: Reg, idx: int, k: u32) -> Seq<Instr> {
    seq![
        Instr::LoadK(up(t, 5), Kst(k)),
        Instr::GetTable(up(t, 4), t, RegKst::R(up(t, 5))),
        Instr::Move(up(a, 2 + idx), up(t, 4)),
    ]
}

/// The test that ends a turn of a generic loop: where the first value is
/// not nil it becomes the control value and the state becomes `body`,
/// otherwise the state becomes `after`. `nil` is where the pool holds nil.
pub open spec fn generic_test(a: Reg, s: Reg, t: Reg, nil: u32, body: u32, after: u32) -> Seq<
    Instr,
> {
    seq![
        Instr::LoadK(up(t, 4), Kst(nil)),
        Instr::BinCondOp(true, RegKst::R(up(a, 3)), BinCondOp::Eq, RegKst::R(up(t, 4))),
        Instr::Jump(s, 3),
        Instr::Move(up(a, 2), up(a, 3)),
        load_state(s, body),
        Instr::Jump(s, 1),
        load_state(s, after),
    ]
}

/// What follows a conditional: the state becomes `taken` or `fall`.
pub open spec fn branch_tail(s: Reg, taken: u32, fall: u32) -> Seq<Instr> {
    seq![Instr::Jump(s, 2), load_state(s, taken), Instr::Jump(s, 1), load_state(s, fall)]
}

/// Instructions with the pool that holds their constants.
pub struct Emitted {
    pub body: Seq<Instr>,
    pub pool: Seq<ConstantsView>,
}

/// The instructions that take the first `n` values that the iterator
/// returned, with the pool after the numbers from 1 to `n` were asked for
/// in turn.
pub open spec fn generic_fetches(a: Reg, t: Reg, n: nat, pool: Seq<ConstantsView>) -> Result<
    Emitted,
    Error,
>
    decreases n,
{
    if n == 0 {
        Ok(Emitted { body: Seq::empty(), pool })
    } else {
        match generic_fetches(a, t, (n - 1) as nat, pool) {
            Err(e) => Err(e),
            Ok(before) => match intern_number(before.pool, n as int) {
                Err(e) => Err(e),
                Ok(k) => Ok(
                    Emitted {
                        body: before.body + generic_fetch(a, t, n as int, k.index),
                        pool: k.pool,
                    },
                ),
            },
        }
    }
}

/// What the flattener knows of the function that it rewrites: the code,
/// with its stack slots moved already; the blocks of that code; the slot
/// of the state; and the first of the scratch slots, where the function
/// has a generic loop.
pub struct Frame {
    pub code: Seq<Instruction>,
    pub blocks: Seq<Seq<usize>>,
    pub state: Reg,
    pub scratch: Option<Reg>,
}

/// How far the rewriting of a block has come: the instructions so far,
/// the pool, the label of the block that comes next, whether the state is
/// still to be set to that label at the end, and whether the block after
/// this one was taken in.
pub struct Walk {
    pub body: Seq<Instr>,
    pub pool: Seq<ConstantsView>,
    pub target: int,
    pub add_target: bool,
    pub skip: bool,
}

/// The block to which the jump at `pc`, in the block `current`, leads by
/// its offset `b`; none where no block starts at the place to which it
/// leads.
pub open spec fn led_to(fr: Frame, pc: int, b: i32, current: int) -> Option<usize> {
    if b >= i32::MAX {
        None
    } else {
        match jump_block(fr.blocks, pc, b + 1, current) {
            Ok(found) => found,
            Err(_) => None,
        }
    }
}

/// A jump with its place.
pub struct PairedJump {
    pub pc: int,
    pub offset: i32,
}

/// The jump with which the block after the block `i` starts.
pub open spec fn paired_jump(fr: Frame, i: int) -> Option<PairedJump> {
    if 0 <= i && i + 1 < fr.blocks.len() && fr.blocks[i + 1].len() > 0 && fr.blocks[i + 1][0]
        < fr.code.len() {
        let pc = fr.blocks[i + 1][0] as int;
        match fr.code[pc].1 {
            Instr::Jump(_, b) => Some(PairedJump { pc, offset: b }),
            _ => None,
        }
    } else {
        None
    }
}

/// The end of a numeric loop, at `pc` in block `i`, rewritten onto `w`.
pub open spec fn step_for_loop(fr: Frame, i: int, pc: int, a: Reg, b: i32, w: Walk) -> Result<
    Walk,
    Error,
> {
    match led_to(fr, pc, b, i) {
        None => Err(Error::MalformedCFG),
        Some(t) => if a.0 > 252 {
            Err(Error::ResourceExhausted)
        } else {
            match intern_number(w.pool, 0) {
                Err(e) => Err(e),
                Ok(zero) => if zero.index > 255 {
                    Err(Error::ResourceExhausted)
                } else {
                    match intern_number(zero.pool, t as int) {
                        Err(e) => Err(e),
                        Ok(body) => match intern_number(body.pool, i + 1) {
                            Err(e) => Err(e),
                            Ok(next) => Ok(
                                Walk {
                                    body: w.body + for_loop_arm(
                                        a,
                                        fr.state,
                                        zero.index,
                                        body.index,
                                        next.index,
                                    ),
                                    pool: next.pool,
                                    target: w.target,
                                    add_target: false,
                                    skip: w.skip,
                                },
                            ),
                        },
                    }
                },
            }
        },
    }
}

/// A turn of a generic loop, in block `i`, rewritten onto `w`. The block
/// after `i` must start with the jump back into the loop, and is taken in.
pub open spec fn step_generic(fr: Frame, i: int, a: Reg, c: u16, w: Walk) -> Result<Walk, Error> {
    match paired_jump(fr, i) {
        None => Err(Error::MalformedCFG),
        Some(pj) => match led_to(fr, pj.pc, pj.offset, i + 1) {
            None => Err(Error::MalformedCFG),
            Some(inner) => match fr.scratch {
                None => Err(Error::InternalInvariant),
                Some(t) => if a.0 + 2 + c > 255 || a.0 + 3 > 255 || t.0 + 5 > 255 {
                    Err(Error::ResourceExhausted)
                } else {
                    match generic_fetches(a, t, c as nat, w.pool) {
                        Err(e) => Err(e),
                        Ok(f) => match intern_value(f.pool, ConstantsView::Nil) {
                            Err(e) => Err(e),
                            Ok(nil) => match intern_number(nil.pool, inner as int) {
                                Err(e) => Err(e),
                                Ok(body) => match intern_number(body.pool, i + 2) {
                                    Err(e) => Err(e),
                                    Ok(after) => Ok(
                                        Walk {
                                            body: w.body + generic_call(a, fr.state, t) + f.body
                                                + generic_test(
                                                a,
                                                fr.state,
                                                t,
                                                nil.index,
                                                body.index,
                                                after.index,
                                            ),
                                            pool: after.pool,
                                            target: w.target,
                                            add_target: false,
                                            skip: true,
                                        },
                                    ),
                                },
                            },
                        },
                    }
                },
            },
        },
    }
}

/// The conditional `instr`, in block `i`, rewritten onto `w`. The block
/// after `i` must start with the jump that the conditional skips, and is
/// taken in.
pub open spec fn step_conditional(fr: Frame, i: int, instr: Instr, w: Walk) -> Result<Walk, Error> {
    match paired_jump(fr, i) {
        None => Err(Error::MalformedCFG),
        Some(pj) => match led_to(fr, pj.pc, pj.offset, i + 1) {
            None => Err(Error::MalformedCFG),
            Some(taken) => match intern_number(w.pool, taken as int) {
                Err(e) => Err(e),
                Ok(tk) => match intern_number(tk.pool, i + 2) {
                    Err(e) => Err(e),
                    Ok(fl) => Ok(
                        Walk {
                            body: w.body.push(instr) + branch_tail(fr.state, tk.index, fl.index),
                            pool: fl.pool,
                            target: w.target,
                            add_target: false,
                            skip: true,
                        },
                    ),
                },
            },
        },
    }
}

/// The instruction at `pc`, in block `i`, rewritten onto `w`: a jump sets
/// the block that comes next; the start of a numeric loop takes the step
/// from the index and sets the block that comes next; the end of a numeric
/// loop, a turn of a generic loop and a conditional are spelled out in
/// instructions that set the state; the placeholder is refused; any other
/// instruction is kept.
pub open spec fn step(fr: Frame, i: int, pc: int, w: Walk) -> Result<Walk, Error> {
    if !(0 <= pc < fr.code.len()) {
        Err(Error::InternalInvariant)
    } else {
        let instr = fr.code[pc].1;
        match instr {
            Instr::NOP => Err(Error::FormatError),
            Instr::Jump(_, b) => match led_to(fr, pc, b, i) {
                None => Err(Error::MalformedCFG),
                Some(t) => Ok(Walk { target: t as int, ..w }),
            },
            Instr::ForPrep(a, b) => match led_to(fr, pc, b, i) {
                None => Err(Error::MalformedCFG),
                Some(t) => if a.0 > 253 {
                    Err(Error::ResourceExhausted)
                } else {
                    Ok(
                        Walk {
                            body: w.body.push(
                                Instr::BinOp(a, RegKst::R(a), BinOp::Sub, RegKst::R(up(a, 2))),
                            ),
                            target: t as int,
                            ..w
                        },
                    )
                },
            },
            Instr::ForLoop(a, b) => step_for_loop(fr, i, pc, a, b, w),
            Instr::TForLoop(a, c) => step_generic(fr, i, a, c, w),
            Instr::BinCondOp(..) | Instr::Test(..) | Instr::TestSet(..) => step_conditional(
                fr,
                i,
                instr,
                w,
            ),
            _ => Ok(Walk { body: w.body.push(instr), ..w }),
        }
    }
}

/// The rewriting of block `i`, started on the pool `pool`.
pub open spec fn start(i: int, pool: Seq<ConstantsView>) -> Walk {
    Walk { body: Seq::empty(), pool, target: i + 1, add_target: true, skip: false }
}

/// The first `n` instructions of block `i` rewritten, from the pool `pool`.
pub open spec fn walked(fr: Frame, i: int, n: nat, pool: Seq<ConstantsView>) -> Result<Walk, Error>
    decreases n,
{
    if n == 0 {
        Ok(start(i, pool))
    } else {
        match walked(fr, i, (n - 1) as nat, pool) {
            Err(e) => Err(e),
            Ok(w) => step(fr, i, fr.blocks[i][n - 1] as int, w),
        }
    }
}

/// The arm of block `i`: its instructions rewritten, and the state set to
/// the label of the block that comes next, unless the instructions set it
/// themselves.
pub open spec fn arm(fr: Frame, i: int, pool: Seq<ConstantsView>) -> Result<Walk, Error> {
    match walked(fr, i, fr.blocks[i].len() as nat, pool) {
        Err(e) => Err(e),
        Ok(w) => if w.add_target {
            match intern_number(w.pool, w.target) {
                Err(e) => Err(e),
                Ok(k) => Ok(
                    Walk { body: w.body.push(load_state(fr.state, k.index)), pool: k.pool, ..w },
                ),
            }
        } else {
            Ok(w)
        },
    }
}

/// The arms of a function: each with the label of its block.
pub struct Arms {
    pub labels: Seq<usize>,
    pub bodies: Seq<Seq<Instr>>,
    pub pool: Seq<ConstantsView>,
    pub skip: bool,
}

/// The arms of the first `n` blocks, from the pool `pool`. A block that
/// the one before it took in has no arm.
pub open spec fn arms(fr: Frame, n: nat, pool: Seq<ConstantsView>) -> Result<Arms, Error>
    decreases n,
{
    if n == 0 {
        Ok(Arms { labels: Seq::empty(), bodies: Seq::empty(), pool, skip: false })
    } else {
        match arms(fr, (n - 1) as nat, pool) {
            Err(e) => Err(e),
            Ok(before) => if before.skip {
                Ok(Arms { skip: false, ..before })
            } else {
                match arm(fr, n - 1, before.pool) {
                    Err(e) => Err(e),
                    Ok(w) => Ok(
                        Arms {
                            labels: before.labels.push((n - 1) as usize),
                            bodies: before.bodies.push(w.body),
                            pool: w.pool,
                            skip: w.skip,
                        },
                    ),
                }
            },
        }
    }
}

struct Plan<'a> {
    code: &'a Vec<Instruction>,
    blocks: &'a Vec<Block>,
    state: Reg,
    scratch: Option<Reg>,
}

impl<'a> View for Plan<'a> {
    type V = Frame;

    closed spec fn view(&self) -> Frame {
        Frame {
            code: self.code@,
            blocks: block_codes(self.blocks@),
            state: self.state,
            scratch: self.scratch,
        }
    }
}

struct Progress {
    body: Vec<Instr>,
    target: usize,
    add_target: bool,
    skip: bool,
}

impl Progress {
    closed spec fn on(&self, pool: Seq<ConstantsView>) -> Walk {
        Walk {
            body: self.body@,
            pool,
            target: self.target as int,
            add_target: self.add_target,
            skip: self.skip,
        }
    }
}

fn extend(body: &mut Vec<Instr>, more: &Vec<Instr>)
    ensures
        final(body)@ == old(body)@ + more@,
{
    let mut i: usize = 0;
    assert(body@ =~= old(body)@ + more@.subrange(0, 0));
    while i < more.len()
        invariant
            i <= more.len(),
            body@ == old(body)@ + more@.subrange(0, i as int),
        decreases more.len() - i,
    {
        body.push(more[i]);
        assert(body@ =~= old(body)@ + more@.subrange(0, i + 1));
        i += 1;
    }
    assert(more@.subrange(0, more.len() as int) =~= more@);
}

fn raised(a: Reg, n: u8) -> (r: Reg)
    requires
        a.0 + n <= 255,
    ensures
        r == up(a, n as int),
{
    Reg(a.0 + n)
}

fn operand_of(k: u32) -> (r: RegKst)
    requires
        k <= 255,
    ensures
        r == pool_operand(k),
{
    RegKst::K(Kst(k + 0x100))
}

fn emit_for_loop(a: Reg, s: Reg, zero: u32, body: u32, next: u32) -> (r: Vec<Instr>)
    requires
        a.0 <= 252,
        zero <= 255,
    ensures
        r@ == for_loop_arm(a, s, zero, body, next),
{
    let limit = raised(a, 1);
    let pace = raised(a, 2);
    let var = raised(a, 3);
    let mut v: Vec<Instr> = Vec::new();
    v.push(Instr::BinOp(a, RegKst::R(a), BinOp::Add, RegKst::R(pace)));
    v.push(Instr::BinCondOp(true, RegKst::R(pace), BinCondOp::Lt, operand_of(zero)));
    v.push(Instr::Jump(s, 7));
    v.push(Instr::BinCondOp(false, RegKst::R(a), BinCondOp::Le, RegKst::R(limit)));
    v.push(Instr::Jump(s, 3));
    v.push(Instr::Move(var, a));
    v.push(Instr::LoadK(s, Kst(body)));
    v.push(Instr::Jump(s, 8));
    v.push(Instr::LoadK(s, Kst(next)));
    v.push(Instr::Jump(s, 7));
    v.push(Instr::BinCondOp(false, RegKst::R(limit), BinCondOp::Le, RegKst::R(a)));
    v.push(Instr::Jump(s, 3));
    v.push(Instr::Move(var, a));
    v.push(Instr::LoadK(s, Kst(body)));
    v.push(Instr::Jump(s, 1));
    v.push(Instr::LoadK(s, Kst(next)));
    assert(v@ =~= for_loop_arm(a, s, zero, body, next));
    v
}

fn emit_generic_call(a: Reg, s: Reg, t: Reg) -> (r: Vec<Instr>)
    requires
        a.0 <= 253,
        t.0 <= 252,
    ensures
        r@ == generic_call(a, s, t),
{
    let mut v: Vec<Instr> = Vec::new();
    v.push(Instr::NewTable(t, s, s));
    v.push(Instr::Move(raised(t, 1), a));
    v.push(Instr::Move(raised(t, 2), raised(a, 1)));
    v.push(Instr::Move(raised(t, 3), raised(a, 2)));
    v.push(Instr::Call(raised(t, 1), 3, 0));
    v.push(Instr::SetList(t, 0, 1));
    assert(v@ =~= generic_call(a, s, t));
    v
}

fn emit_generic_fetch(a: Reg, t: Reg, idx: u16, k: u32) -> (r: Vec<Instr>)
    requires
        a.0 + 2 + idx <= 255,
        t.0 <= 250,
    ensures
        r@ == generic_fetch(a, t, idx as int, k),
{
    let mut v: Vec<Instr> = Vec::new();
    v.push(Instr::LoadK(raised(t, 5), Kst(k)));
    v.push(Instr::GetTable(raised(t, 4), t, RegKst::R(raised(t, 5))));
    v.push(Instr::Move(raised(a, 2 + idx as u8), raised(t, 4)));
    assert(v@ =~= generic_fetch(a, t, idx as int, k));
    v
}

fn emit_generic_test(a: Reg, s: Reg, t: Reg, nil: u32, body: u32, after: u32) -> (r: Vec<Instr>)
    requires
        a.0 <= 252,
        t.0 <= 250,
    ensures
        r@ == generic_test(a, s, t, nil, body, after),
{
    let mut v: Vec<Instr> = Vec::new();
    v.push(Instr::LoadK(raised(t, 4), Kst(nil)));
    v.push(
        Instr::BinCondOp(
            true,
            RegKst::R(raised(a, 3)),
            BinCondOp::Eq,
            RegKst::R(raised(t, 4)),
        ),
    );
    v.push(Instr::Jump(s, 3));
    v.push(Instr::Move(raised(a, 2), raised(a, 3)));
    v.push(Instr::LoadK(s, Kst(body)));
    v.push(Instr::Jump(s, 1));
    v.push(Instr::LoadK(s, Kst(after)));
    assert(v@ =~= generic_test(a, s, t, nil, body, after));
    v
}

fn emit_branch_tail(s: Reg, taken: u32, fall: u32) -> (r: Vec<Instr>)
    ensures
        r@ == branch_tail(s, taken, fall),
{
    let mut v: Vec<Instr> = Vec::new();
    v.push(Instr::Jump(s, 2));
    v.push(Instr::LoadK(s, Kst(taken)));
    v.push(Instr::Jump(s, 1));
    v.push(Instr::LoadK(s, Kst(fall)));
    assert(v@ =~= branch_tail(s, taken, fall));
    v
}

fn lead(plan: &Plan, pc: usize, b: i32, current: usize) -> (r: Option<usize>)
    ensures
        r == led_to(plan@, pc as int, b, current as int),
{
    if b >= 0x7fff_ffff {
        None
    } else {
        match get_block_from_jump(plan.blocks, pc, b + 1, current) {
            Ok(found) => found,
            Err(_) => None,
        }
    }
}

fn peek_jump(plan: &Plan, i: usize) -> (r: Option<(usize, i32)>)
    ensures
        match paired_jump(plan@, i as int) {
            Some(pj) => r == Some((pj.pc as usize, pj.offset)) && pj.pc < plan@.code.len(),
            None => r is None,
        },
{
    if i < plan.blocks.len() && i + 1 < plan.blocks.len() {
        let next = &plan.blocks[i + 1];
        if next.code.len() > 0 {
            let pc = next.code[0];
            if pc < plan.code.len() {
                if let Instr::Jump(_, b) = plan.code[pc].1 {
                    return Some((pc, b));
                }
            }
        }
    }
    None
}

/// What a rewriting step leaves: the progress `want`, on a context of
/// which only the pool has changed; or the error `want`.
spec fn stepped(
    want: Result<Walk, Error>,
    r: Result<(), Error>,
    pr: Progress,
    after: Context,
    before: Context,
) -> bool {
    match want {
        Ok(w) => r is Ok && pr.on(after.pool()) == w && only_pool_changed(after, before, w.pool),
        Err(e) => r == Err::<(), Error>(e),
    }
}

fn step_for_loop_exec(
    plan: &Plan,
    ctx: &mut Context,
    i: usize,
    pc: usize,
    a: Reg,
    b: i32,
    pr: &mut Progress,
) -> (r: Result<(), Error>)
    requires
        old(ctx).wf(),
    ensures
        stepped(
            step_for_loop(plan@, i as int, pc as int, a, b, old(pr).on(old(ctx).pool())),
            r,
            *final(pr),
            *final(ctx),
            *old(ctx),
        ),
{
    let t = match lead(plan, pc, b, i) {
        Some(t) => t,
        None => {
            return Err(Error::MalformedCFG);
        },
    };
    if a.0 > 252 {
        return Err(Error::ResourceExhausted);
    }
    let zero = intern_int(ctx, 0)?;
    if zero > 255 {
        return Err(Error::ResourceExhausted);
    }
    let body = intern_label(ctx, t)?;
    if i >= usize::MAX {
        return Err(Error::ResourceExhausted);
    }
    let next = intern_label(ctx, i + 1)?;
    let more = emit_for_loop(a, plan.state, zero, body, next);
    extend(&mut pr.body, &more);
    pr.add_target = false;
    Ok(())
}

fn fetches_exec(a: Reg, t: Reg, c: u16, ctx: &mut Context) -> (r: Result<Vec<Instr>, Error>)
    requires
        old(ctx).wf(),
        a.0 + 2 + c <= 255,
        t.0 <= 250,
    ensures
        match generic_fetches(a, t, c as nat, old(ctx).pool()) {
            Ok(f) => r is Ok && r->Ok_0@ == f.body && only_pool_changed(
                *final(ctx),
                *old(ctx),
                f.pool,
            ),
            Err(e) => r == Err::<Vec<Instr>, Error>(e),
        },
{
    let mut v: Vec<Instr> = Vec::new();
    let mut idx: u16 = 0;
    while idx < c
        invariant
            idx <= c,
            a.0 + 2 + c <= 255,
            t.0 <= 250,
            ctx.wf(),
            generic_fetches(a, t, idx as nat, old(ctx).pool()) matches Ok(f) && v@ == f.body
                && only_pool_changed(*ctx, *old(ctx), f.pool),
        decreases c - idx,
    {
        idx += 1;
        let k = match intern_int(ctx, idx as i32) {
            Ok(k) => k,
            Err(e) => {
                proof {
                    lemma_fetches_fail(a, t, idx as nat, c as nat, old(ctx).pool());
                }
                return Err(e);
            },
        };
        let more = emit_generic_fetch(a, t, idx, k);
        extend(&mut v, &more);
    }
    Ok(v)
}

/// Where the values up to the `n`-th cannot be taken, no more can.
proof fn lemma_fetches_fail(a: Reg, t: Reg, n: nat, c: nat, pool: Seq<ConstantsView>)
    requires
        n <= c,
        generic_fetches(a, t, n, pool) is Err,
    ensures
        generic_fetches(a, t, c, pool) == generic_fetches(a, t, n, pool),
    decreases c,
{
    if n < c {
        lemma_fetches_fail(a, t, n, (c - 1) as nat, pool);
    }
}

fn step_generic_exec(plan: &Plan, ctx: &mut Context, i: usize, a: Reg, c: u16, pr: &mut Progress) -> (r:
    Result<(), Error>)
    requires
        old(ctx).wf(),
        i < plan@.blocks.len(),
    ensures
        stepped(
            step_generic(plan@, i as int, a, c, old(pr).on(old(ctx).pool())),
            r,
            *final(pr),
            *final(ctx),
            *old(ctx),
        ),
{
    let (jump_pc, offset) = match peek_jump(plan, i) {
        Some(found) => found,
        None => {
            return Err(Error::MalformedCFG);
        },
    };
    assert(i < plan.blocks.len());
    let inner = match lead(plan, jump_pc, offset, i + 1) {
        Some(inner) => inner,
        None => {
            return Err(Error::MalformedCFG);
        },
    };
    let t = match plan.scratch {
        Some(t) => t,
        None => {
            return Err(Error::InternalInvariant);
        },
    };
    if a.0 as u32 + 2 + c as u32 > 255 || a.0 > 252 || t.0 > 250 {
        return Err(Error::ResourceExhausted);
    }
    let fetched = fetches_exec(a, t, c, ctx)?;
    let nil = intern_constant(ctx, Constants::Nil)?;
    let body = intern_label(ctx, inner)?;
    if i >= usize::MAX - 1 {
        return Err(Error::ResourceExhausted);
    }
    let after = intern_label(ctx, i + 2)?;
    let call = emit_generic_call(a, plan.state, t);
    let test = emit_generic_test(a, plan.state, t, nil, body, after);
    extend(&mut pr.body, &call);
    extend(&mut pr.body, &fetched);
    extend(&mut pr.body, &test);
    pr.add_target = false;
    pr.skip = true;
    Ok(())
}

fn step_conditional_exec(
    plan: &Plan,
    ctx: &mut Context,
    i: usize,
    instr: Instr,
    pr: &mut Progress,
) -> (r: Result<(), Error>)
    requires
        old(ctx).wf(),
        i < plan@.blocks.len(),
    ensures
        stepped(
            step_conditional(plan@, i as int, instr, old(pr).on(old(ctx).pool())),
            r,
            *final(pr),
            *final(ctx),
            *old(ctx),
        ),
{
    let (jump_pc, offset) = match peek_jump(plan, i) {
        Some(found) => found,
        None => {
            return Err(Error::MalformedCFG);
        },
    };
    assert(i < plan.blocks.len());
    let taken = match lead(plan, jump_pc, offset, i + 1) {
        Some(taken) => taken,
        None => {
            return Err(Error::MalformedCFG);
        },
    };
    let tk = intern_label(ctx, taken)?;
    if i >= usize::MAX - 1 {
        return Err(Error::ResourceExhausted);
    }
    let fl = intern_label(ctx, i + 2)?;
    pr.body.push(instr);
    let tail = emit_branch_tail(plan.state, tk, fl);
    extend(&mut pr.body, &tail);
    pr.add_target = false;
    pr.skip = true;
    Ok(())
}

fn step_exec(plan: &Plan, ctx: &mut Context, i: usize, pc: usize, pr: &mut Progress) -> (r: Result<
    (),
    Error,
>)
    requires
        old(ctx).wf(),
        i < plan@.blocks.len(),
    ensures
        stepped(
            step(plan@, i as int, pc as int, old(pr).on(old(ctx).pool())),
            r,
            *final(pr),
            *final(ctx),
            *old(ctx),
        ),
{
    if pc >= plan.code.len() {
        return Err(Error::InternalInvariant);
    }
    let instr = plan.code[pc].1;
    match instr {
        Instr::NOP => Err(Error::FormatError),
        Instr::Jump(_, b) => {
            match lead(plan, pc, b, i) {
                Some(t) => {
                    pr.target = t;
                    Ok(())
                },
                None => Err(Error::MalformedCFG),
            }
        },
        Instr::ForPrep(a, b) => {
            match lead(plan, pc, b, i) {
                Some(t) => {
                    if a.0 > 253 {
                        return Err(Error::ResourceExhausted);
                    }
                    pr.body.push(
                        Instr::BinOp(a, RegKst::R(a), BinOp::Sub, RegKst::R(raised(a, 2))),
                    );
                    pr.target = t;
                    Ok(())
                },
                None => Err(Error::MalformedCFG),
            }
        },
        Instr::ForLoop(a, b) => step_for_loop_exec(plan, ctx, i, pc, a, b, pr),
        Instr::TForLoop(a, c) => step_generic_exec(plan, ctx, i, a, c, pr),
        Instr::BinCondOp(..) | Instr::Test(..) | Instr::TestSet(..) => step_conditional_exec(
            plan,
            ctx,
            i,
            instr,
            pr,
        ),
        _ => {
            pr.body.push(instr);
            Ok(())
        },
    }
}

/// Where the first `n` instructions of a block cannot be rewritten, no
/// more can.
proof fn lemma_walked_fail(fr: Frame, i: int, n: nat, m: nat, pool: Seq<ConstantsView>)
    requires
        n <= m,
        walked(fr, i, n, pool) is Err,
    ensures
        walked(fr, i, m, pool) == walked(fr, i, n, pool),
    decreases m,
{
    if n < m {
        lemma_walked_fail(fr, i, n, (m - 1) as nat, pool);
    }
}

/// The instructions of an arm with what is known of the block after it.
struct Arm {
    body: Vec<Instr>,
    skip: bool,
}

fn arm_exec(plan: &Plan, ctx: &mut Context, i: usize) -> (r: Result<Arm, Error>)
    requires
        old(ctx).wf(),
        i < plan@.blocks.len(),
    ensures
        match arm(plan@, i as int, old(ctx).pool()) {
            Ok(w) => r is Ok && r->Ok_0.body@ == w.body && r->Ok_0.skip == w.skip
                && only_pool_changed(*final(ctx), *old(ctx), w.pool),
            Err(e) => r == Err::<Arm, Error>(e),
        },
{
    assert(i < plan.blocks.len());
    let block = &plan.blocks[i];
    let mut pr = Progress { body: Vec::new(), target: i + 1, add_target: true, skip: false };
    let ghost pool = ctx.pool();
    let mut n: usize = 0;
    while n < block.code.len()
        invariant
            n <= block.code.len(),
            i < plan@.blocks.len(),
            block.code@ == plan@.blocks[i as int],
            pool == old(ctx).pool(),
            ctx.wf(),
            walked(plan@, i as int, n as nat, pool) == Ok::<Walk, Error>(pr.on(ctx.pool())),
            only_pool_changed(*ctx, *old(ctx), ctx.pool()),
        decreases block.code.len() - n,
    {
        match step_exec(plan, ctx, i, block.code[n], &mut pr) {
            Ok(()) => {},
            Err(e) => {
                proof {
                    lemma_walked_fail(
                        plan@,
                        i as int,
                        (n + 1) as nat,
                        block.code.len() as nat,
                        pool,
                    );
                }
                return Err(e);
            },
        }
        n += 1;
    }
    if pr.add_target {
        let k = intern_label(ctx, pr.target)?;
        pr.body.push(Instr::LoadK(plan.state, Kst(k)));
    }
    Ok(Arm { body: pr.body, skip: pr.skip })
}

/// The instructions of each arm.
pub open spec fn bodies_of(v: Seq<Vec<Instr>>) -> Seq<Seq<Instr>> {
    Seq::new(v.len(), |j: int| v[j]@)
}

/// Where the arms of the first `n` blocks cannot be made, no more can.
proof fn lemma_arms_fail(fr: Frame, n: nat, m: nat, pool: Seq<ConstantsView>)
    requires
        n <= m,
        arms(fr, n, pool) is Err,
    ensures
        arms(fr, m, pool) == arms(fr, n, pool),
    decreases m,
{
    if n < m {
        lemma_arms_fail(fr, n, (m - 1) as nat, pool);
    }
}

/// The arms as the flattener holds them: the label of each and its
/// instructions.
struct Bodies {
    labels: Vec<usize>,
    bodies: Vec<Vec<Instr>>,
}

fn arms_exec(plan: &Plan, ctx: &mut Context) -> (r: Result<Bodies, Error>)
    requires
        old(ctx).wf(),
    ensures
        match arms(plan@, plan@.blocks.len() as nat, old(ctx).pool()) {
            Ok(a) => r is Ok && r->Ok_0.labels@ == a.labels && bodies_of(r->Ok_0.bodies@)
                == a.bodies && only_pool_changed(*final(ctx), *old(ctx), a.pool),
            Err(e) => r == Err::<Bodies, Error>(e),
        },
{
    let mut labels: Vec<usize> = Vec::new();
    let mut bodies: Vec<Vec<Instr>> = Vec::new();
    let mut skip = false;
    let ghost pool = ctx.pool();
    let mut i: usize = 0;
    assert(bodies_of(bodies@) =~= Seq::<Seq<Instr>>::empty());
    while i < plan.blocks.len()
        invariant
            i <= plan.blocks.len(),
            plan.blocks.len() == plan@.blocks.len(),
            pool == old(ctx).pool(),
            ctx.wf(),
            arms(plan@, i as nat, pool) == Ok::<Arms, Error>(
                Arms { labels: labels@, bodies: bodies_of(bodies@), pool: ctx.pool(), skip },
            ),
            only_pool_changed(*ctx, *old(ctx), ctx.pool()),
        decreases plan.blocks.len() - i,
    {
        if skip {
            skip = false;
        } else {
            let ghost before = bodies_of(bodies@);
            match arm_exec(plan, ctx, i) {
                Ok(found) => {
                    labels.push(i);
                    skip = found.skip;
                    bodies.push(found.body);
                    assert(bodies_of(bodies@) =~= before.push(found.body@));
                },
                Err(e) => {
                    proof {
                        lemma_arms_fail(plan@, (i + 1) as nat, plan.blocks.len() as nat, pool);
                    }
                    return Err(e);
                },
            }
        }
        i += 1;
    }
    Ok(Bodies { labels, bodies })
}

/// The arm of the dispatcher for one block: the test of the state against
/// the label of the block, whose number the pool holds at `k`; a jump by
/// one more than the count of the instructions of the block; and these
/// instructions.
pub open spec fn arm_entry(s: Reg, k: u32, body: Seq<Instr>) -> Seq<Instr> {
    seq![
        Instr::BinCondOp(false, RegKst::R(s), BinCondOp::Eq, pool_operand(k)),
        Instr::Jump(s, (body.len() + 1) as i32),
    ] + body
}

/// The first `n` arms of the dispatcher, one after the other, with the
/// pool after the number of each label was asked for in turn. There is no
/// room where a label's number lies beyond what an operand can name, or an
/// arm is longer than a jump can reach.
pub open spec fn dispatched(
    s: Reg,
    labels: Seq<usize>,
    bodies: Seq<Seq<Instr>>,
    n: nat,
    pool: Seq<ConstantsView>,
) -> Result<Emitted, Error>
    decreases n,
{
    if n == 0 {
        Ok(Emitted { body: Seq::empty(), pool })
    } else {
        match dispatched(s, labels, bodies, (n - 1) as nat, pool) {
            Err(e) => Err(e),
            Ok(before) => match intern_number(before.pool, labels[n - 1] as int) {
                Err(e) => Err(e),
                Ok(k) => if k.index > 255 || bodies[n - 1].len() + 1 > MAX_OFFSET {
                    Err(Error::ResourceExhausted)
                } else {
                    Ok(
                        Emitted {
                            body: before.body + arm_entry(s, k.index, bodies[n - 1]),
                            pool: k.pool,
                        },
                    )
                },
            },
        }
    }
}

/// The last arm of the dispatcher: where the state is the label after the
/// last block, whose number the pool holds at `end`, it becomes -1, which
/// the pool holds at `done`.
pub open spec fn last_arm(s: Reg, end: u32, done: u32) -> Seq<Instr> {
    seq![
        Instr::BinCondOp(false, RegKst::R(s), BinCondOp::Eq, pool_operand(end)),
        Instr::Jump(s, 1),
        load_state(s, done),
    ]
}

/// The instructions `d` as a context holds them, each with the opcode and
/// the packed fields of its operands, without their numbers.
pub open spec fn packed(d: Seq<Instr>) -> Seq<Instruction> {
    Seq::new(d.len(), |j: int| placed(d[j], 0))
}

/// The flattened code around the dispatcher `d`: the state is set to the
/// first label, whose number 0 the pool holds at `entry`; while it is not
/// negative the dispatcher runs; then the function returns. The
/// instructions stand without their numbers.
pub open spec fn finished(s: Reg, d: Seq<Instr>, entry: u32) -> Seq<Instruction> {
    let m = d.len();
    seq![
        placed(load_state(s, entry), 0),
        placed(Instr::BinCondOp(false, pool_operand(entry), BinCondOp::Le, RegKst::R(s)), 0),
        placed(Instr::Jump(s, (m + 1) as i32), 0),
    ] + packed(d) + seq![
        placed(Instr::Jump(s, (-(m + 3)) as i32), 0),
        placed(Instr::Return(s, 1), 0),
    ]
}

/// Code with the pool that holds its constants.
pub struct Finished {
    pub code: Seq<Instruction>,
    pub pool: Seq<ConstantsView>,
}

/// The flattened code of a function of `total` blocks around its
/// dispatcher `d`. The numbers of the label after the last block, of -1
/// and of 0 are asked of the pool in this order. There is no room where
/// the first or the last of these numbers lies beyond what an operand can
/// name, or the dispatcher is longer than a jump can reach.
pub open spec fn wrapped(s: Reg, d: Seq<Instr>, total: int, pool: Seq<ConstantsView>) -> Result<
    Finished,
    Error,
> {
    match intern_number(pool, total) {
        Err(e) => Err(e),
        Ok(end) => match intern_number(end.pool, -1) {
            Err(e) => Err(e),
            Ok(done) => match intern_number(done.pool, 0) {
                Err(e) => Err(e),
                Ok(entry) => {
                    let all = d + last_arm(s, end.index, done.index);
                    if end.index > 255 || entry.index > 255 || all.len() + 3 > -MIN_OFFSET {
                        Err(Error::ResourceExhausted)
                    } else {
                        Ok(Finished { code: finished(s, all, entry.index), pool: entry.pool })
                    }
                },
            },
        },
    }
}

/// The flattened code of a function of `total` blocks from its arms: the
/// arms laid out in a dispatcher, and the loop around it.
pub open spec fn finalized(
    s: Reg,
    labels: Seq<usize>,
    bodies: Seq<Seq<Instr>>,
    total: int,
    pool: Seq<ConstantsView>,
) -> Result<Finished, Error> {
    match dispatched(s, labels, bodies, labels.len(), pool) {
        Err(e) => Err(e),
        Ok(d) => wrapped(s, d.body, total, d.pool),
    }
}

/// Where the first `n` arms cannot be laid out, no more can.
proof fn lemma_dispatched_fail(
    s: Reg,
    labels: Seq<usize>,
    bodies: Seq<Seq<Instr>>,
    n: nat,
    m: nat,
    pool: Seq<ConstantsView>,
)
    requires
        n <= m,
        dispatched(s, labels, bodies, n, pool) is Err,
    ensures
        dispatched(s, labels, bodies, m, pool) == dispatched(s, labels, bodies, n, pool),
    decreases m,
{
    if n < m {
        lemma_dispatched_fail(s, labels, bodies, n, (m - 1) as nat, pool);
    }
}

/// The code of `ctx` carries the numbers issued from `first` on, in its
/// order, and `ids` issues next the number after them.
pub open spec fn in_step(ctx: Context, ids: Ids, first: usize) -> bool {
    numbered_from(ctx.code(), first) && ids.next() == advanced(first, ctx.code().len())
}

/// The place in the order of their making of the instruction at `j` of
/// flattened code of `n` instructions: the arms are made first, in their
/// order; then the three instructions before them; then the two after
/// them.
pub open spec fn made_at(n: int, j: int) -> nat {
    if j < 3 {
        (n - 5 + j) as nat
    } else if j < n - 2 {
        (j - 3) as nat
    } else {
        j as nat
    }
}

/// The flattened code `code` carries the numbers issued from `first` on,
/// each instruction the number of its place in the order of their making.
pub open spec fn numbered_as_laid(code: Seq<Instruction>, first: usize) -> bool {
    code.len() >= 5 && forall|j: int|
        0 <= j < code.len() ==> (#[trigger] code[j]).3 == advanced(
            first,
            made_at(code.len() as int, j),
        )
}

/// The instructions of flattened code carry distinct numbers.
pub proof fn lemma_laid_distinct(code: Seq<Instruction>, first: usize, i: int, j: int)
    requires
        numbered_as_laid(code, first),
        0 <= i < j < code.len() <= usize::MAX + 1,
    ensures
        code[i].3 != code[j].3,
{
    let n = code.len() as int;
    let a = made_at(n, i);
    let b = made_at(n, j);
    if a < b {
        lemma_numbers_distinct(first, a, b);
    } else {
        lemma_numbers_distinct(first, b, a);
    }
}

/// The instructions of the flattened prototype `p` and of all that is
/// nested in it carry the numbers issued from `first` on in the order in
/// which the flattener makes them: the prototypes nested in a prototype
/// first, one after the other, then its own code.
pub open spec fn numbered_as_flattened(p: Proto, first: usize) -> bool
    decreases p,
{
    all_numbered_as_flattened(p.prototypes@, p.prototypes@.len(), first) && numbered_as_laid(
        p.instructions@,
        advanced(first, count_all(p.prototypes@, p.prototypes@.len())),
    )
}

/// The first `n` of the flattened prototypes `v` carry the numbers issued
/// from `first` on in the order in which the flattener makes them.
pub open spec fn all_numbered_as_flattened(v: Seq<Proto>, n: nat, first: usize) -> bool
    decreases v, n,
{
    if n == 0 || n > v.len() {
        true
    } else {
        all_numbered_as_flattened(v, (n - 1) as nat, first) && numbered_as_flattened(
            v[n - 1],
            advanced(first, count_all(v, (n - 1) as nat)),
        )
    }
}

/// What is said of the numbers of the first `n` prototypes of a list
/// holds of the first `n` of any list that starts with them.
pub proof fn lemma_first_flattened(a: Seq<Proto>, b: Seq<Proto>, n: nat, first: usize)
    requires
        n <= a.len(),
        n <= b.len(),
        forall|j: int| 0 <= j < n ==> a[j] == b[j],
    ensures
        all_numbered_as_flattened(a, n, first) == all_numbered_as_flattened(b, n, first),
    decreases n,
{
    if n > 0 {
        lemma_first_flattened(a, b, (n - 1) as nat, first);
        lemma_first_prototypes(a, b, (n - 1) as nat, first);
    }
}

/// Adds the instructions `more` at the end of the code of `ctx`, in their
/// order.
fn append(
    ctx: &mut Context,
    more: &Vec<Instr>,
    ids: &mut Ids,
    Ghost(d): Ghost<Seq<Instr>>,
    Ghost(first): Ghost<usize>,
)
    requires
        old(ctx).wf(),
        unnumbered_code(old(ctx).code()) == packed(d),
        in_step(*old(ctx), *old(ids), first),
    ensures
        final(ctx).wf(),
        final(ctx).header == old(ctx).header,
        same_frame(final(ctx).chunk, old(ctx).chunk),
        final(ctx).chunk.constants == old(ctx).chunk.constants,
        unnumbered_code(final(ctx).code()) == packed(d + more@),
        in_step(*final(ctx), *final(ids), first),
{
    let mut i: usize = 0;
    assert(d + more@.subrange(0, 0) =~= d);
    while i < more.len()
        invariant
            i <= more.len(),
            ctx.wf(),
            ctx.header == old(ctx).header,
            same_frame(ctx.chunk, old(ctx).chunk),
            ctx.chunk.constants == old(ctx).chunk.constants,
            unnumbered_code(ctx.code()) == packed(d + more@.subrange(0, i as int)),
            in_step(*ctx, *ids, first),
        decreases more.len() - i,
    {
        let instr = more[i];
        let at = ctx.get_max_ip();
        let ghost code = ctx.code();
        ctx.add_instruction(at, Instruction::new(instr.opcode(), instr, ids));
        proof {
            let before = d + more@.subrange(0, i as int);
            let after = d + more@.subrange(0, i + 1);
            assert(after =~= before.push(instr));
            assert(unnumbered_code(code).len() == packed(before).len());
            assert(ctx.code().len() == after.len());
            assert forall|j: int| 0 <= j < after.len() implies unnumbered_code(ctx.code())[j]
                == packed(after)[j] by {
                if j < code.len() {
                    assert(unnumbered_code(code)[j] == packed(before)[j]);
                }
            }
            assert(unnumbered_code(ctx.code()) =~= packed(after));
        }
        i += 1;
    }
    assert(more@.subrange(0, more.len() as int) =~= more@);
}

/// Lays the arms out in the code of `ctx`, which is empty, each behind
/// the test of its label.
fn lay_out(ctx: &mut Context, state_reg: Reg, arms: &Bodies, ids: &mut Ids) -> (r: Result<
    Ghost<Seq<Instr>>,
    Error,
>)
    requires
        old(ctx).wf(),
        old(ctx).code().len() == 0,
        arms.labels.len() == arms.bodies.len(),
    ensures
        match dispatched(
            state_reg,
            arms.labels@,
            bodies_of(arms.bodies@),
            arms.labels@.len(),
            old(ctx).pool(),
        ) {
            Ok(d) => {
                &&& r is Ok
                &&& r->Ok_0@ == d.body
                &&& final(ctx).wf()
                &&& final(ctx).header == old(ctx).header
                &&& same_frame(final(ctx).chunk, old(ctx).chunk)
                &&& unnumbered_code(final(ctx).code()) == packed(d.body)
                &&& final(ctx).pool() == d.pool
                &&& in_step(*final(ctx), *final(ids), old(ids).next())
            },
            Err(e) => r == Err::<Ghost<Seq<Instr>>, Error>(e),
        },
{
    let ghost first = ids.next();
    let ghost pool = ctx.pool();
    let ghost labels = arms.labels@;
    let ghost bodies = bodies_of(arms.bodies@);
    let ghost mut d: Seq<Instr> = Seq::empty();
    assert(unnumbered_code(ctx.code()) =~= packed(d));
    let mut n: usize = 0;
    while n < arms.labels.len()
        invariant
            n <= arms.labels.len(),
            arms.labels.len() == arms.bodies.len(),
            labels == arms.labels@,
            bodies == bodies_of(arms.bodies@),
            pool == old(ctx).pool(),
            ctx.wf(),
            ctx.header == old(ctx).header,
            same_frame(ctx.chunk, old(ctx).chunk),
            unnumbered_code(ctx.code()) == packed(d),
            in_step(*ctx, *ids, first),
            dispatched(state_reg, labels, bodies, n as nat, pool) == Ok::<Emitted, Error>(
                Emitted { body: d, pool: ctx.pool() },
            ),
        decreases arms.labels.len() - n,
    {
        let body = &arms.bodies[n];
        assert(body@ == bodies[n as int]);
        let k = match intern_label(ctx, arms.labels[n]) {
            Ok(k) => k,
            Err(e) => {
                proof {
                    lemma_dispatched_fail(
                        state_reg,
                        labels,
                        bodies,
                        (n + 1) as nat,
                        labels.len(),
                        pool,
                    );
                }
                return Err(e);
            },
        };
        if k > 255 || body.len() >= 0x20000 {
            proof {
                lemma_dispatched_fail(state_reg, labels, bodies, (n + 1) as nat, labels.len(), pool);
            }
            return Err(Error::ResourceExhausted);
        }
        let mut head: Vec<Instr> = Vec::new();
        head.push(
            Instr::BinCondOp(false, RegKst::R(state_reg), BinCondOp::Eq, operand_of(k)),
        );
        head.push(Instr::Jump(state_reg, (body.len() + 1) as i32));
        append(ctx, &head, ids, Ghost(d), Ghost(first));
        append(ctx, body, ids, Ghost(d + head@), Ghost(first));
        proof {
            assert(d + head@ + body@ =~= d + arm_entry(state_reg, k, body@));
            d = d + arm_entry(state_reg, k, body@);
        }
        n += 1;
    }
    Ok(Ghost(d))
}

/// Puts around the dispatcher `all`, which is the code of `ctx`, the loop
/// that runs while the state is not negative: three instructions before
/// it and two after it. The pool holds the number 0 at `entry`.
fn enclose(
    ctx: &mut Context,
    state_reg: Reg,
    entry: u32,
    ids: &mut Ids,
    Ghost(all): Ghost<Seq<Instr>>,
    Ghost(base): Ghost<usize>,
) -> (r: Result<(), Error>)
    requires
        old(ctx).wf(),
        unnumbered_code(old(ctx).code()) == packed(all),
        in_step(*old(ctx), *old(ids), base),
        all.len() + 3 <= -MIN_OFFSET,
        entry <= 255,
    ensures
        r is Ok,
        final(ctx).wf(),
        final(ctx).header == old(ctx).header,
        same_frame(final(ctx).chunk, old(ctx).chunk),
        final(ctx).chunk.constants == old(ctx).chunk.constants,
        unnumbered_code(final(ctx).code()) == finished(state_reg, all, entry),
        numbered_as_laid(final(ctx).code(), base),
        final(ids).next() == advanced(base, final(ctx).code().len()),
{
    let ghost inner = ctx.code();
    let ghost first = ids.next();
    let m = ctx.get_max_ip();
    assert(m == all.len()) by {
        assert(unnumbered_code(inner).len() == packed(all).len());
    }
    ctx.add_instruction(
        0,
        Instruction::new(
            crate::instruction::Opcode::LoadK,
            Instr::LoadK(state_reg, Kst(entry)),
            ids,
        ),
    );
    let binop_pt = ctx.add_instruction(
        1,
        Instruction::new(
            crate::instruction::Opcode::Le,
            Instr::BinCondOp(false, operand_of(entry), BinCondOp::Le, RegKst::R(state_reg)),
            ids,
        ),
    );
    let this = ctx.get_max_ip();
    ctx.add_instruction(
        2,
        Instruction::new(
            crate::instruction::Opcode::Jump,
            Instr::Jump(state_reg, (this - 1) as i32),
            ids,
        ),
    );
    assert(ctx.code()[0].3 == first);
    assert(ctx.code()[1].3 == binop_pt);
    assert(binop_pt == following(first));
    let instr_pt = match ctx.find_instruction_pt(binop_pt) {
        Some(found) => found,
        None => {
            return Err(Error::InternalInvariant);
        },
    };
    assert(instr_pt == 1);
    let this = ctx.get_max_ip();
    ctx.add_instruction(
        this,
        Instruction::new(
            crate::instruction::Opcode::Jump,
            Instr::Jump(state_reg, instr_pt as i32 - this as i32 - 1),
            ids,
        ),
    );
    let last = ctx.get_max_ip();
    ctx.add_instruction(
        last,
        Instruction::new(crate::instruction::Opcode::Return, Instr::Return(state_reg, 1), ids),
    );
    proof {
        let made = unnumbered_code(ctx.code());
        let wanted = finished(state_reg, all, entry);
        assert(made.len() == wanted.len());
        assert forall|j: int| 0 <= j < made.len() implies made[j] == wanted[j] by {
            if 3 <= j < 3 + m {
                assert(unnumbered_code(inner)[j - 3] == packed(all)[j - 3]);
            }
        }
        assert(made =~= wanted);
        let code = ctx.code();
        let n = code.len() as int;
        assert(n == m + 5);
        reveal_with_fuel(advanced, 6);
        assert forall|j: int| 0 <= j < n implies (#[trigger] code[j]).3 == advanced(
            base,
            made_at(n, j),
        ) by {
            if 3 <= j < 3 + m {
                assert(code[j] == inner[j - 3]);
            }
        }
    }
    Ok(())
}

/// Adds to the dispatcher `d`, which is the code of `ctx`, the arm that
/// ends the run, and puts around all of it the loop that runs while the
/// state is not negative.
fn wrap(
    ctx: &mut Context,
    state_reg: Reg,
    total: usize,
    ids: &mut Ids,
    Ghost(d): Ghost<Seq<Instr>>,
    Ghost(base): Ghost<usize>,
) -> (r: Result<(), Error>)
    requires
        old(ctx).wf(),
        unnumbered_code(old(ctx).code()) == packed(d),
        in_step(*old(ctx), *old(ids), base),
    ensures
        match wrapped(state_reg, d, total as int, old(ctx).pool()) {
            Ok(f) => r is Ok && final(ctx).wf() && final(ctx).header == old(ctx).header
                && same_frame(final(ctx).chunk, old(ctx).chunk) && unnumbered_code(
                final(ctx).code(),
            ) == f.code && final(ctx).pool() == f.pool && numbered_as_laid(
                final(ctx).code(),
                base,
            ) && final(ids).next() == advanced(base, final(ctx).code().len()),
            Err(e) => r == Err::<(), Error>(e),
        },
{
    let end = intern_label(ctx, total)?;
    let done = intern_int(ctx, -1)?;
    let entry = intern_int(ctx, 0)?;
    let ghost all = d + last_arm(state_reg, end, done);
    if end > 255 || entry > 255 {
        return Err(Error::ResourceExhausted);
    }
    let mut tail: Vec<Instr> = Vec::new();
    tail.push(Instr::BinCondOp(false, RegKst::R(state_reg), BinCondOp::Eq, operand_of(end)));
    tail.push(Instr::Jump(state_reg, 1));
    tail.push(Instr::LoadK(state_reg, Kst(done)));
    assert(tail@ =~= last_arm(state_reg, end, done));
    let length = ctx.get_max_ip();
    assert(length == d.len()) by {
        assert(unnumbered_code(ctx.code()).len() == packed(d).len());
    }
    if length > 131065 {
        return Err(Error::ResourceExhausted);
    }
    append(ctx, &tail, ids, Ghost(d), Ghost(base));
    enclose(ctx, state_reg, entry, ids, Ghost(all), Ghost(base))
}

/// Lays the arms out in the code of `ctx`, which is empty, each behind
/// the test of its label; adds the arm that ends the run, and puts around
/// all of it the loop that runs while the state is not negative.
fn finalize_closure(
    ctx: &mut Context,
    state_reg: Reg,
    total: usize,
    arms: &Bodies,
    ids: &mut Ids,
) -> (r: Result<(), Error>)
    requires
        old(ctx).wf(),
        old(ctx).code().len() == 0,
        arms.labels.len() == arms.bodies.len(),
    ensures
        match finalized(
            state_reg,
            arms.labels@,
            bodies_of(arms.bodies@),
            total as int,
            old(ctx).pool(),
        ) {
            Ok(f) => r is Ok && final(ctx).wf() && final(ctx).header == old(ctx).header
                && same_frame(final(ctx).chunk, old(ctx).chunk) && unnumbered_code(
                final(ctx).code(),
            ) == f.code && final(ctx).pool() == f.pool && numbered_as_laid(
                final(ctx).code(),
                old(ids).next(),
            ) && final(ids).next() == advanced(old(ids).next(), final(ctx).code().len()),
            Err(e) => r == Err::<(), Error>(e),
        },
{
    let ghost base = ids.next();
    let d = lay_out(ctx, state_reg, arms, ids)?;
    wrap(ctx, state_reg, total, ids, d, Ghost(base))
}

/// Asks the pool `pool` for the value `c`. There is no room where the
/// value would have to be added to a full pool, or is found beyond what an
/// instruction can name.
pub open spec fn intern_value(pool: Seq<ConstantsView>, c: ConstantsView) -> Result<Interned, Error> {
    if !known(pool, c) && pool.len() >= MAX_CONSTANTS {
        Err(Error::ResourceExhausted)
    } else if !(0 <= intern_index(pool, c) < MAX_CONSTANTS) {
        Err(Error::ResourceExhausted)
    } else {
        Ok(Interned { index: intern_index(pool, c) as u32, pool: intern_pool(pool, c) })
    }
}

/// An instruction with the pool that holds its constants.
pub struct Renamed {
    pub instr: Instr,
    pub pool: Seq<ConstantsView>,
}

/// The instruction `instr` with the constant that it names in the field
/// `slot` asked of the pool `pool` again: where it names one of the
/// constants `given` there, it names the place under which the pool gives
/// that value. There is no room where a field that names a stack slot or a
/// constant would have to name a place above 255.
pub open spec fn renamed_slot(
    instr: Instr,
    slot: Op,
    given: Seq<ConstantsView>,
    pool: Seq<ConstantsView>,
) -> Result<Renamed, Error> {
    match instr.constant_at(slot) {
        Some(k) => if k < given.len() {
            match intern_value(pool, given[k]) {
                Err(e) => Err(e),
                Ok(f) => if slot != Op::Bx && f.index > 255 {
                    Err(Error::ResourceExhausted)
                } else {
                    Ok(Renamed { instr: instr.with_constant(slot, f.index), pool: f.pool })
                },
            }
        } else {
            Ok(Renamed { instr, pool })
        },
        None => Ok(Renamed { instr, pool }),
    }
}

/// The instruction `instr` with each constant that it names asked of the
/// pool again: in field Bx, then B, then C.
pub open spec fn renamed_instr(
    instr: Instr,
    given: Seq<ConstantsView>,
    pool: Seq<ConstantsView>,
) -> Result<Renamed, Error> {
    match renamed_slot(instr, Op::Bx, given, pool) {
        Err(e) => Err(e),
        Ok(x) => match renamed_slot(x.instr, Op::B, given, x.pool) {
            Err(e) => Err(e),
            Ok(b) => renamed_slot(b.instr, Op::C, given, b.pool),
        },
    }
}

/// Code with the pool that holds its constants.
pub struct Recoded {
    pub code: Seq<Instruction>,
    pub pool: Seq<ConstantsView>,
}

/// The first `n` instructions of `code`, each with its constants asked of
/// the pool again in turn and its packed fields set anew.
pub open spec fn renamed_code(
    code: Seq<Instruction>,
    n: nat,
    given: Seq<ConstantsView>,
    pool: Seq<ConstantsView>,
) -> Result<Recoded, Error>
    decreases n,
{
    if n == 0 || n > code.len() {
        Ok(Recoded { code: Seq::empty(), pool })
    } else {
        match renamed_code(code, (n - 1) as nat, given, pool) {
            Err(e) => Err(e),
            Ok(before) => match renamed_instr(code[n - 1].1, given, before.pool) {
                Err(e) => Err(e),
                Ok(m) => Ok(
                    Recoded {
                        code: before.code.push(
                            Instruction(
                                code[n - 1].0,
                                m.instr,
                                m.instr.spec_opmode(),
                                code[n - 1].3,
                            ),
                        ),
                        pool: m.pool,
                    },
                ),
            },
        }
    }
}

/// Where the first `n` instructions cannot be renamed, no more can.
proof fn lemma_renamed_code_fail(
    code: Seq<Instruction>,
    n: nat,
    m: nat,
    given: Seq<ConstantsView>,
    pool: Seq<ConstantsView>,
)
    requires
        n <= m <= code.len(),
        renamed_code(code, n, given, pool) is Err,
    ensures
        renamed_code(code, m, given, pool) == renamed_code(code, n, given, pool),
    decreases m,
{
    if n < m {
        lemma_renamed_code_fail(code, n, (m - 1) as nat, given, pool);
    }
}

/// Asking the pool again for its constants leaves an instruction the
/// stack slots that it names.
pub proof fn lemma_renamed_slots(
    instr: Instr,
    given: Seq<ConstantsView>,
    pool: Seq<ConstantsView>,
    r: Reg,
)
    requires
        renamed_instr(instr, given, pool) is Ok,
    ensures
        renamed_instr(instr, given, pool)->Ok_0.instr.mentions(r) == instr.mentions(r),
{
    let x = renamed_slot(instr, Op::Bx, given, pool)->Ok_0;
    let b = renamed_slot(x.instr, Op::B, given, x.pool)->Ok_0;
    let c = renamed_slot(b.instr, Op::C, given, b.pool)->Ok_0;
    assert(x.instr.mentions(r) == instr.mentions(r));
    assert(b.instr.mentions(r) == x.instr.mentions(r));
    assert(c.instr.mentions(r) == b.instr.mentions(r));
}

/// Renamed code names the stack slots that the code named, instruction by
/// instruction.
pub proof fn lemma_renamed_code_slots(
    code: Seq<Instruction>,
    n: nat,
    given: Seq<ConstantsView>,
    pool: Seq<ConstantsView>,
    i: int,
    r: Reg,
)
    requires
        n <= code.len(),
        0 <= i < n,
        renamed_code(code, n, given, pool) is Ok,
    ensures
        renamed_code(code, n, given, pool)->Ok_0.code.len() == n,
        renamed_code(code, n, given, pool)->Ok_0.code[i].1.mentions(r) == code[i].1.mentions(r),
    decreases n,
{
    lemma_renamed_code_len(code, n, given, pool);
    let before = renamed_code(code, (n - 1) as nat, given, pool)->Ok_0;
    lemma_renamed_code_len(code, (n - 1) as nat, given, pool);
    if i < n - 1 {
        lemma_renamed_code_slots(code, (n - 1) as nat, given, pool, i, r);
    } else {
        lemma_renamed_slots(code[n - 1].1, given, before.pool, r);
    }
}

/// Renamed code has as many instructions as were renamed.
pub proof fn lemma_renamed_code_len(
    code: Seq<Instruction>,
    n: nat,
    given: Seq<ConstantsView>,
    pool: Seq<ConstantsView>,
)
    requires
        n <= code.len(),
        renamed_code(code, n, given, pool) is Ok,
    ensures
        renamed_code(code, n, given, pool)->Ok_0.code.len() == n,
    decreases n,
{
    if n > 0 {
        lemma_renamed_code_len(code, (n - 1) as nat, given, pool);
    }
}

fn rename_slot(instr: Instr, slot: Op, given: &Vec<Constants>, ctx: &mut Context) -> (r: Result<
    Instr,
    Error,
>)
    requires
        old(ctx).wf(),
    ensures
        match renamed_slot(instr, slot, constants_view(given@), old(ctx).pool()) {
            Ok(m) => r == Ok::<Instr, Error>(m.instr) && only_pool_changed(
                *final(ctx),
                *old(ctx),
                m.pool,
            ),
            Err(e) => r == Err::<Instr, Error>(e),
        },
{
    match constant_in(&instr, slot) {
        Some(k) => {
            if (k as usize) < given.len() {
                let index = intern_constant(ctx, given[k as usize].clone())?;
                if slot != Op::Bx && index > 255 {
                    return Err(Error::ResourceExhausted);
                }
                Ok(set_constant(&instr, slot, index))
            } else {
                Ok(instr)
            }
        },
        None => Ok(instr),
    }
}

fn rename_instr(instr: Instr, given: &Vec<Constants>, ctx: &mut Context) -> (r: Result<Instr, Error>)
    requires
        old(ctx).wf(),
    ensures
        match renamed_instr(instr, constants_view(given@), old(ctx).pool()) {
            Ok(m) => r == Ok::<Instr, Error>(m.instr) && only_pool_changed(
                *final(ctx),
                *old(ctx),
                m.pool,
            ),
            Err(e) => r == Err::<Instr, Error>(e),
        },
{
    let x = rename_slot(instr, Op::Bx, given, ctx)?;
    let b = rename_slot(x, Op::B, given, ctx)?;
    rename_slot(b, Op::C, given, ctx)
}

/// Asks the pool of `ctx` again for every constant among `given` that the
/// code names.
fn rename_code(code: &Vec<Instruction>, given: &Vec<Constants>, ctx: &mut Context) -> (r: Result<
    Vec<Instruction>,
    Error,
>)
    requires
        old(ctx).wf(),
    ensures
        match renamed_code(code@, code@.len(), constants_view(given@), old(ctx).pool()) {
            Ok(rc) => r is Ok && r->Ok_0@ == rc.code && only_pool_changed(
                *final(ctx),
                *old(ctx),
                rc.pool,
            ),
            Err(e) => r == Err::<Vec<Instruction>, Error>(e),
        },
{
    let ghost pool = ctx.pool();
    let ghost views = constants_view(given@);
    let mut out: Vec<Instruction> = Vec::new();
    let mut n: usize = 0;
    while n < code.len()
        invariant
            n <= code.len(),
            pool == old(ctx).pool(),
            views == constants_view(given@),
            ctx.wf(),
            renamed_code(code@, n as nat, views, pool) == Ok::<Recoded, Error>(
                Recoded { code: out@, pool: ctx.pool() },
            ),
            only_pool_changed(*ctx, *old(ctx), ctx.pool()),
        decreases code.len() - n,
    {
        let current = code[n];
        match rename_instr(current.1, given, ctx) {
            Ok(instr) => {
                let mode = instr.get_opmode();
                out.push(Instruction(current.0, instr, mode, current.3));
            },
            Err(e) => {
                proof {
                    lemma_renamed_code_fail(code@, (n + 1) as nat, code@.len(), views, pool);
                }
                return Err(e);
            },
        }
        n += 1;
    }
    Ok(out)
}

/// The code has a generic loop.
pub open spec fn has_generic(code: Seq<Instruction>) -> bool {
    exists|i: int| 0 <= i < code.len() && (#[trigger] code[i]).1 is TForLoop
}

/// The stack slots that the flattener keeps for itself: one for the
/// state, and eight more of scratch where the code has a generic loop.
pub open spec fn reserved(code: Seq<Instruction>) -> int {
    if has_generic(code) {
        9
    } else {
        1
    }
}

/// The places that a machine of `cap` registers gives to the stack slots
/// of a function of `p` parameters of which the flattener keeps `k`: a
/// parameter stays, any other slot moves up by `k`.
pub open spec fn plan_map(cap: usize, p: u8, k: int) -> spec_fn(Reg) -> Option<Reg> {
    slot_map(identity(cap as nat), identity(cap as nat).skip(p + k), p)
}

/// The flattened form of each of the first `n` prototypes of `ps`, or the
/// error of the first that has none.
pub open spec fn flattened_all(ps: Seq<ProtoView>, n: nat, cap: usize) -> Result<
    Seq<ProtoView>,
    Error,
>
    decreases ps, n,
{
    if n == 0 || n > ps.len() {
        Ok(Seq::empty())
    } else {
        match flattened_all(ps, (n - 1) as nat, cap) {
            Err(e) => Err(e),
            Ok(before) => match flattened(ps[n - 1], cap) {
                Err(e) => Err(e),
                Ok(v) => Ok(before.push(v)),
            },
        }
    }
}

/// What the flattener knows of the function `c` once its code is `code`.
pub open spec fn frame_of(c: ProtoView, code: Seq<Instruction>) -> Frame {
    Frame {
        code,
        blocks: blocks_of(code),
        state: Reg(c.nparams),
        scratch: if has_generic(c.instructions) {
            Some(up(Reg(c.nparams), 1))
        } else {
            None
        },
    }
}

/// The flattened code of the function `c` on a machine of `cap` registers,
/// with its constants.
///
/// The state is kept in the first slot after the parameters, the scratch
/// slots follow it, and every other slot of the code moves up past them.
/// Every constant that the code names is then asked of the pool again, so
/// that values that the pool holds more than once are named at their first
/// place. The code is cut into blocks, each block becomes an arm, and the
/// arms are laid out in a dispatcher.
///
/// There is no room where the slots that are kept and the slots of the
/// code do not fit the machine.
pub open spec fn flattened_code(c: ProtoView, cap: usize) -> Result<Finished, Error> {
    let k = reserved(c.instructions);
    let rho = plan_map(cap, c.nparams, k);
    if c.nparams + k > cap || !movable(c.instructions, rho) {
        Err(Error::ResourceExhausted)
    } else {
        let moved = moved_code(c.instructions, rho);
        match renamed_code(moved, moved.len(), c.constants, c.constants) {
            Err(e) => Err(e),
            Ok(rc) => {
                let fr = frame_of(c, rc.code);
                match arms(fr, fr.blocks.len(), rc.pool) {
                    Err(e) => Err(e),
                    Ok(a) => finalized(
                        fr.state,
                        a.labels,
                        a.bodies,
                        fr.blocks.len() as int,
                        a.pool,
                    ),
                }
            },
        }
    }
}

/// The flattened form of the function `c` on a machine of `cap` registers.
///
/// The prototypes nested in `c` are flattened first, in their order; then
/// the code of `c` itself. The result has the name, the counts of
/// parameters and upvalues and the vararg flag of `c`, the whole machine
/// for its stack, and no debug information.
///
/// There is no room where `c` has more parameters than the machine has
/// registers, or more constants than an instruction can name.
#[verifier::opaque]
pub open spec fn flattened(c: ProtoView, cap: usize) -> Result<ProtoView, Error>
    decreases c,
{
    if c.nparams > cap || c.constants.len() > MAX_CONSTANTS {
        Err(Error::ResourceExhausted)
    } else {
        match flattened_all(c.prototypes, c.prototypes.len(), cap) {
            Err(e) => Err(e),
            Ok(children) => match flattened_code(c, cap) {
                Err(e) => Err(e),
                Ok(f) => Ok(
                    ProtoView {
                        source: c.source,
                        line_defined: 0,
                        last_line_defined: 0,
                        nupvals: c.nupvals,
                        nparams: c.nparams,
                        is_vararg_flag: c.is_vararg_flag,
                        max_stack_size: cap as u8,
                        instructions: f.code,
                        constants: f.pool,
                        prototypes: children,
                        source_lines: None,
                        locals: None,
                        upvals: None,
                    },
                ),
            },
        }
    }
}

/// One more prototype is flattened after those before it.
pub proof fn lemma_flattened_all_more(ps: Seq<ProtoView>, n: nat, cap: usize)
    requires
        0 < n <= ps.len(),
    ensures
        flattened_all(ps, n, cap) == match flattened_all(ps, (n - 1) as nat, cap) {
            Err(e) => Err(e),
            Ok(before) => match flattened(ps[n - 1], cap) {
                Err(e) => Err(e),
                Ok(v) => Ok(before.push(v)),
            },
        },
{
    reveal(flattened);
}

/// What the flattened form of a function is made of.
pub proof fn lemma_flattened_parts(c: ProtoView, cap: usize)
    ensures
        flattened(c, cap) == (if c.nparams > cap || c.constants.len() > MAX_CONSTANTS {
            Err::<ProtoView, Error>(Error::ResourceExhausted)
        } else {
            match flattened_all(c.prototypes, c.prototypes.len(), cap) {
                Err(e) => Err(e),
                Ok(children) => match flattened_code(c, cap) {
                    Err(e) => Err(e),
                    Ok(f) => Ok(
                        ProtoView {
                            source: c.source,
                            line_defined: 0,
                            last_line_defined: 0,
                            nupvals: c.nupvals,
                            nparams: c.nparams,
                            is_vararg_flag: c.is_vararg_flag,
                            max_stack_size: cap as u8,
                            instructions: f.code,
                            constants: f.pool,
                            prototypes: children,
                            source_lines: None,
                            locals: None,
                            upvals: None,
                        },
                    ),
                },
            }
        }),
{
    reveal_with_fuel(flattened, 2);
}

/// Where the first `n` prototypes cannot all be flattened, no more can.
proof fn lemma_flattened_all_fail(ps: Seq<ProtoView>, n: nat, m: nat, cap: usize)
    requires
        n <= m <= ps.len(),
        flattened_all(ps, n, cap) is Err,
    ensures
        flattened_all(ps, m, cap) == flattened_all(ps, n, cap),
    decreases m,
{
    if n < m {
        lemma_flattened_all_fail(ps, n, (m - 1) as nat, cap);
        lemma_flattened_all_more(ps, m, cap);
    }
}

fn has_generic_loop(code: &Vec<Instruction>) -> (r: bool)
    ensures
        r == has_generic(code@),
{
    let mut i: usize = 0;
    while i < code.len()
        invariant
            i <= code.len(),
            forall|j: int| 0 <= j < i ==> !((#[trigger] code[j]).1 is TForLoop),
        decreases code.len() - i,
    {
        if let Instr::TForLoop(..) = code[i].1 {
            return true;
        }
        i += 1;
    }
    false
}

/// The registers of a machine of `cap` of which the first `taken` are
/// taken.
spec fn taken_from(registers: Registers, cap: usize, taken: int) -> bool {
    &&& registers.wf()
    &&& registers.table() == identity(cap as nat)
    &&& registers.unused() == identity(cap as nat).skip(taken)
    &&& registers.possible() == identity(cap as nat).skip(taken)
}

/// Takes the next register, which is the first that is not taken.
fn take(registers: &mut Registers, Ghost(cap): Ghost<usize>, Ghost(taken): Ghost<int>) -> (r: Result<
    u8,
    Error,
>)
    requires
        taken_from(*old(registers), cap, taken),
        0 <= taken <= cap <= 256,
    ensures
        taken < cap ==> r == Ok::<u8, Error>(taken as u8) && taken_from(
            *final(registers),
            cap,
            taken + 1,
        ),
        taken >= cap ==> r == Err::<u8, Error>(Error::ResourceExhausted),
{
    let place = registers.new()?;
    assert(identity(cap as nat).skip(taken).drop_first() =~= identity(cap as nat).skip(taken + 1));
    Ok(place as u8)
}

/// The registers of a machine of `cap`, with the `p` first kept at their
/// places for the parameters of a function and taken out of use.
fn prepare_registers(cap: usize, p: u8) -> (r: Result<Registers, Error>)
    requires
        cap <= 256,
    ensures
        p <= cap ==> r is Ok && taken_from(r->Ok_0, cap, p as int),
        p > cap ==> (r matches Err(e) && e == Error::ResourceExhausted),
{
    let mut registers = Registers::from_size(cap);
    if p as usize > cap {
        return Err(Error::ResourceExhausted);
    }
    let mut idx: u8 = 0;
    while idx < p
        invariant
            idx <= p <= cap,
            registers.wf(),
            registers.table() == identity(cap as nat),
            registers.unused() == identity(cap as nat),
            registers.possible() == identity(cap as nat),
        decreases p - idx,
    {
        match registers.set(idx as usize, idx as usize) {
            Ok(()) => {},
            Err(e) => {
                return Err(e);
            },
        }
        assert(registers.table() =~= identity(cap as nat));
        idx += 1;
    }
    match registers.offset(p as usize) {
        Ok(()) => {},
        Err(e) => {
            return Err(e);
        },
    }
    Ok(registers)
}

/// The prototype that takes the flattened code of `c`: it has the name,
/// the constants, the counts of parameters and upvalues and the vararg
/// flag of `c`, and a stack of `cap` slots.
fn shell(c: &Proto, cap: usize) -> (r: Proto)
    requires
        cap <= 255,
    ensures
        r.instructions.len() == 0,
        r.prototypes.len() == 0,
        r.source@ == c.source@,
        r.line_defined == 0,
        r.last_line_defined == 0,
        r.nupvals == c.nupvals,
        r.nparams == c.nparams,
        r.is_vararg_flag == c.is_vararg_flag,
        r.max_stack_size == cap,
        r.constants.len() == c.constants.len(),
        constants_view(r.constants@) == constants_view(c.constants@),
{
    let mut flattened = Proto::default();
    flattened.max_stack_size = cap as u8;
    flattened.constants = copy_constants(&c.constants);
    flattened.nupvals = c.nupvals;
    flattened.nparams = c.nparams;
    flattened.is_vararg_flag = c.is_vararg_flag;
    flattened.source = c.source.clone();
    flattened
}

/// Takes the slot of the state and, for a function with a generic loop,
/// the eight scratch slots after it.
fn reserve(registers: &mut Registers, p: u8, generic: bool, Ghost(cap): Ghost<usize>) -> (r: Result<
    (Reg, Option<Reg>),
    Error,
>)
    requires
        taken_from(*old(registers), cap, p as int),
        p <= cap <= 255,
    ensures
        ({
            let k: int = if generic {
                9
            } else {
                1
            };
            &&& p + k <= cap ==> r == Ok::<(Reg, Option<Reg>), Error>(
                (
                    Reg(p),
                    if generic {
                        Some(up(Reg(p), 1))
                    } else {
                        None
                    },
                ),
            ) && taken_from(*final(registers), cap, p + k)
            &&& p + k > cap ==> r == Err::<(Reg, Option<Reg>), Error>(Error::ResourceExhausted)
        }),
{
    let state = take(registers, Ghost(cap), Ghost(p as int))?;
    if !generic {
        return Ok((Reg(state), None));
    }
    let first = take(registers, Ghost(cap), Ghost(p + 1))?;
    take(registers, Ghost(cap), Ghost(p + 2))?;
    take(registers, Ghost(cap), Ghost(p + 3))?;
    take(registers, Ghost(cap), Ghost(p + 4))?;
    take(registers, Ghost(cap), Ghost(p + 5))?;
    take(registers, Ghost(cap), Ghost(p + 6))?;
    take(registers, Ghost(cap), Ghost(p + 7))?;
    take(registers, Ghost(cap), Ghost(p + 8))?;
    Ok((Reg(state), Some(Reg(first))))
}

/// A copy of the instructions `v` for the flattener to read. None of them
/// is kept in the flattened code, so the copy carries no numbers.
fn working_copy(v: &Vec<Instruction>) -> (r: Vec<Instruction>)
    ensures
        r@ == unnumbered_code(v@),
{
    let mut list: Vec<Instruction> = Vec::new();
    let mut i: usize = 0;
    while i < v.len()
        invariant
            i <= v.len(),
            list.len() == i,
            forall|j: int| 0 <= j < i ==> (#[trigger] list[j]) == v[j].unnumbered(),
        decreases v.len() - i,
    {
        let given = v[i];
        list.push(Instruction(given.0, given.1, given.2, 0));
        i += 1;
    }
    assert(list@ =~= unnumbered_code(v@));
    list
}

/// The code of `c` with its stack slots moved as `registers` say.
fn moved_copy(c: &Proto, registers: &mut Registers) -> (r: Result<Vec<Instruction>, Error>)
    requires
        old(registers).wf(),
    ensures
        ({
            let rho = slot_map(old(registers).table(), old(registers).possible(), c.nparams);
            &&& movable(c@.instructions, rho) ==> r is Ok && r->Ok_0@ == moved_code(
                c@.instructions,
                rho,
            )
            &&& !movable(c@.instructions, rho) ==> r == Err::<Vec<Instruction>, Error>(
                Error::ResourceExhausted,
            )
        }),
{
    let mut closure = Proto::default();
    closure.nparams = c.nparams;
    closure.instructions = working_copy(&c.instructions);
    update_register_offsets(&mut closure, registers)?;
    Ok(closure.instructions)
}

/// Code has a generic loop with its numbers as without them.
proof fn lemma_generic_unnumbered(code: Seq<Instruction>)
    ensures
        has_generic(unnumbered_code(code)) == has_generic(code),
{
    let bare = unnumbered_code(code);
    if has_generic(code) {
        let i = choose|i: int| 0 <= i < code.len() && (#[trigger] code[i]).1 is TForLoop;
        assert(bare[i].1 is TForLoop);
    }
    if has_generic(bare) {
        let i = choose|i: int| 0 <= i < bare.len() && (#[trigger] bare[i]).1 is TForLoop;
        assert(code[i].1 is TForLoop);
    }
}

/// Flattens the function `c`, and the functions nested in it, for the
/// machine that `options` name. The result is a context for the flattened
/// function under the header of `ctx`.
pub fn flatten(ctx: &Context, c: &Proto, options: &Options, ids: &mut Ids) -> (r: Result<
    Context,
    Error,
>)
    ensures
        match flattened(c@, options.target_vm.config().max_stack_size) {
            Ok(v) => {
                &&& r is Ok
                &&& r->Ok_0.wf()
                &&& r->Ok_0.header == ctx.header
                &&& r->Ok_0.chunk@ == v
                &&& numbered_as_flattened(r->Ok_0.chunk, old(ids).next())
                &&& final(ids).next() == advanced(old(ids).next(), count_of(r->Ok_0.chunk))
            },
            Err(e) => r is Err && r->Err_0 == e,
        },
    decreases c,
{
    let ghost first = ids.next();
    let target_vm = options.target_vm.get();
    let max_stack_size = target_vm.max_stack_size;
    let ghost nested = c@.prototypes;
    proof {
        lemma_prototypes_view(c.prototypes@, c.prototypes@.len());
        lemma_flattened_parts(c@, max_stack_size);
    }
    if c.constants.len() > MAX_CONSTANTS {
        return Err(Error::ResourceExhausted);
    }
    let mut registers = match prepare_registers(max_stack_size, c.nparams) {
        Ok(registers) => registers,
        Err(e) => {
            return Err(e);
        },
    };
    let mut flat_ctx = Context::new(ctx.header, shell(c, max_stack_size));
    flat_ctx.map();
    let ghost empty = flat_ctx;
    let mut i: usize = 0;
    proof {
        lemma_prototypes_view(flat_ctx.chunk.prototypes@, 0);
    }
    while i < c.prototypes.len()
        invariant
            i <= c.prototypes.len(),
            max_stack_size == options.target_vm.config().max_stack_size,
            c.nparams <= max_stack_size,
            c.constants.len() <= MAX_CONSTANTS,
            constants_view(c.constants@).len() == c.constants.len(),
            nested == c@.prototypes,
            nested.len() == c.prototypes.len(),
            forall|j: int| 0 <= j < nested.len() ==> (#[trigger] nested[j]) == c.prototypes[j]@,
            flat_ctx.wf(),
            flat_ctx.header == ctx.header,
            flat_ctx.code() == empty.code(),
            flat_ctx.pool() == empty.pool(),
            flat_ctx.chunk.source == empty.chunk.source,
            flat_ctx.chunk.line_defined == empty.chunk.line_defined,
            flat_ctx.chunk.last_line_defined == empty.chunk.last_line_defined,
            flat_ctx.chunk.nupvals == empty.chunk.nupvals,
            flat_ctx.chunk.nparams == empty.chunk.nparams,
            flat_ctx.chunk.is_vararg_flag == empty.chunk.is_vararg_flag,
            flat_ctx.chunk.max_stack_size == empty.chunk.max_stack_size,
            flat_ctx.chunk.source_lines == empty.chunk.source_lines,
            flat_ctx.chunk.locals == empty.chunk.locals,
            flat_ctx.chunk.upvals == empty.chunk.upvals,
            flat_ctx.chunk.prototypes.len() == i,
            flattened_all(nested, i as nat, max_stack_size) == Ok::<Seq<ProtoView>, Error>(
                prototypes_view(flat_ctx.chunk.prototypes@, i as nat),
            ),
            ids.next() == advanced(first, count_all(flat_ctx.chunk.prototypes@, i as nat)),
            all_numbered_as_flattened(flat_ctx.chunk.prototypes@, i as nat, first),
        decreases c.prototypes.len() - i,
    {
        let ghost before = flat_ctx.chunk.prototypes@;
        proof {
            lemma_flattened_all_more(nested, (i + 1) as nat, max_stack_size);
        }
        match flatten(&flat_ctx, &c.prototypes[i], options, ids) {
            Ok(child) => {
                let ghost prior = flat_ctx;
                flat_ctx.chunk.prototypes.push(child.chunk);
                proof {
                    assert(flat_ctx.code() == prior.code());
                    assert(flat_ctx.refs() == prior.refs());
                    assert(flat_ctx.pool() == prior.pool());
                    let now = flat_ctx.chunk.prototypes@;
                    lemma_first_flattened(before, now, i as nat, first);
                    lemma_first_prototypes(before, now, i as nat, first);
                    lemma_advanced_on(first, count_all(before, i as nat), count_of(now[i as int]));
                    lemma_prototypes_view(before, i as nat);
                    lemma_prototypes_view(flat_ctx.chunk.prototypes@, i as nat);
                    assert(prototypes_view(flat_ctx.chunk.prototypes@, i as nat)
                        =~= prototypes_view(before, i as nat));
                }
            },
            Err(e) => {
                proof {
                    lemma_flattened_all_fail(
                        nested,
                        (i + 1) as nat,
                        nested.len(),
                        max_stack_size,
                    );
                    lemma_flattened_parts(c@, max_stack_size);
                }
                return Err(e);
            },
        }
        i += 1;
    }
    let ghost children = flat_ctx.chunk.prototypes@;
    match flatten_code(&mut flat_ctx, c, &mut registers, ids, Ghost(max_stack_size)) {
        Ok(()) => {},
        Err(e) => {
            return Err(e);
        },
    }
    proof {
        assert(flat_ctx.chunk.prototypes@ == children);
        lemma_advanced_on(
            first,
            count_all(children, children.len()),
            flat_ctx.chunk.instructions@.len(),
        );
    }
    Ok(flat_ctx)
}

/// Flattens the code of `c` into the context `flat_ctx`, which holds the
/// constants of `c` and no code yet, with the registers that are left
/// after the parameters of `c`.
fn flatten_code(
    flat_ctx: &mut Context,
    c: &Proto,
    registers: &mut Registers,
    ids: &mut Ids,
    Ghost(cap): Ghost<usize>,
) -> (r: Result<(), Error>)
    requires
        old(flat_ctx).wf(),
        old(flat_ctx).code().len() == 0,
        old(flat_ctx).pool() == c@.constants,
        taken_from(*old(registers), cap, c.nparams as int),
        c.nparams <= cap <= 255,
    ensures
        match flattened_code(c@, cap) {
            Ok(f) => {
                &&& r is Ok
                &&& final(flat_ctx).wf()
                &&& final(flat_ctx).header == old(flat_ctx).header
                &&& same_frame(final(flat_ctx).chunk, old(flat_ctx).chunk)
                &&& unnumbered_code(final(flat_ctx).code()) == f.code
                &&& final(flat_ctx).pool() == f.pool
                &&& numbered_as_laid(final(flat_ctx).code(), old(ids).next())
                &&& final(ids).next() == advanced(
                    old(ids).next(),
                    final(flat_ctx).code().len(),
                )
            },
            Err(e) => r == Err::<(), Error>(e),
        },
{
    let generic = has_generic_loop(&c.instructions);
    proof {
        lemma_generic_unnumbered(c.instructions@);
    }
    let (state_reg, scratch) = reserve(registers, c.nparams, generic, Ghost(cap))?;
    let moved = moved_copy(c, registers)?;
    let code = rename_code(&moved, &c.constants, flat_ctx)?;
    let blocks = cut(&code);
    let plan = Plan { code: &code, blocks: &blocks, state: state_reg, scratch };
    assert(plan@ == frame_of(c@, code@));
    let ghost before_arms = *flat_ctx;
    let arms = arms_exec(&plan, flat_ctx)?;
    proof {
        lemma_arms_count(plan@, plan@.blocks.len(), before_arms.pool());
    }
    finalize_closure(flat_ctx, state_reg, blocks.len(), &arms, ids)
}

/// There are as many labels as arms.
proof fn lemma_arms_count(fr: Frame, n: nat, pool: Seq<ConstantsView>)
    ensures
        arms(fr, n, pool) matches Ok(a) ==> a.labels.len() == a.bodies.len(),
    decreases n,
{
    if n > 0 {
        lemma_arms_count(fr, (n - 1) as nat, pool);
    }
}

/// A slot that the moved code of a function names is a parameter or lies
/// above the slots that the flattener keeps: it is neither the slot of the
/// state nor a scratch slot.
pub proof fn lemma_moved_register_safety(c: ProtoView, cap: usize, i: int, r: Reg)
    requires
        cap <= 256,
        c.nparams + reserved(c.instructions) <= cap,
        movable(c.instructions, plan_map(cap, c.nparams, reserved(c.instructions))),
        0 <= i < c.instructions.len(),
        moved_code(
            c.instructions,
            plan_map(cap, c.nparams, reserved(c.instructions)),
        )[i].1.mentions(r),
    ensures
        r.0 < c.nparams || r.0 >= c.nparams + reserved(c.instructions),
        r != Reg(c.nparams),
        has_generic(c.instructions) ==> !(c.nparams < r.0 <= c.nparams + 8),
{
    let k = reserved(c.instructions);
    let rho = plan_map(cap, c.nparams, k);
    lemma_moved_mentions(c.instructions[i].1, rho, r);
    let from = choose|from: Reg| c.instructions[i].1.mentions(from) && #[trigger] rho(from) == Some(r);
    assert(rho(from) == moved_register(
        identity(cap as nat),
        identity(cap as nat).skip(c.nparams + k),
        c.nparams,
        from,
    ));
}

/// A slot that a rewritten instruction of a function names, after its
/// slots were moved and its constants asked of the pool again, is a
/// parameter or lies above the slots that the flattener keeps: it is
/// neither the slot of the state nor a scratch slot.
pub proof fn lemma_register_safety(c: ProtoView, cap: usize, i: int, r: Reg)
    requires
        cap <= 256,
        c.nparams + reserved(c.instructions) <= cap,
        movable(c.instructions, plan_map(cap, c.nparams, reserved(c.instructions))),
        0 <= i < c.instructions.len(),
        ({
            let moved = moved_code(
                c.instructions,
                plan_map(cap, c.nparams, reserved(c.instructions)),
            );
            let rewritten = renamed_code(moved, moved.len(), c.constants, c.constants);
            rewritten is Ok && rewritten->Ok_0.code[i].1.mentions(r)
        }),
    ensures
        r.0 < c.nparams || r.0 >= c.nparams + reserved(c.instructions),
        r != Reg(c.nparams),
        has_generic(c.instructions) ==> !(c.nparams < r.0 <= c.nparams + 8),
{
    let moved = moved_code(c.instructions, plan_map(cap, c.nparams, reserved(c.instructions)));
    lemma_renamed_code_slots(moved, moved.len(), c.constants, c.constants, i, r);
    lemma_moved_register_safety(c, cap, i, r);
}

/// The constant under which a pool gives a value that is the same as
/// itself is the same value.
pub proof fn lemma_interned_same(pool: Seq<ConstantsView>, c: ConstantsView)
    requires
        c.same(c),
    ensures
        0 <= intern_index(pool, c) < intern_pool(pool, c).len(),
        intern_pool(pool, c)[intern_index(pool, c)].same(c),
{
    if known(pool, c) {
        lemma_first_known(pool, c, pool.len());
    }
}

/// Among the first `n` constants of a pool, where one is the same value as
/// `c`, one is the first such.
proof fn lemma_first_known(pool: Seq<ConstantsView>, c: ConstantsView, n: nat)
    requires
        n <= pool.len(),
        exists|j: int| 0 <= j < n && (#[trigger] pool[j]).same(c),
    ensures
        exists|j: int| j < n && found_at(pool, c, j),
    decreases n,
{
    let w = choose|j: int| 0 <= j < n && (#[trigger] pool[j]).same(c);
    if exists|j: int| 0 <= j < w && (#[trigger] pool[j]).same(c) {
        lemma_first_known(pool, c, w as nat);
        let f = choose|j: int| j < w && found_at(pool, c, j);
        assert(f < n && found_at(pool, c, f));
    } else {
        assert(found_at(pool, c, w));
    }
}

/// What the dispatcher was laid out from.
pub struct Layout {
    pub labels: Seq<usize>,
    pub bodies: Seq<Seq<Instr>>,
    pub total: int,
    pub pool: Seq<ConstantsView>,
}

/// The code and the constants of a flattened function are those of a
/// dispatcher laid out around the slot after its parameters.
pub proof fn lemma_flattened_code(c: ProtoView, cap: usize) -> (w: Layout)
    requires
        flattened(c, cap) is Ok,
    ensures
        finalized(Reg(c.nparams), w.labels, w.bodies, w.total, w.pool) == Ok::<Finished, Error>(
            Finished {
                code: flattened(c, cap)->Ok_0.instructions,
                pool: flattened(c, cap)->Ok_0.constants,
            },
        ),
{
    lemma_flattened_parts(c, cap);
    let f = flattened_code(c, cap)->Ok_0;
    assert(flattened(c, cap)->Ok_0.instructions == f.code);
    assert(flattened(c, cap)->Ok_0.constants == f.pool);
    let rho = plan_map(cap, c.nparams, reserved(c.instructions));
    let moved = moved_code(c.instructions, rho);
    let rc = renamed_code(moved, moved.len(), c.constants, c.constants)->Ok_0;
    let fr = frame_of(c, rc.code);
    let a = arms(fr, fr.blocks.len(), rc.pool)->Ok_0;
    Layout { labels: a.labels, bodies: a.bodies, total: fr.blocks.len() as int, pool: a.pool }
}

/// The code around a dispatcher of `m` instructions has `m + 5`: the
/// first sets the state, the second tests it, the third jumps to the last,
/// which returns, and the last but one jumps back to the second.
pub proof fn lemma_finished_shape(s: Reg, d: Seq<Instr>, entry: u32)
    ensures
        ({
            let code = finished(s, d, entry);
            let n = d.len() + 5;
            &&& code.len() == n
            &&& code[0].1 == load_state(s, entry)
            &&& code[1].1 == Instr::BinCondOp(false, pool_operand(entry), BinCondOp::Le, RegKst::R(s))
            &&& code[2].1 == Instr::Jump(s, (n - 4) as i32)
            &&& code[n - 2].1 == Instr::Jump(s, (2 - n) as i32)
            &&& code[n - 1].1 == Instr::Return(s, 1)
        }),
{
}

/// The shape of flattened code: its first instruction sets the state to
/// the number 0; the second tests that the state is not negative; the
/// third, which the test skips while that is so, jumps to the last
/// instruction, which returns; the last but one jumps back to the test.
/// Every other instruction stands between the third and the last but one,
/// inside the loop.
pub proof fn lemma_flattened_shape(c: ProtoView, cap: usize)
    requires
        flattened(c, cap) is Ok,
    ensures
        ({
            let v = flattened(c, cap)->Ok_0;
            let code = v.instructions;
            let n = code.len() as int;
            let s = Reg(c.nparams);
            &&& n >= 8
            &&& exists|entry: u32|
                {
                    &&& #[trigger] load_state(s, entry) == code[0].1
                    &&& code[1].1 == Instr::BinCondOp(
                        false,
                        pool_operand(entry),
                        BinCondOp::Le,
                        RegKst::R(s),
                    )
                    &&& entry < v.constants.len()
                    &&& v.constants[entry as int].same(ConstantsView::Number(number_bits(0)))
                }
            &&& code[2].1 == Instr::Jump(s, (n - 4) as i32)
            &&& code[n - 2].1 == Instr::Jump(s, (2 - n) as i32)
            &&& code[n - 1].1 == Instr::Return(s, 1)
        }),
{
    let w = lemma_flattened_code(c, cap);
    let s = Reg(c.nparams);
    let d = dispatched(s, w.labels, w.bodies, w.labels.len(), w.pool)->Ok_0;
    let end = intern_number(d.pool, w.total)->Ok_0;
    let done = intern_number(end.pool, -1)->Ok_0;
    let entry = intern_number(done.pool, 0)->Ok_0;
    let all = d.body + last_arm(s, end.index, done.index);
    let zero = ConstantsView::Number(number_bits(0));
    assert(zero.same(zero));
    lemma_interned_same(done.pool, zero);
    lemma_finished_shape(s, all, entry.index);
    let v = flattened(c, cap)->Ok_0;
    assert(last_arm(s, end.index, done.index).len() == 3);
    assert(all.len() >= 3);
    assert(v.instructions == finished(s, all, entry.index));
    assert(v.constants == entry.pool);
    assert(entry.pool == intern_pool(done.pool, zero));
    assert(entry.index == intern_index(done.pool, zero));
    assert(load_state(s, entry.index) == v.instructions[0].1);
}

} // verus!

//! Instructions: the opcodes, the typed operands of each instruction, and
//! the 32-bit word in which an instruction is written.

use vstd::prelude::*;
use crate::error::Error;

verus! {

/// The operation that an instruction word selects, in wire order.
#[derive(Debug, Clone, Copy, PartialEq, Eq, Structural)]
pub enum Opcode {
    Move,
    LoadK,
    LoadBool,
    LoadNil,
    GetUpval,
    GetGlobal,
    GetTable,
    SetGlobal,
    SetUpval,
    SetTable,
    NewTable,
    Self_,
    Add,
    Sub,
    Mul,
    Div,
    Mod,
    Pow,
    Unm,
    Not,
    Len,
    Concat,
    Jump,
    Eq,
    Lt,
    Le,
    Test,
    TestSet,
    Call,
    TailCall,
    Return,
    ForLoop,
    ForPrep,
    TForLoop,
    SetList,
    Close,
    Closure,
    VarArg,
    /// Placeholder used inside the library; it has no wire form.
    NOP,
}

impl Opcode {
    /// The number that stands for this opcode in the low six bits of a word.
    pub open spec fn code(self) -> int {
        match self {
            Opcode::Move => 0,
            Opcode::LoadK => 1,
            Opcode::LoadBool => 2,
            Opcode::LoadNil => 3,
            Opcode::GetUpval => 4,
            Opcode::GetGlobal => 5,
            Opcode::GetTable => 6,
            Opcode::SetGlobal => 7,
            Opcode::SetUpval => 8,
            Opcode::SetTable => 9,
            Opcode::NewTable => 10,
            Opcode::Self_ => 11,
            Opcode::Add => 12,
            Opcode::Sub => 13,
            Opcode::Mul => 14,
            Opcode::Div => 15,
            Opcode::Mod => 16,
            Opcode::Pow => 17,
            Opcode::Unm => 18,
            Opcode::Not => 19,
            Opcode::Len => 20,
            Opcode::Concat => 21,
            Opcode::Jump => 22,
            Opcode::Eq => 23,
            Opcode::Lt => 24,
            Opcode::Le => 25,
            Opcode::Test => 26,
            Opcode::TestSet => 27,
            Opcode::Call => 28,
            Opcode::TailCall => 29,
            Opcode::Return => 30,
            Opcode::ForLoop => 31,
            Opcode::ForPrep => 32,
            Opcode::TForLoop => 33,
            Opcode::SetList => 34,
            Opcode::Close => 35,
            Opcode::Closure => 36,
            Opcode::VarArg => 37,
            Opcode::NOP => 38,
        }
    }

    /// The opcode whose number is `c`, if there is one.
    pub open spec fn of_code(c: int) -> Option<Opcode> {
        if 0 <= c <= 38 {
            Some(choose|op: Opcode| op.code() == c)
        } else {
            None
        }
    }

    /// Every opcode is found again from its number.
    pub proof fn lemma_of_code(op: Opcode)
        ensures
            0 <= op.code() <= 38,
            Opcode::of_code(op.code()) == Some(op),
    {
        let c = op.code();
        let found = choose|o: Opcode| o.code() == c;
        assert(found.code() == c);
    }

    /// Reads the opcode out of the low six bits of `instr`; `None` where
    /// these bits name no opcode.
    pub fn from_instr(instr: u32) -> (r: Option<Opcode>)
        ensures
            r == Opcode::of_code(word_opcode(instr)),
    {
        let c: u32 = instr & 0x3f;
        assert(c == instr % 64) by (bit_vector)
            requires
                c == instr & 0x3f,
        ;
        let r = if c == 0 {
            Some(Opcode::Move)
        } else if c == 1 {
            Some(Opcode::LoadK)
        } else if c == 2 {
            Some(Opcode::LoadBool)
        } else if c == 3 {
            Some(Opcode::LoadNil)
        } else if c == 4 {
            Some(Opcode::GetUpval)
        } else if c == 5 {
            Some(Opcode::GetGlobal)
        } else if c == 6 {
            Some(Opcode::GetTable)
        } else if c == 7 {
            Some(Opcode::SetGlobal)
        } else if c == 8 {
            Some(Opcode::SetUpval)
        } else if c == 9 {
            Some(Opcode::SetTable)
        } else if c == 10 {
            Some(Opcode::NewTable)
        } else if c == 11 {
            Some(Opcode::Self_)
        } else if c == 12 {
            Some(Opcode::Add)
        } else if c == 13 {
            Some(Opcode::Sub)
        } else if c == 14 {
            Some(Opcode::Mul)
        } else if c == 15 {
            Some(Opcode::Div)
        } else if c == 16 {
            Some(Opcode::Mod)
        } else if c == 17 {
            Some(Opcode::Pow)
        } else if c == 18 {
            Some(Opcode::Unm)
        } else if c == 19 {
            Some(Opcode::Not)
        } else if c == 20 {
            Some(Opcode::Len)
        } else if c == 21 {
            Some(Opcode::Concat)
        } else if c == 22 {
            Some(Opcode::Jump)
        } else if c == 23 {
            Some(Opcode::Eq)
        } else if c == 24 {
            Some(Opcode::Lt)
        } else if c == 25 {
            Some(Opcode::Le)
        } else if c == 26 {
            Some(Opcode::Test)
        } else if c == 27 {
            Some(Opcode::TestSet)
        } else if c == 28 {
            Some(Opcode::Call)
        } else if c == 29 {
            Some(Opcode::TailCall)
        } else if c == 30 {
            Some(Opcode::Return)
        } else if c == 31 {
            Some(Opcode::ForLoop)
        } else if c == 32 {
            Some(Opcode::ForPrep)
        } else if c == 33 {
            Some(Opcode::TForLoop)
        } else if c == 34 {
            Some(Opcode::SetList)
        } else if c == 35 {
            Some(Opcode::Close)
        } else if c == 36 {
            Some(Opcode::Closure)
        } else if c == 37 {
            Some(Opcode::VarArg)
        } else if c == 38 {
            Some(Opcode::NOP)
        } else {
            None
        };
        proof {
            if let Some(op) = r {
                Opcode::lemma_of_code(op);
            }
        }
        r
    }

    /// The number of this opcode, as it stands in a word.
    pub fn to_instr(&self) -> (r: u32)
        ensures
            r == self.code(),
    {
        match self {
            Opcode::Move => 0,
            Opcode::LoadK => 1,
            Opcode::LoadBool => 2,
            Opcode::LoadNil => 3,
            Opcode::GetUpval => 4,
            Opcode::GetGlobal => 5,
            Opcode::GetTable => 6,
            Opcode::SetGlobal => 7,
            Opcode::SetUpval => 8,
            Opcode::SetTable => 9,
            Opcode::NewTable => 10,
            Opcode::Self_ => 11,
            Opcode::Add => 12,
            Opcode::Sub => 13,
            Opcode::Mul => 14,
            Opcode::Div => 15,
            Opcode::Mod => 16,
            Opcode::Pow => 17,
            Opcode::Unm => 18,
            Opcode::Not => 19,
            Opcode::Len => 20,
            Opcode::Concat => 21,
            Opcode::Jump => 22,
            Opcode::Eq => 23,
            Opcode::Lt => 24,
            Opcode::Le => 25,
            Opcode::Test => 26,
            Opcode::TestSet => 27,
            Opcode::Call => 28,
            Opcode::TailCall => 29,
            Opcode::Return => 30,
            Opcode::ForLoop => 31,
            Opcode::ForPrep => 32,
            Opcode::TForLoop => 33,
            Opcode::SetList => 34,
            Opcode::Close => 35,
            Opcode::Closure => 36,
            Opcode::VarArg => 37,
            Opcode::NOP => 38,
        }
    }
}

/// The opcode field of a word: its low six bits.
pub open spec fn word_opcode(w: u32) -> int {
    w as int % 64
}

/// The A field of a word: eight bits above the opcode.
pub open spec fn word_a(w: u32) -> int {
    (w as int / 64) % 256
}

/// The C field of a word: nine bits above A.
pub open spec fn word_c(w: u32) -> int {
    (w as int / 0x4000) % 512
}

/// The B field of a word: the top nine bits.
pub open spec fn word_b(w: u32) -> int {
    w as int / 0x80_0000
}

/// The Bx field of a word: the top eighteen bits.
pub open spec fn word_bx(w: u32) -> int {
    w as int / 0x4000
}

/// The signed reading of Bx, which is stored with a bias of 0x1ffff.
pub open spec fn word_sbx(w: u32) -> int {
    word_bx(w) - 0x1ffff
}

/// A stack slot.
#[derive(Debug, Clone, Copy, PartialEq, Eq, Structural)]
pub struct Reg(pub u8);

/// An index into the constant pool. Inside a [`RegKst`] it is kept as it
/// stands on the wire, 0x100 above the index.
#[derive(Debug, Clone, Copy, PartialEq, Eq, Structural)]
pub struct Kst(pub u32);

/// An operand that names a stack slot or a constant.
#[derive(Debug, Clone, Copy, PartialEq, Eq, Structural)]
pub enum RegKst {
    R(Reg),
    K(Kst),
}

impl RegKst {
    /// The operand as it stands in a nine-bit field.
    pub open spec fn raw(self) -> int {
        match self {
            RegKst::R(r) => r.0 as int,
            RegKst::K(k) => k.0 as int,
        }
    }

    /// The constant that the operand names, if it names one.
    pub open spec fn constant_index(self) -> Option<int> {
        match self {
            RegKst::R(_) => None,
            RegKst::K(k) => if k.0 >= 0x100 {
                Some(k.0 - 0x100)
            } else {
                None
            },
        }
    }

    /// The operand fits its field, and says truly whether it is a constant.
    pub open spec fn wf(self) -> bool {
        match self {
            RegKst::R(_) => true,
            RegKst::K(k) => 0x100 <= k.0 <= 0x1ff,
        }
    }

    /// The operand read from a nine-bit field: a constant above 0xff.
    pub open spec fn of_raw(v: int) -> RegKst {
        if v > 0xff {
            RegKst::K(Kst(v as u32))
        } else {
            RegKst::R(Reg(v as u8))
        }
    }

    pub fn get(&self) -> (v: u32)
        ensures
            v == self.raw(),
    {
        match self {
            RegKst::R(r) => r.0 as u32,
            RegKst::K(kst) => kst.0,
        }
    }

    /// Stores `v` in the operand, which stays of the kind it was. A slot
    /// keeps the low eight bits of `v`.
    pub fn set(&mut self, v: u32)
        ensures
            *old(self) is R ==> *final(self) == RegKst::R(Reg((v % 256) as u8)),
            *old(self) is K ==> *final(self) == RegKst::K(Kst(v)),
    {
        match self {
            RegKst::R(_) => {
                let low: u32 = v & 0xff;
                assert(low == v % 256) by (bit_vector)
                    requires
                        low == v & 0xff,
                ;
                *self = RegKst::R(Reg(low as u8));
            },
            RegKst::K(_) => {
                *self = RegKst::K(Kst(v));
            },
        }
    }
}

pub type Upvalue = u16;

#[derive(Debug, Clone, Copy, PartialEq, Eq, Structural)]
pub enum BinOp {
    Add,
    Sub,
    Mul,
    Div,
    Mod,
    Pow,
}

#[derive(Debug, Clone, Copy, PartialEq, Eq, Structural)]
pub enum UnOp {
    Unm,
    Not,
    Len,
}

#[derive(Debug, Clone, Copy, PartialEq, Eq, Structural)]
pub enum BinCondOp {
    Eq,
    Lt,
    Le,
}

/// An instruction with its operands typed.
#[derive(Debug, Clone, Copy, PartialEq, Eq, Structural)]
pub enum Instr {
    Move(Reg, Reg),
    LoadK(Reg, Kst),
    LoadBool(Reg, bool, bool),
    LoadNil(Reg, Reg),
    GetUpval(Reg, Upvalue),
    GetGlobal(Reg, Kst),
    GetTable(Reg, Reg, RegKst),
    SetGlobal(Reg, Kst),
    SetUpval(Reg, Upvalue),
    SetTable(Reg, RegKst, RegKst),
    NewTable(Reg, Reg, Reg),
    Self_(Reg, Reg, RegKst),
    BinOp(Reg, RegKst, BinOp, RegKst),
    UnOp(Reg, UnOp, Reg),
    Concat(Reg, Reg, Reg),
    Jump(Reg, i32),
    BinCondOp(bool, RegKst, BinCondOp, RegKst),
    Test(Reg, bool),
    TestSet(Reg, Reg, bool),
    Call(Reg, u16, u16),
    TailCall(Reg, u16, u16),
    Return(Reg, u16),
    ForLoop(Reg, i32),
    ForPrep(Reg, i32),
    TForLoop(Reg, u16),
    SetList(Reg, u16, u32),
    Close(Reg),
    Closure(Reg, u32),
    VarArg(Reg, i32),
    NOP,
}

/// The operand fields of an instruction as they are packed into a word.
#[allow(non_camel_case_types)]
#[derive(Debug, Clone, Copy, PartialEq, Eq, Structural)]
pub enum Opmode {
    /// A, B, C.
    iABC(u32, u32, u32),
    /// A, Bx.
    iABx(u32, u32),
    /// A and the signed offset, before the bias is added.
    iAsBx(u32, i32),
    NOP,
}

/// The largest offset that the signed field of a word holds.
pub const MAX_OFFSET: i32 = 0x20000;

/// The smallest offset that the signed field of a word holds.
pub const MIN_OFFSET: i32 = -0x1ffff;

pub open spec fn bool_field(b: bool) -> int {
    if b {
        1
    } else {
        0
    }
}

/// The word that holds `op` in its low bits and the fields of `mode` above,
/// each cut to the width of its field. `None` for the placeholder, which has
/// no wire form.
#[verifier::opaque]
pub open spec fn encode_word(op: Opcode, mode: Opmode) -> Option<u32> {
    match mode {
        Opmode::iABC(a, b, c) => Some(
            (op.code() + 64 * (a % 256) + 0x4000 * (c % 512) + 0x80_0000 * (b % 512)) as u32,
        ),
        Opmode::iABx(a, bx) => Some((op.code() + 64 * (a % 256) + 0x4000 * (bx % 0x4_0000)) as u32),
        Opmode::iAsBx(a, sbx) => Some(
            (op.code() + 64 * (a % 256) + 0x4000 * ((sbx + 0x1ffff) % 0x4_0000)) as u32,
        ),
        Opmode::NOP => None,
    }
}

/// What the fields of the word `w` mean under the opcode `op`.
#[verifier::opaque]
pub open spec fn decode_as(op: Opcode, w: u32, next: Option<u32>) -> Option<Instr> {
    let ra = Reg(word_a(w) as u8);
    let b = word_b(w);
    let c = word_c(w);
    let flag_a = word_a(w) != 0;
    let rb = Reg(b as u8);
    let rc = Reg(c as u8);
    let rkb = RegKst::of_raw(b);
    let rkc = RegKst::of_raw(c);
    let kst = Kst(word_bx(w) as u32);
    let sbx = word_sbx(w) as i32;
    match op {
        Opcode::Move => if b <= 0xff {
            Some(Instr::Move(ra, rb))
        } else {
            None
        },
        Opcode::LoadK => Some(Instr::LoadK(ra, kst)),
        Opcode::LoadBool => Some(Instr::LoadBool(ra, b != 0, c != 0)),
        Opcode::LoadNil => if b <= 0xff {
            Some(Instr::LoadNil(ra, rb))
        } else {
            None
        },
        Opcode::GetUpval => Some(Instr::GetUpval(ra, b as u16)),
        Opcode::GetGlobal => Some(Instr::GetGlobal(ra, kst)),
        Opcode::GetTable => if b <= 0xff {
            Some(Instr::GetTable(ra, rb, rkc))
        } else {
            None
        },
        Opcode::SetGlobal => Some(Instr::SetGlobal(ra, kst)),
        Opcode::SetUpval => Some(Instr::SetUpval(ra, b as u16)),
        Opcode::SetTable => Some(Instr::SetTable(ra, rkb, rkc)),
        Opcode::NewTable => if b <= 0xff && c <= 0xff {
            Some(Instr::NewTable(ra, rb, rc))
        } else {
            None
        },
        Opcode::Self_ => if b <= 0xff {
            Some(Instr::Self_(ra, rb, rkc))
        } else {
            None
        },
        Opcode::Add => Some(Instr::BinOp(ra, rkb, BinOp::Add, rkc)),
        Opcode::Sub => Some(Instr::BinOp(ra, rkb, BinOp::Sub, rkc)),
        Opcode::Mul => Some(Instr::BinOp(ra, rkb, BinOp::Mul, rkc)),
        Opcode::Div => Some(Instr::BinOp(ra, rkb, BinOp::Div, rkc)),
        Opcode::Mod => Some(Instr::BinOp(ra, rkb, BinOp::Mod, rkc)),
        Opcode::Pow => Some(Instr::BinOp(ra, rkb, BinOp::Pow, rkc)),
        Opcode::Unm => if b <= 0xff {
            Some(Instr::UnOp(ra, UnOp::Unm, rb))
        } else {
            None
        },
        Opcode::Not => if b <= 0xff {
            Some(Instr::UnOp(ra, UnOp::Not, rb))
        } else {
            None
        },
        Opcode::Len => if b <= 0xff {
            Some(Instr::UnOp(ra, UnOp::Len, rb))
        } else {
            None
        },
        Opcode::Concat => if b <= 0xff && c <= 0xff {
            Some(Instr::Concat(ra, rb, rc))
        } else {
            None
        },
        Opcode::Jump => Some(Instr::Jump(ra, sbx)),
        Opcode::Eq => Some(Instr::BinCondOp(flag_a, rkb, BinCondOp::Eq, rkc)),
        Opcode::Lt => Some(Instr::BinCondOp(flag_a, rkb, BinCondOp::Lt, rkc)),
        Opcode::Le => Some(Instr::BinCondOp(flag_a, rkb, BinCondOp::Le, rkc)),
        Opcode::Test => Some(Instr::Test(ra, c != 0)),
        Opcode::TestSet => if b <= 0xff {
            Some(Instr::TestSet(ra, rb, c != 0))
        } else {
            None
        },
        Opcode::Call => Some(Instr::Call(ra, b as u16, c as u16)),
        Opcode::TailCall => Some(Instr::TailCall(ra, b as u16, c as u16)),
        Opcode::Return => Some(Instr::Return(ra, b as u16)),
        Opcode::ForLoop => Some(Instr::ForLoop(ra, sbx)),
        Opcode::ForPrep => Some(Instr::ForPrep(ra, sbx)),
        Opcode::TForLoop => Some(Instr::TForLoop(ra, c as u16)),
        Opcode::SetList => if c != 0 {
            Some(Instr::SetList(ra, b as u16, c as u32))
        } else {
            match next {
                Some(n) => Some(Instr::SetList(ra, b as u16, n)),
                None => None,
            }
        },
        Opcode::Close => Some(Instr::Close(ra)),
        Opcode::Closure => Some(Instr::Closure(ra, word_bx(w) as u32)),
        Opcode::VarArg => Some(Instr::VarArg(ra, b as i32)),
        Opcode::NOP => Some(Instr::NOP),
    }
}

impl Instr {
    /// The opcode under which this instruction is written.
    pub open spec fn spec_opcode(self) -> Opcode {
        match self {
            Instr::Move(..) => Opcode::Move,
            Instr::LoadK(..) => Opcode::LoadK,
            Instr::LoadBool(..) => Opcode::LoadBool,
            Instr::LoadNil(..) => Opcode::LoadNil,
            Instr::GetUpval(..) => Opcode::GetUpval,
            Instr::GetGlobal(..) => Opcode::GetGlobal,
            Instr::GetTable(..) => Opcode::GetTable,
            Instr::SetGlobal(..) => Opcode::SetGlobal,
            Instr::SetUpval(..) => Opcode::SetUpval,
            Instr::SetTable(..) => Opcode::SetTable,
            Instr::NewTable(..) => Opcode::NewTable,
            Instr::Self_(..) => Opcode::Self_,
            Instr::BinOp(_, _, op, _) => match op {
                BinOp::Add => Opcode::Add,
                BinOp::Sub => Opcode::Sub,
                BinOp::Mul => Opcode::Mul,
                BinOp::Div => Opcode::Div,
                BinOp::Mod => Opcode::Mod,
                BinOp::Pow => Opcode::Pow,
            },
            Instr::UnOp(_, op, _) => match op {
                UnOp::Unm => Opcode::Unm,
                UnOp::Not => Opcode::Not,
                UnOp::Len => Opcode::Len,
            },
            Instr::Concat(..) => Opcode::Concat,
            Instr::Jump(..) => Opcode::Jump,
            Instr::BinCondOp(_, _, op, _) => match op {
                BinCondOp::Eq => Opcode::Eq,
                BinCondOp::Lt => Opcode::Lt,
                BinCondOp::Le => Opcode::Le,
            },
            Instr::Test(..) => Opcode::Test,
            Instr::TestSet(..) => Opcode::TestSet,
            Instr::Call(..) => Opcode::Call,
            Instr::TailCall(..) => Opcode::TailCall,
            Instr::Return(..) => Opcode::Return,
            Instr::ForLoop(..) => Opcode::ForLoop,
            Instr::ForPrep(..) => Opcode::ForPrep,
            Instr::TForLoop(..) => Opcode::TForLoop,
            Instr::SetList(..) => Opcode::SetList,
            Instr::Close(..) => Opcode::Close,
            Instr::Closure(..) => Opcode::Closure,
            Instr::VarArg(..) => Opcode::VarArg,
            Instr::NOP => Opcode::NOP,
        }
    }

    /// The operand fields of this instruction. A list count above 0x1ff does
    /// not fit field C: C is then 0, and the count is the word that follows.
    pub open spec fn spec_opmode(self) -> Opmode {
        match self {
            Instr::Move(a, b) | Instr::LoadNil(a, b) => Opmode::iABC(a.0 as u32, b.0 as u32, 0),
            Instr::LoadK(a, k) | Instr::GetGlobal(a, k) | Instr::SetGlobal(a, k) => Opmode::iABx(
                a.0 as u32,
                k.0,
            ),
            Instr::LoadBool(a, b, c) => Opmode::iABC(
                a.0 as u32,
                bool_field(b) as u32,
                bool_field(c) as u32,
            ),
            Instr::GetUpval(a, b) | Instr::SetUpval(a, b) => Opmode::iABC(a.0 as u32, b as u32, 0),
            Instr::GetTable(a, b, c) | Instr::Self_(a, b, c) => Opmode::iABC(
                a.0 as u32,
                b.0 as u32,
                c.raw() as u32,
            ),
            Instr::SetTable(a, b, c) | Instr::BinOp(a, b, _, c) => Opmode::iABC(
                a.0 as u32,
                b.raw() as u32,
                c.raw() as u32,
            ),
            Instr::NewTable(a, b, c) | Instr::Concat(a, b, c) => Opmode::iABC(
                a.0 as u32,
                b.0 as u32,
                c.0 as u32,
            ),
            Instr::UnOp(a, _, b) => Opmode::iABC(a.0 as u32, b.0 as u32, 0),
            Instr::Jump(a, b) | Instr::ForLoop(a, b) | Instr::ForPrep(a, b) => Opmode::iAsBx(
                a.0 as u32,
                b,
            ),
            Instr::BinCondOp(a, b, _, c) => Opmode::iABC(
                bool_field(a) as u32,
                b.raw() as u32,
                c.raw() as u32,
            ),
            Instr::Test(a, c) => Opmode::iABC(a.0 as u32, 0, bool_field(c) as u32),
            Instr::TestSet(a, b, c) => Opmode::iABC(a.0 as u32, b.0 as u32, bool_field(c) as u32),
            Instr::Call(a, b, c) | Instr::TailCall(a, b, c) => Opmode::iABC(
                a.0 as u32,
                b as u32,
                c as u32,
            ),
            Instr::Return(a, b) => Opmode::iABC(a.0 as u32, b as u32, 0),
            Instr::TForLoop(a, c) => Opmode::iABC(a.0 as u32, 0, c as u32),
            Instr::SetList(a, b, c) => Opmode::iABC(
                a.0 as u32,
                b as u32,
                if c <= 0x1ff {
                    c
                } else {
                    0
                },
            ),
            Instr::Close(a) => Opmode::iABC(a.0 as u32, 0, 0),
            Instr::Closure(a, b) => Opmode::iABx(a.0 as u32, b),
            Instr::VarArg(a, b) => Opmode::iABC(
                a.0 as u32,
                if 0 <= b <= 0x1ff {
                    b as u32
                } else {
                    0
                },
                0,
            ),
            Instr::NOP => Opmode::NOP,
        }
    }

    /// Every operand fits the field that carries it, so that the word of
    /// this instruction gives it back. The placeholder has no word.
    pub open spec fn wf(self) -> bool {
        match self {
            Instr::LoadK(_, k) | Instr::GetGlobal(_, k) | Instr::SetGlobal(_, k) => k.0 < 0x4_0000,
            Instr::GetUpval(_, b) | Instr::SetUpval(_, b) => b <= 0x1ff,
            Instr::GetTable(_, _, c) | Instr::Self_(_, _, c) => c.wf(),
            Instr::SetTable(_, b, c) | Instr::BinOp(_, b, _, c) | Instr::BinCondOp(_, b, _, c) => b.wf()
                && c.wf(),
            Instr::Jump(_, b) | Instr::ForLoop(_, b) | Instr::ForPrep(_, b) => MIN_OFFSET <= b
                <= MAX_OFFSET,
            Instr::Call(_, b, c) | Instr::TailCall(_, b, c) => b <= 0x1ff && c <= 0x1ff,
            Instr::Return(_, b) => b <= 0x1ff,
            Instr::TForLoop(_, c) => c <= 0x1ff,
            Instr::SetList(_, b, c) => b <= 0x1ff && c != 0,
            Instr::Closure(_, b) => b < 0x4_0000,
            Instr::VarArg(_, b) => 0 <= b <= 0x1ff,
            Instr::NOP => false,
            _ => true,
        }
    }

    /// The word that must follow this instruction: the count of a list
    /// store that does not fit field C.
    pub open spec fn extension(self) -> Option<u32> {
        match self {
            Instr::SetList(_, _, c) => if c > 0x1ff {
                Some(c)
            } else {
                None
            },
            _ => None,
        }
    }

    /// What the word `w` decodes to when `next` is the word after it.
    /// `None` where the opcode is unknown, where a field that names a stack
    /// slot is above 0xff, and where a list store refers to a following word
    /// that is not there.
    pub open spec fn decode(w: u32, next: Option<u32>) -> Option<Instr> {
        match Opcode::of_code(word_opcode(w)) {
            None => None,
            Some(op) => decode_as(op, w, next),
        }
    }
}

struct Abc(u8, u16, u16);

impl Abc {
    fn bool_a(&self) -> (r: bool)
        ensures
            r == (self.0 != 0),
    {
        self.0 != 0
    }

    fn bool_b(&self) -> (r: bool)
        ensures
            r == (self.1 != 0),
    {
        self.1 != 0
    }

    fn bool_c(&self) -> (r: bool)
        ensures
            r == (self.2 != 0),
    {
        self.2 != 0
    }

    fn reg_a(&self) -> (r: Reg)
        ensures
            r == Reg(self.0),
    {
        Reg(self.0)
    }

    fn reg_b(&self) -> (r: Result<Reg, Error>)
        ensures
            self.1 <= 0xff ==> r == Ok::<Reg, Error>(Reg(self.1 as u8)),
            self.1 > 0xff ==> r == Err::<Reg, Error>(Error::FormatError),
    {
        if self.1 <= 0xff {
            Ok(Reg(self.1 as u8))
        } else {
            Err(Error::FormatError)
        }
    }

    fn reg_c(&self) -> (r: Result<Reg, Error>)
        ensures
            self.2 <= 0xff ==> r == Ok::<Reg, Error>(Reg(self.2 as u8)),
            self.2 > 0xff ==> r == Err::<Reg, Error>(Error::FormatError),
    {
        if self.2 <= 0xff {
            Ok(Reg(self.2 as u8))
        } else {
            Err(Error::FormatError)
        }
    }

    fn rk_b(&self) -> (r: RegKst)
        ensures
            r == RegKst::of_raw(self.1 as int),
    {
        if self.1 > 0xff {
            RegKst::K(Kst(self.1 as u32))
        } else {
            RegKst::R(Reg(self.1 as u8))
        }
    }

    fn rk_c(&self) -> (r: RegKst)
        ensures
            r == RegKst::of_raw(self.2 as int),
    {
        if self.2 > 0xff {
            RegKst::K(Kst(self.2 as u32))
        } else {
            RegKst::R(Reg(self.2 as u8))
        }
    }
}

#[allow(non_snake_case)]
fn ABC(instr: u32) -> (r: Abc)
    ensures
        r.0 == word_a(instr),
        r.1 == word_b(instr),
        r.2 == word_c(instr),
{
    Abc((instr / 64 % 256) as u8, (instr / 0x80_0000) as u16, (instr / 0x4000 % 512) as u16)
}

struct Abx(u8, u32);

impl Abx {
    fn kst(&self) -> (r: Kst)
        ensures
            r == Kst(self.1),
    {
        Kst(self.1)
    }
}

#[allow(non_snake_case)]
fn ABx(instr: u32) -> (r: Abx)
    ensures
        r.0 == word_a(instr),
        r.1 == word_bx(instr),
{
    Abx((instr / 64 % 256) as u8, instr / 0x4000)
}

struct Asbx(u8, i32);

#[allow(non_snake_case)]
fn AsBx(instr: u32) -> (r: Asbx)
    ensures
        r.0 == word_a(instr),
        r.1 == word_sbx(instr),
        MIN_OFFSET <= r.1 <= MAX_OFFSET,
{
    Asbx((instr / 64 % 256) as u8, (instr / 0x4000) as i32 - 0x1ffff)
}

fn flag(b: bool) -> (r: u32)
    ensures
        r == bool_field(b),
{
    if b {
        1
    } else {
        0
    }
}

impl Instr {
    /// Decodes the fields of `opmode` under the opcode `op`, with no word
    /// following.
    pub fn from_opmode(op: Opcode, opmode: Opmode) -> (r: Result<Instr, Error>)
        ensures
            match encode_word(op, opmode) {
                None => r == Ok::<Instr, Error>(Instr::NOP),
                Some(w) => match Instr::decode(w, None) {
                    Some(i) => r == Ok::<Instr, Error>(i),
                    None => r == Err::<Instr, Error>(Error::FormatError),
                },
            },
    {
        proof {
            reveal(encode_word);
        }
        if let Opmode::NOP = opmode {
            return Ok(Instr::NOP);
        }
        let serialized = Instruction(op, Instr::NOP, opmode, 0).serialize();
        Instr::from_instr(serialized, None)
    }

    /// Decodes the word `instr`; `next_instr` is the word after it, which a
    /// list store with field C at 0 takes as its count.
    pub fn from_instr(instr: u32, next_instr: Option<&u32>) -> (r: Result<Instr, Error>)
        ensures
            match Instr::decode(
                instr,
                match next_instr {
                    Some(n) => Some(*n),
                    None => None,
                },
            ) {
                Some(i) => r == Ok::<Instr, Error>(i),
                None => r == Err::<Instr, Error>(Error::FormatError),
            },
    {
        proof {
            reveal(decode_as);
        }
        let op = match Opcode::from_instr(instr) {
            Some(op) => op,
            None => {
                return Err(Error::FormatError);
            },
        };
        let abc = ABC(instr);
        let abx = ABx(instr);
        let asbx = AsBx(instr);
        let r = match op {
            Opcode::Move => Instr::Move(abc.reg_a(), abc.reg_b()?),
            Opcode::LoadK => Instr::LoadK(abc.reg_a(), abx.kst()),
            Opcode::LoadBool => Instr::LoadBool(abc.reg_a(), abc.bool_b(), abc.bool_c()),
            Opcode::LoadNil => Instr::LoadNil(abc.reg_a(), abc.reg_b()?),
            Opcode::GetUpval => Instr::GetUpval(abc.reg_a(), abc.1),
            Opcode::GetGlobal => Instr::GetGlobal(abc.reg_a(), abx.kst()),
            Opcode::GetTable => Instr::GetTable(abc.reg_a(), abc.reg_b()?, abc.rk_c()),
            Opcode::SetGlobal => Instr::SetGlobal(abc.reg_a(), abx.kst()),
            Opcode::SetUpval => Instr::SetUpval(abc.reg_a(), abc.1),
            Opcode::SetTable => Instr::SetTable(abc.reg_a(), abc.rk_b(), abc.rk_c()),
            Opcode::NewTable => {
                let b = abc.reg_b()?;
                Instr::NewTable(abc.reg_a(), b, abc.reg_c()?)
            },
            Opcode::Self_ => Instr::Self_(abc.reg_a(), abc.reg_b()?, abc.rk_c()),
            Opcode::Add => Instr::BinOp(abc.reg_a(), abc.rk_b(), BinOp::Add, abc.rk_c()),
            Opcode::Sub => Instr::BinOp(abc.reg_a(), abc.rk_b(), BinOp::Sub, abc.rk_c()),
            Opcode::Mul => Instr::BinOp(abc.reg_a(), abc.rk_b(), BinOp::Mul, abc.rk_c()),
            Opcode::Div => Instr::BinOp(abc.reg_a(), abc.rk_b(), BinOp::Div, abc.rk_c()),
            Opcode::Mod => Instr::BinOp(abc.reg_a(), abc.rk_b(), BinOp::Mod, abc.rk_c()),
            Opcode::Pow => Instr::BinOp(abc.reg_a(), abc.rk_b(), BinOp::Pow, abc.rk_c()),
            Opcode::Unm => Instr::UnOp(abc.reg_a(), UnOp::Unm, abc.reg_b()?),
            Opcode::Not => Instr::UnOp(abc.reg_a(), UnOp::Not, abc.reg_b()?),
            Opcode::Len => Instr::UnOp(abc.reg_a(), UnOp::Len, abc.reg_b()?),
            Opcode::Concat => {
                let b = abc.reg_b()?;
                Instr::Concat(abc.reg_a(), b, abc.reg_c()?)
            },
            Opcode::Jump => Instr::Jump(abc.reg_a(), asbx.1),
            Opcode::Eq => Instr::BinCondOp(abc.bool_a(), abc.rk_b(), BinCondOp::Eq, abc.rk_c()),
            Opcode::Lt => Instr::BinCondOp(abc.bool_a(), abc.rk_b(), BinCondOp::Lt, abc.rk_c()),
            Opcode::Le => Instr::BinCondOp(abc.bool_a(), abc.rk_b(), BinCondOp::Le, abc.rk_c()),
            Opcode::Test => Instr::Test(abc.reg_a(), abc.bool_c()),
            Opcode::TestSet => Instr::TestSet(abc.reg_a(), abc.reg_b()?, abc.bool_c()),
            Opcode::Call => Instr::Call(abc.reg_a(), abc.1, abc.2),
            Opcode::TailCall => Instr::TailCall(abc.reg_a(), abc.1, abc.2),
            Opcode::Return => Instr::Return(abc.reg_a(), abc.1),
            Opcode::ForLoop => Instr::ForLoop(abc.reg_a(), asbx.1),
            Opcode::ForPrep => Instr::ForPrep(abc.reg_a(), asbx.1),
            Opcode::TForLoop => Instr::TForLoop(abc.reg_a(), abc.2),
            Opcode::SetList => {
                let set: u32 = if abc.2 == 0 {
                    match next_instr {
                        Some(n) => *n,
                        None => {
                            return Err(Error::FormatError);
                        },
                    }
                } else {
                    abc.2 as u32
                };
                Instr::SetList(abc.reg_a(), abc.1, set)
            },
            Opcode::Close => Instr::Close(abc.reg_a()),
            Opcode::Closure => Instr::Closure(abc.reg_a(), abx.1),
            Opcode::VarArg => Instr::VarArg(abc.reg_a(), abc.1 as i32),
            Opcode::NOP => Instr::NOP,
        };
        Ok(r)
    }

    /// The opcode under which this instruction is written.
    pub fn opcode(&self) -> (r: Opcode)
        ensures
            r == self.spec_opcode(),
    {
        match self {
            Instr::Move(..) => Opcode::Move,
            Instr::LoadK(..) => Opcode::LoadK,
            Instr::LoadBool(..) => Opcode::LoadBool,
            Instr::LoadNil(..) => Opcode::LoadNil,
            Instr::GetUpval(..) => Opcode::GetUpval,
            Instr::GetGlobal(..) => Opcode::GetGlobal,
            Instr::GetTable(..) => Opcode::GetTable,
            Instr::SetGlobal(..) => Opcode::SetGlobal,
            Instr::SetUpval(..) => Opcode::SetUpval,
            Instr::SetTable(..) => Opcode::SetTable,
            Instr::NewTable(..) => Opcode::NewTable,
            Instr::Self_(..) => Opcode::Self_,
            Instr::BinOp(_, _, op, _) => match op {
                BinOp::Add => Opcode::Add,
                BinOp::Sub => Opcode::Sub,
                BinOp::Mul => Opcode::Mul,
                BinOp::Div => Opcode::Div,
                BinOp::Mod => Opcode::Mod,
                BinOp::Pow => Opcode::Pow,
            },
            Instr::UnOp(_, op, _) => match op {
                UnOp::Unm => Opcode::Unm,
                UnOp::Not => Opcode::Not,
                UnOp::Len => Opcode::Len,
            },
            Instr::Concat(..) => Opcode::Concat,
            Instr::Jump(..) => Opcode::Jump,
            Instr::BinCondOp(_, _, op, _) => match op {
                BinCondOp::Eq => Opcode::Eq,
                BinCondOp::Lt => Opcode::Lt,
                BinCondOp::Le => Opcode::Le,
            },
            Instr::Test(..) => Opcode::Test,
            Instr::TestSet(..) => Opcode::TestSet,
            Instr::Call(..) => Opcode::Call,
            Instr::TailCall(..) => Opcode::TailCall,
            Instr::Return(..) => Opcode::Return,
            Instr::ForLoop(..) => Opcode::ForLoop,
            Instr::ForPrep(..) => Opcode::ForPrep,
            Instr::TForLoop(..) => Opcode::TForLoop,
            Instr::SetList(..) => Opcode::SetList,
            Instr::Close(..) => Opcode::Close,
            Instr::Closure(..) => Opcode::Closure,
            Instr::VarArg(..) => Opcode::VarArg,
            Instr::NOP => Opcode::NOP,
        }
    }

    pub fn get_opmode(&self) -> (r: Opmode)
        ensures
            r == self.spec_opmode(),
    {
        match self {
            Instr::Move(a, b) | Instr::LoadNil(a, b) => Opmode::iABC(a.0 as u32, b.0 as u32, 0),
            Instr::LoadK(a, kst) | Instr::GetGlobal(a, kst) | Instr::SetGlobal(a, kst) => Opmode::iABx(
                a.0 as u32,
                kst.0,
            ),
            Instr::LoadBool(a, b, c) => Opmode::iABC(a.0 as u32, flag(*b), flag(*c)),
            Instr::GetUpval(a, b) => Opmode::iABC(a.0 as u32, *b as u32, 0),
            Instr::GetTable(a, b, c) | Instr::Self_(a, b, c) => Opmode::iABC(
                a.0 as u32,
                b.0 as u32,
                c.get(),
            ),
            Instr::SetUpval(a, b) => Opmode::iABC(a.0 as u32, *b as u32, 0),
            Instr::SetTable(a, b, c) => Opmode::iABC(a.0 as u32, b.get(), c.get()),
            Instr::NewTable(a, b, c) => Opmode::iABC(a.0 as u32, b.0 as u32, c.0 as u32),
            Instr::BinOp(a, b, _, c) => Opmode::iABC(a.0 as u32, b.get(), c.get()),
            Instr::UnOp(a, _, b) => Opmode::iABC(a.0 as u32, b.0 as u32, 0),
            Instr::Concat(a, b, c) => Opmode::iABC(a.0 as u32, b.0 as u32, c.0 as u32),
            Instr::Jump(a, b) => Opmode::iAsBx(a.0 as u32, *b),
            Instr::BinCondOp(a, b, _, c) => Opmode::iABC(flag(*a), b.get(), c.get()),
            Instr::Test(a, c) => Opmode::iABC(a.0 as u32, 0, flag(*c)),
            Instr::TestSet(a, b, c) => Opmode::iABC(a.0 as u32, b.0 as u32, flag(*c)),
            Instr::Call(a, b, c) | Instr::TailCall(a, b, c) => Opmode::iABC(
                a.0 as u32,
                *b as u32,
                *c as u32,
            ),
            Instr::Return(a, b) => Opmode::iABC(a.0 as u32, *b as u32, 0),
            Instr::TForLoop(a, b) => Opmode::iABC(a.0 as u32, 0, *b as u32),
            Instr::ForLoop(a, b) | Instr::ForPrep(a, b) => Opmode::iAsBx(a.0 as u32, *b),
            Instr::SetList(a, b, c) => Opmode::iABC(
                a.0 as u32,
                *b as u32,
                if *c <= 0x1ff {
                    *c
                } else {
                    0
                },
            ),
            Instr::Close(a) => Opmode::iABC(a.0 as u32, 0, 0),
            Instr::Closure(a, b) => Opmode::iABx(a.0 as u32, *b),
            Instr::VarArg(a, b) => Opmode::iABC(
                a.0 as u32,
                if 0 <= *b && *b <= 0x1ff {
                    *b as u32
                } else {
                    0
                },
                0,
            ),
            Instr::NOP => Opmode::NOP,
        }
    }
}

/// The number that follows `n`. After the greatest number they start again
/// at 0, as a machine word does.
pub open spec fn following(n: usize) -> usize {
    if n == usize::MAX {
        0usize
    } else {
        (n + 1) as usize
    }
}

/// The number that is issued `k` numbers after `n`.
pub open spec fn advanced(n: usize, k: nat) -> usize
    decreases k,
{
    if k == 0 {
        n
    } else {
        following(advanced(n, (k - 1) as nat))
    }
}

/// The source of the numbers by which instructions are told apart. A
/// program keeps one source for all the instructions that it makes. The
/// numbers grow, and none is issued twice, until the greatest number that
/// a machine word holds was issued; after it the numbers start again at 0.
#[derive(Debug)]
pub struct Ids {
    next: usize,
}

impl Ids {
    /// The number that is issued next.
    pub closed spec fn next(&self) -> usize {
        self.next
    }

    /// A source whose first number is 1.
    pub fn new() -> (r: Self)
        ensures
            r.next() == 1,
    {
        Ids { next: 1 }
    }

    /// Issues a number.
    pub fn get_id(&mut self) -> (id: usize)
        ensures
            id == old(self).next(),
            final(self).next() == following(old(self).next()),
    {
        let id = self.next;
        if id == usize::MAX {
            self.next = 0;
        } else {
            self.next = id + 1;
        }
        id
    }
}

/// Until the greatest number is reached, the number issued `k` numbers
/// after `n` is `n + k`.
pub proof fn lemma_advanced(n: usize, k: nat)
    requires
        n + k <= usize::MAX,
    ensures
        advanced(n, k) == n + k,
    decreases k,
{
    if k > 0 {
        lemma_advanced(n, (k - 1) as nat);
    }
}

/// Until the greatest number is reached, a number that is issued later is
/// greater: of the numbers issued from `n` on, the one at `j` is less than
/// the one at `k`, which comes after it.
pub proof fn lemma_numbers_grow(n: usize, j: nat, k: nat)
    requires
        j < k,
        n + k <= usize::MAX,
    ensures
        advanced(n, j) < advanced(n, k),
{
    lemma_advanced(n, j);
    lemma_advanced(n, k);
}

/// The number issued `k` numbers after `n` is `n + k`, less the count of
/// all numbers where that lies beyond the greatest.
pub proof fn lemma_advanced_round(n: usize, k: nat)
    requires
        k <= usize::MAX,
    ensures
        advanced(n, k) == if n + k <= usize::MAX {
            n + k
        } else {
            n + k - usize::MAX - 1
        },
    decreases k,
{
    if k > 0 {
        lemma_advanced_round(n, (k - 1) as nat);
    }
}

/// No number is issued twice before all numbers were issued once: of the
/// numbers issued from `n` on, those at `j` and at `k` differ.
pub proof fn lemma_numbers_distinct(n: usize, j: nat, k: nat)
    requires
        j < k <= usize::MAX,
    ensures
        advanced(n, j) != advanced(n, k),
{
    lemma_advanced_round(n, j);
    lemma_advanced_round(n, k);
}

/// More numbers issued after some were issued: `b` numbers after the
/// number that comes `a` numbers after `n` comes the number `a + b` after
/// `n`.
pub proof fn lemma_advanced_on(n: usize, a: nat, b: nat)
    ensures
        advanced(advanced(n, a), b) == advanced(n, a + b),
    decreases b,
{
    if b > 0 {
        lemma_advanced_on(n, a, (b - 1) as nat);
        assert(a + b - 1 == a + (b - 1));
    }
}

/// An instruction as a prototype holds it: the opcode, the typed operands,
/// the operand fields as last packed, and the number that was issued for
/// the instruction when it was made. The number stays with the instruction
/// wherever it is moved.
#[derive(Debug, Clone, Copy, PartialEq, Eq, Structural)]
pub struct Instruction(pub Opcode, pub Instr, pub Opmode, pub usize);

impl Instruction {
    /// The opcode and the packed fields are those of the typed operands.
    pub open spec fn wf(self) -> bool {
        self.0 == self.1.spec_opcode() && self.2 == self.1.spec_opmode()
    }

    /// The word of this instruction, from its opcode and packed fields.
    pub open spec fn word(self) -> Option<u32> {
        encode_word(self.0, self.2)
    }

    /// The instruction without its number, in whose place 0 stands.
    pub open spec fn unnumbered(self) -> Instruction {
        Instruction(self.0, self.1, self.2, 0)
    }

    /// Makes an instruction, under the next number of `ids`.
    pub fn new(op: Opcode, instr: Instr, ids: &mut Ids) -> (r: Self)
        ensures
            r == Instruction(op, instr, instr.spec_opmode(), old(ids).next()),
            final(ids).next() == following(old(ids).next()),
    {
        let mode = instr.get_opmode();
        let id = ids.get_id();
        Self(op, instr, mode, id)
    }

    /// Makes the instruction that the word `instr` is written for, under
    /// the next number of `ids`. Where the word is none, no number is
    /// issued.
    pub fn from_instr(instr: u32, next_instr: Option<&u32>, ids: &mut Ids) -> (r: Result<
        Self,
        Error,
    >)
        ensures
            match Instr::decode(
                instr,
                match next_instr {
                    Some(n) => Some(*n),
                    None => None,
                },
            ) {
                Some(i) => r == Ok::<Instruction, Error>(
                    Instruction(i.spec_opcode(), i, i.spec_opmode(), old(ids).next()),
                ) && final(ids).next() == following(old(ids).next()),
                None => r == Err::<Instruction, Error>(Error::FormatError) && final(ids).next()
                    == old(ids).next(),
            },
    {
        let inst = Instr::from_instr(instr, next_instr)?;
        let mode = inst.get_opmode();
        let id = ids.get_id();
        Ok(Self(inst.opcode(), inst, mode, id))
    }

    /// The word of this instruction. The placeholder has none.
    pub fn serialize(&self) -> (w: u32)
        requires
            !(self.2 is NOP),
        ensures
            Some(w) == self.word(),
    {
        proof {
            reveal(encode_word);
        }
        let op = self.0.to_instr();
        match self.2 {
            Opmode::iABC(a, b, c) => op + 64 * (a % 256) + 0x4000 * (c % 512) + 0x80_0000 * (b
                % 512),
            Opmode::iABx(a, bx) => op + 64 * (a % 256) + 0x4000 * (bx % 0x4_0000),
            Opmode::iAsBx(a, sbx) => {
                let lifted: i64 = sbx as i64 + 0x1ffff + 0x8000_0000;
                let biased: u32 = (lifted % 0x4_0000) as u32;
                assert(biased == (sbx + 0x1ffff) % 0x4_0000);
                op + 64 * (a % 256) + 0x4000 * biased
            },
            Opmode::NOP => 0,
        }
    }
}

/// The instructions of `code` without their numbers.
pub open spec fn unnumbered_code(code: Seq<Instruction>) -> Seq<Instruction> {
    Seq::new(code.len(), |i: int| code[i].unnumbered())
}

/// The fields of `mode` are within the widths of the fields of a word.
pub open spec fn mode_fits(mode: Opmode) -> bool {
    match mode {
        Opmode::iABC(a, b, c) => a < 256 && b < 512 && c < 512,
        Opmode::iABx(a, bx) => a < 256 && bx < 0x4_0000,
        Opmode::iAsBx(a, sbx) => a < 256 && MIN_OFFSET <= sbx <= MAX_OFFSET,
        Opmode::NOP => false,
    }
}

/// The fields of `mode` are those of the word `w`.
pub open spec fn mode_of_word(mode: Opmode, w: u32) -> bool {
    match mode {
        Opmode::iABC(a, b, c) => word_a(w) == a && word_b(w) == b && word_c(w) == c,
        Opmode::iABx(a, bx) => word_a(w) == a && word_bx(w) == bx,
        Opmode::iAsBx(a, sbx) => word_a(w) == a && word_sbx(w) == sbx,
        Opmode::NOP => false,
    }
}

/// The fields of a word that is the sum of an opcode number and three
/// fields, each at its place, are these four.
proof fn lemma_fields_abc(w: u32, op: int, a: int, b: int, c: int)
    requires
        0 <= op < 64,
        0 <= a < 256,
        0 <= b < 512,
        0 <= c < 512,
        w == op + 64 * a + 0x4000 * c + 0x80_0000 * b,
    ensures
        word_opcode(w) == op,
        word_a(w) == a,
        word_b(w) == b,
        word_c(w) == c,
{
}

proof fn lemma_fields_abx(w: u32, op: int, a: int, bx: int)
    requires
        0 <= op < 64,
        0 <= a < 256,
        0 <= bx < 0x4_0000,
        w == op + 64 * a + 0x4000 * bx,
    ensures
        word_opcode(w) == op,
        word_a(w) == a,
        word_bx(w) == bx,
{
}

/// A word packed from fields that fit holds them unchanged.
pub proof fn lemma_word_fields(op: Opcode, mode: Opmode)
    requires
        mode_fits(mode),
    ensures
        encode_word(op, mode) is Some,
        word_opcode(encode_word(op, mode)->0) == op.code(),
        mode_of_word(mode, encode_word(op, mode)->0),
{
    reveal(encode_word);
    let code = op.code();
    assert(0 <= code <= 38) by {
        Opcode::lemma_of_code(op);
    }
    let w = encode_word(op, mode)->0;
    match mode {
        Opmode::iABC(a, b, c) => {
            let sum = code + 64 * (a as int) + 0x4000 * (c as int) + 0x80_0000 * (b as int);
            assert(w == sum);
            lemma_fields_abc(w, code, a as int, b as int, c as int);
        },
        Opmode::iABx(a, bx) => {
            let sum = code + 64 * (a as int) + 0x4000 * (bx as int);
            assert(w == sum);
            lemma_fields_abx(w, code, a as int, bx as int);
        },
        Opmode::iAsBx(a, sbx) => {
            let sum = code + 64 * (a as int) + 0x4000 * (sbx + 0x1ffff);
            assert(w == sum);
            lemma_fields_abx(w, code, a as int, sbx + 0x1ffff);
        },
        Opmode::NOP => {},
    }
}

/// The packed fields of an instruction whose operands fit are within the
/// widths of their fields.
pub proof fn lemma_fields_fit(i: Instr)
    requires
        i.wf(),
    ensures
        mode_fits(i.spec_opmode()),
{
}

/// Under its own opcode, a word that holds the packed fields of an
/// instruction decodes to that instruction.
pub proof fn lemma_decode_as(i: Instr, w: u32, next: Option<u32>)
    requires
        i.wf(),
        i.extension() is Some ==> next == i.extension(),
        mode_of_word(i.spec_opmode(), w),
    ensures
        decode_as(i.spec_opcode(), w, next) == Some(i),
{
    reveal(decode_as);
    match i {
        Instr::Move(..) => {
            assert(decode_as(i.spec_opcode(), w, next) == Some(i));
        },
        Instr::LoadK(..) => {
            assert(decode_as(i.spec_opcode(), w, next) == Some(i));
        },
        Instr::LoadBool(..) => {
            assert(decode_as(i.spec_opcode(), w, next) == Some(i));
        },
        Instr::LoadNil(..) => {
            assert(decode_as(i.spec_opcode(), w, next) == Some(i));
        },
        Instr::GetUpval(..) => {
            assert(decode_as(i.spec_opcode(), w, next) == Some(i));
        },
        Instr::GetGlobal(..) => {
            assert(decode_as(i.spec_opcode(), w, next) == Some(i));
        },
        Instr::GetTable(..) => {
            assert(decode_as(i.spec_opcode(), w, next) == Some(i));
        },
        Instr::SetGlobal(..) => {
            assert(decode_as(i.spec_opcode(), w, next) == Some(i));
        },
        Instr::SetUpval(..) => {
            assert(decode_as(i.spec_opcode(), w, next) == Some(i));
        },
        Instr::SetTable(..) => {
            assert(decode_as(i.spec_opcode(), w, next) == Some(i));
        },
        Instr::NewTable(..) => {
            assert(decode_as(i.spec_opcode(), w, next) == Some(i));
        },
        Instr::Self_(..) => {
            assert(decode_as(i.spec_opcode(), w, next) == Some(i));
        },
        Instr::BinOp(..) => {
            assert(decode_as(i.spec_opcode(), w, next) == Some(i));
        },
        Instr::UnOp(..) => {
            assert(decode_as(i.spec_opcode(), w, next) == Some(i));
        },
        Instr::Concat(..) => {
            assert(decode_as(i.spec_opcode(), w, next) == Some(i));
        },
        Instr::Jump(..) => {
            assert(decode_as(i.spec_opcode(), w, next) == Some(i));
        },
        Instr::BinCondOp(..) => {
            assert(decode_as(i.spec_opcode(), w, next) == Some(i));
        },
        Instr::Test(..) => {
            assert(decode_as(i.spec_opcode(), w, next) == Some(i));
        },
        Instr::TestSet(..) => {
            assert(decode_as(i.spec_opcode(), w, next) == Some(i));
        },
        Instr::Call(..) => {
            assert(decode_as(i.spec_opcode(), w, next) == Some(i));
        },
        Instr::TailCall(..) => {
            assert(decode_as(i.spec_opcode(), w, next) == Some(i));
        },
        Instr::Return(..) => {
            assert(decode_as(i.spec_opcode(), w, next) == Some(i));
        },
        Instr::ForLoop(..) => {
            assert(decode_as(i.spec_opcode(), w, next) == Some(i));
        },
        Instr::ForPrep(..) => {
            assert(decode_as(i.spec_opcode(), w, next) == Some(i));
        },
        Instr::TForLoop(..) => {
            assert(decode_as(i.spec_opcode(), w, next) == Some(i));
        },
        Instr::SetList(..) => {
            assert(decode_as(i.spec_opcode(), w, next) == Some(i));
        },
        Instr::Close(..) => {
            assert(decode_as(i.spec_opcode(), w, next) == Some(i));
        },
        Instr::Closure(..) => {
            assert(decode_as(i.spec_opcode(), w, next) == Some(i));
        },
        Instr::VarArg(..) => {
            assert(decode_as(i.spec_opcode(), w, next) == Some(i));
        },
        Instr::NOP => {},
    }
}

/// An instruction whose operands fit their fields is read back from its own
/// word, given the word that must follow it where there is one.
pub proof fn lemma_decode_encode(i: Instr, next: Option<u32>)
    requires
        i.wf(),
        i.extension() is Some ==> next == i.extension(),
    ensures
        encode_word(i.spec_opcode(), i.spec_opmode()) is Some,
        Instr::decode(encode_word(i.spec_opcode(), i.spec_opmode())->0, next) == Some(i),
{
    let op = i.spec_opcode();
    Opcode::lemma_of_code(op);
    lemma_fields_fit(i);
    lemma_word_fields(op, i.spec_opmode());
    lemma_decode_as(i, encode_word(op, i.spec_opmode())->0, next);
}

} // verus!

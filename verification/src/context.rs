//! A prototype under change: instructions and constants are added while a
//! table keeps track of which instruction names which constant.

use vstd::prelude::*;
use crate::control_flow::{Block, blocks_of, block_codes, cut, target_in};
use crate::error::Error;
use crate::instruction::{Instr, Instruction, Kst, RegKst};
use crate::proto::{Constants, ConstantsView, Header, Proto, constants_view};
use crate::serialize::{serialize_bytecode, encodable, bytecode_bytes};

verus! {

/// An index into the instructions of a prototype.
pub type InstructionPointer = usize;

/// The field of an instruction that an entry of the reference table names.
#[allow(non_camel_case_types)]
#[derive(Debug, Clone, Copy, PartialEq, Eq, Structural)]
pub enum Op {
    A,
    B,
    C,
    Bx,
    sBx,
}

/// The most constants that a pool can hold: as many as field Bx can name.
pub const MAX_CONSTANTS: usize = 0x4_0000;

impl Instr {
    /// The constant that this instruction names in the field `slot`, if it
    /// names one there.
    pub open spec fn constant_at(self, slot: Op) -> Option<int> {
        match (self, slot) {
            (Instr::LoadK(_, k), Op::Bx) | (Instr::GetGlobal(_, k), Op::Bx) | (
                Instr::SetGlobal(_, k),
                Op::Bx,
            ) => Some(k.0 as int),
            (Instr::SetTable(_, b, _), Op::B) | (Instr::BinOp(_, b, _, _), Op::B) | (
                Instr::BinCondOp(_, b, _, _),
                Op::B,
            ) => b.constant_index(),
            (Instr::GetTable(_, _, c), Op::C) | (Instr::Self_(_, _, c), Op::C) | (
                Instr::SetTable(_, _, c),
                Op::C,
            ) | (Instr::BinOp(_, _, _, c), Op::C) | (Instr::BinCondOp(_, _, _, c), Op::C) => {
                c.constant_index()
            },
            _ => None,
        }
    }

    /// This instruction with the constant `k` in the field `slot`, where it
    /// names a constant there; else unchanged.
    pub open spec fn with_constant(self, slot: Op, k: u32) -> Instr {
        if self.constant_at(slot) is None {
            self
        } else {
            let rk = RegKst::K(Kst((k + 0x100) as u32));
            match (self, slot) {
                (Instr::LoadK(a, _), Op::Bx) => Instr::LoadK(a, Kst(k)),
                (Instr::GetGlobal(a, _), Op::Bx) => Instr::GetGlobal(a, Kst(k)),
                (Instr::SetGlobal(a, _), Op::Bx) => Instr::SetGlobal(a, Kst(k)),
                (Instr::SetTable(a, _, c), Op::B) => Instr::SetTable(a, rk, c),
                (Instr::BinOp(a, _, op, c), Op::B) => Instr::BinOp(a, rk, op, c),
                (Instr::BinCondOp(a, _, op, c), Op::B) => Instr::BinCondOp(a, rk, op, c),
                (Instr::GetTable(a, b, _), Op::C) => Instr::GetTable(a, b, rk),
                (Instr::Self_(a, b, _), Op::C) => Instr::Self_(a, b, rk),
                (Instr::SetTable(a, b, _), Op::C) => Instr::SetTable(a, b, rk),
                (Instr::BinOp(a, b, op, _), Op::C) => Instr::BinOp(a, b, op, rk),
                (Instr::BinCondOp(a, b, op, _), Op::C) => Instr::BinCondOp(a, b, op, rk),
                _ => self,
            }
        }
    }
}

/// This instruction in the form in which a context holds it: the opcode
/// and the packed fields are those of the typed operands, and `id` is its
/// number.
pub open spec fn placed(instr: Instr, id: usize) -> Instruction {
    Instruction(instr.spec_opcode(), instr, instr.spec_opmode(), id)
}

/// An entry of the reference table: a constant, the field that names it,
/// and the place of the instruction.
pub type Reference = (u32, Op, InstructionPointer);

/// The entry `r` is true of the code `code` with a pool of `pool` constants:
/// the instruction is there and names that constant, which is in the
/// pool, in that field.
pub open spec fn reference_holds(r: Reference, code: Seq<Instruction>, pool: int) -> bool {
    r.2 < code.len() && r.0 < pool && code[r.2 as int].1.constant_at(r.1) == Some(r.0 as int)
}

/// The constant `c` is at `index` of the pool `after`, which is the pool
/// `before` if that holds the same value as `c`, `index` then being the
/// first place of such a value, and else `before` with `c` at its end.
pub open spec fn interned(
    before: Seq<ConstantsView>,
    c: ConstantsView,
    index: int,
    after: Seq<ConstantsView>,
) -> bool {
    if exists|j: int| 0 <= j < before.len() && (#[trigger] before[j]).same(c) {
        &&& after == before
        &&& 0 <= index < before.len()
        &&& before[index].same(c)
        &&& forall|j: int| 0 <= j < index ==> !(#[trigger] before[j]).same(c)
    } else {
        &&& after == before.push(c)
        &&& index == before.len()
    }
}

/// No two constants of the pool are the same value.
pub open spec fn no_duplicates(pool: Seq<ConstantsView>) -> bool {
    forall|i: int, j: int|
        0 <= i < j < pool.len() ==> !(#[trigger] pool[i]).same(#[trigger] pool[j])
}

/// One prototype with the table of the constants that its instructions
/// name. Instructions and constants are added through the context, which
/// keeps the table true and gives each instruction a number that stays with
/// it when the instruction moves.
pub struct Context {
    pub header: Header,
    pub chunk: Proto,
    /// Every instruction that is known to name a constant, with the
    /// constant and the field.
    pub constant_refs: Vec<Reference>,
}

impl Context {
    /// The reference table.
    pub open spec fn refs(&self) -> Seq<Reference> {
        self.constant_refs@
    }

    /// The instructions of the prototype.
    pub open spec fn code(&self) -> Seq<Instruction> {
        self.chunk.instructions@
    }

    /// The constants of the prototype.
    pub open spec fn pool(&self) -> Seq<ConstantsView> {
        constants_view(self.chunk.constants@)
    }

    /// The pool holds no more constants than an instruction can name; the
    /// opcode and packed fields of every instruction are those of its
    /// operands; and every entry of the reference table is true.
    pub open spec fn wf(&self) -> bool {
        &&& self.pool().len() <= MAX_CONSTANTS
        &&& forall|i: int| 0 <= i < self.code().len() ==> (#[trigger] self.code()[i]).wf()
        &&& forall|r: int|
            0 <= r < self.refs().len() ==> reference_holds(
                #[trigger] self.refs()[r],
                self.code(),
                self.pool().len() as int,
            )
    }

    /// A context for `chunk`, without its debug information, which is not
    /// kept up when instructions move. Each instruction keeps its number,
    /// and the opcode and packed fields of each are set from its operands.
    /// The reference table starts empty. The context is
    /// well formed unless the pool of `chunk` holds more constants than an
    /// instruction can name.
    pub fn new(header: Header, chunk: Proto) -> (r: Self)
        ensures
            chunk.constants.len() <= MAX_CONSTANTS ==> r.wf(),
            r.header == header,
            r.refs() == Seq::<Reference>::empty(),
            r.code().len() == chunk.instructions.len(),
            forall|i: int|
                0 <= i < r.code().len() ==> (#[trigger] r.code()[i]) == placed(
                    chunk.instructions[i].1,
                    chunk.instructions[i].3,
                ),
            r.chunk.constants == chunk.constants,
            r.chunk.prototypes == chunk.prototypes,
            r.chunk.source == chunk.source,
            r.chunk.line_defined == chunk.line_defined,
            r.chunk.last_line_defined == chunk.last_line_defined,
            r.chunk.nupvals == chunk.nupvals,
            r.chunk.nparams == chunk.nparams,
            r.chunk.is_vararg_flag == chunk.is_vararg_flag,
            r.chunk.max_stack_size == chunk.max_stack_size,
            r.chunk.source_lines is None,
            r.chunk.locals is None,
            r.chunk.upvals is None,
    {
        let mut chunk = chunk;
        chunk.source_lines = None;
        chunk.locals = None;
        chunk.upvals = None;
        let ghost given = chunk.instructions@;
        let mut instructions: Vec<Instruction> = Vec::new();
        let mut i: usize = 0;
        while i < chunk.instructions.len()
            invariant
                i <= chunk.instructions.len(),
                chunk.instructions@ == given,
                instructions.len() == i,
                forall|j: int|
                    0 <= j < i ==> (#[trigger] instructions[j]) == placed(given[j].1, given[j].3),
            decreases chunk.instructions.len() - i,
        {
            let instr = chunk.instructions[i].1;
            let id = chunk.instructions[i].3;
            instructions.push(Instruction(instr.opcode(), instr, instr.get_opmode(), id));
            i += 1;
        }
        chunk.instructions = instructions;
        Self { header, chunk, constant_refs: Vec::new() }
    }

    pub fn get_constant(&self, kst: u32) -> (r: Option<&Constants>)
        ensures
            kst < self.chunk.constants.len() ==> r == Some(&self.chunk.constants[kst as int]),
            kst >= self.chunk.constants.len() ==> r is None,
    {
        if (kst as usize) < self.chunk.constants.len() {
            Some(&self.chunk.constants[kst as usize])
        } else {
            None
        }
    }

    /// Enters in the table that the instruction at `ip` names the constant
    /// `kst` in the field `op`. Refuses an entry that is not true, and then
    /// changes nothing.
    pub fn add_constant_ref(&mut self, ip: InstructionPointer, kst: u32, op: Op) -> (r: Result<
        (),
        Error,
    >)
        requires
            old(self).wf(),
        ensures
            final(self).wf(),
            final(self).header == old(self).header,
            final(self).chunk == old(self).chunk,
            reference_holds((kst, op, ip), old(self).code(), old(self).pool().len() as int) ==> r
                is Ok && final(self).refs() == old(self).refs().push((kst, op, ip)),
            !reference_holds((kst, op, ip), old(self).code(), old(self).pool().len() as int) ==> r
                == Err::<(), Error>(Error::InternalInvariant) && final(self).refs() == old(
                self,
            ).refs(),
    {
        if ip < self.chunk.instructions.len() && (kst as usize) < self.chunk.constants.len() {
            if let Some(found) = constant_in(&self.chunk.instructions[ip].1, op) {
                if found == kst {
                    self.constant_refs.push((kst, op, ip));
                    assert forall|r: int| 0 <= r < self.refs().len() implies reference_holds(
                        #[trigger] self.refs()[r],
                        self.code(),
                        self.pool().len() as int,
                    ) by {
                        if r < old(self).refs().len() {
                            assert(self.refs()[r] == old(self).refs()[r]);
                        }
                    }
                    return Ok(());
                }
            }
        }
        Err(Error::InternalInvariant)
    }

    /// Writes into the instructions the constants that the table gives
    /// them, entry by entry: the instruction that an entry names gets the
    /// constant of the entry in the field of the entry, where it names a
    /// constant there, and its packed fields are set anew. On a context
    /// whose table is true nothing changes.
    pub fn apply_constant_ref(&mut self)
        requires
            forall|j: int|
                0 <= j < old(self).refs().len() ==> entry_writable(
                    #[trigger] old(self).refs()[j],
                    old(self).code().len() as int,
                ),
        ensures
            final(self).header == old(self).header,
            same_frame(final(self).chunk, old(self).chunk),
            final(self).chunk.constants == old(self).chunk.constants,
            final(self).refs() == old(self).refs(),
            final(self).code() == applied(
                old(self).code(),
                old(self).refs(),
                old(self).refs().len(),
            ),
            old(self).wf() ==> final(self).wf() && final(self).code() == old(self).code(),
    {
        let ghost code = self.code();
        let ghost refs = self.refs();
        let mut n: usize = 0;
        while n < self.constant_refs.len()
            invariant
                n <= self.constant_refs.len(),
                self.header == old(self).header,
                same_frame(self.chunk, old(self).chunk),
                self.chunk.constants == old(self).chunk.constants,
                self.refs() == refs,
                refs == old(self).refs(),
                code == old(self).code(),
                self.code().len() == code.len(),
                forall|j: int|
                    0 <= j < refs.len() ==> entry_writable(#[trigger] refs[j], code.len() as int),
                self.code() == applied(code, refs, n as nat),
            decreases self.constant_refs.len() - n,
        {
            let (kst, op, ip) = self.constant_refs[n];
            assert(entry_writable(refs[n as int], code.len() as int));
            let current = self.chunk.instructions[ip];
            let instr = set_constant(&current.1, op, kst);
            let mode = instr.get_opmode();
            self.chunk.instructions.set(ip, Instruction(current.0, instr, mode, current.3));
            n += 1;
        }
        proof {
            if old(self).wf() {
                lemma_applied_same(code, refs, refs.len(), self.pool().len() as int);
            }
        }
    }

    /// Inserts `kst` at the place `idx` of the pool. The entries of the
    /// table for constants from `idx` on move up by one, and so do the
    /// fields of the instructions that these entries name. A pool that is
    /// full is left as it is.
    pub fn add_constant(&mut self, idx: usize, kst: Constants) -> (r: Result<(), Error>)
        requires
            old(self).wf(),
            idx <= old(self).pool().len(),
        ensures
            final(self).wf(),
            final(self).header == old(self).header,
            same_frame(final(self).chunk, old(self).chunk),
            old(self).pool().len() == MAX_CONSTANTS ==> r == Err::<(), Error>(
                Error::ResourceExhausted,
            ) && *final(self) == *old(self),
            old(self).pool().len() < MAX_CONSTANTS ==> r is Ok && final(self).pool() == old(
                self,
            ).pool().insert(idx as int, kst@) && final(self).refs() == shifted_refs(
                old(self).refs(),
                idx as int,
            ) && final(self).code() == rewritten_code(
                old(self).code(),
                old(self).refs(),
                old(self).refs().len() as int,
                idx as int,
            ),
    {
        if self.chunk.constants.len() >= MAX_CONSTANTS {
            return Err(Error::ResourceExhausted);
        }
        let ghost pos = idx as int;
        let ghost before = self.refs();
        let ghost code = self.code();
        let ghost pool = self.pool();
        let mut j: usize = 0;
        while j < self.constant_refs.len()
            invariant
                j <= self.constant_refs.len(),
                pos == idx,
                self.refs().len() == before.len(),
                self.chunk == old(self).chunk,
                self.header == old(self).header,
                pool.len() < MAX_CONSTANTS,
                forall|r: int| 0 <= r < before.len() ==> (#[trigger] before[r]).0 < pool.len(),
                forall|r: int|
                    0 <= r < j ==> (#[trigger] self.refs()[r]) == shifted_refs(before, pos)[r],
                forall|r: int| j <= r < before.len() ==> (#[trigger] self.refs()[r]) == before[r],
            decreases self.constant_refs.len() - j,
        {
            let v = self.constant_refs[j];
            assert(v == before[j as int]);
            if (v.0 as usize) >= idx {
                self.constant_refs.set(j, (v.0 + 1, v.1, v.2));
            }
            j += 1;
        }
        proof {
            assert(self.refs() =~= shifted_refs(before, pos));
            assert forall|j: int| 0 <= j < before.len() implies reference_fits(
                #[trigger] before[j],
                code,
                pos,
            ) by {
                assert(reference_holds(before[j], code, pool.len() as int));
            }
        }
        write_constants(
            &mut self.chunk.instructions,
            &self.constant_refs,
            Ghost(before),
            Ghost(pos),
        );
        self.chunk.constants.insert(idx, kst);
        proof {
            assert(self.pool() =~= pool.insert(pos, kst@));
            lemma_rewritten_code_holds(code, before, pos, pool.len() as int);
        }
        Ok(())
    }

    /// The index of a constant of the pool that is the same value as
    /// `kst`: the first one there is, or `kst` itself, added at the end.
    /// Fails only where `kst` would have to be added to a full pool.
    pub fn get_or_add_constant(&mut self, kst: Constants) -> (r: Result<u32, Error>)
        requires
            old(self).wf(),
        ensures
            final(self).wf(),
            final(self).header == old(self).header,
            same_frame(final(self).chunk, old(self).chunk),
            final(self).code() == old(self).code(),
            final(self).refs() == old(self).refs(),
            match r {
                Ok(index) => interned(old(self).pool(), kst@, index as int, final(self).pool()),
                Err(e) => e == Error::ResourceExhausted && final(self).pool() == old(self).pool(),
            },
            r is Err <==> old(self).pool().len() == MAX_CONSTANTS && !exists|j: int|
                0 <= j < old(self).pool().len() && (#[trigger] old(self).pool()[j]).same(kst@),
    {
        let ghost pool = self.pool();
        let mut i: usize = 0;
        while i < self.chunk.constants.len()
            invariant
                i <= self.chunk.constants.len(),
                *self == *old(self),
                self.wf(),
                pool == self.pool(),
                forall|j: int| 0 <= j < i ==> !(#[trigger] pool[j]).same(kst@),
            decreases self.chunk.constants.len() - i,
        {
            if self.chunk.constants[i].equals(&kst) {
                assert(pool[i as int].same(kst@));
                return Ok(i as u32);
            }
            i += 1;
        }
        let len = self.chunk.constants.len();
        let ghost code = self.code();
        let ghost refs = self.refs();
        match self.add_constant(len, kst) {
            Ok(()) => {
                proof {
                    assert(shifted_refs(refs, len as int) =~= refs) by {
                        assert forall|j: int| 0 <= j < refs.len() implies shifted_refs(
                            refs,
                            len as int,
                        )[j] == refs[j] by {
                            assert(reference_holds(refs[j], code, len as int));
                        }
                    }
                    lemma_rewritten_code_same(code, refs, len as int);
                    assert(pool.insert(len as int, kst@) =~= pool.push(kst@));
                }
                Ok(len as u32)
            },
            Err(e) => Err(e),
        }
    }

    /// The entries that the table would hold for `instruction` at the place
    /// `ip`: one for each of its fields that names a constant of the pool.
    pub fn map_instr(&self, ip: usize, instruction: &Instruction) -> (r: Vec<(usize, u32, Op)>)
        ensures
            r@ == instr_refs(instruction.1, ip, self.pool().len() as int),
    {
        let mut refs: Vec<(usize, u32, Op)> = Vec::new();
        let instr = &instruction.1;
        let pool = self.chunk.constants.len();
        if let Some(k) = constant_in(instr, Op::Bx) {
            if (k as usize) < pool {
                refs.push((ip, k, Op::Bx));
            }
        }
        if let Some(k) = constant_in(instr, Op::B) {
            if (k as usize) < pool {
                refs.push((ip, k, Op::B));
            }
        }
        if let Some(k) = constant_in(instr, Op::C) {
            if (k as usize) < pool {
                refs.push((ip, k, Op::C));
            }
        }
        assert(refs@ =~= instr_refs(instruction.1, ip, self.pool().len() as int));
        refs
    }

    /// Enters in the table every constant of the pool that an instruction
    /// names.
    pub fn map_constants(&mut self)
        requires
            old(self).wf(),
        ensures
            final(self).wf(),
            final(self).header == old(self).header,
            final(self).chunk == old(self).chunk,
            final(self).refs() == old(self).refs() + code_refs(
                old(self).code(),
                old(self).code().len(),
                old(self).pool().len() as int,
            ),
    {
        let ghost code = self.code();
        let ghost pool = self.pool().len() as int;
        let mut ip: usize = 0;
        assert(self.refs() =~= old(self).refs() + code_refs(code, 0, pool));
        while ip < self.chunk.instructions.len()
            invariant
                ip <= self.chunk.instructions.len(),
                self.wf(),
                self.header == old(self).header,
                self.chunk == old(self).chunk,
                code == self.code(),
                pool == self.pool().len(),
                self.refs() == old(self).refs() + code_refs(code, ip as nat, pool),
            decreases self.chunk.instructions.len() - ip,
        {
            let found = self.map_instr(ip, &self.chunk.instructions[ip]);
            let ghost start = self.refs();
            let mut n: usize = 0;
            while n < found.len()
                invariant
                    n <= found.len(),
                    ip < self.chunk.instructions.len(),
                    self.wf(),
                    self.header == old(self).header,
                    self.chunk == old(self).chunk,
                    code == self.code(),
                    pool == self.pool().len(),
                    found@ == instr_refs(code[ip as int].1, ip, pool),
                    self.refs() == start + found@.subrange(0, n as int).map_values(
                        |t: (usize, u32, Op)| as_reference(t),
                    ),
                decreases found.len() - n,
            {
                let (at, kst, op) = found[n];
                let ghost before = self.refs();
                self.constant_refs.push((kst, op, at));
                proof {
                    lemma_instr_refs_hold(code, ip, pool, n as int);
                    assert forall|r: int| 0 <= r < self.refs().len() implies reference_holds(
                        #[trigger] self.refs()[r],
                        self.code(),
                        self.pool().len() as int,
                    ) by {
                        if r < before.len() {
                            assert(self.refs()[r] == before[r]);
                        }
                    }
                    assert(self.refs() =~= start + found@.subrange(0, n + 1).map_values(
                        |t: (usize, u32, Op)| as_reference(t),
                    ));
                }
                n += 1;
            }
            proof {
                assert(found@.subrange(0, found.len() as int) =~= found@);
                assert(self.refs() =~= old(self).refs() + code_refs(code, (ip + 1) as nat, pool));
            }
            ip += 1;
        }
    }

    /// Inserts `instr` at the place `idx`, with its opcode and packed
    /// fields set from its operands, and returns its number, which it
    /// keeps. The entries of the table for instructions from `idx` on
    /// move up by one, and the constants of the pool that `instr` names
    /// are entered.
    pub fn add_instruction(&mut self, idx: InstructionPointer, instr: Instruction) -> (id: usize)
        requires
            old(self).wf(),
            idx <= old(self).code().len(),
        ensures
            final(self).wf(),
            final(self).header == old(self).header,
            same_frame(final(self).chunk, old(self).chunk),
            final(self).chunk.constants == old(self).chunk.constants,
            id == instr.3,
            final(self).code() == old(self).code().insert(idx as int, placed(instr.1, id)),
            final(self).refs() == moved_refs(old(self).refs(), idx as int) + instr_refs(
                instr.1,
                idx,
                old(self).pool().len() as int,
            ).map_values(|t: (usize, u32, Op)| as_reference(t)),
    {
        let ghost code = self.code();
        let ghost refs = self.refs();
        let ghost pool = self.pool().len() as int;
        let decoded = instr.1;
        let found = self.map_instr(idx, &instr);
        let id = instr.3;
        self.chunk.instructions.insert(
            idx,
            Instruction(decoded.opcode(), decoded, decoded.get_opmode(), id),
        );
        let count = self.chunk.instructions.len();
        assert(self.code() =~= code.insert(idx as int, placed(decoded, id)));
        assert(code.len() + 1 == count);
        assert(code.len() < usize::MAX);
        let mut j: usize = 0;
        while j < self.constant_refs.len()
            invariant
                j <= self.constant_refs.len(),
                self.refs().len() == refs.len(),
                self.header == old(self).header,
                same_frame(self.chunk, old(self).chunk),
                self.chunk.constants == old(self).chunk.constants,
                self.code() == code.insert(idx as int, placed(decoded, id)),
                idx <= code.len() < usize::MAX,
                forall|r: int| 0 <= r < refs.len() ==> (#[trigger] refs[r]).2 < code.len(),
                forall|r: int|
                    0 <= r < j ==> (#[trigger] self.refs()[r]) == moved_refs(refs, idx as int)[r],
                forall|r: int| j <= r < refs.len() ==> (#[trigger] self.refs()[r]) == refs[r],
            decreases self.constant_refs.len() - j,
        {
            let v = self.constant_refs[j];
            assert(v == refs[j as int]);
            if v.2 >= idx {
                self.constant_refs.set(j, (v.0, v.1, v.2 + 1));
            }
            j += 1;
        }
        assert(self.refs() =~= moved_refs(refs, idx as int));
        let ghost moved = self.refs();
        let mut n: usize = 0;
        while n < found.len()
            invariant
                n <= found.len(),
                self.header == old(self).header,
                same_frame(self.chunk, old(self).chunk),
                self.chunk.constants == old(self).chunk.constants,
                idx <= code.len(),
                self.code() == code.insert(idx as int, placed(decoded, id)),
                found@ == instr_refs(decoded, idx, pool),
                self.refs() == moved + found@.subrange(0, n as int).map_values(
                    |t: (usize, u32, Op)| as_reference(t),
                ),
            decreases found.len() - n,
        {
            let (at, kst, op) = found[n];
            self.constant_refs.push((kst, op, at));
            assert(self.refs() =~= moved + found@.subrange(0, n + 1).map_values(
                |t: (usize, u32, Op)| as_reference(t),
            ));
            n += 1;
        }
        proof {
            assert(found@.subrange(0, found.len() as int) =~= found@);
            lemma_insert_holds(code, refs, pool, idx as int, decoded, id);
        }
        self.apply_constant_ref();
        id
    }

    /// The blocks of the code of the prototype.
    pub fn map_control_flow(&self) -> (r: Vec<Block>)
        ensures
            block_codes(r@) == blocks_of(self.code()),
            forall|i: int|
                0 <= i < r.len() ==> (#[trigger] r[i]).target == target_in(self.code(), i),
    {
        cut(&self.chunk.instructions)
    }

    /// Fills the reference table from the instructions.
    pub fn map(&mut self)
        requires
            old(self).wf(),
        ensures
            final(self).wf(),
            final(self).header == old(self).header,
            final(self).chunk == old(self).chunk,
            final(self).refs() == old(self).refs() + code_refs(
                old(self).code(),
                old(self).code().len(),
                old(self).pool().len() as int,
            ),
    {
        self.map_constants();
    }

    /// The chunk of the prototype, under the header of the context.
    pub fn assemble(&self) -> (r: Result<Vec<u8>, Error>)
        ensures
            encodable(self.chunk@) ==> r is Ok && r->Ok_0@ == bytecode_bytes(
                self.header,
                self.chunk@,
            ),
            !encodable(self.chunk@) ==> r == Err::<Vec<u8>, Error>(Error::FormatError),
    {
        serialize_bytecode(&self.header, &self.chunk)
    }

    /// The place of the first instruction with the number `idx`.
    pub fn find_instruction_pt(&self, idx: usize) -> (r: Option<InstructionPointer>)
        ensures
            match r {
                Some(i) => i < self.code().len() && self.code()[i as int].3 == idx && forall|
                    j: int,
                | 0 <= j < i ==> self.code()[j].3 != idx,
                None => forall|i: int| 0 <= i < self.code().len() ==> self.code()[i].3 != idx,
            },
    {
        let mut i: usize = 0;
        while i < self.chunk.instructions.len()
            invariant
                i <= self.chunk.instructions.len(),
                forall|j: int| 0 <= j < i ==> self.code()[j].3 != idx,
            decreases self.chunk.instructions.len() - i,
        {
            if self.chunk.instructions[i].3 == idx {
                return Some(i);
            }
            i += 1;
        }
        None
    }

    /// The place after the last instruction.
    pub fn get_max_ip(&self) -> (r: InstructionPointer)
        ensures
            r == self.code().len(),
    {
        self.chunk.instructions.len()
    }
}

/// The constant that `instr` names in the field `op`.
pub(crate) fn constant_in(instr: &Instr, op: Op) -> (r: Option<u32>)
    ensures
        match instr.constant_at(op) {
            Some(k) => r == Some(k as u32) && 0 <= k <= u32::MAX,
            None => r is None,
        },
{
    match op {
        Op::Bx => match instr {
            Instr::LoadK(_, k) | Instr::GetGlobal(_, k) | Instr::SetGlobal(_, k) => Some(k.0),
            _ => None,
        },
        Op::B => match instr {
            Instr::SetTable(_, b, _) | Instr::BinOp(_, b, _, _) | Instr::BinCondOp(_, b, _, _) => {
                constant_of(b)
            },
            _ => None,
        },
        Op::C => match instr {
            Instr::GetTable(_, _, c)
            | Instr::Self_(_, _, c)
            | Instr::SetTable(_, _, c)
            | Instr::BinOp(_, _, _, c)
            | Instr::BinCondOp(_, _, _, c) => constant_of(c),
            _ => None,
        },
        _ => None,
    }
}

/// The constant that the operand `rk` names.
fn constant_of(rk: &RegKst) -> (r: Option<u32>)
    ensures
        match rk.constant_index() {
            Some(k) => r == Some(k as u32) && 0 <= k <= u32::MAX,
            None => r is None,
        },
{
    match rk {
        RegKst::K(k) => if k.0 >= 0x100 {
            Some(k.0 - 0x100)
        } else {
            None
        },
        RegKst::R(_) => None,
    }
}

/// The index `k` of a constant after one was inserted at `pos`.
pub open spec fn shifted_index(k: int, pos: int) -> int {
    if k >= pos {
        k + 1
    } else {
        k
    }
}

/// The instruction `instr` after a constant was inserted at `pos`, as far
/// as its field `slot` goes.
pub open spec fn shifted_slot(instr: Instr, slot: Op, pos: int) -> Instr {
    match instr.constant_at(slot) {
        Some(k) => instr.with_constant(slot, shifted_index(k, pos) as u32),
        None => instr,
    }
}

/// The instruction `ins` after a constant was inserted at `pos`: of its
/// fields B, C and Bx, those for which `b`, `c` and `bx` say so follow the
/// constant that they name, and the packed fields are then set anew.
pub open spec fn rewritten(ins: Instruction, b: bool, c: bool, bx: bool, pos: int) -> Instruction {
    let i1 = if bx {
        shifted_slot(ins.1, Op::Bx, pos)
    } else {
        ins.1
    };
    let i2 = if b {
        shifted_slot(i1, Op::B, pos)
    } else {
        i1
    };
    let i3 = if c {
        shifted_slot(i2, Op::C, pos)
    } else {
        i2
    };
    Instruction(
        ins.0,
        i3,
        if b || c || bx {
            i3.spec_opmode()
        } else {
            ins.2
        },
        ins.3,
    )
}

/// One of the first `n` entries of `refs` names the field `slot` of the
/// instruction at `ip`.
pub open spec fn referenced(refs: Seq<Reference>, n: int, ip: int, slot: Op) -> bool {
    exists|j: int| 0 <= j < n && j < refs.len() && #[trigger] refs[j].1 == slot && refs[j].2 == ip
}

/// The code `code` after a constant was inserted at `pos`, rewritten for
/// the first `n` entries of `refs`.
pub open spec fn rewritten_code(code: Seq<Instruction>, refs: Seq<Reference>, n: int, pos: int) -> Seq<
    Instruction,
> {
    Seq::new(
        code.len(),
        |i: int|
            rewritten(
                code[i],
                referenced(refs, n, i, Op::B),
                referenced(refs, n, i, Op::C),
                referenced(refs, n, i, Op::Bx),
                pos,
            ),
    )
}

/// The table `refs` after a constant was inserted at `pos`.
pub open spec fn shifted_refs(refs: Seq<Reference>, pos: int) -> Seq<Reference> {
    Seq::new(refs.len(), |j: int| (shifted_index(refs[j].0 as int, pos) as u32, refs[j].1, refs[j].2))
}

/// `instr` with the constant `k` in the field `op`.
pub(crate) fn set_constant(instr: &Instr, op: Op, k: u32) -> (r: Instr)
    requires
        op == Op::B || op == Op::C ==> k + 0x100 <= u32::MAX,
    ensures
        r == instr.with_constant(op, k),
{
    if constant_in(instr, op).is_none() {
        return *instr;
    }
    let rk = match op {
        Op::B | Op::C => RegKst::K(Kst(k + 0x100)),
        _ => RegKst::K(Kst(k)),
    };
    match op {
        Op::Bx => match instr {
            Instr::LoadK(a, _) => Instr::LoadK(*a, Kst(k)),
            Instr::GetGlobal(a, _) => Instr::GetGlobal(*a, Kst(k)),
            Instr::SetGlobal(a, _) => Instr::SetGlobal(*a, Kst(k)),
            _ => *instr,
        },
        Op::B => match instr {
            Instr::SetTable(a, _, c) => Instr::SetTable(*a, rk, *c),
            Instr::BinOp(a, _, o, c) => Instr::BinOp(*a, rk, *o, *c),
            Instr::BinCondOp(a, _, o, c) => Instr::BinCondOp(*a, rk, *o, *c),
            _ => *instr,
        },
        Op::C => match instr {
            Instr::GetTable(a, b, _) => Instr::GetTable(*a, *b, rk),
            Instr::Self_(a, b, _) => Instr::Self_(*a, *b, rk),
            Instr::SetTable(a, b, _) => Instr::SetTable(*a, *b, rk),
            Instr::BinOp(a, b, o, _) => Instr::BinOp(*a, *b, *o, rk),
            Instr::BinCondOp(a, b, o, _) => Instr::BinCondOp(*a, *b, *o, rk),
            _ => *instr,
        },
        _ => *instr,
    }
}

/// Writing the constant that an entry names into an instruction that was
/// rewritten for some entries gives the instruction rewritten for that
/// entry too.
proof fn lemma_rewrite_step(ins: Instruction, b: bool, c: bool, bx: bool, slot: Op, pos: int)
    requires
        ins.1.constant_at(slot) is Some,
        shifted_index(ins.1.constant_at(slot)->0, pos) <= u32::MAX,
        slot != Op::Bx ==> shifted_index(ins.1.constant_at(slot)->0, pos) + 0x100 <= u32::MAX,
    ensures
        ({
            let before = rewritten(ins, b, c, bx, pos);
            let k = shifted_index(ins.1.constant_at(slot)->0, pos) as u32;
            let after = before.1.with_constant(slot, k);
            Instruction(before.0, after, after.spec_opmode(), before.3) == rewritten(
                ins,
                b || slot == Op::B,
                c || slot == Op::C,
                bx || slot == Op::Bx,
                pos,
            )
        }),
{
}

/// The entry `r` can be written into the code `code` after a constant was
/// inserted at `pos`: its instruction is there and names the constant of
/// the entry in its field, and the constant's new index fits that field's
/// type.
pub open spec fn reference_fits(r: Reference, code: Seq<Instruction>, pos: int) -> bool {
    &&& r.2 < code.len()
    &&& code[r.2 as int].1.constant_at(r.1) == Some(r.0 as int)
    &&& shifted_index(r.0 as int, pos) <= u32::MAX
    &&& r.1 != Op::Bx ==> shifted_index(r.0 as int, pos) + 0x100 <= u32::MAX
}

/// Writes into the instructions the constants that the entries `refs`
/// name, which are the entries `before` after a constant was inserted at
/// `pos`.
fn write_constants(
    instructions: &mut Vec<Instruction>,
    refs: &Vec<Reference>,
    Ghost(before): Ghost<Seq<Reference>>,
    Ghost(pos): Ghost<int>,
)
    requires
        refs@ == shifted_refs(before, pos),
        forall|j: int|
            0 <= j < before.len() ==> reference_fits(#[trigger] before[j], old(instructions)@, pos),
    ensures
        final(instructions)@ == rewritten_code(
            old(instructions)@,
            before,
            before.len() as int,
            pos,
        ),
{
    let ghost given = instructions@;
    let mut n: usize = 0;
    assert(instructions@ =~= rewritten_code(given, before, 0, pos));
    while n < refs.len()
        invariant
            n <= refs.len(),
            refs@ == shifted_refs(before, pos),
            forall|j: int| 0 <= j < before.len() ==> reference_fits(#[trigger] before[j], given, pos),
            instructions@ == rewritten_code(given, before, n as int, pos),
        decreases refs.len() - n,
    {
        let (kst, op, ip) = refs[n];
        let ghost entry = before[n as int];
        assert(reference_fits(entry, given, pos));
        assert(refs@[n as int] == (shifted_index(entry.0 as int, pos) as u32, entry.1, entry.2));
        let current = instructions[ip];
        let instr = set_constant(&current.1, op, kst);
        let mode = instr.get_opmode();
        instructions.set(ip, Instruction(current.0, instr, mode, current.3));
        proof {
            let b = referenced(before, n as int, ip as int, Op::B);
            let c = referenced(before, n as int, ip as int, Op::C);
            let bx = referenced(before, n as int, ip as int, Op::Bx);
            lemma_rewrite_step(given[ip as int], b, c, bx, op, pos);
            assert forall|i: int, slot: Op| 0 <= i < given.len() implies referenced(
                before,
                n + 1,
                i,
                slot,
            ) == (referenced(before, n as int, i, slot) || (i == ip && slot == op)) by {
                if referenced(before, n as int, i, slot) {
                    let j = choose|j: int|
                        0 <= j < n && j < before.len() && #[trigger] before[j].1 == slot
                            && before[j].2 == i;
                    assert(before[j].1 == slot && before[j].2 == i);
                }
                if i == ip && slot == op {
                    assert(before[n as int].1 == slot && before[n as int].2 == i);
                }
                if referenced(before, n + 1, i, slot) {
                    let j = choose|j: int|
                        0 <= j < n + 1 && j < before.len() && #[trigger] before[j].1 == slot
                            && before[j].2 == i;
                    if j < n {
                        assert(before[j].1 == slot && before[j].2 == i);
                    }
                }
            }
            assert(instructions@ =~= rewritten_code(given, before, n + 1, pos));
        }
        n += 1;
    }
}

/// The two prototypes differ at most in their instructions and constants.
pub open spec fn same_frame(a: Proto, b: Proto) -> bool {
    &&& a.source == b.source
    &&& a.line_defined == b.line_defined
    &&& a.last_line_defined == b.last_line_defined
    &&& a.nupvals == b.nupvals
    &&& a.nparams == b.nparams
    &&& a.is_vararg_flag == b.is_vararg_flag
    &&& a.max_stack_size == b.max_stack_size
    &&& a.prototypes == b.prototypes
    &&& a.source_lines == b.source_lines
    &&& a.locals == b.locals
    &&& a.upvals == b.upvals
}

/// An instruction whose constants are below `pos` is not changed by an
/// insertion at `pos`.
proof fn lemma_rewritten_same(ins: Instruction, b: bool, c: bool, bx: bool, pos: int)
    requires
        ins.wf(),
        b ==> (ins.1.constant_at(Op::B) matches Some(k) ==> k < pos),
        c ==> (ins.1.constant_at(Op::C) matches Some(k) ==> k < pos),
        bx ==> (ins.1.constant_at(Op::Bx) matches Some(k) ==> k < pos),
    ensures
        rewritten(ins, b, c, bx, pos) == ins,
{
}

/// Code whose table is true, with all its constants below `pos`, is not
/// changed by an insertion at `pos`.
proof fn lemma_rewritten_code_same(code: Seq<Instruction>, refs: Seq<Reference>, pos: int)
    requires
        forall|i: int| 0 <= i < code.len() ==> (#[trigger] code[i]).wf(),
        forall|r: int| 0 <= r < refs.len() ==> reference_holds(#[trigger] refs[r], code, pos),
    ensures
        rewritten_code(code, refs, refs.len() as int, pos) == code,
{
    let n = refs.len() as int;
    assert forall|i: int| 0 <= i < code.len() implies rewritten(
        code[i],
        referenced(refs, n, i, Op::B),
        referenced(refs, n, i, Op::C),
        referenced(refs, n, i, Op::Bx),
        pos,
    ) == code[i] by {
        lemma_referenced_holds(code, refs, pos, i, Op::B);
        lemma_referenced_holds(code, refs, pos, i, Op::C);
        lemma_referenced_holds(code, refs, pos, i, Op::Bx);
        lemma_rewritten_same(
            code[i],
            referenced(refs, n, i, Op::B),
            referenced(refs, n, i, Op::C),
            referenced(refs, n, i, Op::Bx),
            pos,
        );
    }
    assert(rewritten_code(code, refs, n, pos) =~= code);
}

/// A field that an entry of a true table names holds a constant of the
/// pool.
proof fn lemma_referenced_holds(
    code: Seq<Instruction>,
    refs: Seq<Reference>,
    pool: int,
    i: int,
    slot: Op,
)
    requires
        0 <= i < code.len(),
        forall|r: int| 0 <= r < refs.len() ==> reference_holds(#[trigger] refs[r], code, pool),
    ensures
        referenced(refs, refs.len() as int, i, slot) ==> code[i].1.constant_at(slot) is Some
            && code[i].1.constant_at(slot)->0 < pool,
{
    if referenced(refs, refs.len() as int, i, slot) {
        let j = choose|j: int|
            0 <= j < refs.len() && j < refs.len() && #[trigger] refs[j].1 == slot && refs[j].2 == i;
        assert(reference_holds(refs[j], code, pool));
    }
}

/// An instruction rewritten for an insertion keeps its number and the
/// agreement of its opcode and packed fields with its operands, and names
/// the moved constant in each field for which it was rewritten.
proof fn lemma_rewritten_slot(ins: Instruction, b: bool, c: bool, bx: bool, pos: int)
    requires
        ins.wf(),
        0 <= pos,
        b ==> (ins.1.constant_at(Op::B) matches Some(k) ==> k < MAX_CONSTANTS),
        c ==> (ins.1.constant_at(Op::C) matches Some(k) ==> k < MAX_CONSTANTS),
        bx ==> (ins.1.constant_at(Op::Bx) matches Some(k) ==> k < MAX_CONSTANTS),
    ensures
        rewritten(ins, b, c, bx, pos).wf(),
        rewritten(ins, b, c, bx, pos).3 == ins.3,
        b ==> rewritten(ins, b, c, bx, pos).1.constant_at(Op::B) == match ins.1.constant_at(Op::B) {
            Some(k) => Some(shifted_index(k, pos)),
            None => None,
        },
        c ==> rewritten(ins, b, c, bx, pos).1.constant_at(Op::C) == match ins.1.constant_at(Op::C) {
            Some(k) => Some(shifted_index(k, pos)),
            None => None,
        },
        bx ==> rewritten(ins, b, c, bx, pos).1.constant_at(Op::Bx) == match ins.1.constant_at(
            Op::Bx,
        ) {
            Some(k) => Some(shifted_index(k, pos)),
            None => None,
        },
{
}

/// After an insertion into a pool that is not full, the rewritten code
/// keeps its numbers and the agreement of each instruction with its
/// operands, and every moved entry of the table is true of it.
proof fn lemma_rewritten_code_holds(
    code: Seq<Instruction>,
    refs: Seq<Reference>,
    pos: int,
    pool: int,
)
    requires
        0 <= pos <= pool < MAX_CONSTANTS,
        forall|i: int| 0 <= i < code.len() ==> (#[trigger] code[i]).wf(),
        forall|r: int| 0 <= r < refs.len() ==> reference_holds(#[trigger] refs[r], code, pool),
    ensures
        ({
            let after = rewritten_code(code, refs, refs.len() as int, pos);
            &&& after.len() == code.len()
            &&& forall|i: int|
                0 <= i < code.len() ==> (#[trigger] after[i]).wf() && after[i].3 == code[i].3
            &&& forall|r: int|
                0 <= r < refs.len() ==> reference_holds(
                    #[trigger] shifted_refs(refs, pos)[r],
                    after,
                    pool + 1,
                )
        }),
{
    let n = refs.len() as int;
    let after = rewritten_code(code, refs, n, pos);
    assert forall|i: int| 0 <= i < code.len() implies (#[trigger] after[i]).wf() && after[i].3
        == code[i].3 && (forall|slot: Op|
        #![trigger referenced(refs, n, i, slot)]
        referenced(refs, n, i, slot) ==> after[i].1.constant_at(slot) == Some(
            shifted_index(code[i].1.constant_at(slot)->0, pos),
        )) by {
        lemma_referenced_holds(code, refs, pool, i, Op::B);
        lemma_referenced_holds(code, refs, pool, i, Op::C);
        lemma_referenced_holds(code, refs, pool, i, Op::Bx);
        lemma_referenced_holds(code, refs, pool, i, Op::A);
        lemma_referenced_holds(code, refs, pool, i, Op::sBx);
        lemma_rewritten_slot(
            code[i],
            referenced(refs, n, i, Op::B),
            referenced(refs, n, i, Op::C),
            referenced(refs, n, i, Op::Bx),
            pos,
        );
    }
    assert forall|r: int| 0 <= r < refs.len() implies reference_holds(
        #[trigger] shifted_refs(refs, pos)[r],
        after,
        pool + 1,
    ) by {
        let entry = refs[r];
        assert(reference_holds(entry, code, pool));
        assert(entry.1 == entry.1 && entry.2 == entry.2);
        assert(referenced(refs, n, entry.2 as int, entry.1));
    }
}

/// The entry for the constant that `instr`, at the place `ip`, names in
/// the field `slot`, if it names one of a pool of `pool` constants there.
pub open spec fn slot_refs(instr: Instr, ip: usize, slot: Op, pool: int) -> Seq<(usize, u32, Op)> {
    match instr.constant_at(slot) {
        Some(k) => if k < pool {
            seq![(ip, k as u32, slot)]
        } else {
            Seq::empty()
        },
        None => Seq::empty(),
    }
}

/// The entries for the constants that `instr` names at the place `ip`:
/// for field Bx, then B, then C.
pub open spec fn instr_refs(instr: Instr, ip: usize, pool: int) -> Seq<(usize, u32, Op)> {
    slot_refs(instr, ip, Op::Bx, pool) + slot_refs(instr, ip, Op::B, pool) + slot_refs(
        instr,
        ip,
        Op::C,
        pool,
    )
}

/// An entry as the table holds it: the constant first, the place last.
pub open spec fn as_reference(t: (usize, u32, Op)) -> Reference {
    (t.1, t.2, t.0)
}

/// The entries for the first `n` instructions of `code`, in their order.
pub open spec fn code_refs(code: Seq<Instruction>, n: nat, pool: int) -> Seq<Reference>
    decreases n,
{
    if n == 0 || n > code.len() {
        Seq::empty()
    } else {
        code_refs(code, (n - 1) as nat, pool) + instr_refs(
            code[n - 1].1,
            (n - 1) as usize,
            pool,
        ).map_values(|t: (usize, u32, Op)| as_reference(t))
    }
}

/// The table `refs` after an instruction was inserted at `pos`.
pub open spec fn moved_refs(refs: Seq<Reference>, pos: int) -> Seq<Reference> {
    Seq::new(
        refs.len(),
        |j: int|
            (
                refs[j].0,
                refs[j].1,
                if refs[j].2 >= pos {
                    (refs[j].2 + 1) as usize
                } else {
                    refs[j].2
                },
            ),
    )
}

/// Each entry found for an instruction is true of it.
proof fn lemma_instr_refs_hold(code: Seq<Instruction>, ip: usize, pool: int, n: int)
    requires
        ip < code.len(),
        0 <= n < instr_refs(code[ip as int].1, ip, pool).len(),
    ensures
        reference_holds(as_reference(instr_refs(code[ip as int].1, ip, pool)[n]), code, pool),
{
}

/// After an instruction was inserted, the code keeps the agreement of
/// each instruction with its operands, and the moved table with the
/// entries of the new instruction is true of it.
proof fn lemma_insert_holds(
    code: Seq<Instruction>,
    refs: Seq<Reference>,
    pool: int,
    idx: int,
    instr: Instr,
    id: usize,
)
    requires
        0 <= idx <= code.len() < usize::MAX,
        forall|i: int| 0 <= i < code.len() ==> (#[trigger] code[i]).wf(),
        forall|r: int| 0 <= r < refs.len() ==> reference_holds(#[trigger] refs[r], code, pool),
    ensures
        ({
            let after = code.insert(idx, placed(instr, id));
            let table = moved_refs(refs, idx) + instr_refs(instr, idx as usize, pool).map_values(
                |t: (usize, u32, Op)| as_reference(t),
            );
            &&& forall|i: int| 0 <= i < after.len() ==> (#[trigger] after[i]).wf()
            &&& forall|r: int|
                0 <= r < table.len() ==> reference_holds(#[trigger] table[r], after, pool)
        }),
{
    let after = code.insert(idx, placed(instr, id));
    let moved = moved_refs(refs, idx);
    let added = instr_refs(instr, idx as usize, pool).map_values(
        |t: (usize, u32, Op)| as_reference(t),
    );
    let table = moved + added;
    assert forall|r: int| 0 <= r < table.len() implies reference_holds(
        #[trigger] table[r],
        after,
        pool,
    ) by {
        if r < moved.len() {
            assert(reference_holds(refs[r], code, pool));
        } else {
            assert(table[r] == added[r - moved.len()]);
        }
    }
}

/// Being the same value is symmetric, and carries over from one constant
/// to one that is the same value as it.
pub proof fn lemma_same_carries(a: ConstantsView, b: ConstantsView, c: ConstantsView)
    requires
        a.same(b),
    ensures
        b.same(a),
        a.same(a),
        c.same(a) == c.same(b),
{
}

/// A constant that is asked for a second time, or one that is the same
/// value, is found at the index that the first call returned, and the pool
/// stays as the first call left it.
pub proof fn lemma_interned_again(
    before: Seq<ConstantsView>,
    c: ConstantsView,
    index: int,
    after: Seq<ConstantsView>,
    again: ConstantsView,
    second: int,
    last: Seq<ConstantsView>,
)
    requires
        interned(before, c, index, after),
        c.same(again),
        interned(after, again, second, last),
    ensures
        second == index,
        last == after,
{
    lemma_same_carries(c, again, c);
    assert(0 <= index < after.len() && after[index].same(again)) by {
        lemma_same_carries(c, again, after[index]);
    }
    assert forall|j: int| 0 <= j < index implies !(#[trigger] after[j]).same(again) by {
        lemma_same_carries(c, again, after[j]);
    }
}

/// Asking for a constant leaves a pool without two entries of the same
/// value without such entries.
pub proof fn lemma_interned_no_duplicates(
    before: Seq<ConstantsView>,
    c: ConstantsView,
    index: int,
    after: Seq<ConstantsView>,
)
    requires
        no_duplicates(before),
        interned(before, c, index, after),
    ensures
        no_duplicates(after),
{
    if after != before {
        assert forall|i: int, j: int| 0 <= i < j < after.len() implies !(#[trigger] after[i]).same(
            #[trigger] after[j],
        ) by {
            if j == before.len() {
                assert(!before[i].same(c));
            }
        }
    }
}

/// The entry `r` can be written into code of `len` instructions: its
/// instruction is there, and its constant, raised by the offset of a field
/// that names a stack slot or a constant, is a number that such a field's
/// type holds.
pub open spec fn entry_writable(r: Reference, len: int) -> bool {
    r.2 < len && (r.1 == Op::B || r.1 == Op::C ==> r.0 + 0x100 <= u32::MAX)
}

/// The code `code` after the entry `r` was written into it: the
/// instruction that `r` names has the constant of `r` in the field of `r`,
/// where it names a constant there, and its packed fields are those of its
/// operands.
pub open spec fn applied_entry(code: Seq<Instruction>, r: Reference) -> Seq<Instruction> {
    if r.2 < code.len() {
        let ins = code[r.2 as int];
        let instr = ins.1.with_constant(r.1, r.0);
        code.update(r.2 as int, Instruction(ins.0, instr, instr.spec_opmode(), ins.3))
    } else {
        code
    }
}

/// The code `code` after the first `n` entries of `refs` were written into
/// it, one after the other.
pub open spec fn applied(code: Seq<Instruction>, refs: Seq<Reference>, n: nat) -> Seq<Instruction>
    decreases n,
{
    if n == 0 || n > refs.len() {
        code
    } else {
        applied_entry(applied(code, refs, (n - 1) as nat), refs[n - 1])
    }
}

/// Writing an entry that is true of the code changes nothing.
pub proof fn lemma_applied_entry_same(code: Seq<Instruction>, r: Reference, pool: int)
    requires
        reference_holds(r, code, pool),
        code[r.2 as int].wf(),
    ensures
        applied_entry(code, r) == code,
{
    assert(applied_entry(code, r) =~= code);
}

/// Writing the entries of a table that is true of the code changes
/// nothing.
pub proof fn lemma_applied_same(code: Seq<Instruction>, refs: Seq<Reference>, n: nat, pool: int)
    requires
        n <= refs.len(),
        forall|i: int| 0 <= i < code.len() ==> (#[trigger] code[i]).wf(),
        forall|r: int| 0 <= r < refs.len() ==> reference_holds(#[trigger] refs[r], code, pool),
    ensures
        applied(code, refs, n) == code,
    decreases n,
{
    if n > 0 {
        lemma_applied_same(code, refs, (n - 1) as nat, pool);
        assert(reference_holds(refs[n - 1], code, pool));
        lemma_applied_entry_same(code, refs[n - 1], pool);
    }
}

} // verus!

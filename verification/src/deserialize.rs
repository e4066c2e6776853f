//! The bytes of a chunk as a prototype.

use vstd::prelude::*;
use crate::error::Error;
use crate::instruction::{
    Ids, Instr, Instruction, advanced, lemma_advanced_on, unnumbered_code,
};
use crate::proto::{
    Constants, ConstantsView, Header, Local, LocalView, Proto, ProtoView, constants_view,
    locals_view, strings_view, prototypes_view, lemma_prototypes_view, count_of, count_all,
    numbered_from, numbered_as_read, all_numbered_as_read, lemma_first_prototypes,
};
use crate::reader::{Reader, read_byte, read_bytes, read_int, read_number, read_string};
use crate::serialize::header_bytes;

verus! {

/// The only sizes that this library reads: four bytes for an integer, a
/// length and an instruction, eight for a number.
pub open spec fn supported_header() -> Header {
    (4u8, 4u8, 4u8, 8u8)
}

/// The header at the start of `s`, which must be the one of a
/// little-endian chunk of version 5.1 with the supported sizes.
pub open spec fn read_header(s: Seq<u8>) -> Option<(Header, int)> {
    if s.len() >= 12 && s.subrange(0, 12) == header_bytes(supported_header()) {
        Some((supported_header(), 12))
    } else {
        None
    }
}

/// `n` integers of `size` bytes from `pos` on.
pub open spec fn read_words(s: Seq<u8>, pos: int, n: nat, size: int) -> Option<(Seq<u32>, int)>
    decreases n,
{
    if n == 0 {
        Some((Seq::empty(), pos))
    } else {
        match read_words(s, pos, (n - 1) as nat, size) {
            Some((ws, p)) => match read_int(s, p, size) {
                Some((w, q)) => Some((ws.push(w), q)),
                None => None,
            },
            None => None,
        }
    }
}

/// What the word at `i` of `ws` decodes to, the word after it being the
/// next of `ws`.
pub open spec fn decode_at(ws: Seq<u32>, i: int) -> Option<Instr> {
    Instr::decode(
        ws[i],
        if i + 1 < ws.len() {
            Some(ws[i + 1])
        } else {
            None
        },
    )
}

/// The instructions that the words `ws` decode to, if each decodes.
pub open spec fn decode_code(ws: Seq<u32>) -> Option<Seq<Instruction>> {
    if forall|i: int| 0 <= i < ws.len() ==> (#[trigger] decode_at(ws, i)) is Some {
        Some(
            Seq::new(
                ws.len(),
                |i: int|
                    {
                        let instr = decode_at(ws, i)->0;
                        Instruction(instr.spec_opcode(), instr, instr.spec_opmode(), 0)
                    },
            ),
        )
    } else {
        None
    }
}

/// The constant at `pos`: the byte of its kind, then what it holds.
pub open spec fn read_constant(s: Seq<u8>, pos: int, h: Header) -> Option<(ConstantsView, int)> {
    match read_byte(s, pos) {
        Some((t, p)) => if t == 0 {
            Some((ConstantsView::Nil, p))
        } else if t == 1 {
            match read_byte(s, p) {
                Some((b, q)) => Some((ConstantsView::Boolean(b != 0), q)),
                None => None,
            }
        } else if t == 3 {
            match read_number(s, p, h.0 as int) {
                Some((n, q)) => Some((ConstantsView::Number(n), q)),
                None => None,
            }
        } else if t == 4 {
            match read_string(s, p, h.1 as int) {
                Some((v, q)) => Some((ConstantsView::String(v), q)),
                None => None,
            }
        } else {
            None
        },
        None => None,
    }
}

pub open spec fn read_constants(s: Seq<u8>, pos: int, n: nat, h: Header) -> Option<
    (Seq<ConstantsView>, int),
>
    decreases n,
{
    if n == 0 {
        Some((Seq::empty(), pos))
    } else {
        match read_constants(s, pos, (n - 1) as nat, h) {
            Some((cs, p)) => match read_constant(s, p, h) {
                Some((c, q)) => Some((cs.push(c), q)),
                None => None,
            },
            None => None,
        }
    }
}

/// The local variable at `pos`: its name, then the two ends of its range.
pub open spec fn read_local(s: Seq<u8>, pos: int, h: Header) -> Option<(LocalView, int)> {
    match read_string(s, pos, h.1 as int) {
        Some((name, p)) => match read_int(s, p, h.0 as int) {
            Some((start, q)) => match read_int(s, q, h.0 as int) {
                Some((end, r)) => Some((LocalView { name, start, end }, r)),
                None => None,
            },
            None => None,
        },
        None => None,
    }
}

pub open spec fn read_locals(s: Seq<u8>, pos: int, n: nat, h: Header) -> Option<
    (Seq<LocalView>, int),
>
    decreases n,
{
    if n == 0 {
        Some((Seq::empty(), pos))
    } else {
        match read_locals(s, pos, (n - 1) as nat, h) {
            Some((ls, p)) => match read_local(s, p, h) {
                Some((l, q)) => Some((ls.push(l), q)),
                None => None,
            },
            None => None,
        }
    }
}

pub open spec fn read_strings(s: Seq<u8>, pos: int, n: nat, h: Header) -> Option<
    (Seq<Seq<char>>, int),
>
    decreases n,
{
    if n == 0 {
        Some((Seq::empty(), pos))
    } else {
        match read_strings(s, pos, (n - 1) as nat, h) {
            Some((ss, p)) => match read_string(s, p, h.1 as int) {
                Some((v, q)) => Some((ss.push(v), q)),
                None => None,
            },
            None => None,
        }
    }
}

/// The code at `pos`: a count, that many words, each decoded.
pub open spec fn read_code(s: Seq<u8>, pos: int, h: Header) -> Option<(Seq<Instruction>, int)> {
    match read_int(s, pos, h.0 as int) {
        Some((n, p)) => match read_words(s, p, n as nat, h.2 as int) {
            Some((ws, q)) => match decode_code(ws) {
                Some(code) => Some((code, q)),
                None => None,
            },
            None => None,
        },
        None => None,
    }
}

/// What a prototype holds before the prototypes nested in it.
pub struct ChunkHead {
    pub source: Seq<char>,
    pub line_defined: u32,
    pub last_line_defined: u32,
    pub nupvals: u8,
    pub nparams: u8,
    pub is_vararg_flag: u8,
    pub max_stack_size: u8,
    pub instructions: Seq<Instruction>,
    pub constants: Seq<ConstantsView>,
}

/// What a prototype holds after the prototypes nested in it.
pub struct ChunkTail {
    pub source_lines: Seq<u32>,
    pub locals: Seq<LocalView>,
    pub upvals: Seq<Seq<char>>,
}

/// The name and numbers of the prototype at `pos`, its code and its
/// constants.
pub open spec fn read_head(s: Seq<u8>, pos: int, h: Header) -> Option<(ChunkHead, int)> {
    match read_string(s, pos, h.1 as int) {
        None => None,
        Some((source, at1)) => match read_int(s, at1, h.0 as int) {
            None => None,
            Some((line_defined, at2)) => match read_int(s, at2, h.0 as int) {
                None => None,
                Some((last_line_defined, at3)) => match read_bytes(s, at3, 4) {
                    None => None,
                    Some((b, at4)) => match read_code(s, at4, h) {
                        None => None,
                        Some((instructions, at5)) => match read_int(s, at5, h.0 as int) {
                            None => None,
                            Some((n, at6)) => match read_constants(s, at6, n as nat, h) {
                                None => None,
                                Some((constants, at7)) => Some(
                                    (
                                        ChunkHead {
                                            source,
                                            line_defined,
                                            last_line_defined,
                                            nupvals: b[0],
                                            nparams: b[1],
                                            is_vararg_flag: b[2],
                                            max_stack_size: b[3],
                                            instructions,
                                            constants,
                                        },
                                        at7,
                                    ),
                                ),
                            },
                        },
                    },
                },
            },
        },
    }
}

/// The three lists of debug information at `pos`.
pub open spec fn read_tail(s: Seq<u8>, pos: int, h: Header) -> Option<(ChunkTail, int)> {
    match read_int(s, pos, h.0 as int) {
        None => None,
        Some((n1, at1)) => match read_words(s, at1, n1 as nat, h.0 as int) {
            None => None,
            Some((source_lines, at2)) => match read_int(s, at2, h.0 as int) {
                None => None,
                Some((n2, at3)) => match read_locals(s, at3, n2 as nat, h) {
                    None => None,
                    Some((locals, at4)) => match read_int(s, at4, h.0 as int) {
                        None => None,
                        Some((n3, at5)) => match read_strings(s, at5, n3 as nat, h) {
                            None => None,
                            Some((upvals, at6)) => Some(
                                (ChunkTail { source_lines, locals, upvals }, at6),
                            ),
                        },
                    },
                },
            },
        },
    }
}

/// The prototype made of what stands before its nested prototypes, of
/// these, and of what stands after them.
pub open spec fn assemble(head: ChunkHead, prototypes: Seq<ProtoView>, tail: ChunkTail) -> ProtoView {
    ProtoView {
        source: head.source,
        line_defined: head.line_defined,
        last_line_defined: head.last_line_defined,
        nupvals: head.nupvals,
        nparams: head.nparams,
        is_vararg_flag: head.is_vararg_flag,
        max_stack_size: head.max_stack_size,
        instructions: head.instructions,
        constants: head.constants,
        prototypes,
        source_lines: Some(tail.source_lines),
        locals: Some(tail.locals),
        upvals: Some(tail.upvals),
    }
}

/// The prototype at `pos`, with the prototypes nested in it, which stand
/// after its constants.
#[verifier::opaque]
pub open spec fn read_chunk(s: Seq<u8>, pos: int, h: Header) -> Option<(ProtoView, int)>
    decreases s.len() - pos, 0nat,
{
    match read_head(s, pos, h) {
        None => None,
        Some((head, at1)) => match read_int(s, at1, h.0 as int) {
            None => None,
            Some((n, at2)) => if pos < at2 <= s.len() {
                match read_chunks(s, at2, n as nat, h) {
                    None => None,
                    Some((prototypes, at3)) => match read_tail(s, at3, h) {
                        None => None,
                        Some((tail, at4)) => Some((assemble(head, prototypes, tail), at4)),
                    },
                }
            } else {
                None
            },
        },
    }
}

/// `n` prototypes from `pos` on, one after another.
pub open spec fn read_chunks(s: Seq<u8>, pos: int, n: nat, h: Header) -> Option<
    (Seq<ProtoView>, int),
>
    decreases s.len() - pos, n + 1,
{
    if n == 0 {
        Some((Seq::empty(), pos))
    } else {
        match read_chunks(s, pos, (n - 1) as nat, h) {
            Some((ps, p)) => if pos <= p <= s.len() {
                match read_chunk(s, p, h) {
                    Some((c, q)) => Some((ps.push(c), q)),
                    None => None,
                }
            } else {
                None
            },
            None => None,
        }
    }
}

/// No prototypes are read without moving.
pub proof fn lemma_read_chunks_zero(s: Seq<u8>, pos: int, h: Header)
    ensures
        read_chunks(s, pos, 0, h) == Some((Seq::<ProtoView>::empty(), pos)),
{
}

/// One more prototype is read where the ones before it end.
pub proof fn lemma_read_chunks_more(s: Seq<u8>, pos: int, n: nat, h: Header)
    requires
        n > 0,
    ensures
        read_chunks(s, pos, n, h) == match read_chunks(s, pos, (n - 1) as nat, h) {
            Some((ps, p)) => if pos <= p <= s.len() {
                match read_chunk(s, p, h) {
                    Some((c, q)) => Some((ps.push(c), q)),
                    None => None,
                }
            } else {
                None
            },
            None => None,
        },
{
    reveal(read_chunk);
}

/// A prototype is read from its head, the count of its nested prototypes,
/// these, and its tail.
pub proof fn lemma_read_chunk_parts(s: Seq<u8>, pos: int, h: Header)
    ensures
        read_chunk(s, pos, h) == match read_head(s, pos, h) {
            None => None,
            Some((head, at1)) => match read_int(s, at1, h.0 as int) {
                None => None,
                Some((n, at2)) => if pos < at2 <= s.len() {
                    match read_chunks(s, at2, n as nat, h) {
                        None => None,
                        Some((prototypes, at3)) => match read_tail(s, at3, h) {
                            None => None,
                            Some((tail, at4)) => Some((assemble(head, prototypes, tail), at4)),
                        },
                    }
                } else {
                    None
                },
            },
        },
{
    reveal_with_fuel(read_chunk, 2);
}

/// A whole chunk: the header, then the main prototype. What follows the
/// prototype is not looked at.
pub open spec fn read_bytecode(s: Seq<u8>) -> Option<(Header, ProtoView)> {
    match read_header(s) {
        Some((h, p)) => match read_chunk(s, p, h) {
            Some((proto, _)) => Some((h, proto)),
            None => None,
        },
        None => None,
    }
}

/// Where the `i + 1` first integers cannot be read, no more can.
proof fn lemma_read_words_none(s: Seq<u8>, pos: int, i: nat, n: nat, size: int)
    requires
        i < n,
        read_words(s, pos, i + 1, size) is None,
    ensures
        read_words(s, pos, n, size) is None,
    decreases n,
{
    if n > i + 1 {
        lemma_read_words_none(s, pos, i, (n - 1) as nat, size);
    }
}

proof fn lemma_read_constants_none(s: Seq<u8>, pos: int, i: nat, n: nat, h: Header)
    requires
        i < n,
        read_constants(s, pos, i + 1, h) is None,
    ensures
        read_constants(s, pos, n, h) is None,
    decreases n,
{
    if n > i + 1 {
        lemma_read_constants_none(s, pos, i, (n - 1) as nat, h);
    }
}

proof fn lemma_read_locals_none(s: Seq<u8>, pos: int, i: nat, n: nat, h: Header)
    requires
        i < n,
        read_locals(s, pos, i + 1, h) is None,
    ensures
        read_locals(s, pos, n, h) is None,
    decreases n,
{
    if n > i + 1 {
        lemma_read_locals_none(s, pos, i, (n - 1) as nat, h);
    }
}

proof fn lemma_read_strings_none(s: Seq<u8>, pos: int, i: nat, n: nat, h: Header)
    requires
        i < n,
        read_strings(s, pos, i + 1, h) is None,
    ensures
        read_strings(s, pos, n, h) is None,
    decreases n,
{
    if n > i + 1 {
        lemma_read_strings_none(s, pos, i, (n - 1) as nat, h);
    }
}

proof fn lemma_read_chunks_none(s: Seq<u8>, pos: int, i: nat, n: nat, h: Header)
    requires
        i < n,
        read_chunks(s, pos, i + 1, h) is None,
    ensures
        read_chunks(s, pos, n, h) is None,
    decreases n,
{
    if n > i + 1 {
        lemma_read_chunks_none(s, pos, i, (n - 1) as nat, h);
        lemma_read_chunks_more(s, pos, n, h);
    }
}

fn header(reader: &mut Reader) -> (r: Result<Header, Error>)
    requires
        old(reader).wf(),
        old(reader).position() == 0,
    ensures
        final(reader).wf(),
        final(reader).buffer() == old(reader).buffer(),
        match read_header(old(reader).buffer()) {
            Some((h, p)) => r == Ok::<Header, Error>(h) && final(reader).position() == p,
            None => r == Err::<Header, Error>(Error::FormatError),
        },
{
    let ghost s = reader.buffer();
    let ghost want = header_bytes(supported_header());
    let magic = reader.bytes(4)?;
    if !(magic[0] == 0x1b && magic[1] == 0x4c && magic[2] == 0x75 && magic[3] == 0x61) {
        proof {
            if s.len() >= 12 && s.subrange(0, 12) == want {
                let head = s.subrange(0, 12);
                assert(head[0] == magic@[0] && head[1] == magic@[1] && head[2] == magic@[2]
                    && head[3] == magic@[3]);
                assert(want[0] == 0x1b && want[1] == 0x4c && want[2] == 0x75 && want[3] == 0x61);
            }
        }
        return Err(Error::FormatError);
    }
    let version = reader.byte()?;
    let format = reader.byte()?;
    let endian = reader.byte()?;
    let int_size = reader.byte()?;
    let size_t = reader.byte()?;
    let instr = reader.byte()?;
    let lua_number = reader.byte()?;
    let integral = reader.byte()?;
    assert(s.len() >= 12);
    if version == 0x51 && format == 0 && endian == 1 && int_size == 4 && size_t == 4 && instr == 4
        && lua_number == 8 && integral == 0 {
        assert(s.subrange(0, 12) =~= want);
        Ok((int_size, size_t, instr, lua_number))
    } else {
        proof {
            if s.subrange(0, 12) == want {
                let head = s.subrange(0, 12);
                assert(head[4] == version && head[5] == format && head[6] == endian && head[7]
                    == int_size && head[8] == size_t && head[9] == instr && head[10] == lua_number
                    && head[11] == integral);
                assert(want[4] == 0x51 && want[5] == 0 && want[6] == 1 && want[7] == 4 && want[8]
                    == 4 && want[9] == 4 && want[10] == 8 && want[11] == 0);
            }
        }
        Err(Error::FormatError)
    }
}

fn load_words(reader: &mut Reader, n: u32, size: u8) -> (r: Result<Vec<u32>, Error>)
    requires
        old(reader).wf(),
    ensures
        final(reader).wf(),
        final(reader).buffer() == old(reader).buffer(),
        final(reader).position() >= old(reader).position(),
        match read_words(old(reader).buffer(), old(reader).position(), n as nat, size as int) {
            Some((v, p)) => r is Ok && r->Ok_0@ == v && final(reader).position() == p,
            None => r == Err::<Vec<u32>, Error>(Error::FormatError),
        },
{
    let ghost s = reader.buffer();
    let ghost start = reader.position();
    let mut list: Vec<u32> = Vec::new();
    let mut i: u32 = 0;
    while i < n
        invariant
            i <= n,
            reader.wf(),
            s == old(reader).buffer(),
            start == old(reader).position(),
            reader.buffer() == s,
            reader.position() >= start,
            read_words(s, start, i as nat, size as int) == Some((list@, reader.position())),
        decreases n - i,
    {
        match reader.integer(size as usize) {
            Ok(w) => {
                list.push(w);
            },
            Err(e) => {
                proof {
                    lemma_read_words_none(s, start, i as nat, n as nat, size as int);
                }
                return Err(e);
            },
        }
        i += 1;
    }
    Ok(list)
}

fn decode_words(words: &Vec<u32>, ids: &mut Ids) -> (r: Result<Vec<Instruction>, Error>)
    ensures
        match decode_code(words@) {
            Some(code) => r is Ok && unnumbered_code(r->Ok_0@) == code && numbered_from(
                r->Ok_0@,
                old(ids).next(),
            ) && final(ids).next() == advanced(old(ids).next(), code.len()),
            None => r == Err::<Vec<Instruction>, Error>(Error::FormatError),
        },
{
    let ghost first = ids.next();
    let mut instructions: Vec<Instruction> = Vec::new();
    let mut i: usize = 0;
    while i < words.len()
        invariant
            i <= words.len(),
            instructions.len() == i,
            forall|j: int| 0 <= j < i ==> (#[trigger] decode_at(words@, j)) is Some,
            ids.next() == advanced(first, i as nat),
            forall|j: int|
                0 <= j < i ==> (#[trigger] instructions[j]) == ({
                    let instr = decode_at(words@, j)->0;
                    Instruction(
                        instr.spec_opcode(),
                        instr,
                        instr.spec_opmode(),
                        advanced(first, j as nat),
                    )
                }),
        decreases words.len() - i,
    {
        let next = if i + 1 < words.len() {
            Some(&words[i + 1])
        } else {
            None
        };
        match Instruction::from_instr(words[i], next, ids) {
            Ok(instruction) => {
                instructions.push(instruction);
            },
            Err(e) => {
                assert(decode_at(words@, i as int) is None);
                return Err(e);
            },
        }
        i += 1;
    }
    assert(unnumbered_code(instructions@) =~= decode_code(words@)->0);
    Ok(instructions)
}

fn load_code(reader: &mut Reader, header: &Header, ids: &mut Ids) -> (r: Result<
    Vec<Instruction>,
    Error,
>)
    requires
        old(reader).wf(),
    ensures
        final(reader).wf(),
        final(reader).buffer() == old(reader).buffer(),
        final(reader).position() >= old(reader).position(),
        match read_code(old(reader).buffer(), old(reader).position(), *header) {
            Some((v, p)) => r is Ok && unnumbered_code(r->Ok_0@) == v && numbered_from(
                r->Ok_0@,
                old(ids).next(),
            ) && final(ids).next() == advanced(old(ids).next(), v.len())
                && final(reader).position() == p,
            None => r == Err::<Vec<Instruction>, Error>(Error::FormatError),
        },
{
    let n = reader.integer(header.0 as usize)?;
    let instrs = load_words(reader, n, header.2)?;
    decode_words(&instrs, ids)
}

fn load_constant(reader: &mut Reader, header: &Header) -> (r: Result<Constants, Error>)
    requires
        old(reader).wf(),
    ensures
        final(reader).wf(),
        final(reader).buffer() == old(reader).buffer(),
        final(reader).position() >= old(reader).position(),
        match read_constant(old(reader).buffer(), old(reader).position(), *header) {
            Some((v, p)) => r is Ok && r->Ok_0@ == v && final(reader).position() == p,
            None => r == Err::<Constants, Error>(Error::FormatError),
        },
{
    let t = reader.byte()?;
    if t == 0 {
        Ok(Constants::Nil)
    } else if t == 1 {
        Ok(Constants::Boolean(reader.byte()? != 0u8))
    } else if t == 3 {
        Ok(Constants::Number(reader.number(header.0 as usize)?))
    } else if t == 4 {
        Ok(Constants::String(reader.string(header.1)?))
    } else {
        Err(Error::FormatError)
    }
}

fn load_constants(reader: &mut Reader, n: u32, header: &Header) -> (r: Result<
    Vec<Constants>,
    Error,
>)
    requires
        old(reader).wf(),
    ensures
        final(reader).wf(),
        final(reader).buffer() == old(reader).buffer(),
        final(reader).position() >= old(reader).position(),
        match read_constants(old(reader).buffer(), old(reader).position(), n as nat, *header) {
            Some((v, p)) => r is Ok && constants_view(r->Ok_0@) == v && final(reader).position()
                == p,
            None => r == Err::<Vec<Constants>, Error>(Error::FormatError),
        },
{
    let ghost s = reader.buffer();
    let ghost start = reader.position();
    let mut list: Vec<Constants> = Vec::new();
    let mut i: u32 = 0;
    assert(constants_view(list@) =~= Seq::empty());
    while i < n
        invariant
            i <= n,
            reader.wf(),
            s == old(reader).buffer(),
            start == old(reader).position(),
            reader.buffer() == s,
            reader.position() >= start,
            read_constants(s, start, i as nat, *header) == Some(
                (constants_view(list@), reader.position()),
            ),
        decreases n - i,
    {
        let ghost before = constants_view(list@);
        match load_constant(reader, header) {
            Ok(c) => {
                list.push(c);
                assert(constants_view(list@) =~= before.push(c@));
            },
            Err(e) => {
                proof {
                    lemma_read_constants_none(s, start, i as nat, n as nat, *header);
                }
                return Err(e);
            },
        }
        i += 1;
    }
    Ok(list)
}

fn load_local(reader: &mut Reader, header: &Header) -> (r: Result<Local, Error>)
    requires
        old(reader).wf(),
    ensures
        final(reader).wf(),
        final(reader).buffer() == old(reader).buffer(),
        final(reader).position() >= old(reader).position(),
        match read_local(old(reader).buffer(), old(reader).position(), *header) {
            Some((v, p)) => r is Ok && r->Ok_0@ == v && final(reader).position() == p,
            None => r == Err::<Local, Error>(Error::FormatError),
        },
{
    let name = reader.string(header.1)?;
    let start = reader.integer(header.0 as usize)?;
    let end = reader.integer(header.0 as usize)?;
    Ok(Local(name, start, end))
}

fn load_locals(reader: &mut Reader, n: u32, header: &Header) -> (r: Result<Vec<Local>, Error>)
    requires
        old(reader).wf(),
    ensures
        final(reader).wf(),
        final(reader).buffer() == old(reader).buffer(),
        final(reader).position() >= old(reader).position(),
        match read_locals(old(reader).buffer(), old(reader).position(), n as nat, *header) {
            Some((v, p)) => r is Ok && locals_view(r->Ok_0@) == v && final(reader).position() == p,
            None => r == Err::<Vec<Local>, Error>(Error::FormatError),
        },
{
    let ghost s = reader.buffer();
    let ghost start = reader.position();
    let mut list: Vec<Local> = Vec::new();
    let mut i: u32 = 0;
    assert(locals_view(list@) =~= Seq::empty());
    while i < n
        invariant
            i <= n,
            reader.wf(),
            s == old(reader).buffer(),
            start == old(reader).position(),
            reader.buffer() == s,
            reader.position() >= start,
            read_locals(s, start, i as nat, *header) == Some(
                (locals_view(list@), reader.position()),
            ),
        decreases n - i,
    {
        let ghost before = locals_view(list@);
        match load_local(reader, header) {
            Ok(l) => {
                list.push(l);
                assert(locals_view(list@) =~= before.push(l@));
            },
            Err(e) => {
                proof {
                    lemma_read_locals_none(s, start, i as nat, n as nat, *header);
                }
                return Err(e);
            },
        }
        i += 1;
    }
    Ok(list)
}

fn load_strings(reader: &mut Reader, n: u32, header: &Header) -> (r: Result<Vec<String>, Error>)
    requires
        old(reader).wf(),
    ensures
        final(reader).wf(),
        final(reader).buffer() == old(reader).buffer(),
        final(reader).position() >= old(reader).position(),
        match read_strings(old(reader).buffer(), old(reader).position(), n as nat, *header) {
            Some((v, p)) => r is Ok && strings_view(r->Ok_0@) == v && final(reader).position()
                == p,
            None => r == Err::<Vec<String>, Error>(Error::FormatError),
        },
{
    let ghost s = reader.buffer();
    let ghost start = reader.position();
    let mut list: Vec<String> = Vec::new();
    let mut i: u32 = 0;
    assert(strings_view(list@) =~= Seq::empty());
    while i < n
        invariant
            i <= n,
            reader.wf(),
            s == old(reader).buffer(),
            start == old(reader).position(),
            reader.buffer() == s,
            reader.position() >= start,
            read_strings(s, start, i as nat, *header) == Some(
                (strings_view(list@), reader.position()),
            ),
        decreases n - i,
    {
        let ghost before = strings_view(list@);
        match reader.string(header.1) {
            Ok(v) => {
                list.push(v);
                assert(strings_view(list@) =~= before.push(v@));
            },
            Err(e) => {
                proof {
                    lemma_read_strings_none(s, start, i as nat, n as nat, *header);
                }
                return Err(e);
            },
        }
        i += 1;
    }
    Ok(list)
}

struct Head {
    source: String,
    line_defined: u32,
    last_line_defined: u32,
    nupvals: u8,
    nparams: u8,
    is_vararg_flag: u8,
    max_stack_size: u8,
    instructions: Vec<Instruction>,
    constants: Vec<Constants>,
}

impl View for Head {
    type V = ChunkHead;

    closed spec fn view(&self) -> ChunkHead {
        ChunkHead {
            source: self.source@,
            line_defined: self.line_defined,
            last_line_defined: self.last_line_defined,
            nupvals: self.nupvals,
            nparams: self.nparams,
            is_vararg_flag: self.is_vararg_flag,
            max_stack_size: self.max_stack_size,
            instructions: unnumbered_code(self.instructions@),
            constants: constants_view(self.constants@),
        }
    }
}

struct Tail {
    source_lines: Vec<u32>,
    locals: Vec<Local>,
    upvals: Vec<String>,
}

impl View for Tail {
    type V = ChunkTail;

    closed spec fn view(&self) -> ChunkTail {
        ChunkTail {
            source_lines: self.source_lines@,
            locals: locals_view(self.locals@),
            upvals: strings_view(self.upvals@),
        }
    }
}

fn load_head(reader: &mut Reader, header: &Header, ids: &mut Ids) -> (r: Result<Head, Error>)
    requires
        old(reader).wf(),
    ensures
        final(reader).wf(),
        final(reader).buffer() == old(reader).buffer(),
        final(reader).position() >= old(reader).position(),
        r is Ok ==> final(reader).position() >= old(reader).position() + 4,
        r is Ok ==> numbered_from(r->Ok_0.instructions@, old(ids).next()) && final(ids).next()
            == advanced(old(ids).next(), r->Ok_0.instructions@.len()),
        match read_head(old(reader).buffer(), old(reader).position(), *header) {
            Some((v, p)) => r is Ok && r->Ok_0@ == v && final(reader).position() == p,
            None => r == Err::<Head, Error>(Error::FormatError),
        },
{
    let source = reader.string(header.1)?;
    let line_defined = reader.integer(header.0 as usize)?;
    let last_line_defined = reader.integer(header.0 as usize)?;
    let ghost at = reader.position();
    let nupvals = reader.byte()?;
    let nparams = reader.byte()?;
    let is_vararg_flag = reader.byte()?;
    let max_stack_size = reader.byte()?;
    assert(read_bytes(reader.buffer(), at, 4) == Some(
        (seq![nupvals, nparams, is_vararg_flag, max_stack_size], at + 4),
    )) by {
        assert(reader.buffer().subrange(at, at + 4) =~= seq![
            nupvals,
            nparams,
            is_vararg_flag,
            max_stack_size,
        ]);
    }
    let instructions = load_code(reader, header, ids)?;
    let n = reader.integer(header.0 as usize)?;
    let constants = load_constants(reader, n, header)?;
    Ok(
        Head {
            source,
            line_defined,
            last_line_defined,
            nupvals,
            nparams,
            is_vararg_flag,
            max_stack_size,
            instructions,
            constants,
        },
    )
}

fn load_tail(reader: &mut Reader, header: &Header) -> (r: Result<Tail, Error>)
    requires
        old(reader).wf(),
    ensures
        final(reader).wf(),
        final(reader).buffer() == old(reader).buffer(),
        final(reader).position() >= old(reader).position(),
        match read_tail(old(reader).buffer(), old(reader).position(), *header) {
            Some((v, p)) => r is Ok && r->Ok_0@ == v && final(reader).position() == p,
            None => r == Err::<Tail, Error>(Error::FormatError),
        },
{
    let n1 = reader.integer(header.0 as usize)?;
    let source_lines = load_words(reader, n1, header.0)?;
    let n2 = reader.integer(header.0 as usize)?;
    let locals = load_locals(reader, n2, header)?;
    let n3 = reader.integer(header.0 as usize)?;
    let upvals = load_strings(reader, n3, header)?;
    Ok(Tail { source_lines, locals, upvals })
}

fn chunk(reader: &mut Reader, header: &Header, ids: &mut Ids) -> (r: Result<Proto, Error>)
    requires
        old(reader).wf(),
    ensures
        final(reader).wf(),
        final(reader).buffer() == old(reader).buffer(),
        final(reader).position() >= old(reader).position(),
        r is Ok ==> numbered_as_read(r->Ok_0, old(ids).next()) && final(ids).next() == advanced(
            old(ids).next(),
            count_of(r->Ok_0),
        ),
        match read_chunk(old(reader).buffer(), old(reader).position(), *header) {
            Some((v, p)) => r is Ok && r->Ok_0@ == v && final(reader).position() == p,
            None => r == Err::<Proto, Error>(Error::FormatError),
        },
    decreases old(reader).buffer().len() - old(reader).position(),
{
    let ghost s = reader.buffer();
    let ghost entry = reader.position();
    proof {
        lemma_read_chunk_parts(s, entry, *header);
    }
    let ghost first = ids.next();
    let head = load_head(reader, header, ids)?;
    let ghost code = head.instructions@;
    let ghost base = advanced(first, code.len());
    let n = reader.integer(header.0 as usize)?;
    let ghost start = reader.position();
    let mut prototypes: Vec<Proto> = Vec::new();
    let mut i: u32 = 0;
    proof {
        lemma_read_chunks_zero(s, start, *header);
    }
    while i < n
        invariant
            i <= n,
            reader.wf(),
            s == old(reader).buffer(),
            entry == old(reader).position(),
            reader.buffer() == s,
            entry < start <= reader.position(),
            prototypes.len() == i,
            read_chunks(s, start, i as nat, *header) == Some(
                (prototypes_view(prototypes@, i as nat), reader.position()),
            ),
            read_chunks(s, start, n as nat, *header) is None ==> read_chunk(s, entry, *header)
                is None,
            head.instructions@ == code,
            ids.next() == advanced(base, count_all(prototypes@, i as nat)),
            all_numbered_as_read(prototypes@, i as nat, base),
        decreases n - i,
    {
        let ghost before = prototypes@;
        proof {
            lemma_read_chunks_more(s, start, (i + 1) as nat, *header);
        }
        match chunk(reader, header, ids) {
            Ok(c) => {
                prototypes.push(c);
                proof {
                    lemma_first_prototypes(before, prototypes@, i as nat, base);
                    lemma_advanced_on(base, count_all(before, i as nat), count_of(c));
                    lemma_prototypes_view(before, i as nat);
                    lemma_prototypes_view(prototypes@, i as nat);
                    assert(prototypes_view(prototypes@, i as nat) =~= prototypes_view(
                        before,
                        i as nat,
                    ));
                }
            },
            Err(e) => {
                proof {
                    lemma_read_chunks_none(s, start, i as nat, n as nat, *header);
                }
                return Err(e);
            },
        }
        i += 1;
    }
    let ghost nested = prototypes_view(prototypes@, n as nat);
    let tail = load_tail(reader, header)?;
    let proto = Proto {
        source: head.source,
        line_defined: head.line_defined,
        last_line_defined: head.last_line_defined,
        nupvals: head.nupvals,
        nparams: head.nparams,
        is_vararg_flag: head.is_vararg_flag,
        max_stack_size: head.max_stack_size,
        instructions: head.instructions,
        constants: head.constants,
        prototypes,
        source_lines: Some(tail.source_lines),
        locals: Some(tail.locals),
        upvals: Some(tail.upvals),
    };
    assert(proto@ == assemble(head@, nested, tail@));
    proof {
        lemma_advanced_on(first, code.len(), count_all(prototypes@, n as nat));
    }
    Ok(proto)
}

/// Reads a chunk: its header and its main prototype with all that is
/// nested in it. Each instruction is made under a number of `ids`, in the
/// order in which the instructions are read: those of a prototype come
/// before those of the prototypes nested in it.
pub fn deserialize_bytecode(bytecode: &[u8], ids: &mut Ids) -> (r: Result<(Header, Proto), Error>)
    ensures
        match read_bytecode(bytecode@) {
            Some((h, v)) => r is Ok && r->Ok_0.0 == h && r->Ok_0.1@ == v && numbered_as_read(
                r->Ok_0.1,
                old(ids).next(),
            ) && final(ids).next() == advanced(old(ids).next(), count_of(r->Ok_0.1)),
            None => r == Err::<(Header, Proto), Error>(Error::FormatError),
        },
{
    let mut reader = Reader::new(bytecode);
    let header_data = header(&mut reader)?;
    let proto = chunk(&mut reader, &header_data, ids)?;
    Ok((header_data, proto))
}

} // verus!

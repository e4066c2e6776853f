//! A prototype as the bytes of a chunk.

use vstd::prelude::*;
use vstd::utf8::encode_utf8;
use crate::error::Error;
use crate::instruction::{Instruction, Opcode, Opmode, unnumbered_code};
use crate::proto::{
    Constants, ConstantsView, Header, Local, LocalView, Proto, ProtoView, constants_view,
    locals_view, strings_view, lemma_prototypes_view,
};
use crate::writer::{Writer, le_bytes, number_bytes, string_bytes};

verus! {

/// The twelve bytes that open a chunk with the sizes `h`.
pub open spec fn header_bytes(h: Header) -> Seq<u8> {
    seq![0x1bu8, 0x4cu8, 0x75u8, 0x61u8, 0x51u8, 0u8, 1u8, h.0, h.1, h.2, h.3, 0u8]
}

/// The integers `ws`, each as `size` bytes.
pub open spec fn words_bytes(ws: Seq<u32>, size: nat) -> Seq<u8>
    decreases ws.len(),
{
    if ws.len() == 0 {
        Seq::empty()
    } else {
        words_bytes(ws.drop_last(), size) + le_bytes(ws.last() as nat, size)
    }
}

/// The words of the instructions `code`; 0 stands for one that has none.
pub open spec fn code_words(code: Seq<Instruction>) -> Seq<u32> {
    Seq::new(
        code.len(),
        |i: int|
            match code[i].word() {
                Some(w) => w,
                None => 0,
            },
    )
}

/// A constant: the byte of its kind, then what it holds.
pub open spec fn constant_bytes(c: ConstantsView, h: Header) -> Seq<u8> {
    match c {
        ConstantsView::Nil => seq![0u8],
        ConstantsView::Boolean(b) => seq![
            1u8,
            if b {
                1u8
            } else {
                0u8
            },
        ],
        ConstantsView::Number(n) => seq![3u8] + number_bytes(n, h.0 as nat),
        ConstantsView::String(s) => seq![4u8] + string_bytes(s, h.1 as nat),
    }
}

pub open spec fn constants_bytes(cs: Seq<ConstantsView>, h: Header) -> Seq<u8>
    decreases cs.len(),
{
    if cs.len() == 0 {
        Seq::empty()
    } else {
        constants_bytes(cs.drop_last(), h) + constant_bytes(cs.last(), h)
    }
}

/// A local variable: its name, then the two ends of its range.
pub open spec fn local_bytes(l: LocalView, h: Header) -> Seq<u8> {
    string_bytes(l.name, h.1 as nat) + le_bytes(l.start as nat, h.0 as nat) + le_bytes(
        l.end as nat,
        h.0 as nat,
    )
}

pub open spec fn locals_bytes(ls: Seq<LocalView>, h: Header) -> Seq<u8>
    decreases ls.len(),
{
    if ls.len() == 0 {
        Seq::empty()
    } else {
        locals_bytes(ls.drop_last(), h) + local_bytes(ls.last(), h)
    }
}

pub open spec fn strings_bytes(ss: Seq<Seq<char>>, h: Header) -> Seq<u8>
    decreases ss.len(),
{
    if ss.len() == 0 {
        Seq::empty()
    } else {
        strings_bytes(ss.drop_last(), h) + string_bytes(ss.last(), h.1 as nat)
    }
}

/// The count that stands before a list.
pub open spec fn count_bytes(n: nat, h: Header) -> Seq<u8> {
    le_bytes(n, h.0 as nat)
}

/// The list of source lines; one that was dropped is written as empty.
pub open spec fn lines_section(lines: Option<Seq<u32>>, h: Header) -> Seq<u8> {
    match lines {
        Some(v) => count_bytes(v.len(), h) + words_bytes(v, h.0 as nat),
        None => count_bytes(0, h),
    }
}

pub open spec fn locals_section(locals: Option<Seq<LocalView>>, h: Header) -> Seq<u8> {
    match locals {
        Some(v) => count_bytes(v.len(), h) + locals_bytes(v, h),
        None => count_bytes(0, h),
    }
}

pub open spec fn upvals_section(upvals: Option<Seq<Seq<char>>>, h: Header) -> Seq<u8> {
    match upvals {
        Some(v) => count_bytes(v.len(), h) + strings_bytes(v, h),
        None => count_bytes(0, h),
    }
}

/// What stands before the nested prototypes of `p`: its name and numbers,
/// its code and its constants.
pub open spec fn chunk_head(p: ProtoView, h: Header) -> Seq<u8> {
    string_bytes(p.source, h.1 as nat) + le_bytes(p.line_defined as nat, h.0 as nat) + le_bytes(
        p.last_line_defined as nat,
        h.0 as nat,
    ) + seq![p.nupvals, p.nparams, p.is_vararg_flag, p.max_stack_size] + count_bytes(
        p.instructions.len(),
        h,
    ) + words_bytes(code_words(p.instructions), h.2 as nat) + count_bytes(p.constants.len(), h)
        + constants_bytes(p.constants, h)
}

/// What stands after the nested prototypes of `p`: the three lists of
/// debug information.
pub open spec fn chunk_tail(p: ProtoView, h: Header) -> Seq<u8> {
    lines_section(p.source_lines, h) + locals_section(p.locals, h) + upvals_section(p.upvals, h)
}

/// The prototype `p` on the wire.
pub open spec fn chunk_bytes(p: ProtoView, h: Header) -> Seq<u8>
    decreases p,
{
    chunk_head(p, h) + count_bytes(p.prototypes.len(), h) + chunks_bytes(
        p.prototypes,
        p.prototypes.len(),
        h,
    ) + chunk_tail(p, h)
}

/// The first `n` of the prototypes `ps` on the wire, one after another.
pub open spec fn chunks_bytes(ps: Seq<ProtoView>, n: nat, h: Header) -> Seq<u8>
    decreases ps, n,
{
    if n == 0 || n > ps.len() {
        Seq::empty()
    } else {
        chunks_bytes(ps, (n - 1) as nat, h) + chunk_bytes(ps[n - 1], h)
    }
}

/// A whole chunk: the header, then the main prototype.
pub open spec fn bytecode_bytes(h: Header, p: ProtoView) -> Seq<u8> {
    header_bytes(h) + chunk_bytes(p, h)
}

pub open spec fn string_fits(s: Seq<char>) -> bool {
    encode_utf8(s).len() < u32::MAX
}

pub open spec fn constant_fits(c: ConstantsView) -> bool {
    match c {
        ConstantsView::String(s) => string_fits(s),
        _ => true,
    }
}

/// The instruction `ins` can be written: it is not a placeholder by its
/// opcode, and its packed fields make a word.
pub open spec fn instruction_fits(ins: Instruction) -> bool {
    ins.0 != Opcode::NOP && !(ins.2 is NOP)
}

/// Every instruction of `code` can be written.
pub open spec fn code_fits(code: Seq<Instruction>) -> bool {
    forall|i: int| 0 <= i < code.len() ==> instruction_fits(#[trigger] code[i])
}

pub open spec fn constants_fit(cs: Seq<ConstantsView>) -> bool {
    forall|i: int| 0 <= i < cs.len() ==> constant_fits(#[trigger] cs[i])
}

pub open spec fn locals_fit(ls: Seq<LocalView>) -> bool {
    forall|i: int| 0 <= i < ls.len() ==> string_fits((#[trigger] ls[i]).name)
}

pub open spec fn strings_fit(ss: Seq<Seq<char>>) -> bool {
    forall|i: int| 0 <= i < ss.len() ==> string_fits(#[trigger] ss[i])
}

pub open spec fn lines_section_fits(lines: Option<Seq<u32>>) -> bool {
    lines matches Some(v) ==> v.len() <= u32::MAX
}

pub open spec fn locals_section_fits(locals: Option<Seq<LocalView>>) -> bool {
    locals matches Some(v) ==> v.len() <= u32::MAX && locals_fit(v)
}

pub open spec fn upvals_section_fits(upvals: Option<Seq<Seq<char>>>) -> bool {
    upvals matches Some(v) ==> v.len() <= u32::MAX && strings_fit(v)
}

/// Whether what stands before the nested prototypes of `p` can be written.
pub open spec fn head_encodable(p: ProtoView) -> bool {
    &&& string_fits(p.source)
    &&& p.instructions.len() <= u32::MAX
    &&& code_fits(p.instructions)
    &&& p.constants.len() <= u32::MAX
    &&& constants_fit(p.constants)
}

/// The prototype `p` can be written: no instruction is a placeholder, every
/// list and every string has a length that fits 32 bits, and the same holds
/// of the prototypes nested in it.
pub open spec fn encodable(p: ProtoView) -> bool
    decreases p,
{
    &&& head_encodable(p)
    &&& p.prototypes.len() <= u32::MAX
    &&& all_encodable(p.prototypes, p.prototypes.len())
    &&& tail_encodable(p)
}

/// Each of the first `n` of the prototypes `ps` can be written.
pub open spec fn all_encodable(ps: Seq<ProtoView>, n: nat) -> bool
    decreases ps, n,
{
    if n == 0 || n > ps.len() {
        true
    } else {
        all_encodable(ps, (n - 1) as nat) && encodable(ps[n - 1])
    }
}

fn dump_header(writer: &mut Writer, header: &Header)
    ensures
        final(writer)@ == old(writer)@ + header_bytes(*header),
{
    writer.byte(0x1b);
    writer.byte(0x4c);
    writer.byte(0x75);
    writer.byte(0x61);
    writer.byte(0x51);
    writer.byte(0);
    writer.byte(1);
    writer.byte(header.0);
    writer.byte(header.1);
    writer.byte(header.2);
    writer.byte(header.3);
    writer.byte(0);
    assert(writer@ =~= old(writer)@ + header_bytes(*header));
}

/// Whether a list of `n` items can state its length.
fn count_fits(n: usize) -> (r: bool)
    ensures
        r == (n <= u32::MAX),
{
    n <= 0xffff_ffff
}

/// Whether a string can state its length, which counts one byte more.
fn fits(s: &str) -> (r: bool)
    ensures
        r == string_fits(s@),
{
    s.as_bytes().len() < 0xffff_ffff
}

/// The numbers of instructions are not written: the words of code, and
/// whether it can be written, are those of the code without its numbers.
pub proof fn lemma_numbers_unwritten(code: Seq<Instruction>)
    ensures
        code_words(unnumbered_code(code)) == code_words(code),
        code_fits(unnumbered_code(code)) == code_fits(code),
{
    let bare = unnumbered_code(code);
    assert(code_words(bare) =~= code_words(code));
    if code_fits(code) {
        assert forall|i: int| 0 <= i < bare.len() implies instruction_fits(#[trigger] bare[i]) by {
            assert(instruction_fits(code[i]));
        }
    }
    if code_fits(bare) {
        assert forall|i: int| 0 <= i < code.len() implies instruction_fits(#[trigger] code[i]) by {
            assert(instruction_fits(bare[i]));
        }
    }
}

fn dump_code(writer: &mut Writer, header: &Header, code: &Vec<Instruction>) -> (r: Result<
    (),
    Error,
>)
    ensures
        code_fits(code@) ==> r is Ok && final(writer)@ == old(writer)@ + words_bytes(
            code_words(code@),
            header.2 as nat,
        ),
        !code_fits(code@) ==> r == Err::<(), Error>(Error::FormatError),
{
    let ghost words = code_words(code@);
    let mut i: usize = 0;
    while i < code.len()
        invariant
            i <= code.len(),
            words == code_words(code@),
            forall|j: int| 0 <= j < i ==> instruction_fits(#[trigger] code[j]),
            writer@ == old(writer)@ + words_bytes(words.subrange(0, i as int), header.2 as nat),
        decreases code.len() - i,
    {
        let instr = &code[i];
        if let Opcode::NOP = instr.0 {
            assert(!instruction_fits(code@[i as int]));
            return Err(Error::FormatError);
        }
        if let Opmode::NOP = instr.2 {
            assert(!instruction_fits(code@[i as int]));
            return Err(Error::FormatError);
        }
        let word = instr.serialize();
        proof {
            let upto = words.subrange(0, i + 1);
            assert(upto.drop_last() =~= words.subrange(0, i as int));
            assert(upto.last() == word);
            assert(old(writer)@ + words_bytes(upto, header.2 as nat) =~= (old(writer)@
                + words_bytes(words.subrange(0, i as int), header.2 as nat)) + le_bytes(
                upto.last() as nat,
                header.2 as nat,
            ));
        }
        writer.integer(word, header.2);
        i += 1;
    }
    assert(words.subrange(0, code.len() as int) =~= words);
    Ok(())
}

fn dump_constant(writer: &mut Writer, header: &Header, kst: &Constants) -> (r: Result<(), Error>)
    ensures
        constant_fits(kst@) ==> r is Ok && final(writer)@ == old(writer)@ + constant_bytes(
            kst@,
            *header,
        ),
        !constant_fits(kst@) ==> r == Err::<(), Error>(Error::FormatError),
{
    match kst {
        Constants::Nil => {
            writer.byte(0);
        },
        Constants::Boolean(b) => {
            writer.byte(1);
            writer.byte(
                if *b {
                    1
                } else {
                    0
                },
            );
        },
        Constants::String(s) => {
            if !fits(s.as_str()) {
                return Err(Error::FormatError);
            }
            writer.byte(4);
            writer.string(s.as_str(), header.1);
        },
        Constants::Number(n) => {
            writer.byte(3);
            writer.number(*n, header.0);
        },
    }
    assert(writer@ =~= old(writer)@ + constant_bytes(kst@, *header));
    Ok(())
}

fn dump_constants(writer: &mut Writer, header: &Header, constants: &Vec<Constants>) -> (r: Result<
    (),
    Error,
>)
    ensures
        constants_fit(constants_view(constants@)) ==> r is Ok && final(writer)@ == old(writer)@
            + constants_bytes(constants_view(constants@), *header),
        !constants_fit(constants_view(constants@)) ==> r == Err::<(), Error>(Error::FormatError),
{
    let ghost views = constants_view(constants@);
    let mut i: usize = 0;
    while i < constants.len()
        invariant
            i <= constants.len(),
            views == constants_view(constants@),
            forall|j: int| 0 <= j < i ==> constant_fits(#[trigger] views[j]),
            writer@ == old(writer)@ + constants_bytes(views.subrange(0, i as int), *header),
        decreases constants.len() - i,
    {
        let ghost before = writer@;
        match dump_constant(writer, header, &constants[i]) {
            Ok(()) => {},
            Err(e) => {
                assert(!constant_fits(views[i as int]));
                return Err(e);
            },
        }
        proof {
            let upto = views.subrange(0, i + 1);
            assert(upto.drop_last() =~= views.subrange(0, i as int));
            assert(upto.last() == constants[i as int]@);
            assert(old(writer)@ + constants_bytes(upto, *header) =~= before + constant_bytes(
                upto.last(),
                *header,
            ));
        }
        i += 1;
    }
    assert(views.subrange(0, constants.len() as int) =~= views);
    Ok(())
}

fn dump_lines(writer: &mut Writer, header: &Header, lines: &Vec<u32>)
    ensures
        final(writer)@ == old(writer)@ + words_bytes(lines@, header.0 as nat),
{
    let mut i: usize = 0;
    while i < lines.len()
        invariant
            i <= lines.len(),
            writer@ == old(writer)@ + words_bytes(lines@.subrange(0, i as int), header.0 as nat),
        decreases lines.len() - i,
    {
        proof {
            let upto = lines@.subrange(0, i + 1);
            assert(upto.drop_last() =~= lines@.subrange(0, i as int));
            assert(old(writer)@ + words_bytes(upto, header.0 as nat) =~= (old(writer)@
                + words_bytes(lines@.subrange(0, i as int), header.0 as nat)) + le_bytes(
                upto.last() as nat,
                header.0 as nat,
            ));
        }
        writer.integer(lines[i], header.0);
        i += 1;
    }
    assert(lines@.subrange(0, lines.len() as int) =~= lines@);
}

fn dump_locals(writer: &mut Writer, header: &Header, locals: &Vec<Local>) -> (r: Result<(), Error>)
    ensures
        locals_fit(locals_view(locals@)) ==> r is Ok && final(writer)@ == old(writer)@
            + locals_bytes(locals_view(locals@), *header),
        !locals_fit(locals_view(locals@)) ==> r == Err::<(), Error>(Error::FormatError),
{
    let ghost views = locals_view(locals@);
    let mut i: usize = 0;
    while i < locals.len()
        invariant
            i <= locals.len(),
            views == locals_view(locals@),
            forall|j: int| 0 <= j < i ==> string_fits((#[trigger] views[j]).name),
            writer@ == old(writer)@ + locals_bytes(views.subrange(0, i as int), *header),
        decreases locals.len() - i,
    {
        let ghost before = writer@;
        let local = &locals[i];
        if !fits(local.0.as_str()) {
            assert(!string_fits(views[i as int].name));
            return Err(Error::FormatError);
        }
        writer.string(local.0.as_str(), header.1);
        writer.integer(local.1, header.0);
        writer.integer(local.2, header.0);
        proof {
            let upto = views.subrange(0, i + 1);
            assert(upto.drop_last() =~= views.subrange(0, i as int));
            assert(upto.last() == local@);
            assert(old(writer)@ + locals_bytes(upto, *header) =~= before + local_bytes(
                upto.last(),
                *header,
            ));
        }
        i += 1;
    }
    assert(views.subrange(0, locals.len() as int) =~= views);
    Ok(())
}

fn dump_strings(writer: &mut Writer, header: &Header, strings: &Vec<String>) -> (r: Result<
    (),
    Error,
>)
    ensures
        strings_fit(strings_view(strings@)) ==> r is Ok && final(writer)@ == old(writer)@
            + strings_bytes(strings_view(strings@), *header),
        !strings_fit(strings_view(strings@)) ==> r == Err::<(), Error>(Error::FormatError),
{
    let ghost views = strings_view(strings@);
    let mut i: usize = 0;
    while i < strings.len()
        invariant
            i <= strings.len(),
            views == strings_view(strings@),
            forall|j: int| 0 <= j < i ==> string_fits(#[trigger] views[j]),
            writer@ == old(writer)@ + strings_bytes(views.subrange(0, i as int), *header),
        decreases strings.len() - i,
    {
        let ghost before = writer@;
        let name = &strings[i];
        if !fits(name.as_str()) {
            assert(!string_fits(views[i as int]));
            return Err(Error::FormatError);
        }
        writer.string(name.as_str(), header.1);
        proof {
            let upto = views.subrange(0, i + 1);
            assert(upto.drop_last() =~= views.subrange(0, i as int));
            assert(upto.last() == name@);
            assert(old(writer)@ + strings_bytes(upto, *header) =~= before + string_bytes(
                upto.last(),
                header.1 as nat,
            ));
        }
        i += 1;
    }
    assert(views.subrange(0, strings.len() as int) =~= views);
    Ok(())
}

/// Where the first `n` prototypes can be written, so can the first `m` of
/// them, and each of these.
pub proof fn lemma_all_encodable(ps: Seq<ProtoView>, n: nat, m: nat)
    requires
        m <= n <= ps.len(),
        all_encodable(ps, n),
    ensures
        all_encodable(ps, m),
        m < n ==> encodable(ps[m as int]),
    decreases n,
{
    if m < n {
        if m < n - 1 {
            lemma_all_encodable(ps, (n - 1) as nat, m);
        }
    }
}

fn dump_lines_section(writer: &mut Writer, header: &Header, lines: &Option<Vec<u32>>) -> (r: Result<
    (),
    Error,
>)
    ensures
        ({
            let view = match lines {
                Some(v) => Some(v@),
                None => None,
            };
            let fits = lines_section_fits(view);
            &&& fits ==> r is Ok && final(writer)@ == old(writer)@ + lines_section(view, *header)
            &&& !fits ==> r == Err::<(), Error>(Error::FormatError)
        }),
{
    if let Some(source_lines) = lines {
        if !count_fits(source_lines.len()) {
            return Err(Error::FormatError);
        }
        writer.integer(source_lines.len() as u32, header.0);
        dump_lines(writer, header, source_lines);
        assert(writer@ =~= old(writer)@ + lines_section(Some(source_lines@), *header));
    } else {
        writer.integer(0, header.0);
    }
    Ok(())
}

fn dump_locals_section(
    writer: &mut Writer,
    header: &Header,
    locals: &Option<Vec<Local>>,
) -> (r: Result<(), Error>)
    ensures
        ({
            let view = match locals {
                Some(v) => Some(locals_view(v@)),
                None => None,
            };
            let fits = locals_section_fits(view);
            &&& fits ==> r is Ok && final(writer)@ == old(writer)@ + locals_section(view, *header)
            &&& !fits ==> r == Err::<(), Error>(Error::FormatError)
        }),
{
    if let Some(list) = locals {
        if !count_fits(list.len()) {
            return Err(Error::FormatError);
        }
        writer.integer(list.len() as u32, header.0);
        dump_locals(writer, header, list)?;
        assert(writer@ =~= old(writer)@ + locals_section(Some(locals_view(list@)), *header));
    } else {
        writer.integer(0, header.0);
    }
    Ok(())
}

fn dump_upvals_section(
    writer: &mut Writer,
    header: &Header,
    upvals: &Option<Vec<String>>,
) -> (r: Result<(), Error>)
    ensures
        ({
            let view = match upvals {
                Some(v) => Some(strings_view(v@)),
                None => None,
            };
            let fits = upvals_section_fits(view);
            &&& fits ==> r is Ok && final(writer)@ == old(writer)@ + upvals_section(view, *header)
            &&& !fits ==> r == Err::<(), Error>(Error::FormatError)
        }),
{
    if let Some(list) = upvals {
        if !count_fits(list.len()) {
            return Err(Error::FormatError);
        }
        writer.integer(list.len() as u32, header.0);
        dump_strings(writer, header, list)?;
        assert(writer@ =~= old(writer)@ + upvals_section(Some(strings_view(list@)), *header));
    } else {
        writer.integer(0, header.0);
    }
    Ok(())
}

fn dump_head(writer: &mut Writer, header: &Header, proto: &Proto) -> (r: Result<(), Error>)
    ensures
        head_encodable(proto@) ==> r is Ok && final(writer)@ == old(writer)@ + chunk_head(
            proto@,
            *header,
        ),
        !head_encodable(proto@) ==> r == Err::<(), Error>(Error::FormatError),
{
    if !fits(proto.source.as_str()) {
        return Err(Error::FormatError);
    }
    writer.string(proto.source.as_str(), header.1);
    writer.integer(proto.line_defined, header.0);
    writer.integer(proto.last_line_defined, header.0);
    writer.byte(proto.nupvals);
    writer.byte(proto.nparams);
    writer.byte(proto.is_vararg_flag);
    writer.byte(proto.max_stack_size);
    if !count_fits(proto.instructions.len()) {
        return Err(Error::FormatError);
    }
    proof {
        lemma_numbers_unwritten(proto.instructions@);
    }
    writer.integer(proto.instructions.len() as u32, header.0);
    dump_code(writer, header, &proto.instructions)?;
    if !count_fits(proto.constants.len()) {
        return Err(Error::FormatError);
    }
    writer.integer(proto.constants.len() as u32, header.0);
    dump_constants(writer, header, &proto.constants)?;
    assert(writer@ =~= old(writer)@ + chunk_head(proto@, *header));
    Ok(())
}

/// Whether what stands after the nested prototypes of `p` can be written.
pub open spec fn tail_encodable(p: ProtoView) -> bool {
    &&& lines_section_fits(p.source_lines)
    &&& locals_section_fits(p.locals)
    &&& upvals_section_fits(p.upvals)
}

fn dump_tail(writer: &mut Writer, header: &Header, proto: &Proto) -> (r: Result<(), Error>)
    ensures
        tail_encodable(proto@) ==> r is Ok && final(writer)@ == old(writer)@ + chunk_tail(
            proto@,
            *header,
        ),
        !tail_encodable(proto@) ==> r == Err::<(), Error>(Error::FormatError),
{
    dump_lines_section(writer, header, &proto.source_lines)?;
    dump_locals_section(writer, header, &proto.locals)?;
    dump_upvals_section(writer, header, &proto.upvals)?;
    assert(writer@ =~= old(writer)@ + chunk_tail(proto@, *header));
    Ok(())
}

fn dump_chunk(writer: &mut Writer, header: &Header, proto: &Proto) -> (r: Result<(), Error>)
    ensures
        encodable(proto@) ==> r is Ok && final(writer)@ == old(writer)@ + chunk_bytes(
            proto@,
            *header,
        ),
        !encodable(proto@) ==> r == Err::<(), Error>(Error::FormatError),
    decreases proto,
{
    let ghost nested = proto@.prototypes;
    proof {
        lemma_prototypes_view(proto.prototypes@, proto.prototypes@.len());
    }
    dump_head(writer, header, proto)?;
    if !count_fits(proto.prototypes.len()) {
        return Err(Error::FormatError);
    }
    writer.integer(proto.prototypes.len() as u32, header.0);
    let ghost start = writer@;
    let mut i: usize = 0;
    while i < proto.prototypes.len()
        invariant
            i <= proto.prototypes.len(),
            nested == proto@.prototypes,
            nested.len() == proto.prototypes.len(),
            forall|j: int| 0 <= j < nested.len() ==> (#[trigger] nested[j]) == proto.prototypes[j]@,
            all_encodable(nested, i as nat),
            writer@ == start + chunks_bytes(nested, i as nat, *header),
        decreases proto.prototypes.len() - i,
    {
        match dump_chunk(writer, header, &proto.prototypes[i]) {
            Ok(()) => {},
            Err(e) => {
                proof {
                    if all_encodable(nested, nested.len()) {
                        lemma_all_encodable(nested, nested.len(), i as nat);
                    }
                }
                return Err(e);
            },
        }
        assert(writer@ =~= start + chunks_bytes(nested, (i + 1) as nat, *header));
        i += 1;
    }
    let ghost middle = writer@;
    dump_tail(writer, header, proto)?;
    assert(writer@ == middle + chunk_tail(proto@, *header));
    assert(middle == old(writer)@ + chunk_head(proto@, *header) + count_bytes(nested.len(), *header)
        + chunks_bytes(nested, nested.len(), *header));
    Ok(())
}

/// Writes the chunk of `proto` under the header `header`. Fails where
/// `proto` cannot be written.
pub fn serialize_bytecode(header: &Header, proto: &Proto) -> (r: Result<Vec<u8>, Error>)
    ensures
        encodable(proto@) ==> r is Ok && r->Ok_0@ == bytecode_bytes(*header, proto@),
        !encodable(proto@) ==> r == Err::<Vec<u8>, Error>(Error::FormatError),
{
    let mut writer = Writer::new();
    dump_header(&mut writer, header);
    dump_chunk(&mut writer, header, proto)?;
    Ok(vstd::slice::slice_to_vec(writer.as_bytes()))
}

} // verus!

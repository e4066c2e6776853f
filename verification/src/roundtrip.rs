//! What is written is read back: the laws that tie the reading of a chunk
//! to its writing.

use vstd::prelude::*;
use vstd::utf8::{decode_utf8, encode_utf8, encode_utf8_decode_utf8, encode_utf8_valid_utf8};
use crate::deserialize::{
    supported_header, read_words, decode_at, decode_code, read_constant, read_constants,
    read_local, read_locals, read_strings, read_code, read_head, read_tail, read_chunk,
    read_chunks, read_bytecode, assemble, ChunkHead, ChunkTail, lemma_read_chunks_zero,
    lemma_read_chunks_more, lemma_read_chunk_parts,
};
use crate::instruction::{Instruction, lemma_decode_encode};
use crate::proto::{ConstantsView, LocalView, ProtoView};
use crate::reader::{read_int, read_number, read_string, le_value, string_body};
use crate::serialize::{
    header_bytes, words_bytes, code_words, constant_bytes, constants_bytes, local_bytes,
    locals_bytes, strings_bytes, count_bytes, chunk_head, chunk_tail, chunk_bytes, chunks_bytes,
    bytecode_bytes, string_fits, constant_fits, constants_fit, locals_fit, strings_fit,
    head_encodable, tail_encodable, encodable,
};
use crate::writer::{le_bytes, number_bytes, string_bytes};

verus! {

/// The bytes `b` stand in `s` from `pos` on.
pub open spec fn stands(s: Seq<u8>, pos: int, b: Seq<u8>) -> bool {
    0 <= pos && pos + b.len() <= s.len() && s.subrange(pos, pos + b.len()) == b
}

/// Where two runs of bytes stand one after the other, each stands at its
/// place.
pub proof fn lemma_stands_split(s: Seq<u8>, pos: int, a: Seq<u8>, b: Seq<u8>)
    requires
        stands(s, pos, a + b),
    ensures
        stands(s, pos, a),
        stands(s, pos + a.len(), b),
{
    let ab = a + b;
    let whole = s.subrange(pos, pos + ab.len());
    assert forall|i: int| 0 <= i < a.len() implies s.subrange(pos, pos + a.len())[i] == a[i] by {
        assert(whole[i] == ab[i]);
    }
    assert(s.subrange(pos, pos + a.len()) =~= a);
    assert forall|i: int| 0 <= i < b.len() implies s.subrange(
        pos + a.len(),
        pos + a.len() + b.len(),
    )[i] == b[i] by {
        assert(whole[a.len() + i] == ab[a.len() + i]);
    }
    assert(s.subrange(pos + a.len(), pos + a.len() + b.len()) =~= b);
}

/// Four bytes written for a 32-bit integer spell it.
pub proof fn lemma_le_bytes_4(n: u32)
    ensures
        le_bytes(n as nat, 4).len() == 4,
        le_value(le_bytes(n as nat, 4)) == n,
{
    let n0 = n as nat;
    let n1 = n0 / 256;
    let n2 = n1 / 256;
    let n3 = n2 / 256;
    let b0 = (n0 % 256) as u8;
    let b1 = (n1 % 256) as u8;
    let b2 = (n2 % 256) as u8;
    let b3 = (n3 % 256) as u8;
    reveal_with_fuel(le_bytes, 5);
    let t0 = le_bytes(n0, 4);
    let t1 = le_bytes(n1, 3);
    let t2 = le_bytes(n2, 2);
    let t3 = le_bytes(n3, 1);
    assert(t3 =~= seq![b3]);
    assert(t2 =~= seq![b2, b3]);
    assert(t1 =~= seq![b1, b2, b3]);
    assert(t0 =~= seq![b0, b1, b2, b3]);
    assert(t3.drop_first() =~= Seq::<u8>::empty());
    assert(t2.drop_first() =~= t3);
    assert(t1.drop_first() =~= t2);
    assert(t0.drop_first() =~= t1);
    assert(le_value(Seq::<u8>::empty()) == 0);
    assert(le_value(t3) == b3);
    assert(le_value(t2) == b2 + 256 * le_value(t3));
    assert(le_value(t1) == b1 + 256 * le_value(t2));
    assert(le_value(t0) == b0 + 256 * le_value(t1));
}

/// A 32-bit integer is read from the four bytes written for it.
pub proof fn lemma_read_int(s: Seq<u8>, pos: int, n: u32)
    requires
        stands(s, pos, le_bytes(n as nat, 4)),
    ensures
        read_int(s, pos, 4) == Some((n, pos + 4)),
{
    lemma_le_bytes_4(n);
}

/// The bits of a double are read from the eight bytes written for them.
pub proof fn lemma_read_number(s: Seq<u8>, pos: int, n: u64)
    requires
        stands(s, pos, number_bytes(n, 4)),
    ensures
        number_bytes(n, 4).len() == 8,
        read_number(s, pos, 4) == Some((n, pos + 8)),
{
    let low = (n % 0x1_0000_0000) as u32;
    let high = (n / 0x1_0000_0000) as u32;
    lemma_le_bytes_4(low);
    lemma_le_bytes_4(high);
    lemma_stands_split(s, pos, le_bytes(low as nat, 4), le_bytes(high as nat, 4));
    lemma_read_int(s, pos, low);
    lemma_read_int(s, pos + 4, high);
}

/// A string is read from the bytes written for it.
pub proof fn lemma_read_string(s: Seq<u8>, pos: int, v: Seq<char>)
    requires
        string_fits(v),
        stands(s, pos, string_bytes(v, 4)),
    ensures
        read_string(s, pos, 4) == Some((v, pos + string_bytes(v, 4).len())),
{
    let enc = encode_utf8(v);
    encode_utf8_valid_utf8(v);
    encode_utf8_decode_utf8(v);
    if v.len() == 0 {
        lemma_le_bytes_4(0);
        lemma_read_int(s, pos, 0);
        let b = s.subrange(pos + 4, pos + 4);
        assert(b =~= Seq::<u8>::empty());
        assert(enc =~= Seq::<u8>::empty());
        assert(v =~= decode_utf8(string_body(b)));
    } else {
        let len = (enc.len() + 1) as u32;
        let size = le_bytes(len as nat, 4);
        lemma_le_bytes_4(len);
        lemma_stands_split(s, pos, size + enc, seq![0u8]);
        lemma_stands_split(s, pos, size, enc);
        lemma_read_int(s, pos, len);
        let b = s.subrange(pos + 4, pos + 4 + len);
        assert(b =~= enc + seq![0u8]);
        assert(string_body(b) =~= enc);
    }
}

/// A list of integers is read from the bytes written for it.
pub proof fn lemma_read_words(s: Seq<u8>, pos: int, ws: Seq<u32>)
    requires
        stands(s, pos, words_bytes(ws, 4)),
    ensures
        words_bytes(ws, 4).len() == 4 * ws.len(),
        read_words(s, pos, ws.len(), 4) == Some((ws, pos + 4 * ws.len())),
    decreases ws.len(),
{
    if ws.len() == 0 {
        assert(ws =~= Seq::<u32>::empty());
    } else {
        let front = ws.drop_last();
        lemma_stands_split(s, pos, words_bytes(front, 4), le_bytes(ws.last() as nat, 4));
        lemma_read_words(s, pos, front);
        lemma_le_bytes_4(ws.last());
        lemma_read_int(s, pos + 4 * front.len(), ws.last());
        assert(front.push(ws.last()) =~= ws);
    }
}

/// A constant is read from the bytes written for it.
pub proof fn lemma_read_constant(s: Seq<u8>, pos: int, c: ConstantsView)
    requires
        constant_fits(c),
        stands(s, pos, constant_bytes(c, supported_header())),
    ensures
        read_constant(s, pos, supported_header()) == Some(
            (c, pos + constant_bytes(c, supported_header()).len()),
        ),
{
    let h = supported_header();
    let b = constant_bytes(c, h);
    let at = s.subrange(pos, pos + b.len());
    assert(at[0] == b[0]);
    match c {
        ConstantsView::Nil => {},
        ConstantsView::Boolean(v) => {
            assert(at[1] == b[1]);
        },
        ConstantsView::Number(n) => {
            lemma_stands_split(s, pos, seq![3u8], number_bytes(n, 4));
            lemma_read_number(s, pos + 1, n);
        },
        ConstantsView::String(v) => {
            lemma_stands_split(s, pos, seq![4u8], string_bytes(v, 4));
            lemma_read_string(s, pos + 1, v);
        },
    }
}

/// A pool of constants is read from the bytes written for it.
pub proof fn lemma_read_constants(s: Seq<u8>, pos: int, cs: Seq<ConstantsView>)
    requires
        constants_fit(cs),
        stands(s, pos, constants_bytes(cs, supported_header())),
    ensures
        read_constants(s, pos, cs.len(), supported_header()) == Some(
            (cs, pos + constants_bytes(cs, supported_header()).len()),
        ),
    decreases cs.len(),
{
    let h = supported_header();
    if cs.len() == 0 {
        assert(cs =~= Seq::<ConstantsView>::empty());
    } else {
        let front = cs.drop_last();
        assert(constants_fit(front));
        lemma_stands_split(s, pos, constants_bytes(front, h), constant_bytes(cs.last(), h));
        lemma_read_constants(s, pos, front);
        lemma_read_constant(s, pos + constants_bytes(front, h).len(), cs.last());
        assert(front.push(cs.last()) =~= cs);
    }
}

/// A local variable is read from the bytes written for it.
pub proof fn lemma_read_local(s: Seq<u8>, pos: int, l: LocalView)
    requires
        string_fits(l.name),
        stands(s, pos, local_bytes(l, supported_header())),
    ensures
        read_local(s, pos, supported_header()) == Some(
            (l, pos + local_bytes(l, supported_header()).len()),
        ),
{
    let name = string_bytes(l.name, 4);
    let start = le_bytes(l.start as nat, 4);
    let end = le_bytes(l.end as nat, 4);
    lemma_le_bytes_4(l.start);
    lemma_le_bytes_4(l.end);
    lemma_stands_split(s, pos, name + start, end);
    lemma_stands_split(s, pos, name, start);
    lemma_read_string(s, pos, l.name);
    lemma_read_int(s, pos + name.len(), l.start);
    lemma_read_int(s, pos + name.len() + 4, l.end);
}

pub proof fn lemma_read_locals(s: Seq<u8>, pos: int, ls: Seq<LocalView>)
    requires
        locals_fit(ls),
        stands(s, pos, locals_bytes(ls, supported_header())),
    ensures
        read_locals(s, pos, ls.len(), supported_header()) == Some(
            (ls, pos + locals_bytes(ls, supported_header()).len()),
        ),
    decreases ls.len(),
{
    let h = supported_header();
    if ls.len() == 0 {
        assert(ls =~= Seq::<LocalView>::empty());
    } else {
        let front = ls.drop_last();
        assert(locals_fit(front));
        lemma_stands_split(s, pos, locals_bytes(front, h), local_bytes(ls.last(), h));
        lemma_read_locals(s, pos, front);
        lemma_read_local(s, pos + locals_bytes(front, h).len(), ls.last());
        assert(front.push(ls.last()) =~= ls);
    }
}

pub proof fn lemma_read_strings(s: Seq<u8>, pos: int, ss: Seq<Seq<char>>)
    requires
        strings_fit(ss),
        stands(s, pos, strings_bytes(ss, supported_header())),
    ensures
        read_strings(s, pos, ss.len(), supported_header()) == Some(
            (ss, pos + strings_bytes(ss, supported_header()).len()),
        ),
    decreases ss.len(),
{
    let h = supported_header();
    if ss.len() == 0 {
        assert(ss =~= Seq::<Seq<char>>::empty());
    } else {
        let front = ss.drop_last();
        assert(strings_fit(front));
        lemma_stands_split(s, pos, strings_bytes(front, h), string_bytes(ss.last(), 4));
        lemma_read_strings(s, pos, front);
        lemma_read_string(s, pos + strings_bytes(front, h).len(), ss.last());
        assert(front.push(ss.last()) =~= ss);
    }
}

/// The instructions `code` are such as a chunk is read to: the opcode and
/// packed fields of each are those of its operands, which fit their fields;
/// each stands without its number, as in the view of a prototype; and a
/// list store whose count does not fit its field is followed by the word
/// of that count.
pub open spec fn canonical_code(code: Seq<Instruction>) -> bool {
    forall|i: int|
        0 <= i < code.len() ==> {
            let ins = #[trigger] code[i];
            &&& ins.wf()
            &&& ins.1.wf()
            &&& ins.3 == 0
            &&& ins.1.extension() matches Some(c) ==> i + 1 < code.len() && code[i + 1].word()
                == Some(c)
        }
}

/// Canonical code is decoded from its own words.
pub proof fn lemma_decode_code(code: Seq<Instruction>)
    requires
        canonical_code(code),
    ensures
        decode_code(code_words(code)) == Some(code),
{
    let ws = code_words(code);
    assert forall|i: int| 0 <= i < ws.len() implies (#[trigger] decode_at(ws, i)) == Some(
        code[i].1,
    ) by {
        let ins = code[i];
        let next = if i + 1 < ws.len() {
            Some(ws[i + 1])
        } else {
            None
        };
        lemma_decode_encode(ins.1, next);
    }
    assert(decode_code(ws)->0 =~= code);
}

/// The code of a prototype is read from the bytes written for it.
pub proof fn lemma_read_code(s: Seq<u8>, pos: int, code: Seq<Instruction>)
    requires
        canonical_code(code),
        code.len() <= u32::MAX,
        stands(
            s,
            pos,
            count_bytes(code.len(), supported_header()) + words_bytes(code_words(code), 4),
        ),
    ensures
        read_code(s, pos, supported_header()) == Some((code, pos + 4 + 4 * code.len())),
        (count_bytes(code.len(), supported_header()) + words_bytes(code_words(code), 4)).len() == 4
            + 4 * code.len(),
{
    let h = supported_header();
    let count = count_bytes(code.len(), h);
    let words = words_bytes(code_words(code), 4);
    lemma_le_bytes_4(code.len() as u32);
    lemma_stands_split(s, pos, count, words);
    lemma_read_int(s, pos, code.len() as u32);
    lemma_read_words(s, pos + 4, code_words(code));
    lemma_decode_code(code);
}

/// What a prototype holds before its nested prototypes.
pub open spec fn head_of(p: ProtoView) -> ChunkHead {
    ChunkHead {
        source: p.source,
        line_defined: p.line_defined,
        last_line_defined: p.last_line_defined,
        nupvals: p.nupvals,
        nparams: p.nparams,
        is_vararg_flag: p.is_vararg_flag,
        max_stack_size: p.max_stack_size,
        instructions: p.instructions,
        constants: p.constants,
    }
}

/// The head of a prototype is read from the bytes written for it.
pub proof fn lemma_read_head(s: Seq<u8>, pos: int, p: ProtoView)
    requires
        head_encodable(p),
        canonical_code(p.instructions),
        stands(s, pos, chunk_head(p, supported_header())),
    ensures
        read_head(s, pos, supported_header()) == Some(
            (head_of(p), pos + chunk_head(p, supported_header()).len()),
        ),
{
    let h = supported_header();
    let name = string_bytes(p.source, 4);
    let first = le_bytes(p.line_defined as nat, 4);
    let last = le_bytes(p.last_line_defined as nat, 4);
    let four = seq![p.nupvals, p.nparams, p.is_vararg_flag, p.max_stack_size];
    let code_count = count_bytes(p.instructions.len(), h);
    let words = words_bytes(code_words(p.instructions), 4);
    let pool_count = count_bytes(p.constants.len(), h);
    let pool = constants_bytes(p.constants, h);
    let a1 = name + first;
    let a2 = a1 + last;
    let a3 = a2 + four;
    let a4 = a3 + code_count;
    let a5 = a4 + words;
    let a6 = a5 + pool_count;
    lemma_le_bytes_4(p.line_defined);
    lemma_le_bytes_4(p.last_line_defined);
    lemma_le_bytes_4(p.instructions.len() as u32);
    lemma_le_bytes_4(p.constants.len() as u32);
    lemma_stands_split(s, pos, a6, pool);
    lemma_stands_split(s, pos, a5, pool_count);
    lemma_stands_split(s, pos, a4, words);
    lemma_stands_split(s, pos, a3, code_count);
    lemma_stands_split(s, pos, a2, four);
    lemma_stands_split(s, pos, a1, last);
    lemma_stands_split(s, pos, name, first);
    lemma_read_string(s, pos, p.source);
    let at1 = pos + name.len();
    lemma_read_int(s, at1, p.line_defined);
    lemma_read_int(s, at1 + 4, p.last_line_defined);
    let at3 = at1 + 8;
    assert(s.subrange(at3, at3 + 4) == four);
    let at4 = at3 + 4;
    assert(stands(s, at4, code_count + words)) by {
        assert(s.subrange(at4, at4 + (code_count + words).len()) =~= code_count + words) by {
            assert forall|i: int| 0 <= i < (code_count + words).len() implies s.subrange(
                at4,
                at4 + (code_count + words).len(),
            )[i] == (code_count + words)[i] by {
                if i < 4 {
                    assert(s.subrange(at4, at4 + 4)[i] == code_count[i]);
                } else {
                    assert(s.subrange(at4 + 4, at4 + 4 + words.len())[i - 4] == words[i - 4]);
                }
            }
        }
    }
    lemma_read_code(s, at4, p.instructions);
    let at5 = at4 + 4 + 4 * p.instructions.len();
    lemma_read_int(s, at5, p.constants.len() as u32);
    lemma_read_constants(s, at5 + 4, p.constants);
}

/// What a prototype that has kept its debug information holds after its
/// nested prototypes.
pub open spec fn tail_of(p: ProtoView) -> ChunkTail {
    ChunkTail { source_lines: p.source_lines->0, locals: p.locals->0, upvals: p.upvals->0 }
}

/// The debug information of a prototype is read from the bytes written
/// for it.
pub proof fn lemma_read_tail(s: Seq<u8>, pos: int, p: ProtoView)
    requires
        tail_encodable(p),
        p.source_lines is Some,
        p.locals is Some,
        p.upvals is Some,
        stands(s, pos, chunk_tail(p, supported_header())),
    ensures
        read_tail(s, pos, supported_header()) == Some(
            (tail_of(p), pos + chunk_tail(p, supported_header()).len()),
        ),
{
    let h = supported_header();
    let lines = p.source_lines->0;
    let locals = p.locals->0;
    let upvals = p.upvals->0;
    let c1 = count_bytes(lines.len(), h);
    let b1 = words_bytes(lines, 4);
    let c2 = count_bytes(locals.len(), h);
    let b2 = locals_bytes(locals, h);
    let c3 = count_bytes(upvals.len(), h);
    let b3 = strings_bytes(upvals, h);
    lemma_le_bytes_4(lines.len() as u32);
    lemma_le_bytes_4(locals.len() as u32);
    lemma_le_bytes_4(upvals.len() as u32);
    lemma_stands_split(s, pos, (c1 + b1) + (c2 + b2), c3 + b3);
    lemma_stands_split(s, pos, c1 + b1, c2 + b2);
    lemma_stands_split(s, pos, c1, b1);
    lemma_read_int(s, pos, lines.len() as u32);
    lemma_read_words(s, pos + 4, lines);
    let at2 = pos + 4 + 4 * lines.len();
    lemma_stands_split(s, at2, c2, b2);
    lemma_read_int(s, at2, locals.len() as u32);
    lemma_read_locals(s, at2 + 4, locals);
    let at4 = at2 + 4 + b2.len();
    lemma_stands_split(s, at4, c3, b3);
    lemma_read_int(s, at4, upvals.len() as u32);
    lemma_read_strings(s, at4 + 4, upvals);
}

/// The prototype `p` is such as a chunk is read to: it can be written, its
/// code is canonical, it has kept its debug information, and the same holds
/// of the prototypes nested in it.
pub open spec fn canonical(p: ProtoView) -> bool
    decreases p,
{
    &&& encodable(p)
    &&& canonical_code(p.instructions)
    &&& p.source_lines is Some
    &&& p.locals is Some
    &&& p.upvals is Some
    &&& all_canonical(p.prototypes, p.prototypes.len())
}

/// Each of the first `n` of the prototypes `ps` is canonical.
pub open spec fn all_canonical(ps: Seq<ProtoView>, n: nat) -> bool
    decreases ps, n,
{
    if n == 0 || n > ps.len() {
        true
    } else {
        all_canonical(ps, (n - 1) as nat) && canonical(ps[n - 1])
    }
}

/// A canonical prototype is read from the bytes written for it.
pub proof fn lemma_read_chunk(s: Seq<u8>, pos: int, p: ProtoView)
    requires
        canonical(p),
        stands(s, pos, chunk_bytes(p, supported_header())),
    ensures
        read_chunk(s, pos, supported_header()) == Some(
            (p, pos + chunk_bytes(p, supported_header()).len()),
        ),
    decreases p,
{
    let h = supported_header();
    let head = chunk_head(p, h);
    let count = count_bytes(p.prototypes.len(), h);
    let nested = chunks_bytes(p.prototypes, p.prototypes.len(), h);
    let tail = chunk_tail(p, h);
    lemma_le_bytes_4(p.prototypes.len() as u32);
    lemma_stands_split(s, pos, head + count + nested, tail);
    lemma_stands_split(s, pos, head + count, nested);
    lemma_stands_split(s, pos, head, count);
    lemma_read_head(s, pos, p);
    let at1 = pos + head.len();
    lemma_read_int(s, at1, p.prototypes.len() as u32);
    let at2 = at1 + 4;
    lemma_read_chunks(s, at2, p.prototypes, p.prototypes.len());
    let at3 = at2 + nested.len();
    lemma_read_tail(s, at3, p);
    lemma_read_chunk_parts(s, pos, h);
    assert(p.prototypes.subrange(0, p.prototypes.len() as int) =~= p.prototypes);
    assert(assemble(head_of(p), p.prototypes, tail_of(p)) == p);
}

/// Canonical prototypes are read from the bytes written for them.
pub proof fn lemma_read_chunks(s: Seq<u8>, pos: int, ps: Seq<ProtoView>, n: nat)
    requires
        n <= ps.len(),
        all_canonical(ps, n),
        stands(s, pos, chunks_bytes(ps, n, supported_header())),
    ensures
        read_chunks(s, pos, n, supported_header()) == Some(
            (ps.subrange(0, n as int), pos + chunks_bytes(ps, n, supported_header()).len()),
        ),
    decreases ps, n,
{
    let h = supported_header();
    if n == 0 {
        lemma_read_chunks_zero(s, pos, h);
        assert(ps.subrange(0, 0) =~= Seq::<ProtoView>::empty());
    } else {
        let front = chunks_bytes(ps, (n - 1) as nat, h);
        let last = chunk_bytes(ps[n - 1], h);
        lemma_stands_split(s, pos, front, last);
        lemma_read_chunks(s, pos, ps, (n - 1) as nat);
        lemma_read_chunk(s, pos + front.len(), ps[n - 1]);
        lemma_read_chunks_more(s, pos, n, h);
        assert(ps.subrange(0, n - 1).push(ps[n - 1]) =~= ps.subrange(0, n as int));
    }
}

/// A chunk written from a canonical prototype, whatever follows it, is
/// read as that prototype under the supported header; so what is read from
/// such a chunk is written as the same bytes again.
pub proof fn lemma_chunk_roundtrip(p: ProtoView, rest: Seq<u8>)
    requires
        canonical(p),
    ensures
        read_bytecode(bytecode_bytes(supported_header(), p) + rest) == Some(
            (supported_header(), p),
        ),
        ({
            let read = read_bytecode(bytecode_bytes(supported_header(), p))->0;
            bytecode_bytes(read.0, read.1) == bytecode_bytes(supported_header(), p)
        }),
{
    let h = supported_header();
    let head = header_bytes(h);
    let body = chunk_bytes(p, h);
    let s = (head + body) + rest;
    assert(s.subrange(0, 12) =~= head);
    assert(s.subrange(12, 12 + body.len() as int) =~= body);
    lemma_read_chunk(s, 12, p);
    let alone = head + body;
    assert(alone.subrange(0, 12) =~= head);
    assert(alone.subrange(12, 12 + body.len() as int) =~= body);
    lemma_read_chunk(alone, 12, p);
}

} // verus!
